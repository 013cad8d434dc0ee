//! What a device is set up with and what it asks for: every value stands where it was meant to stand.

use vstd::prelude::*;
use vstd::string::*;
use vstd::utf8::*;

use crate::activation::selected;
use crate::agreement::{holds, lemma_exchange_takes_all};
use crate::batches::batch_applied;
use crate::config::{
    config_of, stored_text, ConfigError, Environment, LinkSettings, Overrides, RuntimeEndpoint,
};
use crate::crypto::{response_fault, OfferView, PrincipalView};
use crate::dpop::{claim_members, ClaimsView};
use crate::encoding::decodable;
use crate::json::{json_nested, json_object, ScalarView};
use crate::linking::{
    challenge_members, command_read, device_named, identity_members, link_document, proof_document,
    relay_form, relay_of, SyncCommandView,
};
use crate::login::{
    authorize_pairs, client_of, exchange_pairs, issuer_of, request_target, token_account_of,
    value_behind, word_at_start,
};
use crate::model::{OperationView, PayloadView, WholeNumber};
use crate::notebook::{open_scope, Scope};
use crate::origin::{
    mint_answered, session_headers, ticket_answered, ticket_authorized, token_answered, OriginView,
};
use crate::plain::opt_view;
use crate::store::ReplicaView;
use crate::text::{blank, split, trim_start, whitespace};
use crate::weburl::parsed_url;

verus! {

/// A device is set up for the workspace and the environment that were asked for. It is linked exactly
/// where an environment identifier is stored, and then it has the stored endpoint, and the issuer's
/// key and the owner that are stored. What is set for the process counts before what the environment
/// brings along, and the environments listen at ports of their own.
pub proof fn lemma_set_up(
    environment: Environment,
    workspace: Seq<char>,
    settings: LinkSettings,
    stored: Result<RuntimeEndpoint, ConfigError>,
    overrides: Overrides,
)
    ensures
        config_of(environment, workspace, settings, stored, overrides) matches Ok(config) ==> {
            &&& config.environment == environment
            &&& config.workspace == workspace
            &&& config.linked is Some <==> (settings.environment_id matches Ok(Some(_)))
            &&& config.linked matches Some(link) ==> {
                &&& settings.environment_id matches Ok(Some(id)) && id@ == workspace
                &&& stored matches Ok(endpoint) && endpoint@ == config.endpoint
                &&& settings.relay_signing_public_jwk matches Ok(Some(key)) && key@
                    == link.relay_key
                &&& settings.owner_subject matches Ok(Some(owner)) && owner@ == link.owner
                &&& settings.owner_organization matches Ok(organization) && opt_view(organization)
                    == link.organization
            }
            &&& overrides.workos_audience matches Some(audience) ==> !blank(audience@)
                ==> config.workos_audience == audience@
            &&& overrides.workos_issuer matches Some(issuer) ==> !blank(issuer@) ==> parsed_url(
                issuer@,
            ) == Some(config.workos_issuer)
            &&& config.workos_audience.len() > 0
            &&& config.workos_issuer.scheme == "https"@
        },
        forall|other: Environment, apart: Overrides|
            #![trigger config_of(other, workspace, settings, stored, apart)]
            other != environment ==> (config_of(
                environment,
                workspace,
                settings,
                stored,
                overrides,
            ) matches Ok(config) ==> config_of(
                other,
                workspace,
                settings,
                stored,
                apart,
            ) matches Ok(second) ==> config.origin_port != second.origin_port),
{
}

/// The environment that is set for the process counts, then the one that was noted, then production.
/// A name that is set and means none is refused; one that was noted and means none is passed over.
pub proof fn lemma_environment_selected(
    configured: Option<Seq<char>>,
    noted: Option<Seq<char>>,
    environment: Environment,
)
    ensures
        selected(Some(environment.name()), noted) == Some(environment),
        selected(None, Some(environment.name())) == Some(environment),
        selected(None, None) == Some(Environment::Production),
        configured is None ==> selected(configured, noted) is Some,
        configured is Some ==> selected(configured, noted) == selected(configured, None),
{
    crate::config::lemma_environment_round_trip(environment);
}

/// An address that is set is the one that is used, and without one the two environments have
/// addresses of their own.
pub proof fn lemma_addresses_set(environment: Environment, address: Seq<char>)
    ensures
        relay_of(environment, Some(address)) == address,
        issuer_of(environment, Some(address)) == address,
        client_of(environment, Some(address)) == address,
        relay_of(Environment::Staging, None) != relay_of(Environment::Production, None),
        issuer_of(Environment::Staging, None) != issuer_of(Environment::Production, None),
        client_of(Environment::Staging, None) != client_of(Environment::Production, None),
{
    reveal_strlit("https://relay-staging.saudecomalex.com");
    reveal_strlit("https://relay.saudecomalex.com");
    reveal_strlit("https://fashionable-machine-85-staging.authkit.app");
    reveal_strlit("https://brave-mermaid-84.authkit.app");
    reveal_strlit("client_01KZMNQXBXWT2A807NZCE6V2HV");
    reveal_strlit("client_01KZMNK73NWS9NDAPC3T54S2PE");
    assert("https://relay-staging.saudecomalex.com"@.len()
        != "https://relay.saudecomalex.com"@.len());
    assert("https://fashionable-machine-85-staging.authkit.app"@.len()
        != "https://brave-mermaid-84.authkit.app"@.len());
    assert("client_01KZMNQXBXWT2A807NZCE6V2HV"@[13] == 'Q');
    assert("client_01KZMNK73NWS9NDAPC3T54S2PE"@[13] == 'K');
}

/// A relay is reached over HTTPS, at an address that parses, names a host and has neither a query nor
/// a fragment; any such address will do.
pub proof fn lemma_relay_reached(address: Seq<char>)
    ensures
        relay_form(address) is Ok <==> (parsed_url(address) matches Some(url) && url.scheme
            == "https"@ && url.host is Some && url.query is None && url.fragment is None),
        relay_form(address) matches Ok(base) ==> (parsed_url(address) matches Some(url) && base
            == url.whole),
{
}

/// Among the members, the name stands once, and with this value.
pub open spec fn names_once<T>(members: Seq<(Seq<char>, T)>, name: Seq<char>, value: T) -> bool {
    &&& members.contains((name, value))
    &&& forall|i: int|
        0 <= i < members.len() && (#[trigger] members[i]).0 == name ==> members[i].1 == value
}

/// The first request names the environment and the device, each under its own name.
pub proof fn lemma_challenge_asked(environment: Seq<char>, name: Seq<char>)
    ensures
        names_once(
            challenge_members(environment, name),
            "environment_id"@,
            ScalarView::Text(environment),
        ),
        names_once(challenge_members(environment, name), "name"@, ScalarView::Text(name)),
{
    reveal_strlit("environment_id");
    reveal_strlit("name");
    assert("environment_id"@.len() != "name"@.len());
    let members = challenge_members(environment, name);
    assert(members[0].0 == "environment_id"@);
    assert(members[1].0 == "name"@);
}

/// The document names the value under the name, once, beside the key of the environment.
pub open spec fn document_says(
    document: Seq<char>,
    point: Seq<char>,
    name: Seq<char>,
    value: Seq<char>,
) -> bool {
    exists|members: Seq<(Seq<char>, ScalarView)>|
        document == #[trigger] json_nested(
            "environment_public_jwk"@,
            json_object(identity_members(point)),
            members,
        ) && names_once(members, name, ScalarView::Text(value))
}

/// What is signed in answer to a challenge, and what is sent with the signature, name the challenge,
/// the environment, the device and the moment alike.
pub proof fn lemma_challenge_answered(
    point: Seq<char>,
    challenge: Seq<char>,
    challenge_id: Seq<char>,
    environment: Seq<char>,
    moment: Seq<char>,
    name: Seq<char>,
    signature: Seq<char>,
)
    ensures
        ({
            let signed = proof_document(point, challenge, challenge_id, environment, moment, name);
            let sent = link_document(point, challenge_id, environment, name, moment, signature);
            &&& document_says(signed, point, "challenge"@, challenge)
            &&& document_says(signed, point, "challenge_id"@, challenge_id)
            &&& document_says(signed, point, "environment_id"@, environment)
            &&& document_says(signed, point, "issued_at"@, moment)
            &&& document_says(signed, point, "name"@, name)
            &&& document_says(sent, point, "challenge_id"@, challenge_id)
            &&& document_says(sent, point, "environment_id"@, environment)
            &&& document_says(sent, point, "issued_at"@, moment)
            &&& document_says(sent, point, "name"@, name)
            &&& document_says(sent, point, "signature"@, signature)
        }),
        names_once(identity_members(point), "x"@, ScalarView::Text(point)),
        names_once(identity_members(point), "kty"@, ScalarView::Text("OKP"@)),
        names_once(identity_members(point), "crv"@, ScalarView::Text("Ed25519"@)),
{
    reveal_strlit("challenge");
    reveal_strlit("challenge_id");
    reveal_strlit("environment_id");
    reveal_strlit("issued_at");
    reveal_strlit("name");
    reveal_strlit("signature");
    reveal_strlit("x");
    reveal_strlit("kty");
    reveal_strlit("crv");
    assert("challenge"@.len() == 9 && "challenge"@[0] == 'c');
    assert("challenge_id"@.len() == 12);
    assert("environment_id"@.len() == 14);
    assert("issued_at"@.len() == 9 && "issued_at"@[0] == 'i');
    assert("name"@.len() == 4);
    assert("signature"@.len() == 9 && "signature"@[0] == 's');
    assert("x"@.len() == 1);
    assert("kty"@.len() == 3 && "kty"@[0] == 'k');
    assert("crv"@.len() == 3 && "crv"@[0] == 'c');
    let inner = json_object(identity_members(point));
    let signed = seq![
        ("challenge"@, ScalarView::Text(challenge)),
        ("challenge_id"@, ScalarView::Text(challenge_id)),
        ("environment_id"@, ScalarView::Text(environment)),
        ("issued_at"@, ScalarView::Text(moment)),
        ("name"@, ScalarView::Text(name)),
    ];
    let sent = seq![
        ("challenge_id"@, ScalarView::Text(challenge_id)),
        ("environment_id"@, ScalarView::Text(environment)),
        ("name"@, ScalarView::Text(name)),
        ("issued_at"@, ScalarView::Text(moment)),
        ("signature"@, ScalarView::Text(signature)),
    ];
    assert(json_nested("environment_public_jwk"@, inner, signed) == proof_document(
        point,
        challenge,
        challenge_id,
        environment,
        moment,
        name,
    ));
    assert(json_nested("environment_public_jwk"@, inner, sent) == link_document(
        point,
        challenge_id,
        environment,
        name,
        moment,
        signature,
    ));
    assert(signed[0].0 == "challenge"@);
    assert(signed[1].0 == "challenge_id"@);
    assert(signed[2].0 == "environment_id"@);
    assert(signed[3].0 == "issued_at"@);
    assert(signed[4].0 == "name"@);
    assert(sent[0].0 == "challenge_id"@);
    assert(sent[1].0 == "environment_id"@);
    assert(sent[2].0 == "name"@);
    assert(sent[3].0 == "issued_at"@);
    assert(sent[4].0 == "signature"@);
    let key = identity_members(point);
    assert(key[0].0 == "kty"@ && key[1].0 == "crv"@ && key[2].0 == "x"@);
}

/// A proof names the method, the address, the moment, its identifier and the token, each under its
/// own name.
pub proof fn lemma_proof_names(claims: ClaimsView)
    requires
        0 <= claims.issued_at <= u64::MAX,
    ensures
        names_once(claim_members(claims), "htm"@, ScalarView::Text(claims.method)),
        names_once(claim_members(claims), "htu"@, ScalarView::Text(claims.address)),
        names_once(claim_members(claims), "iat"@, ScalarView::Natural(claims.issued_at as u64)),
        names_once(claim_members(claims), "jti"@, ScalarView::Text(claims.identifier)),
        claims.token_hash matches Some(hash) ==> names_once(
            claim_members(claims),
            "ath"@,
            ScalarView::Text(hash),
        ),
{
    reveal_strlit("htm");
    reveal_strlit("htu");
    reveal_strlit("iat");
    reveal_strlit("jti");
    reveal_strlit("ath");
    assert("htm"@[0] == 'h' && "htm"@[2] == 'm');
    assert("htu"@[0] == 'h' && "htu"@[2] == 'u');
    assert("iat"@[0] == 'i');
    assert("jti"@[0] == 'j');
    assert("ath"@[0] == 'a');
    let members = claim_members(claims);
    assert(members[0].0 == "htm"@);
    assert(members[1].0 == "htu"@);
    assert(members[2].0 == "iat"@);
    assert(members[3].0 == "jti"@);
    if claims.token_hash is Some {
        assert(members[4].0 == "ath"@);
    }
}

/// Whoever signs in is sent on with the name of this program, the challenge, the state and the nonce
/// of this attempt, and the code is exchanged together with what the challenge was made of.
pub proof fn lemma_sign_in_asks(
    client: Seq<char>,
    challenge: Seq<char>,
    state: Seq<char>,
    nonce: Seq<char>,
    code: Seq<char>,
    verifier: Seq<char>,
)
    ensures
        ({
            let asked = authorize_pairs(client, challenge, state, nonce);
            &&& names_once(asked, "client_id"@, client)
            &&& names_once(asked, "code_challenge"@, challenge)
            &&& names_once(asked, "code_challenge_method"@, "S256"@)
            &&& names_once(asked, "response_type"@, "code"@)
            &&& names_once(asked, "state"@, state)
            &&& names_once(asked, "nonce"@, nonce)
            &&& names_once(asked, "redirect_uri"@, "http://127.0.0.1:49834/auth/callback"@)
        }),
        ({
            let exchanged = exchange_pairs(client, code, verifier);
            &&& names_once(exchanged, "client_id"@, client)
            &&& names_once(exchanged, "grant_type"@, "authorization_code"@)
            &&& names_once(exchanged, "code"@, code)
            &&& names_once(exchanged, "code_verifier"@, verifier)
            &&& names_once(exchanged, "redirect_uri"@, "http://127.0.0.1:49834/auth/callback"@)
        }),
{
    reveal_strlit("client_id");
    reveal_strlit("redirect_uri");
    reveal_strlit("response_type");
    reveal_strlit("scope");
    reveal_strlit("code_challenge");
    reveal_strlit("code_challenge_method");
    reveal_strlit("state");
    reveal_strlit("nonce");
    reveal_strlit("grant_type");
    reveal_strlit("code");
    reveal_strlit("code_verifier");
    assert("client_id"@.len() == 9);
    assert("redirect_uri"@.len() == 12);
    assert("response_type"@.len() == 13 && "response_type"@[0] == 'r');
    assert("scope"@.len() == 5 && "scope"@[1] == 'c');
    assert("code_challenge"@.len() == 14);
    assert("code_challenge_method"@.len() == 21);
    assert("state"@.len() == 5 && "state"@[1] == 't');
    assert("nonce"@.len() == 5 && "nonce"@[1] == 'o');
    assert("grant_type"@.len() == 10);
    assert("code"@.len() == 4);
    assert("code_verifier"@.len() == 13 && "code_verifier"@[0] == 'c');
    let asked = authorize_pairs(client, challenge, state, nonce);
    assert(asked[0].0 == "client_id"@);
    assert(asked[1].0 == "redirect_uri"@);
    assert(asked[2].0 == "response_type"@);
    assert(asked[3].0 == "scope"@);
    assert(asked[4].0 == "code_challenge"@);
    assert(asked[5].0 == "code_challenge_method"@);
    assert(asked[6].0 == "state"@);
    assert(asked[7].0 == "nonce"@);
    let exchanged = exchange_pairs(client, code, verifier);
    assert(exchanged[0].0 == "client_id"@);
    assert(exchanged[1].0 == "grant_type"@);
    assert(exchanged[2].0 == "code"@);
    assert(exchanged[3].0 == "redirect_uri"@);
    assert(exchanged[4].0 == "code_verifier"@);
}

/// An answer to an offer is accepted exactly where it comes in time, with the token of the offer, from
/// the account of this side, and with a public key.
pub proof fn lemma_answer_accepted(
    offer: OfferView,
    owner: PrincipalView,
    token: Seq<char>,
    key: Seq<char>,
    principal: PrincipalView,
    now_ms: u64,
)
    ensures
        response_fault(offer, owner, token, key, principal, now_ms) is None <==> {
            &&& now_ms <= offer.expires_at_ms
            &&& token == offer.token
            &&& principal == owner
            &&& decodable(key, 32)
        },
{
}

/// The value behind a flag is what follows it, where it stands first and something follows.
pub proof fn lemma_value_behind(arguments: Seq<Seq<char>>, flag: Seq<char>, place: int)
    requires
        0 <= place < arguments.len() - 1,
        arguments[place] == flag,
        forall|i: int| 0 <= i < place ==> #[trigger] arguments[i] != flag,
    ensures
        value_behind(arguments, flag) == Some(arguments[place + 1]),
    decreases place,
{
    if place > 0 {
        assert(arguments[0] != flag);
        let rest = arguments.drop_first();
        assert(rest[place - 1] == flag);
        assert forall|i: int| 0 <= i < place - 1 implies #[trigger] rest[i] != flag by {
            assert(arguments[i + 1] != flag);
        }
        lemma_value_behind(rest, flag, place - 1);
        assert(rest[place] == arguments[place + 1]);
    }
}

/// Where nothing stands behind a flag, it has no value.
pub proof fn lemma_nothing_behind(arguments: Seq<Seq<char>>, flag: Seq<char>)
    requires
        forall|i: int| 0 <= i < arguments.len() - 1 ==> #[trigger] arguments[i] != flag,
    ensures
        value_behind(arguments, flag) is None,
    decreases arguments.len(),
{
    if arguments.len() >= 2 {
        assert(arguments[0] != flag);
        let rest = arguments.drop_first();
        assert forall|i: int| 0 <= i < rest.len() - 1 implies #[trigger] rest[i] != flag by {
            assert(arguments[i + 1] != flag);
        }
        lemma_nothing_behind(rest, flag);
    }
}

/// A command is carried out for the environment that is named behind its flag, and each word asks for
/// its own command. A tunnel is deleted only where that is asked for.
pub proof fn lemma_command_meant(arguments: Seq<Seq<char>>)
    ensures
        command_read(arguments) matches Ok(command) ==> {
            let environment = value_behind(arguments, "--environment"@);
            &&& command matches SyncCommandView::Login(named) ==> arguments[0] == "login"@
                && environment == Some(named)
            &&& command matches SyncCommandView::Link(named, device) ==> arguments[0] == "link"@
                && environment == Some(named) && (value_behind(arguments, "--name"@) matches Some(
                name,
            ) ==> device == name)
            &&& command matches SyncCommandView::Status(named) ==> arguments[0] == "status"@
                && environment == Some(named)
            &&& command matches SyncCommandView::Unlink(named, delete) ==> arguments[0]
                == "unlink"@ && environment == Some(named) && (delete <==> arguments.contains(
                "--delete-tunnel"@,
            ))
        },
        command_read(arguments) is Ok ==> value_behind(arguments, "--environment"@) is Some,
        arguments.len() > 0 && value_behind(arguments, "--environment"@) is Some && (arguments[0]
            == "login"@ || arguments[0] == "link"@ || arguments[0] == "status"@ || arguments[0]
            == "unlink"@) ==> command_read(arguments) is Ok,
{
}

/// The headers of a session give the token behind the word and the proof beside it.
pub proof fn lemma_headers_read(token: Seq<char>, proof_text: Seq<char>)
    requires
        token.len() > 0,
        !token.contains('\n'),
        !token.contains('\r'),
        proof_text.len() > 0,
    ensures
        session_headers(Some("DPoP "@ + token), Some(proof_text)) == Some((token, proof_text)),
        session_headers(Some("DPoP "@ + token), None) is None,
        session_headers(None, Some(proof_text)) is None,
{
    reveal_strlit("DPoP ");
    let value = "DPoP "@ + token;
    assert("DPoP "@.len() == 5);
    assert(value.skip(5) =~= token);
    assert(value.take(5) =~= "DPoP "@);
}

/// Sessions are opened for the owner alone: whoever is given a token or a ticket, or comes in with
/// one, is the owner of this device. A device without sessions opens none. Where no token comes along
/// nothing is opened and no session is touched, and a statement that comes with the credentials of a
/// session is not even counted.
pub proof fn lemma_sessions_for_owner(
    state: OriginView,
    authorization: Option<Seq<char>>,
    dpop: Option<Seq<char>>,
    client: Seq<char>,
    given: Seq<char>,
    statement: Seq<char>,
    now: u64,
    now_ms: u64,
)
    ensures
        token_answered(state, authorization, dpop, client, given, now, now_ms).1 matches Ok(
            principal,
        ) ==> principal == state.owner && state.direct is Some,
        ticket_answered(state, authorization, dpop, client, given, now, now_ms).1 matches Ok(
            principal,
        ) ==> principal == state.owner && state.direct is Some,
        ticket_authorized(state, given, client, now, now_ms).1 matches Ok(principal) ==> principal
            == state.owner && state.direct is Some,
        mint_answered(state, false, statement, client, given, now, now_ms).1 is Ok
            ==> state.direct is Some,
        authorization is None || dpop is None ==> {
            let (token, answer) = token_answered(
                state,
                authorization,
                dpop,
                client,
                given,
                now,
                now_ms,
            );
            let (ticket, told) = ticket_answered(
                state,
                authorization,
                dpop,
                client,
                given,
                now,
                now_ms,
            );
            answer is Err && told is Err && token.direct == state.direct && ticket.direct
                == state.direct
        },
        mint_answered(state, true, statement, client, given, now, now_ms).0 == state,
        mint_answered(state, true, statement, client, given, now, now_ms).1 is Err,
        token_answered(state, authorization, dpop, client, given, now, now_ms).0.owner
            == state.owner,
        ticket_answered(state, authorization, dpop, client, given, now, now_ms).0.owner
            == state.owner,
        ticket_authorized(state, given, client, now, now_ms).0.owner == state.owner,
        mint_answered(state, false, statement, client, given, now, now_ms).0.owner == state.owner,
{
}

/// What a batch brings is held afterwards, and nothing else comes in with it.
pub proof fn lemma_batch_takes_all(
    state: ReplicaView,
    actor: Seq<char>,
    first: u64,
    last: u64,
    payload: PayloadView,
    sizes: Seq<usize>,
    now: WholeNumber,
)
    ensures
        batch_applied(state, actor, first, last, payload, sizes, now) matches Ok(after) ==> {
            &&& forall|operation: OperationView| #[trigger]
                holds(after.log, operation) <==> holds(state.log, operation)
                    || payload.operations.contains(operation)
            &&& payload.operations.len() > 0
            &&& payload.operations[0].dot.counter == first
            &&& payload.operations[payload.operations.len() - 1].dot.counter == last
        },
{
    lemma_exchange_takes_all(
        state,
        actor,
        PayloadView { frontier: Map::empty(), ..payload },
        sizes,
        now,
    );
}

/// Each list is shown in a scope of its own, and the inbox where none is open.
pub proof fn lemma_scopes_apart(one: Option<i64>, other: Option<i64>)
    ensures
        open_scope(one) == open_scope(other) <==> one == other,
        open_scope(one) == Scope::Inbox <==> one is None,
{
}

/// Tokens of two environments, or of two kinds, are kept under names of their own.
pub proof fn lemma_tokens_apart(
    environment: Seq<char>,
    other: Seq<char>,
    kind: Seq<char>,
    another: Seq<char>,
)
    ensures
        token_account_of(environment, kind) == token_account_of(environment, another) ==> kind
            == another,
        token_account_of(environment, kind) == token_account_of(other, kind) ==> environment
            == other,
{
    reveal_strlit("workos:");
    reveal_strlit(":");
    let n = "workos:"@.len() as int;
    let m = ":"@.len() as int;
    let a = token_account_of(environment, kind);
    let b = token_account_of(environment, another);
    let c = token_account_of(other, kind);
    let e = environment.len() as int;
    assert(a.skip(n + e + m) =~= kind);
    assert(b.skip(n + e + m) =~= another);
    if a == c {
        assert(a.len() == n + e + m + kind.len());
        assert(c.len() == n + other.len() + m + kind.len());
        assert(a.subrange(n, n + e) =~= environment);
        assert(c.subrange(n, n + e) =~= other);
    }
}

proof fn lemma_first_piece(text: Seq<char>, character: char, k: int)
    requires
        0 <= k <= text.len(),
        !text.take(k).contains(character),
    ensures
        split(text, character).len() > 0,
        split(text, character)[0].len() >= k,
        split(text, character)[0].take(k) == text.take(k),
    decreases text.len(),
{
    let at = crate::text::last_place(text, character);
    crate::text::lemma_last_place(text, character);
    if at >= 0 {
        if at < k {
            assert(text.take(k)[at] == character);
        }
        assert(text.take(at).take(k) =~= text.take(k));
        lemma_first_piece(text.take(at), character, k);
    }
}

proof fn lemma_first_word(word: Seq<char>, rest: Seq<char>)
    requires
        forall|i: int| 0 <= i < word.len() ==> !whitespace(#[trigger] word[i]),
        rest.len() > 0,
        whitespace(rest[0]),
    ensures
        word_at_start(word + rest) == word,
    decreases word.len(),
{
    let whole = word + rest;
    if word.len() > 0 {
        assert(!whitespace(word[0]));
        let behind = word.drop_first();
        assert forall|i: int| 0 <= i < behind.len() implies !whitespace(#[trigger] behind[i]) by {
            assert(!whitespace(word[i + 1]));
        }
        lemma_first_word(behind, rest);
        assert(whole.drop_first() =~= behind + rest);
        assert(seq![word[0]] + behind =~= word);
    }
}

/// What a request asks for is the word behind the method, whatever follows it; only a request that
/// reads asks for anything.
pub proof fn lemma_target_read(target: Seq<char>, rest: Seq<char>, request: Seq<char>)
    requires
        target.len() > 0,
        forall|i: int| 0 <= i < target.len() ==> !whitespace(#[trigger] target[i]),
    ensures
        request_target("GET "@ + target + " "@ + rest) == Some(target),
        request_target(request) is Some ==> request.len() >= 4 && request.take(4) == "GET "@,
{
    reveal_strlit("GET ");
    reveal_strlit(" ");
    let whole = "GET "@ + target + " "@ + rest;
    let n = target.len() as int;
    let start = whole.take(n + 5);
    assert(start =~= "GET "@ + target + " "@);
    assert(!start.contains('\n')) by {
        if start.contains('\n') {
            let i = choose|i: int| 0 <= i < start.len() && start[i] == '\n';
            if 4 <= i < n + 4 {
                assert(target[i - 4] == '\n');
            }
        }
    }
    lemma_first_piece(whole, '\n', n + 5);
    let line = split(whole, '\n')[0];
    assert(line.take(n + 5) =~= "GET "@ + target + " "@);
    assert forall|i: int| 0 <= i < n + 5 implies #[trigger] line[i] == start[i] by {
        assert(line.take(n + 5)[i] == line[i]);
    }
    assert(line.take(4) =~= "GET "@);
    let behind = line.skip(4);
    let after = behind.skip(n);
    assert(behind =~= target + after);
    assert(after[0] == line[n + 4]);
    assert(after[0] == ' ');
    assert(!whitespace(target[0]));
    assert(trim_start(behind) == behind);
    lemma_first_word(target, after);
    if request_target(request) is Some {
        lemma_line_begins(request, '\n');
        let own = split(request, '\n')[0];
        assert(own.take(4) =~= request.take(4));
    }
}

proof fn lemma_line_begins(text: Seq<char>, character: char)
    ensures
        split(text, character).len() > 0,
        split(text, character)[0].len() <= text.len(),
        split(text, character)[0] == text.take(split(text, character)[0].len() as int),
    decreases text.len(),
{
    let at = crate::text::last_place(text, character);
    crate::text::lemma_last_place(text, character);
    if at >= 0 {
        lemma_line_begins(text.take(at), character);
        let n = split(text.take(at), character)[0].len() as int;
        assert(text.take(at).take(n) =~= text.take(n));
    } else {
        assert(text.take(text.len() as int) =~= text);
    }
}

/// A secret that was stored as a text is read as that text, where it is one line and not blank, and
/// not at all otherwise.
pub proof fn lemma_stored_read(text: Seq<char>)
    ensures
        blank(text) || text.contains('\n') || text.contains('\r') <==> stored_text(
            encode_utf8(text),
        ) is None,
        stored_text(encode_utf8(text)) matches Some(read) ==> read == text,
{
    encode_utf8_valid_utf8(text);
    encode_utf8_decode_utf8(text);
}

/// A device can have any name of at most 120 bytes without control characters, but not an empty one.
pub proof fn lemma_device_named(name: Seq<char>)
    ensures
        device_named(name) <==> {
            &&& 0 < name.len()
            &&& encode_utf8(name).len() <= 120
            &&& forall|i: int|
                0 <= i < name.len() ==> 31 < (#[trigger] name[i]) as u32 && !(127 <= name[i] as u32
                    <= 159)
        },
{
    if device_named(name) {
        assert forall|i: int| 0 <= i < name.len() implies 31 < (#[trigger] name[i]) as u32 && !(127
            <= name[i] as u32 <= 159) by {
            assert(!crate::linking::control(name[i]));
        }
    }
}

} // verus!
