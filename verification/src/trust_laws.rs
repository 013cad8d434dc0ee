//! What is trusted, and on what grounds: what was signed, for whom, about what and until when.

use vstd::prelude::*;
use vstd::string::*;

use crate::auth::{access_verdict, rs256_accepted, verify_outcome, StepView, WorkOsView};
use crate::config::{endpoint_address, endpoint_fault, Environment};
use crate::crypto::PrincipalView;
use crate::dpop::{
    address_form, claims_fit, claims_read, es256_accepted, method_form, proof_read, proof_verdict,
    token_header, ClaimsView, KeyView, TokenAlgorithm, VerifiedView,
};
use crate::encoding::{decodable, decoded};
use crate::ids::uuid_text;
use crate::json::{json_field, json_member, MemberView};
use crate::linking::{answer_fault, AllocationView};
use crate::login::{
    claims_fault, id_verdict, last_value, query_verdict, signed_claims, token_verdict,
    CallbackFault, Surface, TokenClaimsView,
};
use crate::relay::{
    eddsa_accepted, endpoint_form, mint_audience, mint_read, mint_signed, mint_verdict,
    EndpointView, MintView, VerifierView,
};
use crate::sessions::{
    authorized, bootstrap_exchanged, minted, rfc3339, ticket_consumed, SessionView,
    ACCESS_TOKEN_TTL_SECONDS, BOOTSTRAP_TTL_SECONDS,
};
use crate::signing::{token_hash_of, token_shaped};
use crate::text::{ascii_lowercase, split, without_trailing};
use crate::weburl::{parsed_url, UrlView};

verus! {

/// A statement of the relay says what its document says, name by name.
pub proof fn lemma_mint_read(document: Seq<u8>)
    ensures
        mint_read(document) matches Some(claims) ==> {
            &&& json_member(document, "iss"@) == MemberView::Text(claims.issuer)
            &&& json_member(document, "aud"@) == MemberView::Text(claims.audience)
            &&& json_member(document, "sub"@) == MemberView::Text(claims.owner.subject)
            &&& claims.owner.organization matches Some(organization) ==> json_member(
                document,
                "org_id"@,
            ) == MemberView::Text(organization)
            &&& json_member(document, "environment_id"@) == MemberView::Text(claims.environment)
            &&& json_member(document, "client_jkt"@) == MemberView::Text(claims.client_key)
            &&& json_member(document, "client_nonce"@) == MemberView::Text(claims.client_nonce)
            &&& json_member(document, "generation"@) == MemberView::Natural(claims.generation)
            &&& json_member(document, "jti"@) == MemberView::Text(claims.identifier)
            &&& json_member(document, "iat"@) == MemberView::Natural(claims.issued_at)
            &&& json_member(document, "exp"@) == MemberView::Natural(claims.expires_at)
        },
{
}

/// A proof of the relay counts exactly where the relay has signed it with its key, for this
/// environment, and what it states is about this environment, this owner and this endpoint, names a
/// key and a nonce of the client, has an identifier and a generation, and is not over for more than a
/// minute.
pub proof fn lemma_mint_counts(
    verifier: VerifierView,
    proof: Seq<char>,
    owner: PrincipalView,
    endpoint: EndpointView,
    now: u64,
)
    ensures
        mint_verdict(verifier, proof, owner, endpoint, now) matches Some(claims) ==> {
            &&& token_header(proof) matches Some(header) && header.algorithm
                == TokenAlgorithm::EdDsa
            &&& eddsa_accepted(
                proof,
                verifier.key,
                verifier.issuer,
                mint_audience(verifier.environment),
                seq!["exp"@, "iat"@, "iss"@, "aud"@, "sub"@],
            )
            &&& decoded(split(proof, '.')[1]) matches Some(document) && mint_read(document) == Some(
                claims,
            )
            &&& claims.environment == verifier.environment
            &&& claims.owner.subject == owner.subject
            &&& claims.owner.organization == owner.organization
            &&& endpoint_form(claims.endpoint) is Some && endpoint_form(claims.endpoint)
                == endpoint_form(endpoint)
            &&& decodable(claims.client_key, 32) && decodable(claims.client_nonce, 32)
            &&& uuid_text(claims.identifier)
            &&& claims.generation > 0
            &&& now <= claims.expires_at + 60
        },
        mint_signed(verifier, proof) matches Some(claims) && claims.environment
            == verifier.environment && claims.owner == owner && endpoint_form(claims.endpoint) is Some
            && endpoint_form(claims.endpoint) == endpoint_form(endpoint) && decodable(
            claims.client_key,
            32,
        ) && decodable(claims.client_nonce, 32) && uuid_text(claims.identifier)
            && claims.generation > 0 && now <= claims.expires_at + 60 ==> mint_verdict(
            verifier,
            proof,
            owner,
            endpoint,
            now,
        ) is Some,
{
}

/// An endpoint is one host: the web and the socket address of an endpoint in canonical form are
/// addresses of the same host.
pub proof fn lemma_endpoint_is_one_host(endpoint: EndpointView)
    ensures
        endpoint_form(endpoint) matches Some(form) ==> (parsed_url(form.http) matches Some(web) && (
        parsed_url(form.ws) matches Some(socket) && web.host == socket.host)),
{
}

/// An access token counts exactly where a key of the issuer has signed it for this program, it names
/// somebody, and it is not over for more than a minute. It speaks for the account that its document
/// names.
pub proof fn lemma_access_counts(
    token: Seq<char>,
    keys: Seq<char>,
    key_id: Seq<char>,
    issuer: Seq<char>,
    audience: Seq<char>,
    now: u64,
)
    ensures
        access_verdict(token, keys, key_id, issuer, audience, now) matches Some(claims) ==> {
            &&& rs256_accepted(
                token,
                keys,
                key_id,
                issuer,
                Some(audience),
                seq!["exp"@, "iss"@, "sub"@, "aud"@],
            )
            &&& decoded(split(token, '.')[1]) matches Some(document) && {
                &&& json_member(document, "sub"@) == MemberView::Text(claims.owner.subject)
                &&& json_member(document, "exp"@) == MemberView::Natural(claims.expires_at)
                &&& claims.owner.organization matches Some(organization) ==> json_member(
                    document,
                    "org_id"@,
                ) == MemberView::Text(organization)
            }
            &&& claims.owner.subject.len() > 0
            &&& now <= claims.expires_at + 60
        },
{
}

/// A token that is found good is one that was found good a short while ago and is not over, or one
/// that counts now by the keys of the issuer. It is the account of that token.
pub proof fn lemma_verified_counts(
    state: WorkOsView,
    token: Seq<char>,
    forced: bool,
    now: u64,
    now_ms: u64,
)
    ensures
        verify_outcome(state, token, forced, now, now_ms).1 matches Ok(StepView::Verified(principal))
            ==> {
            let hash = token_hash_of(token);
            ||| state.known.contains_key(hash) && state.known[hash].principal == principal
                && state.known[hash].expires_at > now && now_ms < state.known[hash].cached_at_ms
                + 300_000
            ||| state.keys matches Some((fetched, keys)) && (forced || now_ms < fetched + 900_000)
                && exists|key_id: Seq<char>|
                (#[trigger] access_verdict(
                    token,
                    keys,
                    key_id,
                    state.issuer,
                    state.client,
                    now,
                ) matches Some(claims) && claims.owner == principal)
        },
{
    if let Ok(StepView::Verified(principal)) = verify_outcome(
        state,
        token,
        forced,
        now,
        now_ms,
    ).1 {
        let hash = token_hash_of(token);
        if crate::auth::remembered_principal(state, token, now, now_ms) is None {
            let header = token_header(token)->0;
            let (fetched, keys) = state.keys->0;
            let key_id = header.key_id->0;
            assert(access_verdict(token, keys, key_id, state.issuer, state.client, now) is Some);
        }
    }
}

/// The claims of a proof are what its document says, name by name.
pub proof fn lemma_proof_claims(document: Seq<u8>)
    ensures
        claims_read(document) matches Some(claims) ==> {
            &&& json_field(document, "htm"@, 0, 5) == MemberView::Text(claims.method)
            &&& json_field(document, "htu"@, 1, 5) == MemberView::Text(claims.address)
            &&& json_field(document, "jti"@, 3, 5) == MemberView::Text(claims.identifier)
            &&& match json_field(document, "iat"@, 2, 5) {
                MemberView::Natural(moment) => moment == claims.issued_at,
                MemberView::Negative(moment) => moment == claims.issued_at,
                _ => false,
            }
            &&& claims.token_hash matches Some(hash) ==> json_field(document, "ath"@, 4, 5)
                == MemberView::Text(hash)
        },
{
}

/// A proof of possession counts exactly where its own key has signed it, and its claims name the
/// method and the address of the request, the access token that comes with it, if one does, a fresh
/// identifier, and a moment no more than five minutes away.
pub proof fn lemma_proof_counts(
    proof: Seq<char>,
    method: Seq<char>,
    address: Seq<char>,
    token: Option<Seq<char>>,
    now: u64,
)
    ensures
        proof_verdict(proof, method, address, token, now) matches Some(shown) ==> exists|
            x: Seq<char>,
            y: Seq<char>,
            claims: ClaimsView,
        |
            #![trigger es256_accepted(proof, x, y), claims_fit(claims, method, address, token, now)]
            {
                &&& token_header(proof) matches Some(header) && header.algorithm
                    == TokenAlgorithm::Es256 && header.kind == Some("dpop+jwt"@) && header.key == (
                KeyView::P256 { x, y })
                &&& es256_accepted(proof, x, y)
                &&& claims_fit(claims, method, address, token, now)
                &&& decoded(split(proof, '.')[1]) matches Some(document) && claims_read(document)
                    == Some(claims)
                &&& method_form(method) == Some(claims.method)
                &&& address_form(address) == Some(claims.address)
                &&& now <= claims.issued_at + 300
                &&& claims.issued_at <= now + 300
                &&& uuid_text(claims.identifier)
                &&& token matches Some(text) ==> claims.token_hash == Some(token_hash_of(text))
                &&& token is None ==> claims.token_hash is None
                &&& shown.thumbprint == crate::dpop::thumbprint_of(x, y)
                &&& shown.identifier == claims.identifier
                &&& shown.issued_at == claims.issued_at
            },
{
    if let Some(shown) = proof_verdict(proof, method, address, token, now) {
        let (x, y, claims) = proof_read(proof)->0;
        assert(es256_accepted(proof, x, y));
        assert(claims_fit(claims, method, address, token, now));
    }
}

/// The last value of a name is what a query says of it.
proof fn lemma_last_value(pairs: Seq<(Seq<char>, Seq<char>)>, name: Seq<char>)
    ensures
        match last_value(pairs, name) {
            Some(value) => pairs.contains((name, value)),
            None => forall|i: int| 0 <= i < pairs.len() ==> (#[trigger] pairs[i]).0 != name,
        },
    decreases pairs.len(),
{
    if pairs.len() > 0 {
        let front = pairs.drop_last();
        let n = pairs.len() - 1;
        lemma_last_value(front, name);
        assert(pairs[n] == pairs.last());
        match last_value(pairs, name) {
            Some(value) => {
                if pairs.last().0 != name {
                    assert(pairs[front.index_of((name, value))] == (name, value));
                }
            },
            None => {
                assert forall|i: int| 0 <= i < pairs.len() implies (#[trigger] pairs[i]).0
                    != name by {
                    if i < n {
                        assert(front[i] == pairs[i]);
                    }
                }
            },
        }
    }
}

/// A callback brings a code exactly where it reports no error, carries the state that was sent and
/// names a code that is not empty; the code is one that it names.
pub proof fn lemma_callback_counts(
    pairs: Seq<(Seq<char>, Seq<char>)>,
    expected_state: Seq<char>,
)
    ensures
        match query_verdict(pairs, expected_state) {
            Ok(code) => {
                &&& pairs.contains(("code"@, code)) && code.len() > 0
                &&& pairs.contains(("state"@, expected_state))
                &&& forall|i: int| 0 <= i < pairs.len() ==> (#[trigger] pairs[i]).0 != "error"@
            },
            Err(CallbackFault::Denied(reason)) => pairs.contains(("error"@, reason)),
            Err(CallbackFault::MissingState) => forall|i: int|
                0 <= i < pairs.len() ==> (#[trigger] pairs[i]).0 != "state"@,
            Err(CallbackFault::StateMismatch) => exists|state: Seq<char>|
                state != expected_state && #[trigger] pairs.contains(("state"@, state)),
            Err(_) => true,
        },
        forall|code: Seq<char>|
            pairs == seq![("code"@, code), ("state"@, expected_state)] && code.len() > 0
                ==> #[trigger] query_verdict(pairs, expected_state) == Ok::<
                Seq<char>,
                CallbackFault,
            >(code),
{
    lemma_last_value(pairs, "error"@);
    lemma_last_value(pairs, "state"@);
    lemma_last_value(pairs, "code"@);
    reveal_strlit("code");
    reveal_strlit("state");
    reveal_strlit("error");
    assert("code"@.len() == 4);
    assert("state"@[0] == 's');
    assert("error"@[0] == 'e');
    if let Err(CallbackFault::StateMismatch) = query_verdict(pairs, expected_state) {
        assert(pairs.contains(("state"@, last_value(pairs, "state"@)->0)));
    }
    assert forall|code: Seq<char>|
        pairs == seq![("code"@, code), ("state"@, expected_state)] && code.len()
            > 0 implies #[trigger] query_verdict(pairs, expected_state) == Ok::<
        Seq<char>,
        CallbackFault,
    >(code) by {
        assert(pairs[0] == ("code"@, code));
        assert(pairs[1] == ("state"@, expected_state));
        assert(last_value(pairs, "state"@) == Some(expected_state));
        assert(last_value(pairs.drop_last(), "code"@) == Some(code));
    }
}

/// A token that answers a sign-in counts only where a key of the issuer has signed it, it is for this
/// program and carries the nonce that was sent, and it is not over; any other only where it names this
/// program as its client.
pub proof fn lemma_token_counts(
    issuer: Seq<char>,
    client: Seq<char>,
    token: Seq<char>,
    keys: Seq<char>,
    expected_nonce: Option<Seq<char>>,
    now: u64,
    current: bool,
)
    ensures
        token_verdict(issuer, client, token, keys, expected_nonce, now, current) matches Ok(claims)
            ==> {
            &&& signed_claims(
                issuer,
                None,
                seq!["exp"@, "iss"@, "sub"@],
                token,
                keys,
            ) matches Ok(document) && {
                &&& json_member(document, "sub"@) == MemberView::Text(claims.subject)
                &&& json_member(document, "exp"@) matches MemberView::Natural(expires_at) ==> now
                    <= expires_at + 60
                &&& !(json_member(document, "exp"@) is Natural) ==> current
                &&& claims.nonce matches Some(nonce) ==> json_member(document, "nonce"@)
                    == MemberView::Text(nonce)
                &&& claims.client matches Some(name) ==> json_member(document, "client_id"@)
                    == MemberView::Text(name)
            }
            &&& expected_nonce matches Some(nonce) ==> claims.nonce == Some(nonce) && (
            claims.audience matches Some(names) && names.contains(client))
            &&& expected_nonce is None ==> claims.client == Some(client)
        },
        claims_fault(
            TokenClaimsView {
                subject: token,
                nonce: expected_nonce,
                organization: None,
                audience: Some(seq![client]),
                client: Some(client),
            },
            client,
            expected_nonce,
        ) is None,
{
    assert(seq![client][0] == client);
    assert(seq![client].contains(client));
}

/// A sign-in in the window names somebody only by a token that a key of the issuer has signed for
/// this program, with the nonce that was sent, and that is not over.
pub proof fn lemma_sign_in_counts(
    issuer: Seq<char>,
    client: Seq<char>,
    token: Seq<char>,
    keys: Seq<char>,
    expected_nonce: Seq<char>,
    now: u64,
    current: bool,
)
    ensures
        id_verdict(issuer, client, token, keys, expected_nonce, now, current) matches Ok(subject)
            ==> {
            &&& subject.len() > 0
            &&& signed_claims(
                issuer,
                Some(client),
                seq!["exp"@, "iss"@, "aud"@, "sub"@],
                token,
                keys,
            ) matches Ok(document) && {
                &&& json_member(document, "sub"@) == MemberView::Text(subject)
                &&& json_member(document, "nonce"@) == MemberView::Text(expected_nonce)
                &&& json_member(document, "exp"@) matches MemberView::Natural(expires_at) ==> now
                    <= expires_at + 60
            }
        },
{
}

/// An access token opens the way exactly for the holder of the key that it was made for, until it is
/// over; the account is the one that it was made for.
pub proof fn lemma_access_token_binds(
    state: SessionView,
    token: Seq<char>,
    verified: Option<VerifiedView>,
    now: u64,
)
    ensures
        authorized(state, token, verified, now).1 matches Ok(principal) ==> {
            let key = token_hash_of(token);
            &&& state.access_tokens.contains_key(key)
            &&& state.access_tokens[key].expires_at > now
            &&& state.access_tokens[key].principal == principal
            &&& verified matches Some(shown) && shown.thumbprint
                == state.access_tokens[key].client_key && !(state.dpop_proofs.contains_key(
                shown.identifier,
            ) && state.dpop_proofs[shown.identifier] > now)
        },
        token_shaped(token) && state.access_tokens.contains_key(token_hash_of(token))
            && state.access_tokens[token_hash_of(token)].expires_at > now && (verified matches Some(
            shown,
        ) && shown.thumbprint == state.access_tokens[token_hash_of(token)].client_key
            && !state.dpop_proofs.contains_key(shown.identifier)) ==> authorized(
            state,
            token,
            verified,
            now,
        ).1 is Ok,
{
}

/// A credential is exchanged exactly for the holder of the key that it was made for, until it is
/// over. The access token that comes of it is for the same account and the same key, and lasts as
/// long as access tokens do.
pub proof fn lemma_credential_binds(
    state: SessionView,
    credential: Seq<char>,
    verified: Option<VerifiedView>,
    access_token: Seq<char>,
    now: u64,
)
    requires
        now <= u64::MAX - 1_000_000,
    ensures
        bootstrap_exchanged(state, credential, verified, access_token, now).1 matches Ok(principal)
            ==> {
            let key = token_hash_of(credential);
            let after = bootstrap_exchanged(state, credential, verified, access_token, now).0;
            let made = after.access_tokens[token_hash_of(access_token)];
            &&& state.bootstraps.contains_key(key)
            &&& state.bootstraps[key].expires_at > now
            &&& state.bootstraps[key].principal == principal
            &&& verified matches Some(shown) && shown.thumbprint
                == state.bootstraps[key].client_key
            &&& after.access_tokens.contains_key(token_hash_of(access_token))
            &&& made.principal == principal
            &&& made.client_key == state.bootstraps[key].client_key
            &&& made.expires_at == now + ACCESS_TOKEN_TTL_SECONDS
            &&& !after.bootstraps.contains_key(key)
        },
{
}

/// A ticket opens a socket for the account that it was issued to, once, until it is over.
pub proof fn lemma_ticket_binds(state: SessionView, ticket: Seq<char>, now: u64)
    ensures
        ticket_consumed(state, ticket, now).1 matches Ok(principal) ==> {
            let key = token_hash_of(ticket);
            &&& state.tickets.contains_key(key)
            &&& state.tickets[key].expires_at > now
            &&& state.tickets[key].principal == principal
            &&& !ticket_consumed(state, ticket, now).0.tickets.contains_key(key)
        },
        token_shaped(ticket) && state.tickets.contains_key(token_hash_of(ticket))
            && state.tickets[token_hash_of(ticket)].expires_at > now ==> ticket_consumed(
            state,
            ticket,
            now,
        ).1 is Ok,
{
}

/// What the relay is answered is what it asked for: the environment, the key and the nonce of its
/// statement, and a credential that holds for that key and for the owner.
pub proof fn lemma_mint_answers(
    state: SessionView,
    claims: MintView,
    identity: Seq<u8>,
    owner: PrincipalView,
    credential: Seq<char>,
    now: u64,
)
    requires
        now <= u64::MAX - 1_000_000,
    ensures
        minted(state, claims, identity, owner, credential, now).1 matches Ok(answer) ==> {
            let after = minted(state, claims, identity, owner, credential, now).0;
            let record = after.bootstraps[token_hash_of(credential)];
            &&& answer.environment == claims.environment
            &&& answer.credential == credential
            &&& answer.client_key == claims.client_key
            &&& answer.client_nonce == claims.client_nonce
            &&& after.bootstraps.contains_key(token_hash_of(credential))
            &&& record.principal == owner
            &&& record.client_key == claims.client_key
            &&& record.expires_at == now + BOOTSTRAP_TTL_SECONDS
            &&& Some(answer.expires_at) == rfc3339(record.expires_at)
            &&& !(state.relay_proofs.contains_key(claims.identifier)
                && state.relay_proofs[claims.identifier] > now)
        },
{
}

/// An address that is no more than an origin: of the scheme, without credentials, a path, a query and
/// a fragment.
pub open spec fn plain_origin(url: UrlView, scheme: Seq<char>) -> bool {
    &&& url.scheme == scheme
    &&& url.username.len() == 0 && url.password is None
    &&& url.query is None && url.fragment is None
    &&& url.path == "/"@ || url.path.len() == 0
}

/// A host is a domain or lies below it.
pub open spec fn below(host: Seq<char>, domain: Seq<char>) -> bool {
    host == domain || exists|name: Seq<char>| #[trigger] (name + seq!['.'] + domain) == host
}

proof fn lemma_host_below(host: Seq<char>, domain: Seq<char>)
    ensures
        crate::config::host_under(host, domain) <==> below(host, domain),
{
    reveal_strlit(".");
    assert("."@ =~= seq!['.']);
    let tail = "."@ + domain;
    if crate::config::host_under(host, domain) && host != domain {
        let name = host.take(host.len() - tail.len());
        assert(host =~= name + tail);
        assert(name + tail =~= name + seq!['.'] + domain);
        assert((name + seq!['.'] + domain) == host);
    }
    if below(host, domain) && host != domain {
        let name = choose|name: Seq<char>| #[trigger] (name + seq!['.'] + domain) == host;
        assert(host.skip(host.len() - tail.len()) =~= tail);
    }
}

/// An answer of the relay to a link is trusted only where all of it is about this environment, both
/// addresses are plain origins of one host below the domain of the environment, there is a tunnel with
/// a token, and the key is one for signatures.
pub proof fn lemma_answer_trusted(
    surface: Surface,
    suffix: Seq<char>,
    expected: Seq<char>,
    answer: AllocationView,
    http: Option<UrlView>,
    ws: Option<UrlView>,
)
    ensures
        answer_fault(surface, suffix, expected, answer, http, ws) is None ==> {
            &&& answer.id == expected && answer.environment == expected && answer.workspace
                == expected
            &&& answer.listed_endpoint == answer.endpoint
            &&& answer.listed_host == answer.tunnel_host
            &&& answer.tunnel.len() > 0 && answer.connector_token.len() > 0
            &&& answer.key.kind == "OKP"@ && answer.key.curve == "Ed25519"@
                && answer.key.point.len() > 0
            &&& http matches Some(web) && ws matches Some(socket) && web.host matches Some(host) && {
                &&& socket.host == Some(host)
                &&& plain_origin(web, "https"@)
                &&& plain_origin(socket, "wss"@)
                &&& below(ascii_lowercase(host), ascii_lowercase(suffix))
            }
        },
{
    if let Some(web) = http {
        if let Some(host) = web.host {
            lemma_host_below(ascii_lowercase(host), ascii_lowercase(suffix));
        }
    }
}

/// An endpoint that a device uses is one host below the domain of its environment, reached by plain
/// origins, and its addresses are in canonical form but for a slash at the end.
pub proof fn lemma_endpoint_trusted(environment: Environment, endpoint: crate::config::EndpointView)
    ensures
        endpoint_fault(
            environment,
            endpoint,
            endpoint_address(parsed_url(endpoint.http), "https"@),
            endpoint_address(parsed_url(endpoint.ws), "wss"@),
        ) is None ==> (parsed_url(endpoint.http) matches Some(web) && parsed_url(
            endpoint.ws,
        ) matches Some(socket) && web.host matches Some(host) && {
            &&& socket.host == Some(host)
            &&& web.scheme == "https"@ && socket.scheme == "wss"@
            &&& below(host, environment.suffix())
            &&& without_trailing(endpoint.http, '/') == without_trailing(web.whole, '/')
            &&& without_trailing(endpoint.ws, '/') == without_trailing(socket.whole, '/')
        }),
{
    if let Some(web) = parsed_url(endpoint.http) {
        if let Some(host) = web.host {
            lemma_host_below(host, environment.suffix());
        }
    }
}

/// Staging and production are apart: their names and their domains differ, and no host is in both.
pub proof fn lemma_environments_apart(host: Seq<char>)
    ensures
        Environment::Staging.name() != Environment::Production.name(),
        !(below(host, Environment::Staging.suffix()) && below(
            host,
            Environment::Production.suffix(),
        )),
{
    reveal_strlit("staging");
    reveal_strlit("production");
    reveal_strlit("clippy-staging.saudecomalex.com");
    reveal_strlit("clippy.saudecomalex.com");
    assert("staging"@[0] == 's' && "production"@[0] == 'p');
    let first = Environment::Staging.suffix();
    let second = Environment::Production.suffix();
    assert(first.len() == 31);
    assert(second.len() == 23);
    assert(first[8] == 't');
    assert(second[0] == 'c');
    if below(host, first) && below(host, second) {
        let n = host.len() as int;
        assert(n >= 31);
        assert(host.skip(n - 31) =~= first) by {
            if host != first {
                let name = choose|name: Seq<char>| #[trigger] (name + seq!['.'] + first) == host;
                assert(host.skip(n - 31) =~= first);
            }
        }
        assert(host.skip(n - 23) =~= second) by {
            let name = choose|name: Seq<char>| #[trigger] (name + seq!['.'] + second) == host;
            assert(host.skip(n - 23) =~= second);
        }
        assert(host[n - 23] == first[8]);
        assert(host[n - 23] == second[0]);
    }
}

} // verus!
