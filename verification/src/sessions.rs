//! The sessions of an environment: one-use credentials, access tokens and socket tickets, and the
//! identifiers of proofs that were used.

use time::format_description::well_known::Rfc3339;
use time::OffsetDateTime;
use vstd::prelude::*;
use vstd::string::*;

use crate::crypto::{secret_eq, AuthenticatedPrincipal, PrincipalView};
use crate::dpop::{proof_verdict, verify_dpop, VerifiedView, DPOP_CLOCK_SKEW_SECONDS};
use crate::json::{
    json_object, member_views, write_object, JsonScalar, ScalarView,
};
use crate::plain::{opt_view, Plain};
use crate::relay::{
    mint_verdict, EndpointView, MintView, RelayEndpoint, RelayMintClaims, RelayProofVerifier,
    VerifierView, EXPIRY_LEEWAY_SECONDS,
};
use crate::signing::{
    canonical_json, ed25519_signature, random_token, token_hash, token_hash_of, token_shaped,
    valid_random_token, ConnectError, EnvironmentIdentity,
};
use crate::encoding::base64url;
use crate::textmap::TextMap;

verus! {

/// How long a one-use credential lasts, in seconds.
pub const BOOTSTRAP_TTL_SECONDS: u64 = 120;

/// How long an access token lasts, in seconds.
pub const ACCESS_TOKEN_TTL_SECONDS: u64 = 3600;

/// How long a socket ticket lasts, in seconds.
pub const WEBSOCKET_TICKET_TTL_SECONDS: u64 = 300;

/// What the `time` crate writes for a moment in seconds since 1970, or nothing where it is out of
/// range.
pub uninterp spec fn rfc3339(seconds: u64) -> Option<Seq<char>>;

/// `OffsetDateTime::from_unix_timestamp` and `OffsetDateTime::format` as RFC 3339.
#[verifier::external_body]
fn rfc3339_text(seconds: u64) -> (text: Option<String>)
    ensures
        opt_view(text) == rfc3339(seconds),
{
    OffsetDateTime::from_unix_timestamp(seconds as i64).ok()?.format(&Rfc3339).ok()
}

/// A moment as it is written in answers.
pub fn format_timestamp(epoch_seconds: u64) -> (result: Result<String, ConnectError>)
    ensures
        match rfc3339(epoch_seconds) {
            Some(form) => result matches Ok(text) && text@ == form,
            None => result == Err::<String, ConnectError>(ConnectError::InvalidEncoding),
        },
{
    match rfc3339_text(epoch_seconds) {
        Some(text) => Ok(text),
        None => Err(ConnectError::InvalidEncoding),
    }
}

/// Something that lasts until a moment.
pub trait Lasting: Plain {
    /// The moment until which it lasts.
    spec fn until(value: Self::V) -> u64;

    fn expires_at(&self) -> (moment: u64)
        ensures
            moment == Self::until(self@),
    ;
}

impl Lasting for u64 {
    open spec fn until(value: u64) -> u64 {
        value
    }

    fn expires_at(&self) -> (moment: u64) {
        *self
    }
}

/// Who holds a credential or access token, with which key, and until when.
#[derive(Debug, Clone, PartialEq, Eq)]
pub struct KeyRecord {
    pub expires_at: u64,
    pub principal: AuthenticatedPrincipal,
    pub client_jkt: String,
}

/// What a record says.
pub struct KeyRecordView {
    pub expires_at: u64,
    pub principal: PrincipalView,
    pub client_key: Seq<char>,
}

impl View for KeyRecord {
    type V = KeyRecordView;

    open spec fn view(&self) -> KeyRecordView {
        KeyRecordView {
            expires_at: self.expires_at,
            principal: self.principal@,
            client_key: self.client_jkt@,
        }
    }
}

impl Plain for KeyRecord {
    fn duplicate(&self) -> (copy: Self) {
        KeyRecord {
            expires_at: self.expires_at,
            principal: self.principal.duplicate(),
            client_jkt: self.client_jkt.duplicate(),
        }
    }

    fn same(&self, other: &Self) -> (equal: bool) {
        self.expires_at == other.expires_at && self.principal.same(&other.principal)
            && self.client_jkt.same(&other.client_jkt)
    }
}

impl Lasting for KeyRecord {
    open spec fn until(value: KeyRecordView) -> u64 {
        value.expires_at
    }

    fn expires_at(&self) -> (moment: u64) {
        self.expires_at
    }
}

/// Who holds a socket ticket, and until when.
#[derive(Debug, Clone, PartialEq, Eq)]
pub struct TicketRecord {
    pub expires_at: u64,
    pub principal: AuthenticatedPrincipal,
}

/// What a record says.
pub struct TicketRecordView {
    pub expires_at: u64,
    pub principal: PrincipalView,
}

impl View for TicketRecord {
    type V = TicketRecordView;

    open spec fn view(&self) -> TicketRecordView {
        TicketRecordView { expires_at: self.expires_at, principal: self.principal@ }
    }
}

impl Plain for TicketRecord {
    fn duplicate(&self) -> (copy: Self) {
        TicketRecord { expires_at: self.expires_at, principal: self.principal.duplicate() }
    }

    fn same(&self, other: &Self) -> (equal: bool) {
        self.expires_at == other.expires_at && self.principal.same(&other.principal)
    }
}

impl Lasting for TicketRecord {
    open spec fn until(value: TicketRecordView) -> u64 {
        value.expires_at
    }

    fn expires_at(&self) -> (moment: u64) {
        self.expires_at
    }
}

/// What lasts beyond a moment.
pub open spec fn lasting<V: Lasting>(map: Map<Seq<char>, V::V>, now: u64) -> Map<Seq<char>, V::V> {
    Map::new(
        |key: Seq<char>| map.contains_key(key) && V::until(map[key]) > now,
        |key: Seq<char>| map[key],
    )
}

/// What lasts beyond a moment.
pub fn keep_lasting<V: Lasting>(map: &TextMap<V>, now: u64) -> (kept: TextMap<V>)
    ensures
        kept@ == lasting::<V>(map@, now),
{
    let mut kept: TextMap<V> = TextMap::new();
    let count: usize = map.len();
    let ghost keys = map.keys();
    let mut i: usize = 0;
    while i < count
        invariant
            count == keys.len(),
            keys == map.keys(),
            map.lists_keys(),
            i <= count,
            forall|key: Seq<char>| #[trigger]
                kept@.contains_key(key) ==> map@.contains_key(key) && V::until(map@[key]) > now
                    && kept@[key] == map@[key],
            forall|j: int|
                0 <= j < i && V::until(map@[#[trigger] keys[j]]) > now ==> kept@.contains_key(
                    keys[j],
                ),
        decreases count - i,
    {
        let value = map.value_at(i);
        if value.expires_at() > now {
            kept.insert(map.key_at(i).duplicate(), value.duplicate());
        }
        i = i + 1;
    }
    proof {
        let expected = lasting::<V>(map@, now);
        assert forall|key: Seq<char>| #[trigger]
            expected.contains_key(key) implies kept@.contains_key(key) by {
            assert(map@.contains_key(key));
            assert(keys.contains(key));
            let j = keys.index_of(key);
            assert(keys[j] == key);
        }
        assert(kept@.dom() =~= expected.dom());
        assert(kept@ =~= expected);
    }
    kept
}

/// The sessions of an environment.
pub struct ConnectSessionStore {
    bootstraps: TextMap<KeyRecord>,
    access_tokens: TextMap<KeyRecord>,
    websocket_tickets: TextMap<TicketRecord>,
    relay_jtis: TextMap<u64>,
    dpop_jtis: TextMap<u64>,
}

/// What is known of the sessions. Credentials, tokens and tickets stand under their hashes.
pub struct SessionView {
    pub bootstraps: Map<Seq<char>, KeyRecordView>,
    pub access_tokens: Map<Seq<char>, KeyRecordView>,
    pub tickets: Map<Seq<char>, TicketRecordView>,
    pub relay_proofs: Map<Seq<char>, u64>,
    pub dpop_proofs: Map<Seq<char>, u64>,
}

impl View for ConnectSessionStore {
    type V = SessionView;

    closed spec fn view(&self) -> SessionView {
        SessionView {
            bootstraps: self.bootstraps@,
            access_tokens: self.access_tokens@,
            tickets: self.websocket_tickets@,
            relay_proofs: self.relay_jtis@,
            dpop_proofs: self.dpop_jtis@,
        }
    }
}

/// The sessions without those that are over.
pub open spec fn pruned(state: SessionView, now: u64) -> SessionView {
    SessionView {
        bootstraps: lasting::<KeyRecord>(state.bootstraps, now),
        access_tokens: lasting::<KeyRecord>(state.access_tokens, now),
        tickets: lasting::<TicketRecord>(state.tickets, now),
        relay_proofs: lasting::<u64>(state.relay_proofs, now),
        dpop_proofs: lasting::<u64>(state.dpop_proofs, now),
    }
}

/// A moment some seconds later; the last one there is where there is none.
pub open spec fn later(now: u64, seconds: u64) -> u64 {
    if now + seconds <= u64::MAX {
        (now + seconds) as u64
    } else {
        u64::MAX
    }
}

fn moment_later(now: u64, seconds: u64) -> (moment: u64)
    ensures
        moment == later(now, seconds),
{
    now.saturating_add(seconds)
}

/// The answer to a proof of the relay.
#[derive(Debug, Clone, PartialEq, Eq)]
pub struct MintResponse {
    pub environment_id: String,
    pub bootstrap_credential: String,
    pub expires_at: String,
    pub client_jkt: String,
    pub client_nonce: String,
    pub signature: String,
}

/// What an answer says.
pub struct MintResponseView {
    pub environment: Seq<char>,
    pub credential: Seq<char>,
    pub expires_at: Seq<char>,
    pub client_key: Seq<char>,
    pub client_nonce: Seq<char>,
    pub signature: Seq<char>,
}

impl View for MintResponse {
    type V = MintResponseView;

    open spec fn view(&self) -> MintResponseView {
        MintResponseView {
            environment: self.environment_id@,
            credential: self.bootstrap_credential@,
            expires_at: self.expires_at@,
            client_key: self.client_jkt@,
            client_nonce: self.client_nonce@,
            signature: self.signature@,
        }
    }
}

/// The part of an answer that is signed: all of it but the signature.
pub open spec fn unsigned_members(
    environment: Seq<char>,
    credential: Seq<char>,
    expires_at: Seq<char>,
    client_key: Seq<char>,
    client_nonce: Seq<char>,
) -> Seq<(Seq<char>, ScalarView)> {
    seq![
        ("environment_id"@, ScalarView::Text(environment)),
        ("bootstrap_credential"@, ScalarView::Text(credential)),
        ("expires_at"@, ScalarView::Text(expires_at)),
        ("client_jkt"@, ScalarView::Text(client_key)),
        ("client_nonce"@, ScalarView::Text(client_nonce)),
    ]
}

/// The JSON document that is signed with an answer.
pub open spec fn unsigned_document(
    environment: Seq<char>,
    credential: Seq<char>,
    expires_at: Seq<char>,
    client_key: Seq<char>,
    client_nonce: Seq<char>,
) -> Seq<char> {
    json_object(
        unsigned_members(environment, credential, expires_at, client_key, client_nonce),
    )
}

/// The JSON document that is signed with an answer.
pub fn unsigned_mint_response(
    environment_id: &str,
    bootstrap_credential: &str,
    expires_at: &str,
    client_jkt: &str,
    client_nonce: &str,
) -> (document: String)
    ensures
        document@ == unsigned_document(
            environment_id@,
            bootstrap_credential@,
            expires_at@,
            client_jkt@,
            client_nonce@,
        ),
{
    let members = [
        ("environment_id", JsonScalar::Text(environment_id.to_owned())),
        ("bootstrap_credential", JsonScalar::Text(bootstrap_credential.to_owned())),
        ("expires_at", JsonScalar::Text(expires_at.to_owned())),
        ("client_jkt", JsonScalar::Text(client_jkt.to_owned())),
        ("client_nonce", JsonScalar::Text(client_nonce.to_owned())),
    ];
    assert(member_views(members@) =~= unsigned_members(
        environment_id@,
        bootstrap_credential@,
        expires_at@,
        client_jkt@,
        client_nonce@,
    ));
    write_object(members.as_slice())
}

/// What comes of a statement of the relay: the sessions, and the answer. A statement counts once.
pub open spec fn minted(
    state: SessionView,
    claims: MintView,
    identity: Seq<u8>,
    owner: PrincipalView,
    credential: Seq<char>,
    now: u64,
) -> (SessionView, Result<MintResponseView, ConnectError>) {
    let current = pruned(state, now);
    if current.relay_proofs.contains_key(claims.identifier) {
        (current, Err(ConnectError::Replay))
    } else {
        let noted = SessionView {
            relay_proofs: current.relay_proofs.insert(
                claims.identifier,
                statement_end(claims.expires_at),
            ),
            ..current
        };
        let end = later(now, BOOTSTRAP_TTL_SECONDS);
        match rfc3339(end) {
            None => (noted, Err(ConnectError::InvalidEncoding)),
            Some(expires_at) => {
                let opened = SessionView {
                    bootstraps: noted.bootstraps.insert(
                        token_hash_of(credential),
                        KeyRecordView {
                            expires_at: end,
                            principal: owner,
                            client_key: claims.client_key,
                        },
                    ),
                    ..noted
                };
                let document = unsigned_document(
                    claims.environment,
                    credential,
                    expires_at,
                    claims.client_key,
                    claims.client_nonce,
                );
                match canonical_json(document) {
                    None => (opened, Err(ConnectError::InvalidEncoding)),
                    Some(canonical) => (
                        opened,
                        Ok(
                            MintResponseView {
                                environment: claims.environment,
                                credential,
                                expires_at,
                                client_key: claims.client_key,
                                client_nonce: claims.client_nonce,
                                signature: base64url(ed25519_signature(identity, canonical)),
                            },
                        ),
                    ),
                }
            },
        }
    }
}

/// What comes of a proof of the relay.
pub open spec fn mint_outcome(
    state: SessionView,
    verifier: VerifierView,
    proof: Seq<char>,
    identity: Seq<u8>,
    owner: PrincipalView,
    endpoint: EndpointView,
    credential: Seq<char>,
    now: u64,
) -> (SessionView, Result<MintResponseView, ConnectError>) {
    match mint_verdict(verifier, proof, owner, endpoint, now) {
        None => (state, Err(ConnectError::InvalidRelayProof)),
        Some(claims) => minted(state, claims, identity, owner, credential, now),
    }
}

/// The first moment at which a proof can pass no more, by when it was made.
pub open spec fn proof_end(issued_at: i64) -> u64 {
    if issued_at + DPOP_CLOCK_SKEW_SECONDS + 1 < 0 {
        0
    } else {
        (issued_at + DPOP_CLOCK_SKEW_SECONDS + 1) as u64
    }
}

fn end_of_proof(issued_at: i64) -> (end: u64)
    ensures
        end == proof_end(issued_at),
{
    let end: i128 = issued_at as i128 + DPOP_CLOCK_SKEW_SECONDS as i128 + 1;
    if end < 0 {
        0
    } else {
        end as u64
    }
}

/// The first moment at which a statement of the relay can pass no more.
pub open spec fn statement_end(expires_at: u64) -> u64 {
    later(expires_at, (EXPIRY_LEEWAY_SECONDS + 1) as u64)
}

/// The sessions after the identifier of a proof was used, where it was not used before. It is kept
/// until the proof can pass no more.
pub open spec fn proof_consumed(state: SessionView, shown: VerifiedView) -> Option<SessionView> {
    if state.dpop_proofs.contains_key(shown.identifier) {
        None
    } else {
        Some(
            SessionView {
                dpop_proofs: state.dpop_proofs.insert(
                    shown.identifier,
                    proof_end(shown.issued_at),
                ),
                ..state
            },
        )
    }
}

/// What comes of a proof that was checked, by the holder of a record.
pub open spec fn holder_checked(
    state: SessionView,
    record: KeyRecordView,
    verified: Option<VerifiedView>,
) -> (SessionView, Result<PrincipalView, ConnectError>) {
    match verified {
        None => (state, Err(ConnectError::InvalidDpopProof)),
        Some(shown) => match proof_consumed(state, shown) {
            None => (state, Err(ConnectError::Replay)),
            Some(used) => if shown.thumbprint == record.client_key {
                (used, Ok(record.principal))
            } else {
                (used, Err(ConnectError::InvalidDpopProof))
            },
        },
    }
}

/// What comes of a credential with a proof: the credential is gone, and an access token stands for
/// its holder.
pub open spec fn bootstrap_exchanged(
    state: SessionView,
    credential: Seq<char>,
    verified: Option<VerifiedView>,
    access_token: Seq<char>,
    now: u64,
) -> (SessionView, Result<PrincipalView, ConnectError>) {
    if !token_shaped(credential) {
        (state, Err(ConnectError::InvalidCredential))
    } else {
        let current = pruned(state, now);
        let key = token_hash_of(credential);
        if !current.bootstraps.contains_key(key) {
            (current, Err(ConnectError::InvalidCredential))
        } else {
            let record = current.bootstraps[key];
            match holder_checked(current, record, verified) {
                (after, Err(error)) => (after, Err(error)),
                (after, Ok(principal)) => (
                    SessionView {
                        bootstraps: after.bootstraps.remove(key),
                        access_tokens: after.access_tokens.insert(
                            token_hash_of(access_token),
                            KeyRecordView {
                                expires_at: later(now, ACCESS_TOKEN_TTL_SECONDS),
                                principal,
                                client_key: record.client_key,
                            },
                        ),
                        ..after
                    },
                    Ok(principal),
                ),
            }
        }
    }
}

/// What comes of an access token with a proof.
pub open spec fn authorized(
    state: SessionView,
    access_token: Seq<char>,
    verified: Option<VerifiedView>,
    now: u64,
) -> (SessionView, Result<PrincipalView, ConnectError>) {
    if !token_shaped(access_token) {
        (state, Err(ConnectError::InvalidCredential))
    } else {
        let current = pruned(state, now);
        let key = token_hash_of(access_token);
        if !current.access_tokens.contains_key(key) {
            (current, Err(ConnectError::InvalidCredential))
        } else {
            holder_checked(current, current.access_tokens[key], verified)
        }
    }
}

/// What comes of an access token with a proof, where a socket ticket is asked for.
pub open spec fn ticket_issued(
    state: SessionView,
    access_token: Seq<char>,
    verified: Option<VerifiedView>,
    ticket: Seq<char>,
    now: u64,
) -> (SessionView, Result<PrincipalView, ConnectError>) {
    match authorized(state, access_token, verified, now) {
        (after, Err(error)) => (after, Err(error)),
        (after, Ok(principal)) => (
            SessionView {
                tickets: after.tickets.insert(
                    token_hash_of(ticket),
                    TicketRecordView {
                        expires_at: later(now, WEBSOCKET_TICKET_TTL_SECONDS),
                        principal,
                    },
                ),
                ..after
            },
            Ok(principal),
        ),
    }
}

/// What comes of a socket ticket: it counts once.
pub open spec fn ticket_consumed(state: SessionView, ticket: Seq<char>, now: u64) -> (
    SessionView,
    Result<PrincipalView, ConnectError>,
) {
    if !token_shaped(ticket) {
        (state, Err(ConnectError::InvalidCredential))
    } else {
        let current = pruned(state, now);
        let key = token_hash_of(ticket);
        if current.tickets.contains_key(key) {
            (
                SessionView { tickets: current.tickets.remove(key), ..current },
                Ok(current.tickets[key].principal),
            )
        } else {
            (current, Err(ConnectError::InvalidCredential))
        }
    }
}

/// The answer to a credential: an access token.
#[derive(Debug, Clone, PartialEq, Eq)]
pub struct TokenResponse {
    pub access_token: String,
    pub token_type: String,
    pub expires_in: u64,
    pub scope: String,
}

/// The answer to a request for a socket ticket.
#[derive(Debug, Clone, PartialEq, Eq)]
pub struct WebsocketTicketResponse {
    pub ws_ticket: String,
    pub expires_in: u64,
}

/// The answer that hands out an access token.
pub open spec fn hands_out(response: TokenResponse, access_token: Seq<char>) -> bool {
    &&& response.access_token@ == access_token
    &&& response.token_type@ == "DPoP"@
    &&& response.expires_in == ACCESS_TOKEN_TTL_SECONDS
    &&& response.scope@ == "sync:read sync:write files:read files:write"@
}

/// What a result says of a principal.
pub open spec fn principal_result(
    result: Result<AuthenticatedPrincipal, ConnectError>,
) -> Result<PrincipalView, ConnectError> {
    match result {
        Ok(principal) => Ok(principal@),
        Err(error) => Err(error),
    }
}

/// What a result says of an answer.
pub open spec fn mint_result(
    result: Result<MintResponse, ConnectError>,
) -> Result<MintResponseView, ConnectError> {
    match result {
        Ok(response) => Ok(response@),
        Err(error) => Err(error),
    }
}

/// What a proof shows of a request that uses a token.
pub open spec fn token_proof(
    proof: Seq<char>,
    method: Seq<char>,
    url: Seq<char>,
    token: Seq<char>,
    now: u64,
) -> Option<VerifiedView> {
    proof_verdict(proof, method, url, Some(token), now)
}

impl ConnectSessionStore {
    /// No sessions.
    pub fn new() -> (store: Self)
        ensures
            store@ == (SessionView {
                bootstraps: Map::empty(),
                access_tokens: Map::empty(),
                tickets: Map::empty(),
                relay_proofs: Map::empty(),
                dpop_proofs: Map::empty(),
            }),
    {
        ConnectSessionStore {
            bootstraps: TextMap::new(),
            access_tokens: TextMap::new(),
            websocket_tickets: TextMap::new(),
            relay_jtis: TextMap::new(),
            dpop_jtis: TextMap::new(),
        }
    }

    fn prune(&mut self, now: u64)
        ensures
            final(self)@ == pruned(old(self)@, now),
    {
        self.bootstraps = keep_lasting(&self.bootstraps, now);
        self.access_tokens = keep_lasting(&self.access_tokens, now);
        self.websocket_tickets = keep_lasting(&self.websocket_tickets, now);
        self.relay_jtis = keep_lasting(&self.relay_jtis, now);
        self.dpop_jtis = keep_lasting(&self.dpop_jtis, now);
    }

    /// Opens a one-use credential for the holder of a key.
    pub fn open_bootstrap(
        &mut self,
        credential: &str,
        principal: AuthenticatedPrincipal,
        client_jkt: String,
        expires_at: u64,
    )
        ensures
            final(self)@ == (SessionView {
                bootstraps: old(self)@.bootstraps.insert(
                    token_hash_of(credential@),
                    KeyRecordView {
                        expires_at,
                        principal: principal@,
                        client_key: client_jkt@,
                    },
                ),
                ..old(self)@
            }),
    {
        self.bootstraps.insert(
            token_hash(credential),
            KeyRecord { expires_at, principal, client_jkt },
        );
    }

    /// Answers a statement of the relay with the given credential.
    pub fn mint_with(
        &mut self,
        claims: RelayMintClaims,
        identity: &EnvironmentIdentity,
        owner: &AuthenticatedPrincipal,
        credential: String,
        now: u64,
    ) -> (result: Result<MintResponse, ConnectError>)
        ensures
            (final(self)@, mint_result(result)) == minted(
                old(self)@,
                claims@,
                identity@,
                owner@,
                credential@,
                now,
            ),
    {
        self.prune(now);
        if self.relay_jtis.get(claims.jti.as_str()).is_some() {
            return Err(ConnectError::Replay);
        }
        self.relay_jtis.insert(
            claims.jti.duplicate(),
            moment_later(claims.exp, EXPIRY_LEEWAY_SECONDS + 1),
        );
        let end: u64 = moment_later(now, BOOTSTRAP_TTL_SECONDS);
        let expires_at = match format_timestamp(end) {
            Err(error) => {
                return Err(error);
            },
            Ok(text) => text,
        };
        self.open_bootstrap(
            credential.as_str(),
            owner.duplicate(),
            claims.client_jkt.duplicate(),
            end,
        );
        let document = unsigned_mint_response(
            claims.environment_id.as_str(),
            credential.as_str(),
            expires_at.as_str(),
            claims.client_jkt.as_str(),
            claims.client_nonce.as_str(),
        );
        match identity.sign_canonical(document.as_str()) {
            Err(error) => Err(error),
            Ok(signature) => Ok(
                MintResponse {
                    environment_id: claims.environment_id,
                    bootstrap_credential: credential,
                    expires_at,
                    client_jkt: claims.client_jkt,
                    client_nonce: claims.client_nonce,
                    signature,
                },
            ),
        }
    }

    /// Answers a proof of the relay with a one-use credential that nobody can guess. The answer is
    /// signed by the environment.
    pub fn mint_from_relay(
        &mut self,
        proof: &str,
        verifier: &RelayProofVerifier,
        identity: &EnvironmentIdentity,
        owner: &AuthenticatedPrincipal,
        endpoint: &RelayEndpoint,
        now: u64,
    ) -> (result: Result<MintResponse, ConnectError>)
        requires
            verifier@.key.len() >= 32,
        ensures
            exists|credential: Seq<char>| #[trigger]
                token_shaped(credential) && (final(self)@, mint_result(result)) == mint_outcome(
                    old(self)@,
                    verifier@,
                    proof@,
                    identity@,
                    owner@,
                    endpoint@,
                    credential,
                    now,
                ),
    {
        let credential = random_token();
        assert(token_shaped(credential@));
        match verifier.verify(proof, owner, endpoint, now) {
            Err(error) => Err(error),
            Ok(claims) => self.mint_with(claims, identity, owner, credential, now),
        }
    }

    fn check_holder(
        &mut self,
        record: &KeyRecord,
        token: &str,
        proof: &str,
        method: &str,
        url: &str,
        now: u64,
    ) -> (result: Result<AuthenticatedPrincipal, ConnectError>)
        ensures
            (final(self)@, principal_result(result)) == holder_checked(
                old(self)@,
                record@,
                token_proof(proof@, method@, url@, token@, now),
            ),
    {
        let verified = match verify_dpop(proof, method, url, Some(token), now) {
            Err(error) => {
                return Err(error);
            },
            Ok(verified) => verified,
        };
        if self.dpop_jtis.get(verified.jti.as_str()).is_some() {
            return Err(ConnectError::Replay);
        }
        self.dpop_jtis.insert(verified.jti.duplicate(), end_of_proof(verified.iat));
        if !secret_eq(verified.thumbprint.as_str(), record.client_jkt.as_str()) {
            return Err(ConnectError::InvalidDpopProof);
        }
        Ok(record.principal.duplicate())
    }

    /// Exchanges a credential for the given access token.
    pub fn exchange_with(
        &mut self,
        credential: &str,
        proof: &str,
        method: &str,
        url: &str,
        access_token: String,
        now: u64,
    ) -> (result: Result<(TokenResponse, AuthenticatedPrincipal), ConnectError>)
        ensures
            match bootstrap_exchanged(
                old(self)@,
                credential@,
                token_proof(proof@, method@, url@, credential@, now),
                access_token@,
                now,
            ) {
                (state, Ok(principal)) => (result matches Ok((response, owner)) && owner@
                    == principal && hands_out(response, access_token@)) && final(self)@ == state,
                (state, Err(error)) => result == Err::<
                    (TokenResponse, AuthenticatedPrincipal),
                    ConnectError,
                >(error) && final(self)@ == state,
            },
    {
        if !valid_random_token(credential) {
            return Err(ConnectError::InvalidCredential);
        }
        self.prune(now);
        let key = token_hash(credential);
        let record = match self.bootstraps.get(key.as_str()) {
            None => {
                return Err(ConnectError::InvalidCredential);
            },
            Some(record) => record.duplicate(),
        };
        let principal = match self.check_holder(&record, credential, proof, method, url, now) {
            Err(error) => {
                return Err(error);
            },
            Ok(principal) => principal,
        };
        self.bootstraps.remove(key.as_str());
        self.access_tokens.insert(
            token_hash(access_token.as_str()),
            KeyRecord {
                expires_at: moment_later(now, ACCESS_TOKEN_TTL_SECONDS),
                principal: principal.duplicate(),
                client_jkt: record.client_jkt,
            },
        );
        Ok(
            (
                TokenResponse {
                    access_token,
                    token_type: "DPoP".to_owned(),
                    expires_in: ACCESS_TOKEN_TTL_SECONDS,
                    scope: "sync:read sync:write files:read files:write".to_owned(),
                },
                principal,
            ),
        )
    }

    /// Exchanges a credential for an access token that nobody can guess. The credential counts
    /// once, and only for the holder of the key that it was opened for.
    pub fn exchange_bootstrap(
        &mut self,
        credential: &str,
        proof: &str,
        method: &str,
        url: &str,
        now: u64,
    ) -> (result: Result<(TokenResponse, AuthenticatedPrincipal), ConnectError>)
        ensures
            exists|access_token: Seq<char>| #[trigger]
                token_shaped(access_token) && match bootstrap_exchanged(
                    old(self)@,
                    credential@,
                    token_proof(proof@, method@, url@, credential@, now),
                    access_token,
                    now,
                ) {
                    (state, Ok(principal)) => (result matches Ok((response, owner)) && owner@
                        == principal && hands_out(response, access_token)) && final(self)@
                        == state,
                    (state, Err(error)) => result == Err::<
                        (TokenResponse, AuthenticatedPrincipal),
                        ConnectError,
                    >(error) && final(self)@ == state,
                },
    {
        let access_token = random_token();
        assert(token_shaped(access_token@));
        self.exchange_with(credential, proof, method, url, access_token, now)
    }

    /// Tells who makes a request with an access token. The proof must come from the holder of the
    /// token's key, and counts once.
    pub fn authorize(
        &mut self,
        access_token: &str,
        proof: &str,
        method: &str,
        url: &str,
        now: u64,
    ) -> (result: Result<AuthenticatedPrincipal, ConnectError>)
        ensures
            (final(self)@, principal_result(result)) == authorized(
                old(self)@,
                access_token@,
                token_proof(proof@, method@, url@, access_token@, now),
                now,
            ),
    {
        if !valid_random_token(access_token) {
            return Err(ConnectError::InvalidCredential);
        }
        self.prune(now);
        let record = match self.access_tokens.get(token_hash(access_token).as_str()) {
            None => {
                return Err(ConnectError::InvalidCredential);
            },
            Some(record) => record.duplicate(),
        };
        self.check_holder(&record, access_token, proof, method, url, now)
    }

    /// Issues the given socket ticket.
    pub fn issue_with(
        &mut self,
        access_token: &str,
        proof: &str,
        method: &str,
        url: &str,
        ticket: String,
        now: u64,
    ) -> (result: Result<(WebsocketTicketResponse, AuthenticatedPrincipal), ConnectError>)
        ensures
            match ticket_issued(
                old(self)@,
                access_token@,
                token_proof(proof@, method@, url@, access_token@, now),
                ticket@,
                now,
            ) {
                (state, Ok(principal)) => (result matches Ok((response, owner)) && owner@
                    == principal && response.ws_ticket@ == ticket@ && response.expires_in
                    == WEBSOCKET_TICKET_TTL_SECONDS) && final(self)@ == state,
                (state, Err(error)) => result == Err::<
                    (WebsocketTicketResponse, AuthenticatedPrincipal),
                    ConnectError,
                >(error) && final(self)@ == state,
            },
    {
        let principal = match self.authorize(access_token, proof, method, url, now) {
            Err(error) => {
                return Err(error);
            },
            Ok(principal) => principal,
        };
        self.websocket_tickets.insert(
            token_hash(ticket.as_str()),
            TicketRecord {
                expires_at: moment_later(now, WEBSOCKET_TICKET_TTL_SECONDS),
                principal: principal.duplicate(),
            },
        );
        Ok(
            (
                WebsocketTicketResponse {
                    ws_ticket: ticket,
                    expires_in: WEBSOCKET_TICKET_TTL_SECONDS,
                },
                principal,
            ),
        )
    }

    /// Issues a socket ticket that nobody can guess, to whoever an access token stands for.
    pub fn issue_websocket_ticket(
        &mut self,
        access_token: &str,
        proof: &str,
        method: &str,
        url: &str,
        now: u64,
    ) -> (result: Result<(WebsocketTicketResponse, AuthenticatedPrincipal), ConnectError>)
        ensures
            exists|ticket: Seq<char>| #[trigger]
                token_shaped(ticket) && match ticket_issued(
                    old(self)@,
                    access_token@,
                    token_proof(proof@, method@, url@, access_token@, now),
                    ticket,
                    now,
                ) {
                    (state, Ok(principal)) => (result matches Ok((response, owner)) && owner@
                        == principal && response.ws_ticket@ == ticket && response.expires_in
                        == WEBSOCKET_TICKET_TTL_SECONDS) && final(self)@ == state,
                    (state, Err(error)) => result == Err::<
                        (WebsocketTicketResponse, AuthenticatedPrincipal),
                        ConnectError,
                    >(error) && final(self)@ == state,
                },
    {
        let ticket = random_token();
        assert(token_shaped(ticket@));
        self.issue_with(access_token, proof, method, url, ticket, now)
    }

    /// Tells who opens a socket with a ticket, which counts once.
    pub fn consume_websocket_ticket(&mut self, ticket: &str, now: u64) -> (result: Result<
        AuthenticatedPrincipal,
        ConnectError,
    >)
        ensures
            (final(self)@, principal_result(result)) == ticket_consumed(old(self)@, ticket@, now),
    {
        if !valid_random_token(ticket) {
            return Err(ConnectError::InvalidCredential);
        }
        self.prune(now);
        let key = token_hash(ticket);
        let principal = match self.websocket_tickets.get(key.as_str()) {
            None => {
                return Err(ConnectError::InvalidCredential);
            },
            Some(record) => record.principal.duplicate(),
        };
        self.websocket_tickets.remove(key.as_str());
        Ok(principal)
    }
}

impl Default for ConnectSessionStore {
    fn default() -> (store: Self)
        ensures
            store@ == (SessionView {
                bootstraps: Map::empty(),
                access_tokens: Map::empty(),
                tickets: Map::empty(),
                relay_proofs: Map::empty(),
                dpop_proofs: Map::empty(),
            }),
    {
        Self::new()
    }
}

/// A credential counts once: after it was exchanged, it is refused at any later time, with
/// whatever proof.
pub proof fn lemma_credential_counts_once(
    state: SessionView,
    credential: Seq<char>,
    verified: Option<VerifiedView>,
    access_token: Seq<char>,
    now: u64,
    again: Option<VerifiedView>,
    other_token: Seq<char>,
    then: u64,
)
    requires
        bootstrap_exchanged(state, credential, verified, access_token, now).1 is Ok,
    ensures
        ({
            let after = bootstrap_exchanged(state, credential, verified, access_token, now).0;
            bootstrap_exchanged(after, credential, again, other_token, then).1 == Err::<
                PrincipalView,
                ConnectError,
            >(ConnectError::InvalidCredential)
        }),
{
}

/// A socket ticket counts once.
pub proof fn lemma_ticket_counts_once(state: SessionView, ticket: Seq<char>, now: u64, then: u64)
    requires
        ticket_consumed(state, ticket, now).1 is Ok,
    ensures
        ticket_consumed(ticket_consumed(state, ticket, now).0, ticket, then).1 == Err::<
            PrincipalView,
            ConnectError,
        >(ConnectError::InvalidCredential),
{
}

/// A ticket that was issued opens one socket, for the account that asked for it, as long as it
/// lasts.
pub proof fn lemma_issued_ticket_opens(
    state: SessionView,
    access_token: Seq<char>,
    verified: Option<VerifiedView>,
    ticket: Seq<char>,
    now: u64,
    then: u64,
)
    requires
        token_shaped(ticket),
        ticket_issued(state, access_token, verified, ticket, now).1 is Ok,
        then < later(now, WEBSOCKET_TICKET_TTL_SECONDS),
    ensures
        ({
            let (after, owner) = ticket_issued(state, access_token, verified, ticket, now);
            ticket_consumed(after, ticket, then).1 == owner
        }),
{
}

/// A proof counts once: whatever was asked with it, and whatever is asked with it again, at any
/// time, it is turned down; as a replay, where it would pass and the token that it comes with
/// stands.
pub proof fn lemma_proof_counts_once(
    state: SessionView,
    proof: Seq<char>,
    method: Seq<char>,
    url: Seq<char>,
    access_token: Seq<char>,
    now: u64,
    other_method: Seq<char>,
    other_url: Seq<char>,
    other_token: Seq<char>,
    then: u64,
)
    requires
        authorized(
            state,
            access_token,
            token_proof(proof, method, url, access_token, now),
            now,
        ).1 is Ok,
    ensures
        ({
            let after = authorized(
                state,
                access_token,
                token_proof(proof, method, url, access_token, now),
                now,
            ).0;
            let again = token_proof(proof, other_method, other_url, other_token, then);
            let answer = authorized(after, other_token, again, then).1;
            &&& answer is Err
            &&& again is Some && token_shaped(other_token) && pruned(
                after,
                then,
            ).access_tokens.contains_key(token_hash_of(other_token)) ==> answer == Err::<
                PrincipalView,
                ConnectError,
            >(ConnectError::Replay)
        }),
{
    let first = token_proof(proof, method, url, access_token, now);
    let again = token_proof(proof, other_method, other_url, other_token, then);
    let after = authorized(state, access_token, first, now).0;
    assert(after.dpop_proofs.contains_key(first->0.identifier));
    if again is Some {
        assert(again->0.identifier == first->0.identifier);
        assert(again->0.issued_at == first->0.issued_at);
        assert(proof_end(again->0.issued_at) > then);
        assert(pruned(after, then).dpop_proofs.contains_key(first->0.identifier));
    }
}

/// A proof that was used for a credential serves no request with an access token.
pub proof fn lemma_exchanged_proof_serves_no_more(
    state: SessionView,
    proof: Seq<char>,
    method: Seq<char>,
    url: Seq<char>,
    credential: Seq<char>,
    new_token: Seq<char>,
    now: u64,
    other_method: Seq<char>,
    other_url: Seq<char>,
    other_token: Seq<char>,
    then: u64,
)
    requires
        bootstrap_exchanged(
            state,
            credential,
            token_proof(proof, method, url, credential, now),
            new_token,
            now,
        ).1 is Ok,
    ensures
        ({
            let after = bootstrap_exchanged(
                state,
                credential,
                token_proof(proof, method, url, credential, now),
                new_token,
                now,
            ).0;
            let again = token_proof(proof, other_method, other_url, other_token, then);
            authorized(after, other_token, again, then).1 is Err
        }),
{
    let first = token_proof(proof, method, url, credential, now);
    let again = token_proof(proof, other_method, other_url, other_token, then);
    let after = bootstrap_exchanged(state, credential, first, new_token, now).0;
    assert(after.dpop_proofs.contains_key(first->0.identifier));
    if again is Some {
        assert(again->0.identifier == first->0.identifier);
        assert(proof_end(again->0.issued_at) > then);
        assert(pruned(after, then).dpop_proofs.contains_key(first->0.identifier));
    }
}

/// The identifiers that are to be kept beyond a moment are still known.
pub open spec fn identifiers_kept(before: SessionView, after: SessionView, now: u64) -> bool {
    &&& forall|identifier: Seq<char>|
        before.dpop_proofs.contains_key(identifier) && before.dpop_proofs[identifier] > now
            ==> #[trigger] after.dpop_proofs.contains_key(identifier)
            && after.dpop_proofs[identifier] == before.dpop_proofs[identifier]
    &&& forall|identifier: Seq<char>|
        before.relay_proofs.contains_key(identifier) && before.relay_proofs[identifier] > now
            ==> #[trigger] after.relay_proofs.contains_key(identifier)
            && after.relay_proofs[identifier] == before.relay_proofs[identifier]
}

/// Nothing that is asked makes a used identifier forgotten before its time: neither a credential,
/// nor an access token, nor a ticket, nor a statement of the relay.
pub proof fn lemma_identifiers_kept(
    state: SessionView,
    token: Seq<char>,
    verified: Option<VerifiedView>,
    fresh: Seq<char>,
    claims: MintView,
    identity: Seq<u8>,
    owner: PrincipalView,
    now: u64,
)
    ensures
        identifiers_kept(state, bootstrap_exchanged(state, token, verified, fresh, now).0, now),
        identifiers_kept(state, authorized(state, token, verified, now).0, now),
        identifiers_kept(state, ticket_issued(state, token, verified, fresh, now).0, now),
        identifiers_kept(state, ticket_consumed(state, token, now).0, now),
        identifiers_kept(state, minted(state, claims, identity, owner, fresh, now).0, now),
{
}

/// A statement of the relay counts once: at any other time before the last there is, it is turned
/// down; as a replay, where it would pass.
pub proof fn lemma_statement_counts_once(
    state: SessionView,
    verifier: VerifierView,
    proof: Seq<char>,
    identity: Seq<u8>,
    owner: PrincipalView,
    endpoint: EndpointView,
    credential: Seq<char>,
    now: u64,
    other_owner: PrincipalView,
    other_endpoint: EndpointView,
    other_credential: Seq<char>,
    then: u64,
)
    requires
        mint_outcome(state, verifier, proof, identity, owner, endpoint, credential, now).1 is Ok,
        then < u64::MAX,
    ensures
        ({
            let after = mint_outcome(
                state,
                verifier,
                proof,
                identity,
                owner,
                endpoint,
                credential,
                now,
            ).0;
            let answer = mint_outcome(
                after,
                verifier,
                proof,
                identity,
                other_owner,
                other_endpoint,
                other_credential,
                then,
            ).1;
            &&& answer is Err
            &&& mint_verdict(verifier, proof, other_owner, other_endpoint, then) is Some ==> answer
                == Err::<MintResponseView, ConnectError>(ConnectError::Replay)
        }),
{
}

/// A credential that was opened for the relay is exchanged by the holder of the key that the relay
/// named, for the account that the relay named, as long as it lasts.
pub proof fn lemma_minted_credential_works(
    state: SessionView,
    claims: MintView,
    identity: Seq<u8>,
    owner: PrincipalView,
    credential: Seq<char>,
    now: u64,
    verified: VerifiedView,
    access_token: Seq<char>,
    then: u64,
)
    requires
        token_shaped(credential),
        minted(state, claims, identity, owner, credential, now).1 is Ok,
        then < later(now, BOOTSTRAP_TTL_SECONDS),
        verified.thumbprint == claims.client_key,
        !pruned(state, now).dpop_proofs.contains_key(verified.identifier),
    ensures
        ({
            let after = minted(state, claims, identity, owner, credential, now).0;
            bootstrap_exchanged(after, credential, Some(verified), access_token, then).1 == Ok::<
                PrincipalView,
                ConnectError,
            >(owner)
        }),
{
}

/// An access token stands for whoever exchanged the credential, as long as it lasts, towards proofs
/// by the same key that were not used before.
pub proof fn lemma_access_token_works(
    state: SessionView,
    credential: Seq<char>,
    first: VerifiedView,
    access_token: Seq<char>,
    now: u64,
    verified: VerifiedView,
    then: u64,
)
    requires
        token_shaped(access_token),
        bootstrap_exchanged(state, credential, Some(first), access_token, now).1 is Ok,
        then < later(now, ACCESS_TOKEN_TTL_SECONDS),
        verified.thumbprint == first.thumbprint,
        verified.identifier != first.identifier,
        !pruned(state, now).dpop_proofs.contains_key(verified.identifier),
    ensures
        ({
            let (after, owner) = bootstrap_exchanged(
                state,
                credential,
                Some(first),
                access_token,
                now,
            );
            authorized(after, access_token, Some(verified), then).1 == owner
        }),
{
}

} // verus!
