//! What a device answers to the others: who may ask, how often, and what comes back.

use vstd::prelude::*;
use vstd::string::*;
use vstd::utf8::*;

use crate::crypto::{
    grant_payload, grants, open, principal_matches, response_fault, sealable,
    AuthenticatedPrincipal, PairingGrant, PairingResponse, PendingPairing, PrincipalView,
    WorkspaceKey,
};
use crate::encoding::{
    be32, lemma_length_prefixed_injective, lemma_prefixed_front, push_field,
};
use crate::plain::{opt_view, Plain};
use crate::relay::{EndpointView, RelayEndpoint, RelayProofVerifier, VerifierView};
use crate::sessions::{
    authorized, bootstrap_exchanged, hands_out, mint_outcome, ticket_consumed, ticket_issued,
    token_proof, ConnectSessionStore, MintResponse, MintResponseView, SessionView, TokenResponse,
    WebsocketTicketResponse, WEBSOCKET_TICKET_TTL_SECONDS,
};
use crate::signing::{token_shaped, ConnectError, EnvironmentIdentity};
use crate::text::{
    after_prefix, contains_char, lemma_encode_utf8_injective, starts_with, trim_trailing,
    without_trailing,
};
use crate::textmap::TextMap;

verus! {

/// How long a window of requests is, in milliseconds.
pub const RATE_WINDOW_MS: u64 = 60_000;

/// After this time a window is forgotten, in milliseconds.
pub const RATE_MEMORY_MS: u64 = 120_000;

/// How many refused requests a client may make in a window.
pub const REFUSED_LIMIT: u32 = 120;

/// How many requests a known account may make in a window. The largest attachment takes 256 chunks
/// of one mebibyte, so that a whole one can be sent at once.
pub const ACCOUNT_LIMIT: u32 = 4_096;

/// Why a request is turned down.
#[derive(Debug, Clone, Copy, PartialEq, Eq, Structural)]
pub enum ApiError {
    Unauthorized,
    Forbidden,
    TooManyRequests,
    PairingUnavailable,
    InvalidRequest,
    PayloadTooLarge,
    NotFound,
    Internal,
}

impl ApiError {
    /// The status of the answer.
    pub fn status(self) -> (code: u16)
        ensures
            code == match self {
                ApiError::Unauthorized => 401u16,
                ApiError::Forbidden => 403,
                ApiError::TooManyRequests => 429,
                ApiError::PairingUnavailable => 404,
                ApiError::NotFound => 404,
                ApiError::InvalidRequest => 400,
                ApiError::PayloadTooLarge => 413,
                ApiError::Internal => 500,
            },
    {
        match self {
            ApiError::Unauthorized => 401,
            ApiError::Forbidden => 403,
            ApiError::TooManyRequests => 429,
            ApiError::PairingUnavailable | ApiError::NotFound => 404,
            ApiError::InvalidRequest => 400,
            ApiError::PayloadTooLarge => 413,
            ApiError::Internal => 500,
        }
    }
}

/// The requests since a moment, in milliseconds.
#[derive(Debug, Clone, Copy, PartialEq, Eq, Structural)]
pub struct RateWindow {
    pub started: u64,
    pub requests: u32,
}

impl View for RateWindow {
    type V = RateWindow;

    open spec fn view(&self) -> RateWindow {
        *self
    }
}

impl Plain for RateWindow {
    fn duplicate(&self) -> (copy: Self) {
        *self
    }

    fn same(&self, other: &Self) -> (equal: bool) {
        *self == *other
    }
}

/// How long ago a window began.
pub open spec fn age(window: RateWindow, now: u64) -> int {
    if now >= window.started {
        now - window.started
    } else {
        0
    }
}

/// The windows that are not forgotten.
pub open spec fn remembered(rates: Map<Seq<char>, RateWindow>, now: u64) -> Map<
    Seq<char>,
    RateWindow,
> {
    Map::new(
        |bucket: Seq<char>| rates.contains_key(bucket) && age(rates[bucket], now) < RATE_MEMORY_MS,
        |bucket: Seq<char>| rates[bucket],
    )
}

/// The window of a bucket with one more request: the one that runs, or a new one.
pub open spec fn window_with(
    rates: Map<Seq<char>, RateWindow>,
    bucket: Seq<char>,
    now: u64,
) -> RateWindow {
    if rates.contains_key(bucket) && age(rates[bucket], now) < RATE_WINDOW_MS {
        let window = rates[bucket];
        RateWindow {
            started: window.started,
            requests: if window.requests < u32::MAX {
                (window.requests + 1) as u32
            } else {
                u32::MAX
            },
        }
    } else {
        RateWindow { started: now, requests: 1 }
    }
}

/// The windows after a request.
pub open spec fn counted(
    rates: Map<Seq<char>, RateWindow>,
    bucket: Seq<char>,
    now: u64,
) -> Map<Seq<char>, RateWindow> {
    remembered(rates, now).insert(bucket, window_with(rates, bucket, now))
}

fn elapsed(window: &RateWindow, now: u64) -> (time: u64)
    ensures
        time == age(*window, now),
{
    now.saturating_sub(window.started)
}

/// Counts a request, and tells whether it is within the limit of its bucket.
pub fn allow_bucket(
    windows: &mut TextMap<RateWindow>,
    bucket: &str,
    limit: u32,
    now: u64,
) -> (allowed: bool)
    ensures
        final(windows)@ == counted(old(windows)@, bucket@, now),
        allowed == (window_with(old(windows)@, bucket@, now).requests <= limit),
{
    let ghost rates = windows@;
    let window = match windows.get(bucket) {
        Some(running) => if elapsed(running, now) < RATE_WINDOW_MS {
            RateWindow { started: running.started, requests: running.requests.saturating_add(1) }
        } else {
            RateWindow { started: now, requests: 1 }
        },
        None => RateWindow { started: now, requests: 1 },
    };
    let mut kept: TextMap<RateWindow> = TextMap::new();
    let count: usize = windows.len();
    let ghost keys = windows.keys();
    let mut i: usize = 0;
    while i < count
        invariant
            rates == windows@,
            count == keys.len(),
            keys == windows.keys(),
            windows.lists_keys(),
            i <= count,
            forall|key: Seq<char>| #[trigger]
                kept@.contains_key(key) ==> rates.contains_key(key) && age(rates[key], now)
                    < RATE_MEMORY_MS && kept@[key] == rates[key],
            forall|j: int|
                0 <= j < i && age(rates[#[trigger] keys[j]], now) < RATE_MEMORY_MS
                    ==> kept@.contains_key(keys[j]),
        decreases count - i,
    {
        let value = windows.value_at(i);
        if elapsed(value, now) < RATE_MEMORY_MS {
            kept.insert(windows.key_at(i).duplicate(), *value);
        }
        i = i + 1;
    }
    proof {
        let expected = remembered(rates, now);
        assert forall|key: Seq<char>| #[trigger]
            expected.contains_key(key) implies kept@.contains_key(key) by {
            assert(rates.contains_key(key));
            assert(keys.contains(key));
            let j = keys.index_of(key);
            assert(keys[j] == key);
        }
        assert(kept@.dom() =~= expected.dom());
        assert(kept@ =~= expected);
    }
    kept.insert(bucket.to_owned(), window);
    *windows = kept;
    window.requests <= limit
}

/// A bucket whose window runs and is full turns every further request away.
pub proof fn lemma_full_window_refuses(
    rates: Map<Seq<char>, RateWindow>,
    bucket: Seq<char>,
    limit: u32,
    now: u64,
)
    requires
        rates.contains_key(bucket),
        age(rates[bucket], now) < RATE_WINDOW_MS,
        rates[bucket].requests >= limit,
        limit < u32::MAX,
    ensures
        window_with(rates, bucket, now).requests > limit,
{
}

/// A request counts in its own bucket only: any other keeps its window, until that is forgotten.
pub proof fn lemma_buckets_apart(
    rates: Map<Seq<char>, RateWindow>,
    bucket: Seq<char>,
    other: Seq<char>,
    now: u64,
)
    requires
        bucket != other,
    ensures
        counted(rates, bucket, now).contains_key(other) <==> rates.contains_key(other) && age(
            rates[other],
            now,
        ) < RATE_MEMORY_MS,
        counted(rates, bucket, now).contains_key(other) ==> counted(rates, bucket, now)[other]
            == rates[other],
{
}

/// The fields one after the other, each behind its length.
pub open spec fn text_fields(fields: Seq<&str>) -> Seq<Seq<u8>> {
    fields.map_values(|field: &str| encode_utf8(field@))
}

/// Texts one after the other, each behind its length.
pub fn length_prefixed(fields: &[&str]) -> (output: Vec<u8>)
    ensures
        output@ == crate::encoding::length_prefixed(text_fields(fields@)),
{
    let ghost all = text_fields(fields@);
    let mut output: Vec<u8> = Vec::new();
    let mut i: usize = 0;
    assert(all.take(0) =~= Seq::empty());
    while i < fields.len()
        invariant
            all == text_fields(fields@),
            i <= fields@.len(),
            output@ == crate::encoding::length_prefixed(all.take(i as int)),
        decreases fields@.len() - i,
    {
        push_field(&mut output, fields[i].as_bytes());
        proof {
            assert(all.take(i + 1).drop_last() =~= all.take(i as int));
            assert(all.take(i + 1).last() == encode_utf8(fields@[i as int]@));
        }
        i = i + 1;
    }
    assert(all.take(i as int) =~= all);
    output
}

/// What is bound to a sealed payload.
pub open spec fn payload_fields(workspace: Seq<char>) -> Seq<Seq<u8>> {
    seq![encode_utf8("clippy-sync-payload"@), encode_utf8("1"@), encode_utf8(workspace)]
}

/// What is bound to a sealed chunk.
pub open spec fn chunk_fields(workspace: Seq<char>, hash: Seq<char>) -> Seq<Seq<u8>> {
    seq![
        encode_utf8("clippy-sync-chunk"@),
        encode_utf8("1"@),
        encode_utf8(workspace),
        encode_utf8(hash),
    ]
}

/// What is bound to the sealed payloads of a workspace.
pub fn payload_aad(workspace_id: &str) -> (aad: Vec<u8>)
    ensures
        aad@ == crate::encoding::length_prefixed(payload_fields(workspace_id@)),
{
    let fields = ["clippy-sync-payload", "1", workspace_id];
    assert(text_fields(fields@) =~= payload_fields(workspace_id@));
    length_prefixed(fields.as_slice())
}

/// What is bound to a sealed chunk of a workspace.
pub fn chunk_aad(workspace_id: &str, hash: &str) -> (aad: Vec<u8>)
    ensures
        aad@ == crate::encoding::length_prefixed(chunk_fields(workspace_id@, hash@)),
{
    let fields = ["clippy-sync-chunk", "1", workspace_id, hash];
    assert(text_fields(fields@) =~= chunk_fields(workspace_id@, hash@));
    length_prefixed(fields.as_slice())
}

/// Payloads are bound to their workspace: two workspaces never share what is bound.
pub proof fn lemma_payload_aad_binds(a: Seq<char>, b: Seq<char>)
    requires
        crate::encoding::length_prefixed(payload_fields(a))
            == crate::encoding::length_prefixed(payload_fields(b)),
        encode_utf8(a).len() < 0x1_0000_0000,
        encode_utf8(b).len() < 0x1_0000_0000,
    ensures
        a == b,
{
    let x = payload_fields(a);
    let y = payload_fields(b);
    lemma_short_names();
    lemma_length_prefixed_injective(x, y);
    assert(x[2] == y[2]);
    lemma_encode_utf8_injective(a, b);
}

/// Chunks are bound to their workspace and their address.
pub proof fn lemma_chunk_aad_binds(a: Seq<char>, first: Seq<char>, b: Seq<char>, second: Seq<char>)
    requires
        crate::encoding::length_prefixed(chunk_fields(a, first))
            == crate::encoding::length_prefixed(chunk_fields(b, second)),
        encode_utf8(a).len() < 0x1_0000_0000,
        encode_utf8(b).len() < 0x1_0000_0000,
        encode_utf8(first).len() < 0x1_0000_0000,
        encode_utf8(second).len() < 0x1_0000_0000,
    ensures
        a == b,
        first == second,
{
    let x = chunk_fields(a, first);
    let y = chunk_fields(b, second);
    lemma_short_names();
    lemma_length_prefixed_injective(x, y);
    assert(x[2] == y[2] && x[3] == y[3]);
    lemma_encode_utf8_injective(a, b);
    lemma_encode_utf8_injective(first, second);
}

proof fn lemma_short_names()
    ensures
        encode_utf8("clippy-sync-payload"@).len() < 0x1_0000_0000,
        encode_utf8("clippy-sync-chunk"@).len() < 0x1_0000_0000,
        encode_utf8("1"@).len() < 0x1_0000_0000,
{
    reveal_strlit("clippy-sync-payload");
    reveal_strlit("clippy-sync-chunk");
    reveal_strlit("1");
    lemma_utf8_bound("clippy-sync-payload"@);
    lemma_utf8_bound("clippy-sync-chunk"@);
    lemma_utf8_bound("1"@);
}

pub(crate) proof fn lemma_utf8_bound(text: Seq<char>)
    ensures
        encode_utf8(text).len() <= 4 * text.len(),
    decreases text.len(),
{
    reveal_with_fuel(encode_utf8, 2);
    if text.len() > 0 {
        lemma_utf8_bound(text.drop_first());
    }
}

/// A payload never passes for a chunk.
pub proof fn lemma_aads_apart(a: Seq<char>, b: Seq<char>, hash: Seq<char>)
    ensures
        crate::encoding::length_prefixed(payload_fields(a)) != crate::encoding::length_prefixed(
            chunk_fields(b, hash),
        ),
{
    reveal_strlit("clippy-sync-payload");
    reveal_strlit("clippy-sync-chunk");
    is_ascii_chars_encode_utf8("clippy-sync-payload"@);
    is_ascii_chars_encode_utf8("clippy-sync-chunk"@);
    let x = payload_fields(a);
    let y = chunk_fields(b, hash);
    lemma_prefixed_front(x);
    lemma_prefixed_front(y);
    let left = crate::encoding::length_prefixed(x);
    let right = crate::encoding::length_prefixed(y);
    assert(left[3] == be32(19)[3]);
    assert(right[3] == be32(17)[3]);
}

/// The sessions of an environment, with what they are checked by.
pub struct DirectSessionOrigin {
    pub sessions: ConnectSessionStore,
    pub relay_verifier: RelayProofVerifier,
    pub identity: EnvironmentIdentity,
    pub endpoint: RelayEndpoint,
}

/// What is known of the sessions of an environment.
pub struct DirectView {
    pub sessions: SessionView,
    pub verifier: VerifierView,
    pub identity: Seq<u8>,
    pub endpoint: EndpointView,
}

impl View for DirectSessionOrigin {
    type V = DirectView;

    open spec fn view(&self) -> DirectView {
        DirectView {
            sessions: self.sessions@,
            verifier: self.relay_verifier@,
            identity: self.identity@,
            endpoint: self.endpoint@,
        }
    }
}

/// What a device that answers others goes by.
pub struct OriginState {
    pub workspace_id: String,
    pub key: WorkspaceKey,
    pub owner: AuthenticatedPrincipal,
    pub direct: Option<DirectSessionOrigin>,
    pub legacy_bearer_migration: bool,
    pub pending_pairing: Option<PendingPairing>,
    pub connected_peers: usize,
    pub rate: TextMap<RateWindow>,
}

/// What a device that answers others goes by.
pub struct OriginView {
    pub workspace: Seq<char>,
    pub key: Seq<u8>,
    pub owner: PrincipalView,
    pub direct: Option<DirectView>,
    pub legacy: bool,
    pub pairing: Option<PendingPairing>,
    pub peers: usize,
    pub rates: Map<Seq<char>, RateWindow>,
}

impl View for OriginState {
    type V = OriginView;

    open spec fn view(&self) -> OriginView {
        OriginView {
            workspace: self.workspace_id@,
            key: self.key@,
            owner: self.owner@,
            direct: opt_view(self.direct),
            legacy: self.legacy_bearer_migration,
            pairing: self.pending_pairing,
            peers: self.connected_peers,
            rates: self.rate@,
        }
    }
}

/// A request is refused: a client that is refused too often is told to wait.
pub open spec fn refused(state: OriginView, client: Seq<char>, now_ms: u64) -> (
    OriginView,
    ApiError,
) {
    let bucket = "unauth:"@ + client;
    (
        OriginView { rates: counted(state.rates, bucket, now_ms), ..state },
        if window_with(state.rates, bucket, now_ms).requests <= REFUSED_LIMIT {
            ApiError::Unauthorized
        } else {
            ApiError::TooManyRequests
        },
    )
}

/// The bucket of an account at a client.
pub open spec fn account_bucket(client: Seq<char>, subject: Seq<char>) -> Seq<char> {
    "auth:"@ + client + ":"@ + subject
}

/// An account is let in, where it is the owner and does not ask too often.
pub open spec fn admitted(
    state: OriginView,
    principal: PrincipalView,
    client: Seq<char>,
    now_ms: u64,
) -> (OriginView, Result<PrincipalView, ApiError>) {
    let bucket = account_bucket(client, principal.subject);
    if principal != state.owner {
        (state, Err(ApiError::Forbidden))
    } else {
        (
            OriginView { rates: counted(state.rates, bucket, now_ms), ..state },
            if window_with(state.rates, bucket, now_ms).requests <= ACCOUNT_LIMIT {
                Ok(principal)
            } else {
                Err(ApiError::TooManyRequests)
            },
        )
    }
}

/// What comes of what the sessions say.
pub open spec fn session_admitted(
    state: OriginView,
    direct: DirectView,
    outcome: (SessionView, Result<PrincipalView, ConnectError>),
    client: Seq<char>,
    now_ms: u64,
) -> (OriginView, Result<PrincipalView, ApiError>) {
    let next = OriginView {
        direct: Some(DirectView { sessions: outcome.0, ..direct }),
        ..state
    };
    match outcome.1 {
        Err(_) => {
            let (after, error) = refused(next, client, now_ms);
            (after, Err(error))
        },
        Ok(principal) => admitted(next, principal, client, now_ms),
    }
}

/// The address of a path at an endpoint.
pub open spec fn address_at(endpoint: EndpointView, path: Seq<char>) -> Seq<char> {
    without_trailing(endpoint.http, '/') + path
}

/// Who makes a request, by its headers. A session is looked at first; a plain access token counts
/// only where it is still allowed, so that it can never stand in for a session.
pub open spec fn http_authorized(
    state: OriginView,
    authorization: Seq<char>,
    dpop: Option<Seq<char>>,
    bearer: Option<PrincipalView>,
    client: Seq<char>,
    method: Seq<char>,
    path: Seq<char>,
    now: u64,
    now_ms: u64,
) -> (OriginView, Result<PrincipalView, ApiError>) {
    let (after_refusal, refusal) = refused(state, client, now_ms);
    if starts_with(authorization, "DPoP "@) {
        let token = authorization.skip(5);
        match (state.direct, dpop) {
            (Some(direct), Some(shown)) => session_admitted(
                state,
                direct,
                authorized(
                    direct.sessions,
                    token,
                    token_proof(shown, method, address_at(direct.endpoint, path), token, now),
                    now,
                ),
                client,
                now_ms,
            ),
            _ => (after_refusal, Err(refusal)),
        }
    } else if starts_with(authorization, "Bearer "@) && state.legacy {
        match bearer {
            Some(principal) => admitted(state, principal, client, now_ms),
            None => (after_refusal, Err(refusal)),
        }
    } else {
        (after_refusal, Err(refusal))
    }
}

/// What a result says of a principal.
pub open spec fn admission(result: Result<AuthenticatedPrincipal, ApiError>) -> Result<
    PrincipalView,
    ApiError,
> {
    match result {
        Ok(principal) => Ok(principal@),
        Err(error) => Err(error),
    }
}

/// The token and the proof that the headers of a session carry, if they do.
pub open spec fn session_headers(authorization: Option<Seq<char>>, dpop: Option<Seq<char>>) -> Option<
    (Seq<char>, Seq<char>),
> {
    match (authorization, dpop) {
        (Some(value), Some(shown)) => {
            let token = value.skip(5);
            if starts_with(value, "DPoP "@) && token.len() > 0 && !token.contains('\n')
                && !token.contains('\r') && shown.len() > 0 {
                Some((token, shown))
            } else {
                None
            }
        },
        _ => None,
    }
}

proof fn lemma_scheme_lengths()
    ensures
        "DPoP "@.len() == 5,
        "Bearer "@.len() == 7,
{
    reveal_strlit("DPoP ");
    reveal_strlit("Bearer ");
}

/// The token and the proof that the headers of a session carry.
pub fn dpop_credentials<'a>(authorization: Option<&'a str>, dpop: Option<&'a str>) -> (result:
    Result<(&'a str, &'a str), ApiError>)
    ensures
        match session_headers(
            match authorization {
                Some(value) => Some(value@),
                None => None,
            },
            match dpop {
                Some(value) => Some(value@),
                None => None,
            },
        ) {
            Some((token, shown)) => result matches Ok(pair) && pair.0@ == token && pair.1@ == shown,
            None => result == Err::<(&'a str, &'a str), ApiError>(ApiError::Unauthorized),
        },
{
    proof {
        lemma_scheme_lengths();
    }
    match (authorization, dpop) {
        (Some(value), Some(shown)) => match after_prefix(value, "DPoP ") {
            Some(token) => if !token.is_empty() && !contains_char(token, '\n') && !contains_char(
                token,
                '\r',
            ) && !shown.is_empty() {
                Ok((token, shown))
            } else {
                Err(ApiError::Unauthorized)
            },
            None => Err(ApiError::Unauthorized),
        },
        _ => Err(ApiError::Unauthorized),
    }
}

/// The plain access token that is to be checked for a request: only where such tokens are still
/// allowed.
pub fn bearer_token<'a>(authorization: &'a str, legacy_bearer_migration: bool) -> (token: Option<
    &'a str,
>)
    ensures
        token is Some <==> legacy_bearer_migration && starts_with(authorization@, "Bearer "@),
        token matches Some(text) ==> text@ == authorization@.skip(7),
{
    proof {
        lemma_scheme_lengths();
    }
    if legacy_bearer_migration {
        after_prefix(authorization, "Bearer ")
    } else {
        None
    }
}

impl OriginState {
    /// A device that nobody has asked yet.
    pub fn new(
        workspace_id: String,
        key: WorkspaceKey,
        owner: AuthenticatedPrincipal,
        direct: Option<DirectSessionOrigin>,
        legacy_bearer_migration: bool,
    ) -> (state: Self)
        ensures
            state@ == (OriginView {
                workspace: workspace_id@,
                key: key@,
                owner: owner@,
                direct: opt_view(direct),
                legacy: legacy_bearer_migration,
                pairing: None,
                peers: 0,
                rates: Map::empty(),
            }),
    {
        OriginState {
            workspace_id,
            key,
            owner,
            direct,
            legacy_bearer_migration,
            pending_pairing: None,
            connected_peers: 0,
            rate: TextMap::new(),
        }
    }

    fn unauthorized(&mut self, client: &str, now_ms: u64) -> (error: ApiError)
        ensures
            (final(self)@, error) == refused(old(self)@, client@, now_ms),
    {
        let mut bucket = "unauth:".to_owned();
        bucket.append(client);
        if allow_bucket(&mut self.rate, bucket.as_str(), REFUSED_LIMIT, now_ms) {
            ApiError::Unauthorized
        } else {
            ApiError::TooManyRequests
        }
    }

    /// Lets an account in, where it is the owner and does not ask too often.
    pub fn authorize_direct_principal(
        &mut self,
        principal: AuthenticatedPrincipal,
        client: &str,
        now_ms: u64,
    ) -> (result: Result<AuthenticatedPrincipal, ApiError>)
        ensures
            (final(self)@, admission(result)) == admitted(
                old(self)@,
                principal@,
                client@,
                now_ms,
            ),
    {
        if !principal_matches(&principal, &self.owner) {
            return Err(ApiError::Forbidden);
        }
        let mut bucket = "auth:".to_owned();
        bucket.append(client);
        bucket.append(":");
        bucket.append(principal.subject.as_str());
        if !allow_bucket(&mut self.rate, bucket.as_str(), ACCOUNT_LIMIT, now_ms) {
            return Err(ApiError::TooManyRequests);
        }
        Ok(principal)
    }

    fn direct_address(&self, path: &str) -> (address: String)
        requires
            self.direct is Some,
        ensures
            address@ == address_at(self@.direct->0.endpoint, path@),
    {
        let mut address = match &self.direct {
            Some(direct) => trim_trailing(direct.endpoint.http_base_url.as_str(), '/'),
            None => String::new(),
        };
        address.append(path);
        address
    }

    /// Tells who makes a request. What the checking of a plain access token has come to is given,
    /// where there was one to be checked.
    pub fn authorize_http(
        &mut self,
        authorization: &str,
        dpop: Option<&str>,
        bearer: Option<AuthenticatedPrincipal>,
        client: &str,
        method: &str,
        path: &str,
        now: u64,
        now_ms: u64,
    ) -> (result: Result<AuthenticatedPrincipal, ApiError>)
        ensures
            (final(self)@, admission(result)) == http_authorized(
                old(self)@,
                authorization@,
                match dpop {
                    Some(value) => Some(value@),
                    None => None,
                },
                opt_view(bearer),
                client@,
                method@,
                path@,
                now,
                now_ms,
            ),
    {
        proof {
            lemma_scheme_lengths();
        }
        let ghost before = self@;
        match after_prefix(authorization, "DPoP ") {
            Some(token) => {
                let shown = match (&self.direct, dpop) {
                    (Some(_), Some(shown)) => shown,
                    _ => {
                        return Err(self.unauthorized(client, now_ms));
                    },
                };
                let address = self.direct_address(path);
                let outcome = match &mut self.direct {
                    Some(direct) => direct.sessions.authorize(
                        token,
                        shown,
                        method,
                        address.as_str(),
                        now,
                    ),
                    None => Err(ConnectError::InvalidCredential),
                };
                assert(self@ == (OriginView {
                    direct: Some(
                        DirectView { sessions: self@.direct->0.sessions, ..before.direct->0 },
                    ),
                    ..before
                }));
                match outcome {
                    Err(_) => Err(self.unauthorized(client, now_ms)),
                    Ok(principal) => self.authorize_direct_principal(principal, client, now_ms),
                }
            },
            None => {
                let allowed = bearer_token(authorization, self.legacy_bearer_migration).is_some();
                match bearer {
                    Some(principal) => if allowed {
                        self.authorize_direct_principal(principal, client, now_ms)
                    } else {
                        Err(self.unauthorized(client, now_ms))
                    },
                    None => Err(self.unauthorized(client, now_ms)),
                }
            },
        }
    }
}

/// What comes of a socket ticket.
pub open spec fn ticket_authorized(
    state: OriginView,
    ticket: Seq<char>,
    client: Seq<char>,
    now: u64,
    now_ms: u64,
) -> (OriginView, Result<PrincipalView, ApiError>) {
    match state.direct {
        None => (state, Err(ApiError::Unauthorized)),
        Some(direct) => session_admitted(
            state,
            direct,
            ticket_consumed(direct.sessions, ticket, now),
            client,
            now_ms,
        ),
    }
}

/// What comes of a proof of the relay: the answer, which is made only where neither session nor
/// token comes along with the proof.
pub open spec fn mint_answered(
    state: OriginView,
    has_credentials: bool,
    proof: Seq<char>,
    client: Seq<char>,
    credential: Seq<char>,
    now: u64,
    now_ms: u64,
) -> (OriginView, Result<MintResponseView, ApiError>) {
    let bucket = "mint:"@ + client;
    let next = OriginView { rates: counted(state.rates, bucket, now_ms), ..state };
    if has_credentials {
        (state, Err(ApiError::InvalidRequest))
    } else if window_with(state.rates, bucket, now_ms).requests > REFUSED_LIMIT {
        (next, Err(ApiError::TooManyRequests))
    } else {
        match state.direct {
            None => (next, Err(ApiError::NotFound)),
            Some(direct) => {
                let (sessions, outcome) = mint_outcome(
                    direct.sessions,
                    direct.verifier,
                    proof,
                    direct.identity,
                    state.owner,
                    direct.endpoint,
                    credential,
                    now,
                );
                (
                    OriginView { direct: Some(DirectView { sessions, ..direct }), ..next },
                    match outcome {
                        Ok(response) => Ok(response),
                        Err(_) => Err(ApiError::Unauthorized),
                    },
                )
            },
        }
    }
}

/// What a result says of an answer.
pub open spec fn mint_answer(result: Result<MintResponse, ApiError>) -> Result<
    MintResponseView,
    ApiError,
> {
    match result {
        Ok(response) => Ok(response@),
        Err(error) => Err(error),
    }
}

/// What comes of a credential: an access token, for the owner alone.
pub open spec fn token_answered(
    state: OriginView,
    authorization: Option<Seq<char>>,
    dpop: Option<Seq<char>>,
    client: Seq<char>,
    access_token: Seq<char>,
    now: u64,
    now_ms: u64,
) -> (OriginView, Result<PrincipalView, ApiError>) {
    match state.direct {
        None => (state, Err(ApiError::NotFound)),
        Some(direct) => match session_headers(authorization, dpop) {
            None => {
                let (after, error) = refused(state, client, now_ms);
                (after, Err(error))
            },
            Some((credential, shown)) => session_admitted(
                state,
                direct,
                bootstrap_exchanged(
                    direct.sessions,
                    credential,
                    token_proof(
                        shown,
                        "POST"@,
                        address_at(direct.endpoint, "/v1/connect/token"@),
                        credential,
                        now,
                    ),
                    access_token,
                    now,
                ),
                client,
                now_ms,
            ),
        },
    }
}

/// What comes of a request for a socket ticket.
pub open spec fn ticket_answered(
    state: OriginView,
    authorization: Option<Seq<char>>,
    dpop: Option<Seq<char>>,
    client: Seq<char>,
    ticket: Seq<char>,
    now: u64,
    now_ms: u64,
) -> (OriginView, Result<PrincipalView, ApiError>) {
    match state.direct {
        None => (state, Err(ApiError::NotFound)),
        Some(direct) => match session_headers(authorization, dpop) {
            None => {
                let (after, error) = refused(state, client, now_ms);
                (after, Err(error))
            },
            Some((access_token, shown)) => session_admitted(
                state,
                direct,
                ticket_issued(
                    direct.sessions,
                    access_token,
                    token_proof(
                        shown,
                        "POST"@,
                        address_at(direct.endpoint, "/v1/connect/websocket-ticket"@),
                        access_token,
                        now,
                    ),
                    ticket,
                    now,
                ),
                client,
                now_ms,
            ),
        },
    }
}

/// What stands in a header.
pub open spec fn header_view(header: Option<&str>) -> Option<Seq<char>> {
    match header {
        Some(value) => Some(value@),
        None => None,
    }
}

impl OriginState {
    /// Tells who opens a socket with a ticket.
    pub fn authorize_ticket(&mut self, ticket: &str, client: &str, now: u64, now_ms: u64) -> (result:
        Result<AuthenticatedPrincipal, ApiError>)
        ensures
            (final(self)@, admission(result)) == ticket_authorized(
                old(self)@,
                ticket@,
                client@,
                now,
                now_ms,
            ),
    {
        let outcome = match &mut self.direct {
            Some(direct) => direct.sessions.consume_websocket_ticket(ticket, now),
            None => {
                return Err(ApiError::Unauthorized);
            },
        };
        match outcome {
            Err(_) => Err(self.unauthorized(client, now_ms)),
            Ok(principal) => self.authorize_direct_principal(principal, client, now_ms),
        }
    }

    /// Answers a proof of the relay with a one-use credential.
    pub fn connect_mint(
        &mut self,
        has_credentials: bool,
        proof: &str,
        client: &str,
        now: u64,
        now_ms: u64,
    ) -> (result: Result<MintResponse, ApiError>)
        requires
            old(self)@.direct matches Some(direct) ==> direct.verifier.key.len() >= 32,
        ensures
            exists|credential: Seq<char>| #[trigger]
                token_shaped(credential) && (final(self)@, mint_answer(result)) == mint_answered(
                    old(self)@,
                    has_credentials,
                    proof@,
                    client@,
                    credential,
                    now,
                    now_ms,
                ),
    {
        let ghost any = crate::encoding::base64url(Seq::new(32, |i: int| 0u8));
        proof {
            assert(crate::encoding::decodes_to(any, Seq::new(32, |i: int| 0u8), 32));
            assert(token_shaped(any));
        }
        if has_credentials {
            return Err(ApiError::InvalidRequest);
        }
        let mut bucket = "mint:".to_owned();
        bucket.append(client);
        if !allow_bucket(&mut self.rate, bucket.as_str(), REFUSED_LIMIT, now_ms) {
            return Err(ApiError::TooManyRequests);
        }
        match &mut self.direct {
            None => Err(ApiError::NotFound),
            Some(direct) => {
                let outcome = direct.sessions.mint_from_relay(
                    proof,
                    &direct.relay_verifier,
                    &direct.identity,
                    &self.owner,
                    &direct.endpoint,
                    now,
                );
                match outcome {
                    Ok(response) => Ok(response),
                    Err(_) => Err(ApiError::Unauthorized),
                }
            },
        }
    }

    /// Exchanges a credential for an access token, for the owner alone.
    pub fn connect_token(
        &mut self,
        authorization: Option<&str>,
        dpop: Option<&str>,
        client: &str,
        now: u64,
        now_ms: u64,
    ) -> (result: Result<TokenResponse, ApiError>)
        ensures
            exists|access_token: Seq<char>| #[trigger]
                token_shaped(access_token) && match token_answered(
                    old(self)@,
                    header_view(authorization),
                    header_view(dpop),
                    client@,
                    access_token,
                    now,
                    now_ms,
                ) {
                    (state, Ok(_)) => (result matches Ok(response) && hands_out(
                        response,
                        access_token,
                    )) && final(self)@ == state,
                    (state, Err(error)) => result == Err::<TokenResponse, ApiError>(error)
                        && final(self)@ == state,
                },
    {
        let ghost any = crate::encoding::base64url(Seq::new(32, |i: int| 0u8));
        proof {
            assert(crate::encoding::decodes_to(any, Seq::new(32, |i: int| 0u8), 32));
            assert(token_shaped(any));
        }
        if self.direct.is_none() {
            return Err(ApiError::NotFound);
        }
        let (credential, shown) = match dpop_credentials(authorization, dpop) {
            Err(_) => {
                return Err(self.unauthorized(client, now_ms));
            },
            Ok(pair) => pair,
        };
        let address = self.direct_address("/v1/connect/token");
        let outcome = match &mut self.direct {
            Some(direct) => direct.sessions.exchange_bootstrap(
                credential,
                shown,
                "POST",
                address.as_str(),
                now,
            ),
            None => Err(ConnectError::InvalidCredential),
        };
        match outcome {
            Err(_) => Err(self.unauthorized(client, now_ms)),
            Ok((response, principal)) => match self.authorize_direct_principal(
                principal,
                client,
                now_ms,
            ) {
                Err(error) => Err(error),
                Ok(_) => Ok(response),
            },
        }
    }

    /// Issues a socket ticket, to the owner alone.
    pub fn connect_websocket_ticket(
        &mut self,
        authorization: Option<&str>,
        dpop: Option<&str>,
        client: &str,
        now: u64,
        now_ms: u64,
    ) -> (result: Result<WebsocketTicketResponse, ApiError>)
        ensures
            exists|ticket: Seq<char>| #[trigger]
                token_shaped(ticket) && match ticket_answered(
                    old(self)@,
                    header_view(authorization),
                    header_view(dpop),
                    client@,
                    ticket,
                    now,
                    now_ms,
                ) {
                    (state, Ok(_)) => (result matches Ok(response) && response.ws_ticket@ == ticket
                        && response.expires_in == WEBSOCKET_TICKET_TTL_SECONDS) && final(self)@
                        == state,
                    (state, Err(error)) => result == Err::<WebsocketTicketResponse, ApiError>(
                        error,
                    ) && final(self)@ == state,
                },
    {
        let ghost any = crate::encoding::base64url(Seq::new(32, |i: int| 0u8));
        proof {
            assert(crate::encoding::decodes_to(any, Seq::new(32, |i: int| 0u8), 32));
            assert(token_shaped(any));
        }
        if self.direct.is_none() {
            return Err(ApiError::NotFound);
        }
        let (access_token, shown) = match dpop_credentials(authorization, dpop) {
            Err(_) => {
                return Err(self.unauthorized(client, now_ms));
            },
            Ok(pair) => pair,
        };
        let address = self.direct_address("/v1/connect/websocket-ticket");
        let outcome = match &mut self.direct {
            Some(direct) => direct.sessions.issue_websocket_ticket(
                access_token,
                shown,
                "POST",
                address.as_str(),
                now,
            ),
            None => Err(ConnectError::InvalidCredential),
        };
        match outcome {
            Err(_) => Err(self.unauthorized(client, now_ms)),
            Ok((response, principal)) => match self.authorize_direct_principal(
                principal,
                client,
                now_ms,
            ) {
                Err(error) => Err(error),
                Ok(_) => Ok(response),
            },
        }
    }

    /// Answers a device that wants to join. An offer is used up by the first answer to it that can
    /// be accepted, and by no other.
    pub fn pair(
        &mut self,
        response: &PairingResponse,
        principal: &AuthenticatedPrincipal,
        now_ms: u64,
    ) -> (result: Result<PairingGrant, ApiError>)
        ensures
            match old(self)@.pairing {
                None => result == Err::<PairingGrant, ApiError>(ApiError::PairingUnavailable)
                    && final(self)@ == old(self)@,
                Some(pending) => match response_fault(
                    pending.offered(),
                    pending.owner(),
                    response.one_time_token@,
                    response.phone_public_key@,
                    principal@,
                    now_ms,
                ) {
                    Some(_) => result == Err::<PairingGrant, ApiError>(ApiError::InvalidRequest)
                        && final(self)@ == old(self)@,
                    None => {
                        &&& final(self)@ == (OriginView { pairing: None, ..old(self)@ })
                        &&& result is Ok <==> sealable(
                            grant_payload(pending.offered().workspace, pending.key(), principal@),
                        )
                        &&& result matches Err(error) ==> error == ApiError::InvalidRequest
                        &&& result matches Ok(grant) ==> grant@.phone_public_key
                            == response.phone_public_key@ && grants(
                            grant@,
                            pending.offered(),
                            pending.secret(),
                            pending.key(),
                            principal@,
                        )
                    },
                },
            },
    {
        match &self.pending_pairing {
            None => {
                return Err(ApiError::PairingUnavailable);
            },
            Some(pending) => {
                if let Err(_) = pending.validate_response(response, principal, now_ms) {
                    return Err(ApiError::InvalidRequest);
                }
            },
        }
        match self.pending_pairing.take() {
            None => Err(ApiError::PairingUnavailable),
            Some(pending) => match pending.complete(response, principal, now_ms) {
                Err(_) => Err(ApiError::InvalidRequest),
                Ok(grant) => Ok(grant),
            },
        }
    }
}

/// Whoever is let in by a session is the owner, and showed a proof that holds of this very request.
pub proof fn lemma_admitted_by_proof(
    state: OriginView,
    authorization: Seq<char>,
    dpop: Option<Seq<char>>,
    bearer: Option<PrincipalView>,
    client: Seq<char>,
    method: Seq<char>,
    path: Seq<char>,
    now: u64,
    now_ms: u64,
)
    requires
        http_authorized(
            state,
            authorization,
            dpop,
            bearer,
            client,
            method,
            path,
            now,
            now_ms,
        ).1 is Ok,
    ensures
        http_authorized(
            state,
            authorization,
            dpop,
            bearer,
            client,
            method,
            path,
            now,
            now_ms,
        ).1 == Ok::<PrincipalView, ApiError>(state.owner),
        starts_with(authorization, "DPoP "@) ==> {
            &&& state.direct is Some
            &&& dpop is Some
            &&& token_proof(
                dpop->0,
                method,
                address_at(state.direct->0.endpoint, path),
                authorization.skip(5),
                now,
            ) is Some
        },
        !starts_with(authorization, "DPoP "@) ==> state.legacy && starts_with(
            authorization,
            "Bearer "@,
        ) && bearer == Some(state.owner),
{
}

} // verus!
