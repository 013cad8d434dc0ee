//! Access tokens of accounts: which of them hold, and whose they are.

use jsonwebtoken::jwk::JwkSet;
use jsonwebtoken::{Algorithm, DecodingKey, Validation};
use serde::de::IgnoredAny;
use std::collections::{BTreeMap, HashSet};
use vstd::prelude::*;
use vstd::string::*;
use vstd::utf8::*;

use crate::crypto::{AuthenticatedPrincipal, PrincipalView};
use crate::dpop::{read_token_header, token_header, TokenAlgorithm};
use crate::encoding::{decode, decoded};
use crate::json::{json_member, read_member, JsonMember, MemberView};
use crate::plain::{opt_view, views, Plain};
use crate::relay::{read_natural, read_optional, read_text, EXPIRY_LEEWAY_SECONDS};
use crate::sessions::Lasting;
use crate::signing::{token_hash, token_hash_of};
use crate::text::{
    has_prefix, is_blank, split, split_text, starts_with, trim_trailing, trimmed, without_trailing,
};
use crate::textmap::TextMap;

verus! {

/// The longest token that is looked at, in bytes.
pub const MAX_TOKEN_BYTES: usize = 16_384;

/// How long a token that was found good is remembered, in milliseconds.
pub const PRINCIPAL_MEMORY_MS: u64 = 300_000;

/// How many good tokens are remembered at most.
pub const MAX_PRINCIPALS: usize = 128;

/// How long signing keys are remembered, in milliseconds.
pub const KEYS_MEMORY_MS: u64 = 900_000;

/// Why a token is refused.
#[derive(Debug, Clone, Copy, PartialEq, Eq, Structural)]
pub enum AuthError {
    Configuration,
    InvalidToken,
    JwksUnavailable,
}

/// What `jsonwebtoken` makes of a key set and the identifier of a key.
#[derive(Debug, Clone, Copy, PartialEq, Eq, Structural)]
pub enum KeyLookup {
    /// The document is no key set.
    Unreadable,
    /// The set has no such key.
    Missing,
    /// There is such a key, but nothing can be checked with it.
    Unusable,
    Usable,
}

/// What a key set holds under an identifier.
pub uninterp spec fn key_lookup(keys: Seq<char>, key_id: Seq<char>) -> KeyLookup;

/// `serde_json::from_str` into a `JwkSet`, `JwkSet::find` and `DecodingKey::from_jwk`.
#[verifier::external_body]
pub(crate) fn look_up_key(keys: &str, key_id: &str) -> (found: KeyLookup)
    ensures
        found == key_lookup(keys@, key_id@),
{
    match serde_json::from_str::<JwkSet>(keys) {
        Err(_) => KeyLookup::Unreadable,
        Ok(set) => match set.find(key_id).map(DecodingKey::from_jwk) {
            None => KeyLookup::Missing,
            Some(Err(_)) => KeyLookup::Unusable,
            Some(Ok(_)) => KeyLookup::Usable,
        },
    }
}

/// `jsonwebtoken::decode` accepts the token under the key of the set, from the issuer, for the
/// audience where one is given, and with the claims that it must have, with the time not looked
/// at.
pub uninterp spec fn rs256_accepted(
    token: Seq<char>,
    keys: Seq<char>,
    key_id: Seq<char>,
    issuer: Seq<char>,
    audience: Option<Seq<char>>,
    required: Seq<Seq<char>>,
) -> bool;

/// The names of claims.
pub open spec fn claim_names(names: Seq<&str>) -> Seq<Seq<char>> {
    names.map_values(|name: &str| name@)
}

/// The claims that an access token must have.
pub open spec fn access_required() -> Seq<Seq<char>> {
    seq!["exp"@, "iss"@, "sub"@, "aud"@]
}

/// `jsonwebtoken::decode` for `RS256` with the key of the set, the issuer, the audience where one is
/// given, and the claims that it must have, into names and whatever stands under them, with the time
/// not looked at. Of a token that it accepts, an issuer that is text is the one asked for, where
/// there must be one, and so is an audience that is text, where one is asked for and must be there.
#[verifier::external_body]
pub(crate) fn rs256_accepts(
    token: &str,
    keys: &str,
    key_id: &str,
    issuer: &str,
    audience: Option<&str>,
    required: &[&str],
) -> (accepted: bool)
    ensures
        accepted == rs256_accepted(
            token@,
            keys@,
            key_id@,
            issuer@,
            match audience {
                Some(text) => Some(text@),
                None => None,
            },
            claim_names(required@),
        ),
        accepted ==> forall|claims: Seq<u8>|
            split(token@, '.').len() == 3 && #[trigger] decoded(split(token@, '.')[1]) == Some(
                claims,
            ) ==> {
                &&& claim_names(required@).contains("iss"@) ==> (json_member(
                    claims,
                    "iss"@,
                ) matches MemberView::Text(named) ==> named == issuer@)
                &&& claim_names(required@).contains("aud"@) ==> (
                audience matches Some(asked) ==> (json_member(
                    claims,
                    "aud"@,
                ) matches MemberView::Text(named) ==> named == asked@))
            },
{
    let mut validation = Validation::new(Algorithm::RS256);
    validation.set_issuer(&[issuer]);
    validation.aud = audience.map(|asked| HashSet::from([asked.to_string()]));
    validation.validate_aud = audience.is_some();
    validation.set_required_spec_claims(required);
    validation.validate_exp = false;
    serde_json::from_str::<JwkSet>(keys).ok().is_some_and(|set| {
        set.find(key_id).and_then(|jwk| DecodingKey::from_jwk(jwk).ok()).is_some_and(|key|
            jsonwebtoken::decode::<BTreeMap<String, IgnoredAny>>(token, &key, &validation).is_ok())
    })
}

/// `jsonwebtoken::decode` for `RS256` with the key of the set, whatever is claimed, with the time
/// looked at. Whether the token has expired depends on the clock of this machine, so that nothing is
/// promised of the result. A clock that stands before 1970 is none that it can read.
#[verifier::external_body]
pub(crate) fn rs256_current(token: &str, keys: &str, key_id: &str) -> (current: bool) {
    let mut validation = Validation::new(Algorithm::RS256);
    validation.validate_aud = false;
    serde_json::from_str::<JwkSet>(keys).ok().is_some_and(|set| {
        set.find(key_id).and_then(|jwk| DecodingKey::from_jwk(jwk).ok()).is_some_and(|key|
            jsonwebtoken::decode::<IgnoredAny>(token, &key, &validation).is_ok())
    })
}

/// What a token claims.
#[derive(Debug, Clone, PartialEq, Eq)]
pub struct AccessClaims {
    pub sub: String,
    pub org_id: Option<String>,
    pub exp: u64,
}

/// What a token claims.
pub struct AccessView {
    pub owner: PrincipalView,
    pub expires_at: u64,
}

impl View for AccessClaims {
    type V = AccessView;

    open spec fn view(&self) -> AccessView {
        AccessView {
            owner: PrincipalView { subject: self.sub@, organization: opt_view(self.org_id) },
            expires_at: self.exp,
        }
    }
}

/// What a document claims.
pub open spec fn access_read(document: Seq<u8>) -> Option<AccessView> {
    match (
        read_text(json_member(document, "sub"@)),
        read_optional(json_member(document, "org_id"@)),
        read_natural(json_member(document, "exp"@)),
    ) {
        (Some(subject), Some(organization), Some(expires_at)) => Some(
            AccessView { owner: PrincipalView { subject, organization }, expires_at },
        ),
        _ => None,
    }
}

/// What a document claims.
pub fn read_access_claims(document: &[u8]) -> (claims: Option<AccessClaims>)
    ensures
        opt_view(claims) == access_read(document@),
{
    let org_id = match read_member(document, "org_id") {
        JsonMember::Text(text) => Some(text),
        JsonMember::Null | JsonMember::Missing => None,
        _ => {
            return None;
        },
    };
    match (read_member(document, "sub"), read_member(document, "exp")) {
        (JsonMember::Text(sub), JsonMember::Natural(exp)) => Some(
            AccessClaims { sub, org_id, exp },
        ),
        _ => None,
    }
}

/// The claims of a token of three parts.
pub open spec fn claims_document(token: Seq<char>) -> Option<Seq<u8>> {
    decoded(split(token, '.')[1])
}

/// The token is short enough, and in three parts.
pub open spec fn token_formed(token: Seq<char>) -> bool {
    encode_utf8(token).len() <= MAX_TOKEN_BYTES && split(token, '.').len() == 3
}

/// The claims of a token, where the key of the set has signed them for this issuer and audience,
/// they are not over, and name somebody.
pub open spec fn access_verdict(
    token: Seq<char>,
    keys: Seq<char>,
    key_id: Seq<char>,
    issuer: Seq<char>,
    audience: Seq<char>,
    now: u64,
) -> Option<AccessView> {
    if !rs256_accepted(token, keys, key_id, issuer, Some(audience), access_required()) {
        None
    } else {
        match claims_document(token) {
            None => None,
            Some(document) => match access_read(document) {
                None => None,
                Some(claims) => if claims.expires_at + EXPIRY_LEEWAY_SECONDS >= now
                    && claims.owner.subject.len() > 0 {
                    Some(claims)
                } else {
                    None
                },
            },
        }
    }
}

/// A good token that is remembered.
#[derive(Debug, Clone, PartialEq, Eq)]
pub struct CachedPrincipal {
    pub cached_at_ms: u64,
    pub expires_at: u64,
    pub principal: AuthenticatedPrincipal,
}

/// A good token that is remembered.
pub struct CachedView {
    pub cached_at_ms: u64,
    pub expires_at: u64,
    pub principal: PrincipalView,
}

impl View for CachedPrincipal {
    type V = CachedView;

    open spec fn view(&self) -> CachedView {
        CachedView {
            cached_at_ms: self.cached_at_ms,
            expires_at: self.expires_at,
            principal: self.principal@,
        }
    }
}

impl Plain for CachedPrincipal {
    fn duplicate(&self) -> (copy: Self) {
        CachedPrincipal {
            cached_at_ms: self.cached_at_ms,
            expires_at: self.expires_at,
            principal: self.principal.duplicate(),
        }
    }

    fn same(&self, other: &Self) -> (equal: bool) {
        self.cached_at_ms == other.cached_at_ms && self.expires_at == other.expires_at
            && self.principal.same(&other.principal)
    }
}

impl Lasting for CachedPrincipal {
    open spec fn until(value: CachedView) -> u64 {
        value.expires_at
    }

    fn expires_at(&self) -> (moment: u64) {
        self.expires_at
    }
}

/// Signing keys, and when they were fetched.
#[derive(Debug, Clone, PartialEq, Eq)]
pub struct CachedJwks {
    pub fetched_at_ms: u64,
    pub keys: String,
}

/// Checks access tokens.
pub struct WorkOsVerifier {
    issuer: String,
    client_id: String,
    jwks: Option<CachedJwks>,
    validated: TextMap<CachedPrincipal>,
}

/// What a verifier goes by and remembers.
pub struct WorkOsView {
    pub issuer: Seq<char>,
    pub client: Seq<char>,
    /// The signing keys, and when they were fetched.
    pub keys: Option<(u64, Seq<char>)>,
    /// The good tokens, by their hashes.
    pub known: Map<Seq<char>, CachedView>,
}

impl View for WorkOsVerifier {
    type V = WorkOsView;

    closed spec fn view(&self) -> WorkOsView {
        WorkOsView {
            issuer: self.issuer@,
            client: self.client_id@,
            keys: match self.jwks {
                Some(cache) => Some((cache.fetched_at_ms, cache.keys@)),
                None => None,
            },
            known: self.validated@,
        }
    }
}

/// How far the checking of a token has come.
#[derive(Debug, Clone, PartialEq, Eq)]
pub enum VerifyStep {
    /// The token holds, and is this account's.
    Verified(AuthenticatedPrincipal),
    /// Signing keys are to be fetched first, from this address.
    FetchKeys { address: String, forced: bool },
}

/// How far the checking of a token has come.
pub enum StepView {
    Verified(PrincipalView),
    FetchKeys { address: Seq<char>, forced: bool },
}

impl View for VerifyStep {
    type V = StepView;

    open spec fn view(&self) -> StepView {
        match self {
            VerifyStep::Verified(principal) => StepView::Verified(principal@),
            VerifyStep::FetchKeys { address, forced } => StepView::FetchKeys {
                address: address@,
                forced: *forced,
            },
        }
    }
}

/// The time since a moment.
pub open spec fn since(moment: u64, now_ms: u64) -> int {
    if now_ms >= moment {
        now_ms - moment
    } else {
        0
    }
}

/// The account of a token that is remembered, and still good.
pub open spec fn remembered_principal(
    state: WorkOsView,
    token: Seq<char>,
    now: u64,
    now_ms: u64,
) -> Option<PrincipalView> {
    let key = token_hash_of(token);
    if state.known.contains_key(key) && state.known[key].expires_at > now && since(
        state.known[key].cached_at_ms,
        now_ms,
    ) < PRINCIPAL_MEMORY_MS {
        Some(state.known[key].principal)
    } else {
        None
    }
}

/// The good tokens with one more. Those that are over are forgotten, and all of them where there
/// are too many.
pub open spec fn known_with(
    state: WorkOsView,
    token: Seq<char>,
    claims: AccessView,
    now: u64,
    now_ms: u64,
) -> Map<Seq<char>, CachedView> {
    let kept = crate::sessions::lasting::<CachedPrincipal>(state.known, now);
    let room = if kept.dom().len() >= MAX_PRINCIPALS {
        Map::empty()
    } else {
        kept
    };
    room.insert(
        token_hash_of(token),
        CachedView {
            cached_at_ms: now_ms,
            expires_at: claims.expires_at,
            principal: claims.owner,
        },
    )
}

/// Where the signing keys of an issuer are.
pub open spec fn keys_address(issuer: Seq<char>) -> Seq<char> {
    issuer + "/oauth2/jwks"@
}

/// What comes of a token. Keys that are old, or that lack the one that is named, are fetched
/// first, the latter once.
pub open spec fn verify_outcome(
    state: WorkOsView,
    token: Seq<char>,
    forced: bool,
    now: u64,
    now_ms: u64,
) -> (WorkOsView, Result<StepView, AuthError>) {
    let refused = (state, Err(AuthError::InvalidToken));
    if !token_formed(token) {
        refused
    } else {
        match remembered_principal(state, token, now, now_ms) {
            Some(principal) => (state, Ok(StepView::Verified(principal))),
            None => match token_header(token) {
                None => refused,
                Some(header) => if header.algorithm != TokenAlgorithm::Rs256 {
                    refused
                } else {
                    match (header.key_id, state.keys) {
                        (None, _) => refused,
                        (Some(key_id), None) => (
                            state,
                            Ok(
                                StepView::FetchKeys {
                                    address: keys_address(state.issuer),
                                    forced: false,
                                },
                            ),
                        ),
                        (Some(key_id), Some((fetched_at, keys))) => if !forced && since(
                            fetched_at,
                            now_ms,
                        ) >= KEYS_MEMORY_MS {
                            (
                                state,
                                Ok(
                                    StepView::FetchKeys {
                                        address: keys_address(state.issuer),
                                        forced: false,
                                    },
                                ),
                            )
                        } else {
                            match key_lookup(keys, key_id) {
                                KeyLookup::Missing => if forced {
                                    refused
                                } else {
                                    (
                                        state,
                                        Ok(
                                            StepView::FetchKeys {
                                                address: keys_address(state.issuer),
                                                forced: true,
                                            },
                                        ),
                                    )
                                },
                                KeyLookup::Usable => match access_verdict(
                                    token,
                                    keys,
                                    key_id,
                                    state.issuer,
                                    state.client,
                                    now,
                                ) {
                                    None => refused,
                                    Some(claims) => (
                                        WorkOsView {
                                            known: known_with(state, token, claims, now, now_ms),
                                            ..state
                                        },
                                        Ok(StepView::Verified(claims.owner)),
                                    ),
                                },
                                _ => refused,
                            }
                        },
                    }
                },
            },
        }
    }
}

/// What a result says of a step.
pub open spec fn step_result(result: Result<VerifyStep, AuthError>) -> Result<StepView, AuthError> {
    match result {
        Ok(step) => Ok(step@),
        Err(error) => Err(error),
    }
}

fn time_since(moment: u64, now_ms: u64) -> (time: u64)
    ensures
        time == since(moment, now_ms),
{
    now_ms.saturating_sub(moment)
}

/// The claims of a token, where they hold.
pub fn check_access_token(
    token: &str,
    keys: &str,
    key_id: &str,
    issuer: &str,
    audience: &str,
    now: u64,
) -> (claims: Option<AccessClaims>)
    requires
        split(token@, '.').len() == 3,
    ensures
        opt_view(claims) == access_verdict(token@, keys@, key_id@, issuer@, audience@, now),
{
    let required = ["exp", "iss", "sub", "aud"];
    assert(claim_names(required@) =~= access_required());
    if !rs256_accepts(token, keys, key_id, issuer, Some(audience), required.as_slice()) {
        return None;
    }
    let pieces = split_text(token, '.');
    assert(views(pieces@).len() == 3);
    assert(pieces@[1]@ == views(pieces@)[1]);
    let document = match decode(pieces[1].as_str()) {
        None => {
            return None;
        },
        Some(document) => document,
    };
    match read_access_claims(document.as_slice()) {
        None => None,
        Some(claims) => if (claims.exp as u128) + 60 < now as u128 || claims.sub.as_str().is_empty() {
            None
        } else {
            Some(claims)
        },
    }
}

impl WorkOsVerifier {
    /// A verifier for an issuer, which must be an HTTPS address, and a client.
    pub fn new(issuer: &str, client_id: String) -> (result: Result<Self, AuthError>)
        ensures
            if starts_with(issuer@, "https://"@) && trimmed(client_id@).len() > 0 {
                result matches Ok(verifier) && verifier@ == (WorkOsView {
                    issuer: without_trailing(issuer@, '/'),
                    client: client_id@,
                    keys: None,
                    known: Map::empty(),
                })
            } else {
                result == Err::<Self, AuthError>(AuthError::Configuration)
            },
    {
        proof {
            crate::text::lemma_blank_trimmed(client_id@);
        }
        if !has_prefix(issuer, "https://") || is_blank(client_id.as_str()) {
            return Err(AuthError::Configuration);
        }
        Ok(
            WorkOsVerifier {
                issuer: trim_trailing(issuer, '/'),
                client_id,
                jwks: None,
                validated: TextMap::new(),
            },
        )
    }

    /// Takes signing keys that were fetched. What is no key set is not taken.
    pub fn keys_fetched(&mut self, keys: String, now_ms: u64) -> (result: Result<(), AuthError>)
        ensures
            if key_lookup(keys@, Seq::empty()) is Unreadable {
                result == Err::<(), AuthError>(AuthError::JwksUnavailable) && final(self)@ == old(
                    self,
                )@
            } else {
                result is Ok && final(self)@ == (WorkOsView {
                    keys: Some((now_ms, keys@)),
                    ..old(self)@
                })
            },
    {
        proof {
            reveal_strlit("");
            assert(""@ =~= Seq::empty());
        }
        match look_up_key(keys.as_str(), "") {
            KeyLookup::Unreadable => {
                return Err(AuthError::JwksUnavailable);
            },
            _ => {},
        }
        self.jwks = Some(CachedJwks { fetched_at_ms: now_ms, keys });
        Ok(())
    }

    fn fetch(&self, forced: bool) -> (step: VerifyStep)
        ensures
            step@ == (StepView::FetchKeys { address: keys_address(self@.issuer), forced }),
    {
        let mut address = self.issuer.duplicate();
        address.append("/oauth2/jwks");
        VerifyStep::FetchKeys { address, forced }
    }

    fn recall(&self, token: &str, now: u64, now_ms: u64) -> (principal: Option<
        AuthenticatedPrincipal,
    >)
        ensures
            opt_view(principal) == remembered_principal(self@, token@, now, now_ms),
    {
        match self.validated.get(token_hash(token).as_str()) {
            Some(known) => if known.expires_at > now && time_since(known.cached_at_ms, now_ms)
                < PRINCIPAL_MEMORY_MS {
                Some(known.principal.duplicate())
            } else {
                None
            },
            None => None,
        }
    }

    fn remember(&mut self, token: &str, claims: &AccessClaims, now: u64, now_ms: u64)
        ensures
            final(self)@ == (WorkOsView {
                known: known_with(old(self)@, token@, claims@, now, now_ms),
                ..old(self)@
            }),
    {
        let mut kept = crate::sessions::keep_lasting(&self.validated, now);
        let count: usize = kept.len();
        proof {
            crate::textmap::lemma_key_count(kept);
        }
        if count >= MAX_PRINCIPALS {
            kept = TextMap::new();
        }
        let principal = AuthenticatedPrincipal {
            subject: claims.sub.duplicate(),
            organization_id: crate::plain::duplicate_opt(&claims.org_id),
        };
        kept.insert(
            token_hash(token),
            CachedPrincipal { cached_at_ms: now_ms, expires_at: claims.exp, principal },
        );
        self.validated = kept;
    }

    /// Tells whose a token is. Where signing keys are missing or old, they are to be fetched, and
    /// the token is to be looked at again; whether that was forced is then told.
    pub fn verify(&mut self, token: &str, forced: bool, now: u64, now_ms: u64) -> (result: Result<
        VerifyStep,
        AuthError,
    >)
        ensures
            (final(self)@, step_result(result)) == verify_outcome(
                old(self)@,
                token@,
                forced,
                now,
                now_ms,
            ),
    {
        if token.as_bytes().len() > MAX_TOKEN_BYTES {
            return Err(AuthError::InvalidToken);
        }
        let pieces = split_text(token, '.');
        assert(views(pieces@).len() == pieces@.len());
        if pieces.len() != 3 {
            return Err(AuthError::InvalidToken);
        }
        match self.recall(token, now, now_ms) {
            Some(principal) => {
                return Ok(VerifyStep::Verified(principal));
            },
            None => {},
        }
        let header = match read_token_header(token) {
            None => {
                return Err(AuthError::InvalidToken);
            },
            Some(header) => header,
        };
        if header.algorithm != TokenAlgorithm::Rs256 {
            return Err(AuthError::InvalidToken);
        }
        let key_id = match header.key_id {
            None => {
                return Err(AuthError::InvalidToken);
            },
            Some(key_id) => key_id,
        };
        let claims = match &self.jwks {
            None => {
                return Ok(self.fetch(false));
            },
            Some(cache) => {
                if !forced && time_since(cache.fetched_at_ms, now_ms) >= KEYS_MEMORY_MS {
                    return Ok(self.fetch(false));
                }
                match look_up_key(cache.keys.as_str(), key_id.as_str()) {
                    KeyLookup::Missing => {
                        if forced {
                            return Err(AuthError::InvalidToken);
                        }
                        return Ok(self.fetch(true));
                    },
                    KeyLookup::Usable => {},
                    _ => {
                        return Err(AuthError::InvalidToken);
                    },
                }
                match check_access_token(
                    token,
                    cache.keys.as_str(),
                    key_id.as_str(),
                    self.issuer.as_str(),
                    self.client_id.as_str(),
                    now,
                ) {
                    None => {
                        return Err(AuthError::InvalidToken);
                    },
                    Some(claims) => claims,
                }
            },
        };
        self.remember(token, &claims, now, now_ms);
        Ok(
            VerifyStep::Verified(
                AuthenticatedPrincipal { subject: claims.sub, organization_id: claims.org_id },
            ),
        )
    }
}

/// A token that was found good is good again, without a look at the keys, as long as it is
/// remembered.
pub proof fn lemma_good_token_remembered(
    state: WorkOsView,
    token: Seq<char>,
    forced: bool,
    now: u64,
    now_ms: u64,
    again: bool,
    next: u64,
    next_ms: u64,
)
    requires
        verify_outcome(state, token, forced, now, now_ms).1 matches Ok(StepView::Verified(_)),
        remembered_principal(state, token, now, now_ms) is None,
        now_ms <= next_ms,
        next_ms - now_ms < PRINCIPAL_MEMORY_MS,
        verify_outcome(state, token, forced, now, now_ms).0.known[token_hash_of(token)].expires_at
            > next,
    ensures
        ({
            let (after, first) = verify_outcome(state, token, forced, now, now_ms);
            verify_outcome(after, token, again, next, next_ms) == (after, first)
        }),
{
}

} // verus!
