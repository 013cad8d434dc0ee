//! What the relay asserts: signed statements that an account may connect to an environment.

use jsonwebtoken::jwk::{AlgorithmParameters, EllipticCurve, Jwk};
use jsonwebtoken::{Algorithm, DecodingKey, Validation};
use serde::de::IgnoredAny;
use std::collections::BTreeMap;
use vstd::prelude::*;
use vstd::string::*;
use vstd::utf8::*;

use crate::auth::claim_names;
use crate::crypto::{principal_matches, AuthenticatedPrincipal, PrincipalView};
use crate::dpop::{read_token_header, token_header, TokenAlgorithm, MAX_PROOF_BYTES};
use crate::encoding::{decodable, decode, decode_fixed, decoded};
use crate::ids::{is_uuid, uuid_text};
use crate::json::{json_field, json_member, read_field, read_member, JsonMember, MemberView};
use crate::plain::{duplicate_opt, opt_view, same_opt, views, Plain};
use crate::signing::ConnectError;
use crate::text::{split, split_text, text_eq, without_trailing};
use crate::weburl::{bare_origin, open_address, parse_url, parsed_url};

verus! {

/// How long after its end a statement is still taken, in seconds.
pub const EXPIRY_LEEWAY_SECONDS: u64 = 60;

/// Where an environment is reached.
#[derive(Debug, Clone, PartialEq, Eq)]
pub struct RelayEndpoint {
    pub http_base_url: String,
    pub ws_base_url: String,
}

/// Where an environment is reached.
pub struct EndpointView {
    pub http: Seq<char>,
    pub ws: Seq<char>,
}

impl View for RelayEndpoint {
    type V = EndpointView;

    open spec fn view(&self) -> EndpointView {
        EndpointView { http: self.http_base_url@, ws: self.ws_base_url@ }
    }
}

/// An origin of the given scheme, without a slash at its end.
pub open spec fn base_form(address: Seq<char>, scheme: Seq<char>) -> Option<Seq<char>> {
    match parsed_url(address) {
        Some(url) => if open_address(url, scheme) && bare_origin(url) {
            Some(without_trailing(url.whole, '/'))
        } else {
            None
        },
        None => None,
    }
}

/// An origin of the given scheme, without a slash at its end.
pub fn normalize_base_url(value: &str, scheme: &str) -> (result: Result<String, ConnectError>)
    ensures
        match base_form(value@, scheme@) {
            Some(form) => result matches Ok(text) && text@ == form,
            None => result == Err::<String, ConnectError>(ConnectError::InvalidConfiguration),
        },
{
    match parse_url(value) {
        None => Err(ConnectError::InvalidConfiguration),
        Some(url) => if url.is_open_address(scheme) && url.is_bare_origin() {
            Ok(url.base())
        } else {
            Err(ConnectError::InvalidConfiguration)
        },
    }
}

/// An HTTPS origin without a slash at its end.
pub fn normalize_https_origin(value: &str) -> (result: Result<String, ConnectError>)
    ensures
        match base_form(value@, "https"@) {
            Some(form) => result matches Ok(text) && text@ == form,
            None => result == Err::<String, ConnectError>(ConnectError::InvalidConfiguration),
        },
{
    normalize_base_url(value, "https")
}

/// An endpoint in canonical form: a web and a socket origin of one host.
pub open spec fn endpoint_form(endpoint: EndpointView) -> Option<EndpointView> {
    match (base_form(endpoint.http, "https"@), base_form(endpoint.ws, "wss"@)) {
        (Some(http), Some(ws)) => match (parsed_url(http), parsed_url(ws)) {
            (Some(http_url), Some(ws_url)) => if http_url.host == ws_url.host {
                Some(EndpointView { http, ws })
            } else {
                None
            },
            _ => None,
        },
        _ => None,
    }
}

/// An endpoint in canonical form.
pub fn normalize_relay_endpoint(endpoint: &RelayEndpoint) -> (result: Result<
    RelayEndpoint,
    ConnectError,
>)
    ensures
        match endpoint_form(endpoint@) {
            Some(form) => result matches Ok(canonical) && canonical@ == form,
            None => result == Err::<RelayEndpoint, ConnectError>(
                ConnectError::InvalidConfiguration,
            ),
        },
{
    let http = match normalize_base_url(endpoint.http_base_url.as_str(), "https") {
        Err(error) => {
            return Err(error);
        },
        Ok(form) => form,
    };
    let ws = match normalize_base_url(endpoint.ws_base_url.as_str(), "wss") {
        Err(error) => {
            return Err(error);
        },
        Ok(form) => form,
    };
    match (parse_url(http.as_str()), parse_url(ws.as_str())) {
        (Some(http_url), Some(ws_url)) => if same_opt(&http_url.host, &ws_url.host) {
            Ok(RelayEndpoint { http_base_url: http, ws_base_url: ws })
        } else {
            Err(ConnectError::InvalidConfiguration)
        },
        _ => Err(ConnectError::InvalidConfiguration),
    }
}

/// What the relay states: that the holder of a key may connect to an environment.
#[derive(Debug, Clone, PartialEq, Eq)]
pub struct RelayMintClaims {
    pub iss: String,
    pub aud: String,
    pub sub: String,
    pub org_id: Option<String>,
    pub environment_id: String,
    pub endpoint: RelayEndpoint,
    pub client_jkt: String,
    pub client_nonce: String,
    pub generation: u64,
    pub jti: String,
    pub iat: u64,
    pub exp: u64,
}

/// What the relay states.
pub struct MintView {
    pub issuer: Seq<char>,
    pub audience: Seq<char>,
    pub owner: PrincipalView,
    pub environment: Seq<char>,
    pub endpoint: EndpointView,
    pub client_key: Seq<char>,
    pub client_nonce: Seq<char>,
    pub generation: u64,
    pub identifier: Seq<char>,
    pub issued_at: u64,
    pub expires_at: u64,
}

impl View for RelayMintClaims {
    type V = MintView;

    open spec fn view(&self) -> MintView {
        MintView {
            issuer: self.iss@,
            audience: self.aud@,
            owner: PrincipalView { subject: self.sub@, organization: opt_view(self.org_id) },
            environment: self.environment_id@,
            endpoint: self.endpoint@,
            client_key: self.client_jkt@,
            client_nonce: self.client_nonce@,
            generation: self.generation,
            identifier: self.jti@,
            issued_at: self.iat,
            expires_at: self.exp,
        }
    }
}

/// The text that was read, if it is text.
pub open spec fn read_text(member: MemberView) -> Option<Seq<char>> {
    match member {
        MemberView::Text(text) => Some(text),
        _ => None,
    }
}

/// The natural number that was read, if it is one.
pub open spec fn read_natural(member: MemberView) -> Option<u64> {
    match member {
        MemberView::Natural(value) => Some(value),
        _ => None,
    }
}

/// The text that was read where there may be none: nothing is there, or null.
pub open spec fn read_optional(member: MemberView) -> Option<Option<Seq<char>>> {
    match member {
        MemberView::Text(text) => Some(Some(text)),
        MemberView::Null => Some(None),
        MemberView::Missing => Some(None),
        _ => None,
    }
}

/// The endpoint that a document holds, if it holds one.
pub open spec fn endpoint_read(document: Seq<u8>) -> Option<EndpointView> {
    match (
        read_text(json_field(document, "http_base_url"@, 0, 2)),
        read_text(json_field(document, "ws_base_url"@, 1, 2)),
    ) {
        (Some(http), Some(ws)) => Some(EndpointView { http, ws }),
        _ => None,
    }
}

/// The endpoint that was read, if it is one.
pub open spec fn read_endpoint(member: MemberView) -> Option<EndpointView> {
    match member {
        MemberView::Object(inner) => endpoint_read(encode_utf8(inner)),
        MemberView::List(inner) => endpoint_read(encode_utf8(inner)),
        _ => None,
    }
}

/// The statement that a document holds.
pub open spec fn mint_read(document: Seq<u8>) -> Option<MintView> {
    match (
        (
            read_text(json_member(document, "iss"@)),
            read_text(json_member(document, "aud"@)),
            read_text(json_member(document, "sub"@)),
            read_optional(json_member(document, "org_id"@)),
        ),
        (
            read_text(json_member(document, "environment_id"@)),
            read_endpoint(json_member(document, "endpoint"@)),
            read_text(json_member(document, "client_jkt"@)),
            read_text(json_member(document, "client_nonce"@)),
        ),
        (
            read_natural(json_member(document, "generation"@)),
            read_text(json_member(document, "jti"@)),
            read_natural(json_member(document, "iat"@)),
            read_natural(json_member(document, "exp"@)),
        ),
    ) {
        (
            (Some(issuer), Some(audience), Some(subject), Some(organization)),
            (Some(environment), Some(endpoint), Some(client_key), Some(client_nonce)),
            (Some(generation), Some(identifier), Some(issued_at), Some(expires_at)),
        ) => Some(
            MintView {
                issuer,
                audience,
                owner: PrincipalView { subject, organization },
                environment,
                endpoint,
                client_key,
                client_nonce,
                generation,
                identifier,
                issued_at,
                expires_at,
            },
        ),
        _ => None,
    }
}

fn text_member(document: &[u8], name: &str) -> (text: Option<String>)
    ensures
        opt_view(text) == read_text(json_member(document@, name@)),
{
    match read_member(document, name) {
        JsonMember::Text(text) => Some(text),
        _ => None,
    }
}

fn natural_member(document: &[u8], name: &str) -> (value: Option<u64>)
    ensures
        value == read_natural(json_member(document@, name@)),
{
    match read_member(document, name) {
        JsonMember::Natural(value) => Some(value),
        _ => None,
    }
}

fn endpoint_member(document: &[u8]) -> (endpoint: Option<RelayEndpoint>)
    ensures
        opt_view(endpoint) == read_endpoint(json_member(document@, "endpoint"@)),
{
    let inner = match read_member(document, "endpoint") {
        JsonMember::Object(inner) => inner,
        JsonMember::List(inner) => inner,
        _ => {
            return None;
        },
    };
    let bytes = inner.as_str().as_bytes();
    match (read_field(bytes, "http_base_url", 0, 2), read_field(bytes, "ws_base_url", 1, 2)) {
        (JsonMember::Text(http_base_url), JsonMember::Text(ws_base_url)) => Some(
            RelayEndpoint { http_base_url, ws_base_url },
        ),
        _ => None,
    }
}

/// The statement that a document holds, if it holds one.
pub fn read_mint_claims(document: &[u8]) -> (claims: Option<RelayMintClaims>)
    ensures
        opt_view(claims) == mint_read(document@),
{
    let org_id = match read_member(document, "org_id") {
        JsonMember::Text(text) => Some(text),
        JsonMember::Null | JsonMember::Missing => None,
        _ => {
            return None;
        },
    };
    match (
        (
            text_member(document, "iss"),
            text_member(document, "aud"),
            text_member(document, "sub"),
            text_member(document, "environment_id"),
        ),
        (
            endpoint_member(document),
            text_member(document, "client_jkt"),
            text_member(document, "client_nonce"),
            natural_member(document, "generation"),
        ),
        (
            text_member(document, "jti"),
            natural_member(document, "iat"),
            natural_member(document, "exp"),
        ),
    ) {
        (
            (Some(iss), Some(aud), Some(sub), Some(environment_id)),
            (Some(endpoint), Some(client_jkt), Some(client_nonce), Some(generation)),
            (Some(jti), Some(iat), Some(exp)),
        ) => Some(
            RelayMintClaims {
                iss,
                aud,
                sub,
                org_id,
                environment_id,
                endpoint,
                client_jkt,
                client_nonce,
                generation,
                jti,
                iat,
                exp,
            },
        ),
        _ => None,
    }
}

/// What `serde_json` and `jsonwebtoken` read of an Ed25519 key in JSON: the text of its point, or
/// nothing where it is no such key.
pub uninterp spec fn ed25519_jwk(document: Seq<char>) -> Option<Seq<char>>;

/// `serde_json::from_str` into a `Jwk`, and the point of an octet key pair on `Ed25519`.
#[verifier::external_body]
fn read_ed25519_jwk(document: &str) -> (point: Option<String>)
    ensures
        opt_view(point) == ed25519_jwk(document@),
{
    match serde_json::from_str::<Jwk>(document).ok()?.algorithm {
        AlgorithmParameters::OctetKeyPair(key) => match key.curve {
            EllipticCurve::Ed25519 => Some(key.x),
            _ => None,
        },
        _ => None,
    }
}

/// `jsonwebtoken::decode` accepts the token under the Ed25519 key, from the issuer, for the audience
/// and with the claims that it must have, with the time not looked at.
pub uninterp spec fn eddsa_accepted(
    token: Seq<char>,
    key: Seq<u8>,
    issuer: Seq<char>,
    audience: Seq<char>,
    required: Seq<Seq<char>>,
) -> bool;

/// The claims that a statement must have.
pub open spec fn mint_required() -> Seq<Seq<char>> {
    seq!["exp"@, "iat"@, "iss"@, "aud"@, "sub"@]
}

/// `jsonwebtoken::decode` for `EdDSA` with the given key, issuer, audience and claims that it must
/// have, into names and whatever stands under them, with the time not looked at. It needs thirty-two
/// bytes of key. Of a token that it accepts, an issuer or audience that is text is the one asked
/// for, where there must be one.
#[verifier::external_body]
fn eddsa_accepts(
    token: &str,
    key: &[u8],
    issuer: &str,
    audience: &str,
    required: &[&str],
) -> (accepted: bool)
    requires
        key@.len() >= 32,
    ensures
        accepted == eddsa_accepted(
            token@,
            key@,
            issuer@,
            audience@,
            claim_names(required@),
        ),
        accepted ==> forall|claims: Seq<u8>|
            split(token@, '.').len() == 3 && #[trigger] decoded(split(token@, '.')[1]) == Some(
                claims,
            ) ==> {
                &&& claim_names(required@).contains("iss"@) ==> (json_member(
                    claims,
                    "iss"@,
                ) matches MemberView::Text(named) ==> named == issuer@)
                &&& claim_names(required@).contains("aud"@) ==> (json_member(
                    claims,
                    "aud"@,
                ) matches MemberView::Text(named) ==> named == audience@)
            },
{
    let mut validation = Validation::new(Algorithm::EdDSA);
    validation.set_issuer(&[issuer]);
    validation.set_audience(&[audience]);
    validation.set_required_spec_claims(required);
    validation.validate_exp = false;
    let key = DecodingKey::from_ed_der(key);
    jsonwebtoken::decode::<BTreeMap<String, IgnoredAny>>(token, &key, &validation).is_ok()
}

/// Checks the statements of one relay for one environment.
#[derive(Debug, Clone)]
pub struct RelayProofVerifier {
    issuer: String,
    environment_id: String,
    key: Vec<u8>,
}

/// What a verifier goes by.
pub struct VerifierView {
    pub issuer: Seq<char>,
    pub environment: Seq<char>,
    pub key: Seq<u8>,
}

impl View for RelayProofVerifier {
    type V = VerifierView;

    closed spec fn view(&self) -> VerifierView {
        VerifierView { issuer: self.issuer@, environment: self.environment_id@, key: self.key@ }
    }
}

/// The audience of statements about an environment.
pub open spec fn mint_audience(environment: Seq<char>) -> Seq<char> {
    "clippy-env:"@ + environment
}

/// The statement is about this environment, endpoint and owner, and complete.
pub open spec fn mint_fits(
    claims: MintView,
    environment: Seq<char>,
    owner: PrincipalView,
    endpoint: EndpointView,
) -> bool {
    &&& claims.environment == environment
    &&& endpoint_form(claims.endpoint) is Some
    &&& endpoint_form(claims.endpoint) == endpoint_form(endpoint)
    &&& claims.owner == owner
    &&& decodable(claims.client_key, 32)
    &&& decodable(claims.client_nonce, 32)
    &&& uuid_text(claims.identifier)
    &&& claims.generation != 0
}

/// Whether a statement is about this environment, endpoint and owner, and complete.
pub fn check_mint_claims(
    claims: &RelayMintClaims,
    environment_id: &str,
    owner: &AuthenticatedPrincipal,
    endpoint: &RelayEndpoint,
) -> (fits: bool)
    ensures
        fits == mint_fits(claims@, environment_id@, owner@, endpoint@),
{
    let claimed = match normalize_relay_endpoint(&claims.endpoint) {
        Err(_) => {
            return false;
        },
        Ok(form) => form,
    };
    let expected = match normalize_relay_endpoint(endpoint) {
        Err(_) => {
            return false;
        },
        Ok(form) => form,
    };
    let claimant = AuthenticatedPrincipal {
        subject: claims.sub.duplicate(),
        organization_id: duplicate_opt(&claims.org_id),
    };
    text_eq(claims.environment_id.as_str(), environment_id) && text_eq(
        claimed.http_base_url.as_str(),
        expected.http_base_url.as_str(),
    ) && text_eq(claimed.ws_base_url.as_str(), expected.ws_base_url.as_str()) && principal_matches(
        owner,
        &claimant,
    ) && decode_fixed(claims.client_jkt.as_str(), 32).is_some() && decode_fixed(
        claims.client_nonce.as_str(),
        32,
    ).is_some() && is_uuid(claims.jti.as_str()) && claims.generation != 0
}

/// The statement of a proof that the relay has signed, if it has.
pub open spec fn mint_signed(verifier: VerifierView, proof: Seq<char>) -> Option<MintView> {
    let parts = split(proof, '.');
    if encode_utf8(proof).len() > MAX_PROOF_BYTES || parts.len() != 3 {
        None
    } else {
        match token_header(proof) {
            None => None,
            Some(header) => if header.algorithm == TokenAlgorithm::EdDsa && eddsa_accepted(
                proof,
                verifier.key,
                verifier.issuer,
                mint_audience(verifier.environment),
                mint_required(),
            ) {
                match decoded(parts[1]) {
                    None => None,
                    Some(document) => mint_read(document),
                }
            } else {
                None
            },
        }
    }
}

/// The statement that a proof makes about this owner and endpoint now, if it makes one.
pub open spec fn mint_verdict(
    verifier: VerifierView,
    proof: Seq<char>,
    owner: PrincipalView,
    endpoint: EndpointView,
    now: u64,
) -> Option<MintView> {
    match mint_signed(verifier, proof) {
        None => None,
        Some(claims) => if claims.expires_at + EXPIRY_LEEWAY_SECONDS >= now && mint_fits(
            claims,
            verifier.environment,
            owner,
            endpoint,
        ) {
            Some(claims)
        } else {
            None
        },
    }
}

impl RelayProofVerifier {
    /// A verifier for a relay, given its public key in JSON.
    pub fn new(issuer: &str, environment_id: String, public_jwk: &str) -> (result: Result<
        Self,
        ConnectError,
    >)
        ensures
            match base_form(issuer@, "https"@) {
                None => result == Err::<Self, ConnectError>(ConnectError::InvalidConfiguration),
                Some(form) => match ed25519_jwk(public_jwk@) {
                    None => result == Err::<Self, ConnectError>(ConnectError::InvalidKeyMaterial),
                    Some(point) => match decoded(point) {
                        None => result == Err::<Self, ConnectError>(
                            ConnectError::InvalidKeyMaterial,
                        ),
                        Some(key) => result matches Ok(verifier) && verifier@ == (VerifierView {
                            issuer: form,
                            environment: environment_id@,
                            key,
                        }),
                    },
                },
            },
    {
        let issuer = match normalize_https_origin(issuer) {
            Err(error) => {
                return Err(error);
            },
            Ok(form) => form,
        };
        match read_ed25519_jwk(public_jwk) {
            None => Err(ConnectError::InvalidKeyMaterial),
            Some(point) => match decode(point.as_str()) {
                None => Err(ConnectError::InvalidKeyMaterial),
                Some(key) => Ok(RelayProofVerifier { issuer, environment_id, key }),
            },
        }
    }

    /// Whether the key is long enough to check anything with.
    pub fn has_whole_key(&self) -> (whole: bool)
        ensures
            whole == (self@.key.len() >= 32),
    {
        self.key.len() >= 32
    }

    fn read(&self, proof: &str) -> (claims: Option<RelayMintClaims>)
        requires
            self@.key.len() >= 32,
        ensures
            opt_view(claims) == mint_signed(self@, proof@),
            claims matches Some(stated) ==> stated@.issuer == self@.issuer && stated@.audience
                == mint_audience(self@.environment),
    {
        if proof.as_bytes().len() > MAX_PROOF_BYTES {
            return None;
        }
        let pieces = split_text(proof, '.');
        assert(views(pieces@) == split(proof@, '.'));
        if pieces.len() != 3 {
            return None;
        }
        assert(pieces@[1]@ == views(pieces@)[1]);
        match read_token_header(proof) {
            None => {
                return None;
            },
            Some(header) => {
                if header.algorithm != TokenAlgorithm::EdDsa {
                    return None;
                }
            },
        }
        let mut audience = "clippy-env:".to_owned();
        audience.append(self.environment_id.as_str());
        let required = ["exp", "iat", "iss", "aud", "sub"];
        assert(claim_names(required@) =~= mint_required());
        if !eddsa_accepts(
            proof,
            self.key.as_slice(),
            self.issuer.as_str(),
            audience.as_str(),
            required.as_slice(),
        ) {
            return None;
        }
        match decode(pieces[1].as_str()) {
            None => None,
            Some(document) => read_mint_claims(document.as_slice()),
        }
    }

    /// Checks a proof of the relay. It must be signed by the relay's key, name this environment,
    /// its owner and its endpoint, and not be over. What it then says comes from this issuer and
    /// is meant for this environment.
    pub fn verify(
        &self,
        proof: &str,
        owner: &AuthenticatedPrincipal,
        endpoint: &RelayEndpoint,
        now: u64,
    ) -> (result: Result<RelayMintClaims, ConnectError>)
        requires
            self@.key.len() >= 32,
        ensures
            match mint_verdict(self@, proof@, owner@, endpoint@, now) {
                Some(claims) => result matches Ok(stated) && stated@ == claims && stated@.issuer
                    == self@.issuer && stated@.audience == mint_audience(self@.environment),
                None => result == Err::<RelayMintClaims, ConnectError>(
                    ConnectError::InvalidRelayProof,
                ),
            },
    {
        match self.read(proof) {
            None => Err(ConnectError::InvalidRelayProof),
            Some(claims) => {
                if claims.exp as u128 + 60 < now as u128 || !check_mint_claims(
                    &claims,
                    self.environment_id.as_str(),
                    owner,
                    endpoint,
                ) {
                    return Err(ConnectError::InvalidRelayProof);
                }
                Ok(claims)
            },
        }
    }
}

} // verus!
