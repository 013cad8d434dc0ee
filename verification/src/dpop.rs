//! Proofs that a request comes from the holder of a key: signed statements of a method, an
//! address and, where one is used, an access token.

use jsonwebtoken::jwk::{
    AlgorithmParameters, CommonParameters, EllipticCurve, EllipticCurveKeyParameters,
    EllipticCurveKeyType, Jwk, ThumbprintHash,
};
use jsonwebtoken::{decode_header, Algorithm, DecodingKey, Validation};
use p256::ecdsa::signature::Signer;
use p256::ecdsa::{Signature, SigningKey};
use rand_core::OsRng;
use serde::de::IgnoredAny;
use vstd::prelude::*;
use vstd::string::*;
use vstd::utf8::*;

use crate::crypto::{fixed_32, secret_eq};
use crate::encoding::{
    base64_encode, base64url, decode, decoded, lemma_base64url_letters, lemma_decoded,
};
use crate::files::sha256;
use crate::ids::{hyphenated_uuid, is_uuid, new_uuid, uuid_text};
use crate::json::{
    distinct_names, json_field, json_object, member_views, read_field, write_object, JsonMember,
    JsonScalar, MemberView, ScalarView,
};
use crate::plain::{opt_view, views};
use crate::signing::{connectable, require_environment, token_hash, token_hash_of, ConnectError};
use crate::text::{
    ascii_uppercase, chars_of, lemma_split_behind, lemma_split_single, split, split_text, text_eq,
    to_uppercase_ascii, trim, trimmed,
};
use crate::weburl::{bare_url, open_address, parse_url, parsed_url, url_without_query};

verus! {

/// How far the clocks of two devices may be apart, in seconds.
pub const DPOP_CLOCK_SKEW_SECONDS: u64 = 300;

/// The longest proof that is looked at, in bytes.
pub const MAX_PROOF_BYTES: usize = 16_384;

/// The public point of a P-256 secret: its two coordinates, or nothing where the bytes are no
/// secret.
pub uninterp spec fn p256_point(secret: Seq<u8>) -> Option<(Seq<u8>, Seq<u8>)>;

/// The first coordinate of the public point of a secret, in base64 form.
pub open spec fn key_x(secret: Seq<u8>) -> Seq<char> {
    match p256_point(secret) {
        Some((x, y)) => base64url(x),
        None => Seq::empty(),
    }
}

/// The second coordinate of the public point of a secret, in base64 form.
pub open spec fn key_y(secret: Seq<u8>) -> Seq<char> {
    match p256_point(secret) {
        Some((x, y)) => base64url(y),
        None => Seq::empty(),
    }
}

/// The coordinates of a point.
pub open spec fn point_view(point: Option<([u8; 32], [u8; 32])>) -> Option<(Seq<u8>, Seq<u8>)> {
    match point {
        Some((x, y)) => Some((x@, y@)),
        None => None,
    }
}

/// `SigningKey::from_bytes` and `VerifyingKey::to_encoded_point` without compression.
#[verifier::external_body]
fn p256_public(secret: &[u8; 32]) -> (point: Option<([u8; 32], [u8; 32])>)
    ensures
        point_view(point) == p256_point(secret@),
{
    let point = SigningKey::from_bytes(secret.into()).ok()?.verifying_key().to_encoded_point(false);
    Some(((*point.x()?).into(), (*point.y()?).into()))
}

/// The P-256 signature of a message under a secret, if there is one.
pub uninterp spec fn p256_signature(secret: Seq<u8>, message: Seq<u8>) -> Option<Seq<u8>>;

/// `Signer::try_sign` of a P-256 `SigningKey`, which derives its one-time number from the message as
/// RFC 6979 says, and draws nothing at random. A secret that is none signs nothing, and neither does
/// one whose number for the message makes a part of the signature zero.
#[verifier::external_body]
fn p256_sign(secret: &[u8; 32], message: &[u8]) -> (signature: Option<Vec<u8>>)
    ensures
        opt_view(signature) == p256_signature(secret@, message@),
        p256_point(secret@) is None ==> signature is None,
{
    let signature: Signature = SigningKey::from_bytes(secret.into()).ok()?.try_sign(message).ok()?;
    Some(signature.to_bytes().to_vec())
}

/// `SigningKey::random` draws a secret at random.
#[verifier::external_body]
fn p256_random() -> (secret: [u8; 32])
    ensures
        p256_point(secret@) is Some,
{
    SigningKey::random(&mut OsRng).to_bytes().into()
}

/// The JSON document of which the digest is the thumbprint of a P-256 key.
pub open spec fn thumbprint_document(x: Seq<char>, y: Seq<char>) -> Seq<char> {
    "{\"crv\":\"P-256\",\"kty\":\"EC\",\"x\":\""@ + x + "\",\"y\":\""@ + y + "\"}"@
}

/// The thumbprint of a P-256 key.
pub open spec fn thumbprint_of(x: Seq<char>, y: Seq<char>) -> Seq<char> {
    base64url(sha256(encode_utf8(thumbprint_document(x, y))))
}

/// `Jwk::thumbprint` of a P-256 key with SHA-256: the digest of the key's required members in the
/// order of their names, as RFC 7638 says.
#[verifier::external_body]
fn jwk_thumbprint(x: &str, y: &str) -> (thumbprint: String)
    ensures
        thumbprint@ == thumbprint_of(x@, y@),
{
    let algorithm = AlgorithmParameters::EllipticCurve(EllipticCurveKeyParameters {
        key_type: EllipticCurveKeyType::EC,
        curve: EllipticCurve::P256,
        x: x.to_string(),
        y: y.to_string(),
    });
    Jwk { common: CommonParameters::default(), algorithm }.thumbprint(ThumbprintHash::SHA256)
}

/// The algorithms of a signed token, as far as they are told apart.
#[derive(Debug, Clone, Copy, PartialEq, Eq, Structural)]
pub enum TokenAlgorithm {
    Es256,
    EdDsa,
    Rs256,
    Other,
}

/// The key that a token carries, as far as keys are told apart.
#[derive(Debug, Clone, PartialEq, Eq)]
pub enum TokenKey {
    Missing,
    P256 { x: String, y: String },
    Other,
}

/// What the header of a token says.
#[derive(Debug, Clone, PartialEq, Eq)]
pub struct TokenHeader {
    pub algorithm: TokenAlgorithm,
    pub kind: Option<String>,
    pub key_id: Option<String>,
    pub key: TokenKey,
}

/// What a key that a token carries says.
pub enum KeyView {
    Missing,
    P256 { x: Seq<char>, y: Seq<char> },
    Other,
}

/// What the header of a token says.
pub struct HeaderView {
    pub algorithm: TokenAlgorithm,
    pub kind: Option<Seq<char>>,
    pub key_id: Option<Seq<char>>,
    pub key: KeyView,
}

impl View for TokenHeader {
    type V = HeaderView;

    open spec fn view(&self) -> HeaderView {
        HeaderView {
            algorithm: self.algorithm,
            kind: opt_view(self.kind),
            key_id: opt_view(self.key_id),
            key: match self.key {
                TokenKey::Missing => KeyView::Missing,
                TokenKey::P256 { x, y } => KeyView::P256 { x: x@, y: y@ },
                TokenKey::Other => KeyView::Other,
            },
        }
    }
}

/// What `jsonwebtoken::decode_header` reads of a token, or nothing where it is none.
pub uninterp spec fn token_header(token: Seq<char>) -> Option<HeaderView>;

/// The header of a proof by a P-256 key.
pub open spec fn proof_header(x: Seq<char>, y: Seq<char>) -> Seq<char> {
    "{\"typ\":\"dpop+jwt\",\"alg\":\"ES256\",\"jwk\":"@ + json_object(jwk_members(x, y)) + "}"@
}

/// The members of a P-256 key.
pub open spec fn jwk_members(x: Seq<char>, y: Seq<char>) -> Seq<(Seq<char>, ScalarView)> {
    seq![
        ("kty"@, ScalarView::Text("EC"@)),
        ("crv"@, ScalarView::Text("P-256"@)),
        ("x"@, ScalarView::Text(x)),
        ("y"@, ScalarView::Text(y)),
    ]
}

/// `jsonwebtoken::decode_header`, with the algorithm, the type, the identifier of the key and the
/// key. It reads what stands before the last two full stops. The header of a proof by a P-256 key
/// reads as what it says.
#[verifier::external_body]
pub(crate) fn read_token_header(token: &str) -> (header: Option<TokenHeader>)
    ensures
        opt_view(header) == token_header(token@),
        forall|x: Seq<char>, y: Seq<char>, claims: Seq<char>, signature: Seq<char>|
            token@ == #[trigger] dotted(
                base64url(encode_utf8(#[trigger] proof_header(x, y))),
                claims,
                signature,
            ) && !claims.contains('.') && !signature.contains('.') ==> opt_view(header) == Some(
                HeaderView {
                    algorithm: TokenAlgorithm::Es256,
                    kind: Some("dpop+jwt"@),
                    key_id: None,
                    key: KeyView::P256 { x, y },
                },
            ),
{
    let header = decode_header(token).ok()?;
    let key = match header.jwk.map(|jwk| jwk.algorithm) {
        None => TokenKey::Missing,
        Some(AlgorithmParameters::EllipticCurve(EllipticCurveKeyParameters {
            curve: EllipticCurve::P256, x, y, ..
        })) => TokenKey::P256 { x, y },
        Some(_) => TokenKey::Other,
    };
    let algorithm = match header.alg {
        Algorithm::ES256 => TokenAlgorithm::Es256,
        Algorithm::EdDSA => TokenAlgorithm::EdDsa,
        Algorithm::RS256 => TokenAlgorithm::Rs256,
        _ => TokenAlgorithm::Other,
    };
    Some(TokenHeader { algorithm, kind: header.typ, key_id: header.kid, key })
}

/// Three texts with full stops between them.
pub open spec fn dotted(first: Seq<char>, second: Seq<char>, third: Seq<char>) -> Seq<char> {
    first + seq!['.'] + second + seq!['.'] + third
}

/// A token of a header and claims, with the signature of both under a P-256 secret, if there is one.
pub open spec fn signed_text(
    secret: Seq<u8>,
    header: Seq<char>,
    claims: Seq<char>,
) -> Option<Seq<char>> {
    let first = base64url(encode_utf8(header));
    let second = base64url(encode_utf8(claims));
    match p256_signature(secret, encode_utf8(first + seq!['.'] + second)) {
        Some(signature) => Some(dotted(first, second, base64url(signature))),
        None => None,
    }
}

/// No member has a name that `jsonwebtoken` gives a meaning to.
pub open spec fn own_names(members: Seq<(Seq<char>, ScalarView)>) -> bool {
    forall|i: int|
        0 <= i < members.len() ==> {
            let name = (#[trigger] members[i]).0;
            name != "exp"@ && name != "nbf"@ && name != "iss"@ && name != "aud"@ && name != "sub"@
        }
}

/// `jsonwebtoken::decode` accepts the token under the P-256 key, with neither time nor audience
/// looked at.
pub uninterp spec fn es256_accepted(token: Seq<char>, x: Seq<char>, y: Seq<char>) -> bool;

/// `jsonwebtoken::decode` for `ES256` with the key of the given coordinates, whatever is claimed, with
/// neither time nor audience looked at. It accepts a proof that was signed with the secret of the
/// key.
#[verifier::external_body]
fn es256_accepts(token: &str, x: &str, y: &str) -> (accepted: bool)
    ensures
        accepted == es256_accepted(token@, x@, y@),
        forall|secret: Seq<u8>, members: Seq<(Seq<char>, ScalarView)>|
            Some(token@) == #[trigger] signed_text(secret, proof_header(x@, y@), json_object(members))
                && secret.len() == 32 && p256_point(secret) is Some && x@ == key_x(secret) && y@
                == key_y(secret) && distinct_names(members) && own_names(members) ==> accepted,
{
    let mut validation = Validation::new(Algorithm::ES256);
    validation.required_spec_claims.clear();
    validation.validate_exp = false;
    validation.validate_aud = false;
    DecodingKey::from_ec_components(x, y).is_ok_and(|key|
        jsonwebtoken::decode::<IgnoredAny>(token, &key, &validation).is_ok())
}

/// The method in the form in which it is signed: without space around it, in capital letters.
pub open spec fn method_form(method: Seq<char>) -> Option<Seq<char>> {
    let form = ascii_uppercase(trimmed(method));
    if form.len() > 0 && forall|i: int| 0 <= i < form.len() ==> 'A' <= #[trigger] form[i] <= 'Z' {
        Some(form)
    } else {
        None
    }
}

/// The method in the form in which it is signed.
pub fn normalize_method(method: &str) -> (result: Result<String, ConnectError>)
    ensures
        match method_form(method@) {
            Some(form) => result matches Ok(text) && text@ == form,
            None => result == Err::<String, ConnectError>(ConnectError::InvalidDpopProof),
        },
{
    let form = to_uppercase_ascii(trim(method).as_str());
    let characters = chars_of(form.as_str());
    if characters.len() == 0 {
        return Err(ConnectError::InvalidDpopProof);
    }
    let mut i: usize = 0;
    while i < characters.len()
        invariant
            characters@ == form@,
            form@ == ascii_uppercase(trimmed(method@)),
            i <= characters.len(),
            forall|j: int| 0 <= j < i ==> 'A' <= #[trigger] form@[j] <= 'Z',
        decreases characters.len() - i,
    {
        if characters[i] < 'A' || characters[i] > 'Z' {
            assert(!('A' <= form@[i as int] <= 'Z'));
            return Err(ConnectError::InvalidDpopProof);
        }
        i = i + 1;
    }
    Ok(form)
}

/// The address in the form in which it is signed: an HTTPS address without credentials, query and
/// fragment.
pub open spec fn address_form(address: Seq<char>) -> Option<Seq<char>> {
    match parsed_url(address) {
        Some(url) => if open_address(url, "https"@) {
            bare_url(address)
        } else {
            None
        },
        None => None,
    }
}

/// The address in the form in which it is signed.
pub fn normalize_htu(value: &str) -> (result: Result<String, ConnectError>)
    ensures
        match address_form(value@) {
            Some(form) => result matches Ok(text) && text@ == form,
            None => result == Err::<String, ConnectError>(ConnectError::InvalidDpopProof),
        },
{
    match parse_url(value) {
        None => Err(ConnectError::InvalidDpopProof),
        Some(url) => {
            if !url.is_open_address("https") {
                return Err(ConnectError::InvalidDpopProof);
            }
            match url_without_query(value) {
                None => Err(ConnectError::InvalidDpopProof),
                Some(form) => Ok(form),
            }
        },
    }
}

/// What a proof claims.
#[derive(Debug, Clone, PartialEq, Eq)]
pub struct DpopClaims {
    pub htm: String,
    pub htu: String,
    pub iat: i64,
    pub jti: String,
    pub ath: Option<String>,
}

/// What a proof claims.
pub struct ClaimsView {
    pub method: Seq<char>,
    pub address: Seq<char>,
    pub issued_at: i64,
    pub identifier: Seq<char>,
    pub token_hash: Option<Seq<char>>,
}

impl View for DpopClaims {
    type V = ClaimsView;

    open spec fn view(&self) -> ClaimsView {
        ClaimsView {
            method: self.htm@,
            address: self.htu@,
            issued_at: self.iat,
            identifier: self.jti@,
            token_hash: opt_view(self.ath),
        }
    }
}

/// A 64-bit integer that was read, if it is one.
pub open spec fn read_integer(member: MemberView) -> Option<i64> {
    match member {
        MemberView::Natural(value) => if value <= i64::MAX {
            Some(value as i64)
        } else {
            None
        },
        MemberView::Negative(value) => Some(value),
        _ => None,
    }
}

/// The claims, from the members that were read of a document.
pub open spec fn claims_of(
    method: MemberView,
    address: MemberView,
    issued_at: MemberView,
    identifier: MemberView,
    hash: MemberView,
) -> Option<ClaimsView> {
    match (method, address, read_integer(issued_at), identifier) {
        (
            MemberView::Text(method),
            MemberView::Text(address),
            Some(issued_at),
            MemberView::Text(identifier),
        ) => match hash {
            MemberView::Text(hash) => Some(
                ClaimsView { method, address, issued_at, identifier, token_hash: Some(hash) },
            ),
            MemberView::Null => Some(
                ClaimsView { method, address, issued_at, identifier, token_hash: None },
            ),
            MemberView::Missing => Some(
                ClaimsView { method, address, issued_at, identifier, token_hash: None },
            ),
            _ => None,
        },
        _ => None,
    }
}

/// The claims that a document holds.
pub open spec fn claims_read(document: Seq<u8>) -> Option<ClaimsView> {
    claims_of(
        json_field(document, "htm"@, 0, 5),
        json_field(document, "htu"@, 1, 5),
        json_field(document, "iat"@, 2, 5),
        json_field(document, "jti"@, 3, 5),
        json_field(document, "ath"@, 4, 5),
    )
}

/// The claims from the members that were read of a document.
pub fn dpop_claims(
    htm: JsonMember,
    htu: JsonMember,
    iat: JsonMember,
    jti: JsonMember,
    ath: JsonMember,
) -> (claims: Option<DpopClaims>)
    ensures
        opt_view(claims) == claims_of(htm@, htu@, iat@, jti@, ath@),
{
    let iat: i64 = match iat {
        JsonMember::Natural(value) => if value <= 0x7fff_ffff_ffff_ffff {
            value as i64
        } else {
            return None;
        },
        JsonMember::Negative(value) => value,
        _ => {
            return None;
        },
    };
    let ath = match ath {
        JsonMember::Text(hash) => Some(hash),
        JsonMember::Null | JsonMember::Missing => None,
        _ => {
            return None;
        },
    };
    match (htm, htu, jti) {
        (JsonMember::Text(htm), JsonMember::Text(htu), JsonMember::Text(jti)) => Some(
            DpopClaims { htm, htu, iat, jti, ath },
        ),
        _ => None,
    }
}

/// The claims are about this request, at this time.
pub open spec fn claims_fit(
    claims: ClaimsView,
    method: Seq<char>,
    address: Seq<char>,
    token: Option<Seq<char>>,
    now: u64,
) -> bool {
    &&& method_form(method) == Some(claims.method)
    &&& address_form(address) == Some(claims.address)
    &&& now - DPOP_CLOCK_SKEW_SECONDS <= claims.issued_at <= now + DPOP_CLOCK_SKEW_SECONDS
    &&& encode_utf8(claims.identifier).len() <= 128
    &&& uuid_text(claims.identifier)
    &&& claims.token_hash == match token {
        Some(token) => Some(token_hash_of(token)),
        None => None,
    }
}

/// Whether claims are about this request, at this time.
pub fn check_claims(
    claims: &DpopClaims,
    method: &str,
    url: &str,
    access_token: Option<&str>,
    now: u64,
) -> (fits: bool)
    ensures
        fits == claims_fit(
            claims@,
            method@,
            url@,
            match access_token {
                Some(token) => Some(token@),
                None => None,
            },
            now,
        ),
{
    let method = match normalize_method(method) {
        Ok(form) => form,
        Err(_) => {
            return false;
        },
    };
    let address = match normalize_htu(url) {
        Ok(form) => form,
        Err(_) => {
            return false;
        },
    };
    if !text_eq(claims.htm.as_str(), method.as_str()) || !text_eq(
        claims.htu.as_str(),
        address.as_str(),
    ) {
        return false;
    }
    let moment = now as i128;
    let issued = claims.iat as i128;
    if issued < moment - 300 || issued > moment + 300 {
        return false;
    }
    if claims.jti.as_str().as_bytes().len() > 128 || !is_uuid(claims.jti.as_str()) {
        return false;
    }
    match (access_token, &claims.ath) {
        (Some(token), Some(hash)) => secret_eq(hash.as_str(), token_hash(token).as_str()),
        (None, None) => true,
        _ => false,
    }
}

/// A proof that holds: the thumbprint of its key, its identifier, and when it was made.
#[derive(Debug, Clone, PartialEq, Eq)]
pub struct VerifiedDpop {
    pub thumbprint: String,
    pub jti: String,
    pub iat: i64,
}

/// What a proof that holds says.
pub struct VerifiedView {
    pub thumbprint: Seq<char>,
    pub identifier: Seq<char>,
    pub issued_at: i64,
}

impl View for VerifiedDpop {
    type V = VerifiedView;

    open spec fn view(&self) -> VerifiedView {
        VerifiedView {
            thumbprint: self.thumbprint@,
            identifier: self.jti@,
            issued_at: self.iat,
        }
    }
}

/// The key and the claims of a proof, where it is a token of three parts that its own P-256 key
/// has signed.
pub open spec fn proof_read(proof: Seq<char>) -> Option<(Seq<char>, Seq<char>, ClaimsView)> {
    let parts = split(proof, '.');
    if encode_utf8(proof).len() > MAX_PROOF_BYTES || parts.len() != 3 {
        None
    } else {
        match token_header(proof) {
            None => None,
            Some(header) => match header.key {
                KeyView::P256 { x, y } => if header.algorithm == TokenAlgorithm::Es256
                    && header.kind == Some("dpop+jwt"@) && es256_accepted(proof, x, y) {
                    match decoded(parts[1]) {
                        None => None,
                        Some(document) => match claims_read(document) {
                            None => None,
                            Some(claims) => Some((x, y, claims)),
                        },
                    }
                } else {
                    None
                },
                _ => None,
            },
        }
    }
}

/// What a proof shows of a request.
pub open spec fn proof_verdict(
    proof: Seq<char>,
    method: Seq<char>,
    address: Seq<char>,
    token: Option<Seq<char>>,
    now: u64,
) -> Option<VerifiedView> {
    match proof_read(proof) {
        None => None,
        Some((x, y, claims)) => if claims_fit(claims, method, address, token, now) {
            Some(
                VerifiedView {
                    thumbprint: thumbprint_of(x, y),
                    identifier: claims.identifier,
                    issued_at: claims.issued_at,
                },
            )
        } else {
            None
        },
    }
}

/// The members of the claims, as they are written.
pub open spec fn claim_members(claims: ClaimsView) -> Seq<(Seq<char>, ScalarView)> {
    let always = seq![
        ("htm"@, ScalarView::Text(claims.method)),
        ("htu"@, ScalarView::Text(claims.address)),
        ("iat"@, ScalarView::Natural(claims.issued_at as u64)),
        ("jti"@, ScalarView::Text(claims.identifier)),
    ];
    match claims.token_hash {
        Some(hash) => always.push(("ath"@, ScalarView::Text(hash))),
        None => always,
    }
}

/// The proof of claims under a secret, if it can sign them.
pub open spec fn proof_text(secret: Seq<u8>, claims: ClaimsView) -> Option<Seq<char>> {
    signed_text(
        secret,
        proof_header(key_x(secret), key_y(secret)),
        json_object(claim_members(claims)),
    )
}

proof fn lemma_claim_names(claims: ClaimsView)
    ensures
        distinct_names(claim_members(claims)),
        own_names(claim_members(claims)),
{
    reveal_strlit("htm");
    reveal_strlit("htu");
    reveal_strlit("iat");
    reveal_strlit("jti");
    reveal_strlit("ath");
    reveal_strlit("exp");
    reveal_strlit("nbf");
    reveal_strlit("iss");
    reveal_strlit("aud");
    reveal_strlit("sub");
    assert("htm"@[2] == 'm' && "htu"@[2] == 'u' && "htm"@[0] == 'h' && "htu"@[0] == 'h');
    assert("iat"@[0] == 'i' && "jti"@[0] == 'j' && "ath"@[0] == 'a');
    assert("exp"@[0] == 'e' && "nbf"@[0] == 'n' && "sub"@[0] == 's');
    assert("iss"@[0] == 'i' && "aud"@[0] == 'a' && "iss"@[1] == 's' && "aud"@[1] == 'u');
    assert("iat"@[1] == 'a' && "ath"@[1] == 't');
}

proof fn lemma_dotted_parts(first: Seq<char>, second: Seq<char>, third: Seq<char>)
    requires
        !first.contains('.'),
        !second.contains('.'),
        !third.contains('.'),
    ensures
        split(dotted(first, second, third), '.') == seq![first, second, third],
{
    lemma_split_single(first, '.');
    lemma_split_behind(first, '.', second);
    lemma_split_behind(first + seq!['.'] + second, '.', third);
    assert(split(dotted(first, second, third), '.') =~= seq![first, second, third]);
}

fn read_proof(proof: &str) -> (read: Option<(String, String, DpopClaims)>)
    ensures
        match read {
            Some((x, y, claims)) => proof_read(proof@) == Some((x@, y@, claims@)),
            None => proof_read(proof@) is None,
        },
        forall|secret: Seq<u8>, claims: ClaimsView|
            Some(proof@) == #[trigger] proof_text(secret, claims) && secret.len() == 32 && p256_point(
                secret,
            ) is Some && encode_utf8(proof@).len() <= MAX_PROOF_BYTES && claims.issued_at >= 0
                ==> proof_read(proof@) == Some(
                (
                    key_x(secret),
                    key_y(secret),
                    claims,
                ),
            ),
{
    let header = read_token_header(proof);
    let pieces = split_text(proof, '.');
    let document = if pieces.len() == 3 {
        decode(pieces[1].as_str())
    } else {
        None
    };
    let claims = match &document {
        Some(bytes) => {
            let htm = read_field(bytes.as_slice(), "htm", 0, 5);
            let htu = read_field(bytes.as_slice(), "htu", 1, 5);
            let iat = read_field(bytes.as_slice(), "iat", 2, 5);
            let jti = read_field(bytes.as_slice(), "jti", 3, 5);
            let ath = read_field(bytes.as_slice(), "ath", 4, 5);
            dpop_claims(htm, htu, iat, jti, ath)
        },
        None => None,
    };
    let (accepted, x, y) = match &header {
        Some(known) => match &known.key {
            TokenKey::P256 { x, y } => (
                known.algorithm == TokenAlgorithm::Es256 && (match &known.kind {
                    Some(kind) => text_eq(kind.as_str(), "dpop+jwt"),
                    None => false,
                }) && es256_accepts(proof, x.as_str(), y.as_str()),
                x.as_str(),
                y.as_str(),
            ),
            _ => (false, "", ""),
        },
        None => (false, "", ""),
    };
    proof {
        assert forall|secret: Seq<u8>, told: ClaimsView|
            Some(proof@) == #[trigger] proof_text(secret, told) && secret.len() == 32 && p256_point(
                secret,
            ) is Some && encode_utf8(proof@).len() <= MAX_PROOF_BYTES && told.issued_at
                >= 0 implies proof_read(proof@) == Some((key_x(secret), key_y(secret), told)) by {
            let members = claim_members(told);
            let written = json_object(members);
            let first = base64url(encode_utf8(proof_header(key_x(secret), key_y(secret))));
            let second = base64url(encode_utf8(written));
            let signature = p256_signature(secret, encode_utf8(first + seq!['.'] + second))->0;
            let third = base64url(signature);
            lemma_claim_names(told);
            lemma_base64url_letters(encode_utf8(proof_header(key_x(secret), key_y(secret))));
            lemma_base64url_letters(encode_utf8(written));
            lemma_base64url_letters(signature);
            lemma_dotted_parts(first, second, third);
            lemma_decoded(encode_utf8(written));
            assert(proof@ == dotted(first, second, third));
            assert(views(pieces@).len() == 3);
            assert(pieces@[1]@ == views(pieces@)[1]);
            assert(opt_view(document) == Some(encode_utf8(written)));
            assert(document matches Some(bytes) && bytes@ == encode_utf8(written));
            assert(members[0].0 == "htm"@);
            assert(members[1].0 == "htu"@);
            assert(members[2].0 == "iat"@);
            assert(members[3].0 == "jti"@);
            if told.token_hash is Some {
                assert(members[4].0 == "ath"@);
            } else {
                lemma_claim_names(
                    ClaimsView { token_hash: Some(Seq::empty()), ..told },
                );
                let longer = claim_members(
                    ClaimsView { token_hash: Some(Seq::empty()), ..told },
                );
                assert(longer[4].0 == "ath"@);
                assert forall|i: int| 0 <= i < members.len() implies (#[trigger] members[i]).0
                    != "ath"@ by {
                    assert(longer[i].0 == members[i].0);
                    assert(longer[i].0 != longer[4].0);
                }
            }
            assert(opt_view(claims) == Some(told));
            assert(accepted);
        }
    }
    if proof.as_bytes().len() > MAX_PROOF_BYTES || pieces.len() != 3 || !accepted {
        return None;
    }
    match claims {
        Some(claims) => Some((x.to_owned(), y.to_owned(), claims)),
        None => None,
    }
}

/// Checks a proof of a request. It must be signed by the key that it carries, name the method and
/// the address of the request, be fresh, and be bound to the access token where there is one.
pub fn verify_dpop(
    proof: &str,
    method: &str,
    url: &str,
    access_token: Option<&str>,
    now: u64,
) -> (result: Result<VerifiedDpop, ConnectError>)
    ensures
        match proof_verdict(
            proof@,
            method@,
            url@,
            match access_token {
                Some(token) => Some(token@),
                None => None,
            },
            now,
        ) {
            Some(verified) => result matches Ok(shown) && shown@ == verified,
            None => result == Err::<VerifiedDpop, ConnectError>(ConnectError::InvalidDpopProof),
        },
        forall|secret: Seq<u8>, claims: ClaimsView|
            Some(proof@) == #[trigger] proof_text(secret, claims) && secret.len() == 32 && p256_point(
                secret,
            ) is Some && encode_utf8(proof@).len() <= MAX_PROOF_BYTES && claims.issued_at >= 0
                && claims_fit(
                claims,
                method@,
                url@,
                match access_token {
                    Some(token) => Some(token@),
                    None => None,
                },
                now,
            ) ==> (result matches Ok(shown) && shown@ == (VerifiedView {
                thumbprint: thumbprint_of(
                    key_x(secret),
                    key_y(secret),
                ),
                identifier: claims.identifier,
                issued_at: claims.issued_at,
            })),
{
    match read_proof(proof) {
        None => Err(ConnectError::InvalidDpopProof),
        Some((x, y, claims)) => {
            if !check_claims(&claims, method, url, access_token, now) {
                return Err(ConnectError::InvalidDpopProof);
            }
            Ok(
                VerifiedDpop {
                    thumbprint: jwk_thumbprint(x.as_str(), y.as_str()),
                    jti: claims.jti,
                    iat: claims.iat,
                },
            )
        },
    }
}

/// The label of a key: letters, digits and hyphens.
pub open spec fn label_valid(label: Seq<char>) -> bool {
    label.len() > 0 && forall|i: int| 0 <= i < label.len() ==> label_letter(#[trigger] label[i])
}

/// A letter, digit or hyphen.
pub open spec fn label_letter(character: char) -> bool {
    ('a' <= character <= 'z') || ('A' <= character <= 'Z') || ('0' <= character <= '9') || character
        == '-'
}

fn is_label(label: &str) -> (valid: bool)
    ensures
        valid == label_valid(label@),
{
    let characters = chars_of(label);
    if characters.len() == 0 {
        return false;
    }
    let mut i: usize = 0;
    while i < characters.len()
        invariant
            characters@ == label@,
            i <= characters.len(),
            forall|j: int| 0 <= j < i ==> label_letter(#[trigger] label@[j]),
        decreases characters.len() - i,
    {
        let character = characters[i];
        if !(('a' <= character && character <= 'z') || ('A' <= character && character <= 'Z') || (
        '0' <= character && character <= '9') || character == '-') {
            assert(!label_letter(label@[i as int]));
            return false;
        }
        i = i + 1;
    }
    true
}

/// The public half of a key that proves requests.
#[derive(Debug, Clone, PartialEq, Eq)]
pub struct EcPublicJwk {
    pub kty: String,
    pub crv: String,
    pub x: String,
    pub y: String,
}

/// A key that proves requests.
pub struct DpopKey {
    secret: [u8; 32],
}

impl View for DpopKey {
    type V = Seq<u8>;

    closed spec fn view(&self) -> Seq<u8> {
        self.secret@
    }
}

impl Clone for DpopKey {
    fn clone(&self) -> (copy: Self)
        ensures
            copy@ == self@,
    {
        proof {
            use_type_invariant(self);
        }
        DpopKey { secret: self.secret }
    }
}

/// The name under which a key is kept.
pub open spec fn dpop_account(environment: Seq<char>, label: Seq<char>) -> Seq<char> {
    "connect:"@ + environment + ":dpop:"@ + label
}

/// Why a key of this environment and label cannot be kept.
pub open spec fn account_fault(environment: Seq<char>, label: Seq<char>) -> Option<ConnectError> {
    if !connectable(environment) {
        Some(ConnectError::InvalidConfiguration)
    } else if !label_valid(label) {
        Some(ConnectError::InvalidKeyMaterial)
    } else {
        None
    }
}

/// What is claimed of a request.
pub open spec fn request_claims(
    method: Seq<char>,
    address: Seq<char>,
    token: Option<Seq<char>>,
    now: u64,
    identifier: Seq<char>,
) -> ClaimsView {
    ClaimsView {
        method,
        address,
        issued_at: now as i64,
        identifier,
        token_hash: match token {
            Some(token) => Some(token_hash_of(token)),
            None => None,
        },
    }
}

/// A proof that was made for a request fits that request, and goes on to for as long as clocks may
/// differ.
pub proof fn lemma_made_proof_fits(
    method: Seq<char>,
    url: Seq<char>,
    token: Option<Seq<char>>,
    made_at: u64,
    now: u64,
    identifier: Seq<char>,
)
    requires
        made_at <= i64::MAX,
        made_at <= now + DPOP_CLOCK_SKEW_SECONDS,
        now <= made_at + DPOP_CLOCK_SKEW_SECONDS,
        hyphenated_uuid(identifier),
        method_form(method) is Some,
        address_form(url) is Some,
    ensures
        claims_fit(
            request_claims(
                method_form(method)->0,
                address_form(url)->0,
                token,
                made_at,
                identifier,
            ),
            method,
            url,
            token,
            now,
        ),
{
    assert forall|i: int| 0 <= i < identifier.len() implies (#[trigger] identifier[i] as u32)
        < 0x80 by {
        assert(identifier[i] == '-' || crate::ids::any_hex_digit(identifier[i]));
    }
    assert(is_ascii_chars(identifier));
    is_ascii_chars_encode_utf8(identifier);
}

/// A proof is bound to its request: what it is good for has one method, one address and one access
/// token, as far as the hash of the token tells.
pub proof fn lemma_proof_bound(
    shown: Seq<char>,
    method: Seq<char>,
    url: Seq<char>,
    token: Option<Seq<char>>,
    now: u64,
    other_method: Seq<char>,
    other_url: Seq<char>,
    other_token: Option<Seq<char>>,
    other_now: u64,
)
    requires
        proof_verdict(shown, method, url, token, now) is Some,
        proof_verdict(shown, other_method, other_url, other_token, other_now) is Some,
    ensures
        method_form(method) == method_form(other_method),
        address_form(url) == address_form(other_url),
        token is Some <==> other_token is Some,
        token matches Some(first) ==> (other_token matches Some(second) && token_hash_of(first)
            == token_hash_of(second)),
{
}

impl DpopKey {
    #[verifier::type_invariant]
    spec fn is_secret(self) -> bool {
        p256_point(self.secret@) is Some
    }

    /// The name under which a key is kept.
    pub fn account(environment: &str, label: &str) -> (result: Result<String, ConnectError>)
        ensures
            match account_fault(environment@, label@) {
                Some(error) => result == Err::<String, ConnectError>(error),
                None => result matches Ok(account) && account@ == dpop_account(environment@, label@),
            },
    {
        match require_environment(environment) {
            Err(error) => {
                return Err(error);
            },
            Ok(()) => {},
        }
        if !is_label(label) {
            return Err(ConnectError::InvalidKeyMaterial);
        }
        let mut account = "connect:".to_owned();
        account.append(environment);
        account.append(":dpop:");
        account.append(label);
        Ok(account)
    }

    /// The key of an environment and label, given what is kept under its name: that key, or a new
    /// one where there is none. The second part tells whether the key is new and to be kept.
    pub fn load_or_create(environment: &str, label: &str, kept: Option<Vec<u8>>) -> (result: Result<
        (Self, bool),
        ConnectError,
    >)
        ensures
            match account_fault(environment@, label@) {
                Some(error) => result == Err::<(Self, bool), ConnectError>(error),
                None => match kept {
                    Some(bytes) => if bytes@.len() == 32 && p256_point(bytes@) is Some {
                        result matches Ok((key, new)) && key@ == bytes@ && !new
                    } else {
                        result == Err::<(Self, bool), ConnectError>(
                            ConnectError::InvalidKeyMaterial,
                        )
                    },
                    None => result matches Ok((key, new)) && p256_point(key@) is Some && new,
                },
            },
    {
        match DpopKey::account(environment, label) {
            Err(error) => {
                return Err(error);
            },
            Ok(_) => {},
        }
        match kept {
            Some(bytes) => {
                if bytes.len() != 32 {
                    return Err(ConnectError::InvalidKeyMaterial);
                }
                match DpopKey::from_bytes(fixed_32(bytes.as_slice())) {
                    Ok(key) => Ok((key, false)),
                    Err(error) => Err(error),
                }
            },
            None => Ok((DpopKey::random(), true)),
        }
    }

    /// The key of a secret, where it is one.
    pub fn from_bytes(bytes: [u8; 32]) -> (result: Result<Self, ConnectError>)
        ensures
            if p256_point(bytes@) is Some {
                result matches Ok(key) && key@ == bytes@
            } else {
                result == Err::<Self, ConnectError>(ConnectError::InvalidKeyMaterial)
            },
    {
        match p256_public(&bytes) {
            Some(_) => Ok(DpopKey { secret: bytes }),
            None => Err(ConnectError::InvalidKeyMaterial),
        }
    }

    /// A new key.
    pub fn random() -> (key: Self)
        ensures
            p256_point(key@) is Some,
    {
        let secret = p256_random();
        DpopKey { secret }
    }

    /// The bytes that are kept of the key.
    pub fn as_bytes(&self) -> (bytes: &[u8; 32])
        ensures
            bytes@ == self@,
            p256_point(self@) is Some,
    {
        proof {
            use_type_invariant(self);
        }
        &self.secret
    }

    /// The public half of the key.
    pub fn public_jwk(&self) -> (jwk: EcPublicJwk)
        ensures
            p256_point(self@) is Some,
            jwk.kty@ == "EC"@,
            jwk.crv@ == "P-256"@,
            jwk.x@ == key_x(self@),
            jwk.y@ == key_y(self@),
    {
        proof {
            use_type_invariant(self);
        }
        let (x, y) = match p256_public(&self.secret) {
            Some((x, y)) => (base64_encode(x.as_slice()), base64_encode(y.as_slice())),
            None => (String::new(), String::new()),
        };
        EcPublicJwk { kty: "EC".to_owned(), crv: "P-256".to_owned(), x, y }
    }

    /// The thumbprint of the key.
    pub fn thumbprint(&self) -> (result: Result<String, ConnectError>)
        ensures
            result matches Ok(thumbprint) && thumbprint@ == thumbprint_of(
                key_x(self@),
                key_y(self@),
            ),
    {
        let jwk = self.public_jwk();
        Ok(jwk_thumbprint(jwk.x.as_str(), jwk.y.as_str()))
    }

    fn sign_claims(&self, claims: &DpopClaims) -> (result: Option<String>)
        requires
            claims.iat >= 0,
        ensures
            opt_view(result) == proof_text(self@, claims@),
    {
        proof {
            use_type_invariant(self);
        }
        let jwk = self.public_jwk();
        let key = [
            ("kty", JsonScalar::Text(jwk.kty)),
            ("crv", JsonScalar::Text(jwk.crv)),
            ("x", JsonScalar::Text(jwk.x)),
            ("y", JsonScalar::Text(jwk.y)),
        ];
        assert(member_views(key@) =~= jwk_members(key_x(self@), key_y(self@)));
        let mut header = "{\"typ\":\"dpop+jwt\",\"alg\":\"ES256\",\"jwk\":".to_owned();
        header.append(write_object(key.as_slice()).as_str());
        header.append("}");
        assert(header@ == proof_header(key_x(self@), key_y(self@)));
        let mut members: Vec<(&str, JsonScalar)> = Vec::new();
        members.push(("htm", JsonScalar::Text(claims.htm.as_str().to_owned())));
        members.push(("htu", JsonScalar::Text(claims.htu.as_str().to_owned())));
        members.push(("iat", JsonScalar::Natural(claims.iat as u64)));
        members.push(("jti", JsonScalar::Text(claims.jti.as_str().to_owned())));
        match &claims.ath {
            Some(hash) => {
                members.push(("ath", JsonScalar::Text(hash.as_str().to_owned())));
            },
            None => {},
        }
        assert(member_views(members@) =~= claim_members(claims@));
        let body = write_object(members.as_slice());
        let mut text = base64_encode(header.as_str().as_bytes());
        text.push('.');
        text.append(base64_encode(body.as_str().as_bytes()).as_str());
        let ghost first = base64url(encode_utf8(header@));
        let ghost second = base64url(encode_utf8(body@));
        assert(text@ =~= first + seq!['.'] + second);
        let signature = match p256_sign(&self.secret, text.as_str().as_bytes()) {
            None => {
                return None;
            },
            Some(signature) => signature,
        };
        text.push('.');
        text.append(base64_encode(signature.as_slice()).as_str());
        assert(text@ =~= dotted(first, second, base64url(signature@)));
        Some(text)
    }

    /// The proof of a request, with the given identifier.
    pub fn prove_with(
        &self,
        method: &str,
        url: &str,
        access_token: Option<&str>,
        now: u64,
        identifier: String,
    ) -> (result: Result<String, ConnectError>)
        requires
            now <= i64::MAX,
        ensures
            match (method_form(method@), address_form(url@)) {
                (Some(method), Some(address)) => match proof_text(
                    self@,
                    request_claims(
                        method,
                        address,
                        match access_token {
                            Some(token) => Some(token@),
                            None => None,
                        },
                        now,
                        identifier@,
                    ),
                ) {
                    Some(text) => result matches Ok(proof) && proof@ == text,
                    None => result == Err::<String, ConnectError>(ConnectError::InvalidEncoding),
                },
                _ => result == Err::<String, ConnectError>(ConnectError::InvalidDpopProof),
            },
    {
        let htu = match normalize_htu(url) {
            Err(error) => {
                return Err(error);
            },
            Ok(form) => form,
        };
        let htm = match normalize_method(method) {
            Err(error) => {
                return Err(error);
            },
            Ok(form) => form,
        };
        let ath = match access_token {
            Some(token) => Some(token_hash(token)),
            None => None,
        };
        let claims = DpopClaims { htm, htu, iat: now as i64, jti: identifier, ath };
        match self.sign_claims(&claims) {
            Some(text) => Ok(text),
            None => Err(ConnectError::InvalidEncoding),
        }
    }

    /// The proof of a request, with an identifier that was not used before.
    pub fn prove(&self, method: &str, url: &str, access_token: Option<&str>, now: u64) -> (result:
        Result<String, ConnectError>)
        requires
            now <= i64::MAX,
        ensures
            match (method_form(method@), address_form(url@)) {
                (Some(method), Some(address)) => exists|identifier: Seq<char>| #[trigger]
                    hyphenated_uuid(identifier) && (match proof_text(
                        self@,
                        request_claims(
                            method,
                            address,
                            match access_token {
                                Some(token) => Some(token@),
                                None => None,
                            },
                            now,
                            identifier,
                        ),
                    ) {
                        Some(text) => result matches Ok(proof) && proof@ == text,
                        None => result == Err::<String, ConnectError>(
                            ConnectError::InvalidEncoding,
                        ),
                    }),
                _ => result == Err::<String, ConnectError>(ConnectError::InvalidDpopProof),
            },
    {
        let identifier = new_uuid();
        let ghost drawn = identifier@;
        assert(hyphenated_uuid(drawn));
        self.prove_with(method, url, access_token, now, identifier)
    }
}

} // verus!
