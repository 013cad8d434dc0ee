//! Workspace keys, sealed envelopes and the pairing that hands a workspace key to a new device.

use chacha20poly1305::aead::{Aead, KeyInit, OsRng, Payload};
use chacha20poly1305::{ChaCha20Poly1305, Nonce};
use hkdf::Hkdf;
use rand_core::RngCore;
use sha2::Sha256;
use subtle::ConstantTimeEq;
use vstd::prelude::*;
use vstd::string::*;
use vstd::utf8::*;
use x25519_dalek::{PublicKey, StaticSecret};

use crate::encoding::{
    base64_decode, base64_encode, base64url, be32, decodable, decode_fixed, decodes_to,
    length_prefixed, lemma_base64url_injective, lemma_length_prefixed_injective, push_field,
};
use crate::json::{
    distinct_names, json_field, json_object, member_views, read_field, write_object, JsonMember,
    JsonScalar, MemberView, ScalarView,
};
use crate::plain::{duplicate_opt, opt_view, same_opt, Plain};
use crate::text::{
    decimal, decimal_text, lemma_decimal, lemma_encode_utf8_injective, text_eq,
};

verus! {

/// Under this name, followed by the workspace, its key is kept.
pub const KEYCHAIN_ACCOUNT_PREFIX: &'static str = "workspace-key:";

/// Why a cryptographic step failed.
#[derive(Debug, Clone, Copy, PartialEq, Eq, Structural)]
pub enum CryptoError {
    InvalidEncoding,
    InvalidPairingToken,
    ExpiredPairing,
    KeyDerivationFailed,
    EncryptionFailed,
    AuthenticationFailed,
    UnsupportedVersion,
    KeychainFailed,
    PrincipalMismatch,
}

/// `OsRng::fill_bytes` draws bytes at random; nothing is known of them.
#[verifier::external_body]
pub(crate) fn random_bytes<const N: usize>() -> (bytes: [u8; N]) {
    let mut bytes = [0_u8; N];
    OsRng.fill_bytes(&mut bytes);
    bytes
}

/// `ConstantTimeEq::ct_eq` on byte strings tells whether they are equal.
#[verifier::external_body]
pub(crate) fn ct_equal(left: &[u8], right: &[u8]) -> (equal: bool)
    ensures
        equal == (left@ == right@),
{
    bool::from(left.ct_eq(right))
}

/// Whether two texts are equal, compared in constant time.
pub fn secret_eq(left: &str, right: &str) -> (equal: bool)
    ensures
        equal == (left@ == right@),
{
    let equal = ct_equal(left.as_bytes(), right.as_bytes());
    proof {
        if equal {
            lemma_encode_utf8_injective(left@, right@);
        }
    }
    equal
}

/// What `Hkdf::<Sha256>` derives from a salt and a secret for a purpose: thirty-two bytes.
pub uninterp spec fn hkdf_sha256(salt: Seq<u8>, secret: Seq<u8>, info: Seq<u8>) -> Seq<u8>;

/// `Hkdf::<Sha256>::new` and `Hkdf::expand`. Thirty-two bytes are within what can be derived, so
/// that it does not fail.
#[verifier::external_body]
fn hkdf_expand(salt: &[u8], secret: &[u8], info: &[u8]) -> (key: Option<[u8; 32]>)
    ensures
        opt_view(key) == Some(hkdf_sha256(salt@, secret@, info@)),
{
    let mut key = [0_u8; 32];
    Hkdf::<Sha256>::new(Some(salt), secret).expand(info, &mut key).ok()?;
    Some(key)
}

/// What `ChaCha20Poly1305` makes of a message under a key and a nonce, with associated data: the
/// encrypted message with its tag, or nothing where the message is too long.
pub uninterp spec fn chacha_sealed(
    key: Seq<u8>,
    nonce: Seq<u8>,
    message: Seq<u8>,
    aad: Seq<u8>,
) -> Option<Seq<u8>>;

/// The longest message that the cipher can take, in bytes: its blocks of sixty-four bytes are
/// counted in thirty-two bits, and the first is taken by the tag.
pub const MAX_SEALED_BYTES: u64 = 274_877_906_816;

/// The length of the tag that follows an encrypted message.
pub const TAG_BYTES: u64 = 16;

/// A message that the cipher can take.
pub open spec fn sealable(message: Seq<u8>) -> bool {
    message.len() <= MAX_SEALED_BYTES
}

/// `ChaCha20Poly1305::encrypt` on a message whose blocks can be counted: the encrypted message is
/// as long as the message with the tag.
#[verifier::external_body]
fn chacha_encrypt(key: &[u8; 32], nonce: &[u8; 12], message: &[u8], aad: &[u8]) -> (sealed: Option<
    Vec<u8>,
>)
    requires
        sealable(message@),
    ensures
        opt_view(sealed) == chacha_sealed(key@, nonce@, message@, aad@),
        sealed is Some && sealed->0@.len() == message@.len() + TAG_BYTES,
{
    ChaCha20Poly1305::new(key.into())
        .encrypt(Nonce::from_slice(nonce), Payload { msg: message, aad })
        .ok()
}

/// `ChaCha20Poly1305::decrypt` gives the message of which the bytes are the encrypted form under
/// the same key, nonce and associated data; where there is none it fails. There is at most one, and
/// the associated data does not decide which: it goes into the tag alone, while the message is
/// added to a stream that the key and the nonce give.
#[verifier::external_body]
fn chacha_decrypt(key: &[u8; 32], nonce: &[u8; 12], sealed: &[u8], aad: &[u8]) -> (message: Option<
    Vec<u8>,
>)
    requires
        sealed@.len() <= MAX_SEALED_BYTES + TAG_BYTES,
    ensures
        match message {
            Some(opened) => chacha_sealed(key@, nonce@, opened@, aad@) == Some(sealed@)
                && opened@.len() + TAG_BYTES == sealed@.len() && forall|
                any: Seq<u8>,
                other: Seq<u8>,
            | #[trigger]
                chacha_sealed(key@, nonce@, any, other) == Some(sealed@) ==> any == opened@,
            None => forall|any: Seq<u8>| #[trigger]
                chacha_sealed(key@, nonce@, any, aad@) != Some(sealed@),
        },
{
    ChaCha20Poly1305::new(key.into())
        .decrypt(Nonce::from_slice(nonce), Payload { msg: sealed, aad })
        .ok()
}

/// The X25519 public key of a secret.
pub uninterp spec fn x25519_public(secret: Seq<u8>) -> Seq<u8>;

/// What X25519 makes of a secret and the public key of the other side.
pub uninterp spec fn x25519_shared(secret: Seq<u8>, public: Seq<u8>) -> Seq<u8>;

/// `StaticSecret::random_from_rng` draws a secret at random; nothing is known of it.
#[verifier::external_body]
pub(crate) fn random_secret() -> (secret: [u8; 32]) {
    StaticSecret::random_from_rng(OsRng).to_bytes()
}

/// `PublicKey::from` a `StaticSecret`.
#[verifier::external_body]
pub(crate) fn public_key(secret: &[u8; 32]) -> (public: [u8; 32])
    ensures
        public@ == x25519_public(secret@),
{
    PublicKey::from(&StaticSecret::from(*secret)).to_bytes()
}

/// `StaticSecret::diffie_hellman`. Two sides that hold each other's public keys share one secret.
#[verifier::external_body]
fn diffie_hellman(secret: &[u8; 32], public: &[u8; 32]) -> (shared: [u8; 32])
    ensures
        shared@ == x25519_shared(secret@, public@),
        forall|other: Seq<u8>|
            other.len() == 32 && public@ == #[trigger] x25519_public(other) ==> shared@
                == x25519_shared(other, x25519_public(secret@)),
{
    StaticSecret::from(*secret).diffie_hellman(&PublicKey::from(*public)).to_bytes()
}

/// The key of a workspace.
#[derive(Clone)]
pub struct WorkspaceKey([u8; 32]);

impl View for WorkspaceKey {
    type V = Seq<u8>;

    closed spec fn view(&self) -> Seq<u8> {
        self.0@
    }
}

/// The thirty-two bytes of a list.
pub(crate) fn fixed_32(bytes: &[u8]) -> (array: [u8; 32])
    requires
        bytes@.len() == 32,
    ensures
        array@ == bytes@,
{
    let mut array: [u8; 32] = [0u8;32];
    let mut i: usize = 0;
    while i < 32
        invariant
            bytes@.len() == 32,
            i <= 32,
            forall|j: int| 0 <= j < i ==> array@[j] == bytes@[j],
        decreases 32 - i,
    {
        array[i] = bytes[i];
        i = i + 1;
    }
    assert(array@ =~= bytes@);
    array
}

/// The twelve bytes of a list.
fn fixed_12(bytes: &[u8]) -> (array: [u8; 12])
    requires
        bytes@.len() == 12,
    ensures
        array@ == bytes@,
{
    let mut array: [u8; 12] = [0u8;12];
    let mut i: usize = 0;
    while i < 12
        invariant
            bytes@.len() == 12,
            i <= 12,
            forall|j: int| 0 <= j < i ==> array@[j] == bytes@[j],
        decreases 12 - i,
    {
        array[i] = bytes[i];
        i = i + 1;
    }
    assert(array@ =~= bytes@);
    array
}

impl WorkspaceKey {
    /// A new key.
    pub fn random() -> (key: Self)
        ensures
            key@.len() == 32,
    {
        WorkspaceKey(random_bytes::<32>())
    }

    /// The key of the given bytes.
    pub fn from_bytes(bytes: [u8; 32]) -> (key: Self)
        ensures
            key@ == bytes@,
    {
        WorkspaceKey(bytes)
    }

    /// The bytes of the key.
    pub fn as_bytes(&self) -> (bytes: &[u8; 32])
        ensures
            bytes@ == self@,
            self@.len() == 32,
    {
        &self.0
    }

    /// The key as text.
    pub fn encode(&self) -> (text: String)
        ensures
            text@ == base64url(self@),
            self@.len() == 32,
    {
        base64_encode(self.0.as_slice())
    }

    /// The key that a text gives.
    pub fn decode(value: &str) -> (result: Result<Self, CryptoError>)
        ensures
            result is Ok <==> decodable(value@, 32),
            result matches Ok(key) ==> decodes_to(value@, key@, 32),
            result matches Err(error) ==> error == CryptoError::InvalidEncoding,
    {
        match decode_fixed(value, 32) {
            None => Err(CryptoError::InvalidEncoding),
            Some(bytes) => Ok(WorkspaceKey(fixed_32(bytes.as_slice()))),
        }
    }

    /// A second copy of the key.
    pub fn copied(&self) -> (copy: Self)
        ensures
            copy@ == self@,
    {
        WorkspaceKey(self.0)
    }
}

/// A key that is written down and read again is the same key.
pub proof fn lemma_workspace_key_round_trip(key: Seq<u8>, read: Seq<u8>)
    requires
        key.len() == 32,
        decodes_to(base64url(key), read, 32),
    ensures
        read == key,
        decodable(base64url(key), 32),
{
    lemma_base64url_injective(read, key);
    assert(decodes_to(base64url(key), key, 32));
}

/// An encrypted message in text form.
#[derive(Debug, Clone, PartialEq, Eq)]
pub struct SealedEnvelope {
    pub version: u8,
    pub nonce: String,
    pub ciphertext: String,
}

/// What an envelope says.
pub struct EnvelopeView {
    pub version: u8,
    pub nonce: Seq<char>,
    pub ciphertext: Seq<char>,
}

impl View for SealedEnvelope {
    type V = EnvelopeView;

    open spec fn view(&self) -> EnvelopeView {
        EnvelopeView {
            version: self.version,
            nonce: self.nonce@,
            ciphertext: self.ciphertext@,
        }
    }
}

/// The envelope holds the message under the key and the associated data, with the given nonce.
pub open spec fn seals_with(
    envelope: EnvelopeView,
    key: Seq<u8>,
    message: Seq<u8>,
    aad: Seq<u8>,
    nonce: Seq<u8>,
) -> bool {
    &&& nonce.len() == 12
    &&& sealable(message)
    &&& envelope.version == 1
    &&& envelope.nonce == base64url(nonce)
    &&& chacha_sealed(key, nonce, message, aad) is Some
    &&& chacha_sealed(key, nonce, message, aad)->0.len() == message.len() + TAG_BYTES
    &&& envelope.ciphertext == base64url(chacha_sealed(key, nonce, message, aad)->0)
}

/// The envelope holds the message under the key and the associated data.
pub open spec fn seals(
    envelope: EnvelopeView,
    key: Seq<u8>,
    message: Seq<u8>,
    aad: Seq<u8>,
) -> bool {
    exists|nonce: Seq<u8>| #[trigger] seals_with(envelope, key, message, aad, nonce)
}

/// Encrypts a message under a fresh nonce. Only a message that the cipher cannot take fails.
pub fn seal(key: &WorkspaceKey, plaintext: &[u8], aad: &[u8]) -> (result: Result<
    SealedEnvelope,
    CryptoError,
>)
    ensures
        result is Ok <==> sealable(plaintext@),
        result matches Ok(envelope) ==> seals(envelope@, key@, plaintext@, aad@),
        result matches Err(error) ==> error == CryptoError::EncryptionFailed,
{
    if plaintext.len() as u64 > MAX_SEALED_BYTES {
        return Err(CryptoError::EncryptionFailed);
    }
    let nonce = random_bytes::<12>();
    match chacha_encrypt(key.as_bytes(), &nonce, plaintext, aad) {
        None => Err(CryptoError::EncryptionFailed),
        Some(ciphertext) => {
            let envelope = SealedEnvelope {
                version: 1,
                nonce: base64_encode(nonce.as_slice()),
                ciphertext: base64_encode(ciphertext.as_slice()),
            };
            assert(seals_with(envelope@, key@, plaintext@, aad@, nonce@));
            Ok(envelope)
        },
    }
}

/// The envelope is in the form that can be opened at all: of the known version, with a nonce of
/// twelve bytes and a base64 body.
pub open spec fn well_encoded(envelope: EnvelopeView) -> bool {
    decodable(envelope.nonce, 12) && exists|body: Seq<u8>| #[trigger]
        base64url(body) == envelope.ciphertext
}

/// Decrypts a message: what was sealed under the same key and associated data comes back, and
/// nothing else opens. An envelope never gives another message than the one that was put into it
/// under this key, with whatever associated data. Another version, a broken encoding and a message
/// that was not sealed under this key and associated data are told apart.
pub fn open(key: &WorkspaceKey, envelope: &SealedEnvelope, aad: &[u8]) -> (result: Result<
    Vec<u8>,
    CryptoError,
>)
    ensures
        forall|message: Seq<u8>| #[trigger]
            seals(envelope@, key@, message, aad@) ==> (result matches Ok(opened) && opened@
                == message),
        result matches Ok(opened) ==> seals(envelope@, key@, opened@, aad@),
        result matches Ok(opened) ==> forall|message: Seq<u8>, other: Seq<u8>| #[trigger]
            seals(envelope@, key@, message, other) ==> message == opened@,
        result matches Err(error) ==> error == (if envelope@.version != 1 {
            CryptoError::UnsupportedVersion
        } else if !well_encoded(envelope@) {
            CryptoError::InvalidEncoding
        } else {
            CryptoError::AuthenticationFailed
        }),
{
    if envelope.version != 1 {
        return Err(CryptoError::UnsupportedVersion);
    }
    let nonce = match decode_fixed(envelope.nonce.as_str(), 12) {
        None => {
            proof {
                assert forall|message: Seq<u8>| !(#[trigger] seals(
                    envelope@,
                    key@,
                    message,
                    aad@,
                )) by {
                    if seals(envelope@, key@, message, aad@) {
                        let nonce = choose|nonce: Seq<u8>| #[trigger]
                            seals_with(envelope@, key@, message, aad@, nonce);
                        assert(decodes_to(envelope@.nonce, nonce, 12));
                    }
                }
            }
            return Err(CryptoError::InvalidEncoding);
        },
        Some(bytes) => fixed_12(bytes.as_slice()),
    };
    let ciphertext = match base64_decode(envelope.ciphertext.as_str()) {
        None => {
            proof {
                assert forall|message: Seq<u8>| !(#[trigger] seals(
                    envelope@,
                    key@,
                    message,
                    aad@,
                )) by {
                    if seals(envelope@, key@, message, aad@) {
                        let nonce = choose|nonce: Seq<u8>| #[trigger]
                            seals_with(envelope@, key@, message, aad@, nonce);
                        assert(base64url(chacha_sealed(key@, nonce, message, aad@)->0)
                            == envelope@.ciphertext);
                    }
                }
            }
            return Err(CryptoError::InvalidEncoding);
        },
        Some(bytes) => bytes,
    };
    proof {
        assert forall|message: Seq<u8>, data: Seq<u8>| #[trigger]
            seals(envelope@, key@, message, data) implies sealable(message) && ciphertext@.len()
            == message.len() + TAG_BYTES && chacha_sealed(key@, nonce@, message, data) == Some(
            ciphertext@,
        ) by {
            let other = choose|other: Seq<u8>| #[trigger]
                seals_with(envelope@, key@, message, data, other);
            lemma_base64url_injective(other, nonce@);
            lemma_base64url_injective(
                chacha_sealed(key@, other, message, data)->0,
                ciphertext@,
            );
        }
    }
    if ciphertext.len() as u64 > MAX_SEALED_BYTES + TAG_BYTES {
        return Err(CryptoError::AuthenticationFailed);
    }
    match chacha_decrypt(key.as_bytes(), &nonce, ciphertext.as_slice(), aad) {
        None => Err(CryptoError::AuthenticationFailed),
        Some(message) => {
            assert(seals_with(envelope@, key@, message@, aad@, nonce@));
            Ok(message)
        },
    }
}

/// What a device offers to one that wants to join.
#[derive(Debug, Clone, PartialEq, Eq)]
pub struct PairingOffer {
    pub version: u8,
    pub workspace_id: String,
    pub tunnel_url: String,
    pub workos_issuer: String,
    pub workos_audience: String,
    pub mac_public_key: String,
    pub one_time_token: String,
    pub expires_at_ms: u64,
}

/// What an offer says.
pub struct OfferView {
    pub version: u8,
    pub workspace: Seq<char>,
    pub tunnel_url: Seq<char>,
    pub workos_issuer: Seq<char>,
    pub workos_audience: Seq<char>,
    pub mac_public_key: Seq<char>,
    pub token: Seq<char>,
    pub expires_at_ms: u64,
}

impl View for PairingOffer {
    type V = OfferView;

    open spec fn view(&self) -> OfferView {
        OfferView {
            version: self.version,
            workspace: self.workspace_id@,
            tunnel_url: self.tunnel_url@,
            workos_issuer: self.workos_issuer@,
            workos_audience: self.workos_audience@,
            mac_public_key: self.mac_public_key@,
            token: self.one_time_token@,
            expires_at_ms: self.expires_at_ms,
        }
    }
}

impl PairingOffer {
    /// A second copy of the offer.
    pub fn copied(&self) -> (copy: Self)
        ensures
            copy@ == self@,
    {
        PairingOffer {
            version: self.version,
            workspace_id: self.workspace_id.duplicate(),
            tunnel_url: self.tunnel_url.duplicate(),
            workos_issuer: self.workos_issuer.duplicate(),
            workos_audience: self.workos_audience.duplicate(),
            mac_public_key: self.mac_public_key.duplicate(),
            one_time_token: self.one_time_token.duplicate(),
            expires_at_ms: self.expires_at_ms,
        }
    }
}

/// The answer of the device that wants to join.
#[derive(Debug, Clone, PartialEq, Eq)]
pub struct PairingResponse {
    pub phone_public_key: String,
    pub one_time_token: String,
}

/// Who is signed in.
#[derive(Debug, Clone, PartialEq, Eq)]
pub struct AuthenticatedPrincipal {
    pub subject: String,
    pub organization_id: Option<String>,
}

/// What a principal says.
pub struct PrincipalView {
    pub subject: Seq<char>,
    pub organization: Option<Seq<char>>,
}

impl View for AuthenticatedPrincipal {
    type V = PrincipalView;

    open spec fn view(&self) -> PrincipalView {
        PrincipalView { subject: self.subject@, organization: opt_view(self.organization_id) }
    }
}

impl Plain for AuthenticatedPrincipal {
    fn duplicate(&self) -> (copy: Self) {
        AuthenticatedPrincipal {
            subject: self.subject.duplicate(),
            organization_id: duplicate_opt(&self.organization_id),
        }
    }

    fn same(&self, other: &Self) -> (equal: bool) {
        principal_matches(self, other)
    }
}

/// Whether two principals are the same, compared in constant time.
pub fn principal_matches(
    left: &AuthenticatedPrincipal,
    right: &AuthenticatedPrincipal,
) -> (equal: bool)
    ensures
        equal == (left@ == right@),
{
    secret_eq(left.subject.as_str(), right.subject.as_str()) && match (
        &left.organization_id,
        &right.organization_id,
    ) {
        (Some(a), Some(b)) => secret_eq(a.as_str(), b.as_str()),
        (None, None) => true,
        _ => false,
    }
}

/// The key of a workspace, wrapped for one device.
#[derive(Debug, Clone, PartialEq, Eq)]
pub struct PairingGrant {
    pub mac_public_key: String,
    pub phone_public_key: String,
    pub sealed_workspace: SealedEnvelope,
}

/// What a grant says.
pub struct GrantView {
    pub mac_public_key: Seq<char>,
    pub phone_public_key: Seq<char>,
    pub sealed: EnvelopeView,
}

impl View for PairingGrant {
    type V = GrantView;

    open spec fn view(&self) -> GrantView {
        GrantView {
            mac_public_key: self.mac_public_key@,
            phone_public_key: self.phone_public_key@,
            sealed: self.sealed_workspace@,
        }
    }
}

/// What a wrap key is derived for.
pub const PAIRING_INFO: &'static str = "clippy-sync-pairing-wrap-key-v1:";

/// The key under which the workspace key is wrapped: derived from the shared secret with the
/// one-time token as salt, for this workspace alone.
pub open spec fn wrap_key(shared: Seq<u8>, token: Seq<char>, workspace: Seq<char>) -> Seq<u8> {
    hkdf_sha256(encode_utf8(token), shared, encode_utf8(PAIRING_INFO@) + encode_utf8(workspace))
}

/// Derives the key under which the workspace key is wrapped. The derivation does not fail.
pub fn derive_pairing_wrap_key(
    shared_secret: &[u8],
    one_time_token: &str,
    workspace_id: &str,
) -> (result: Result<WorkspaceKey, CryptoError>)
    ensures
        result matches Ok(key) && key@ == wrap_key(shared_secret@, one_time_token@, workspace_id@),
{
    let mut info: Vec<u8> = PAIRING_INFO.as_bytes_vec();
    info.extend_from_slice(workspace_id.as_bytes());
    assert(info@ =~= encode_utf8(PAIRING_INFO@) + encode_utf8(workspace_id@));
    match hkdf_expand(one_time_token.as_bytes(), shared_secret, info.as_slice()) {
        None => Err(CryptoError::KeyDerivationFailed),
        Some(key) => Ok(WorkspaceKey(key)),
    }
}

/// The text of an optional field; empty where there is none.
pub open spec fn or_empty(text: Option<Seq<char>>) -> Seq<char> {
    match text {
        Some(value) => value,
        None => Seq::empty(),
    }
}

/// Everything that a grant is bound to.
pub open spec fn pairing_fields(
    offer: OfferView,
    phone_public_key: Seq<char>,
    principal: PrincipalView,
) -> Seq<Seq<u8>> {
    seq![
        encode_utf8(decimal(offer.version as nat)),
        encode_utf8(offer.workspace),
        encode_utf8(offer.tunnel_url),
        encode_utf8(offer.workos_issuer),
        encode_utf8(offer.workos_audience),
        encode_utf8(decimal(offer.expires_at_ms as nat)),
        encode_utf8(offer.mac_public_key),
        encode_utf8(phone_public_key),
        encode_utf8(principal.subject),
        encode_utf8(or_empty(principal.organization)),
    ]
}

/// The associated data of a grant: everything that it is bound to, each field behind its length.
pub fn pairing_aad(
    offer: &PairingOffer,
    phone_public_key: &str,
    principal: &AuthenticatedPrincipal,
) -> (aad: Vec<u8>)
    ensures
        aad@ == length_prefixed(pairing_fields(offer@, phone_public_key@, principal@)),
{
    let version = decimal_text(offer.version as u64);
    let expires = decimal_text(offer.expires_at_ms);
    let mut aad: Vec<u8> = Vec::new();
    let ghost fields = pairing_fields(offer@, phone_public_key@, principal@);
    assert(aad@ =~= length_prefixed(fields.take(0)));
    push_field(&mut aad, version.as_str().as_bytes());
    proof {
        lemma_prefix_step(fields, 0);
    }
    push_field(&mut aad, offer.workspace_id.as_str().as_bytes());
    proof {
        lemma_prefix_step(fields, 1);
    }
    push_field(&mut aad, offer.tunnel_url.as_str().as_bytes());
    proof {
        lemma_prefix_step(fields, 2);
    }
    push_field(&mut aad, offer.workos_issuer.as_str().as_bytes());
    proof {
        lemma_prefix_step(fields, 3);
    }
    push_field(&mut aad, offer.workos_audience.as_str().as_bytes());
    proof {
        lemma_prefix_step(fields, 4);
    }
    push_field(&mut aad, expires.as_str().as_bytes());
    proof {
        lemma_prefix_step(fields, 5);
    }
    push_field(&mut aad, offer.mac_public_key.as_str().as_bytes());
    proof {
        lemma_prefix_step(fields, 6);
    }
    push_field(&mut aad, phone_public_key.as_bytes());
    proof {
        lemma_prefix_step(fields, 7);
    }
    push_field(&mut aad, principal.subject.as_str().as_bytes());
    proof {
        lemma_prefix_step(fields, 8);
    }
    match &principal.organization_id {
        Some(organization) => {
            push_field(&mut aad, organization.as_str().as_bytes());
        },
        None => {
            push_field(&mut aad, "".as_bytes());
            proof {
                reveal_strlit("");
                assert(""@ =~= Seq::<char>::empty());
            }
        },
    }
    proof {
        lemma_prefix_step(fields, 9);
        assert(fields.take(10) =~= fields);
    }
    aad
}

proof fn lemma_prefix_step(fields: Seq<Seq<u8>>, n: int)
    requires
        0 <= n < fields.len(),
    ensures
        length_prefixed(fields.take(n + 1)) == length_prefixed(fields.take(n)) + be32(
            fields[n].len() as int,
        ) + fields[n],
{
    assert(fields.take(n + 1).drop_last() =~= fields.take(n));
}

/// The associated data of a grant binds every routing and identity field: the same bytes come only
/// from the same fields, as far as each is shorter than four gibibytes. A missing organization
/// counts as an empty one.
pub proof fn lemma_pairing_aad_binds(
    a: OfferView,
    a_phone: Seq<char>,
    a_principal: PrincipalView,
    b: OfferView,
    b_phone: Seq<char>,
    b_principal: PrincipalView,
)
    requires
        length_prefixed(pairing_fields(a, a_phone, a_principal)) == length_prefixed(
            pairing_fields(b, b_phone, b_principal),
        ),
        forall|i: int|
            0 <= i < 10 ==> (#[trigger] pairing_fields(a, a_phone, a_principal)[i]).len()
                < 0x1_0000_0000,
        forall|i: int|
            0 <= i < 10 ==> (#[trigger] pairing_fields(b, b_phone, b_principal)[i]).len()
                < 0x1_0000_0000,
    ensures
        a.version == b.version,
        a.workspace == b.workspace,
        a.tunnel_url == b.tunnel_url,
        a.workos_issuer == b.workos_issuer,
        a.workos_audience == b.workos_audience,
        a.expires_at_ms == b.expires_at_ms,
        a.mac_public_key == b.mac_public_key,
        a_phone == b_phone,
        a_principal.subject == b_principal.subject,
        or_empty(a_principal.organization) == or_empty(b_principal.organization),
{
    let x = pairing_fields(a, a_phone, a_principal);
    let y = pairing_fields(b, b_phone, b_principal);
    lemma_length_prefixed_injective(x, y);
    assert(x[0] == y[0] && x[1] == y[1] && x[2] == y[2] && x[3] == y[3] && x[4] == y[4] && x[5]
        == y[5] && x[6] == y[6] && x[7] == y[7] && x[8] == y[8] && x[9] == y[9]);
    lemma_encode_utf8_injective(decimal(a.version as nat), decimal(b.version as nat));
    lemma_encode_utf8_injective(a.workspace, b.workspace);
    lemma_encode_utf8_injective(a.tunnel_url, b.tunnel_url);
    lemma_encode_utf8_injective(a.workos_issuer, b.workos_issuer);
    lemma_encode_utf8_injective(a.workos_audience, b.workos_audience);
    lemma_encode_utf8_injective(decimal(a.expires_at_ms as nat), decimal(b.expires_at_ms as nat));
    lemma_encode_utf8_injective(a.mac_public_key, b.mac_public_key);
    lemma_encode_utf8_injective(a_phone, b_phone);
    lemma_encode_utf8_injective(a_principal.subject, b_principal.subject);
    lemma_encode_utf8_injective(
        or_empty(a_principal.organization),
        or_empty(b_principal.organization),
    );
    lemma_decimal(a.version as nat);
    lemma_decimal(b.version as nat);
    lemma_decimal(a.expires_at_ms as nat);
    lemma_decimal(b.expires_at_ms as nat);
}

/// A JSON string, or null where there is none.
pub open spec fn text_or_null(text: Option<Seq<char>>) -> ScalarView {
    match text {
        Some(value) => ScalarView::Text(value),
        None => ScalarView::Null,
    }
}

/// What a grant seals: the workspace, its key and who may have it.
pub open spec fn grant_members(
    workspace: Seq<char>,
    key: Seq<u8>,
    principal: PrincipalView,
) -> Seq<(Seq<char>, ScalarView)> {
    seq![
        ("workspaceId"@, ScalarView::Text(workspace)),
        ("workspaceKey"@, ScalarView::Text(base64url(key))),
        ("authorizedSubject"@, ScalarView::Text(principal.subject)),
        ("organizationId"@, text_or_null(principal.organization)),
    ]
}

/// The bytes that a grant seals.
pub open spec fn grant_payload(
    workspace: Seq<char>,
    key: Seq<u8>,
    principal: PrincipalView,
) -> Seq<u8> {
    encode_utf8(json_object(grant_members(workspace, key, principal)))
}

fn write_grant_payload(
    workspace_id: &str,
    workspace_key: &WorkspaceKey,
    principal: &AuthenticatedPrincipal,
) -> (payload: String)
    ensures
        encode_utf8(payload@) == grant_payload(workspace_id@, workspace_key@, principal@),
{
    let organization = match &principal.organization_id {
        Some(value) => JsonScalar::Text(value.duplicate()),
        None => JsonScalar::Null,
    };
    let members: [(&str, JsonScalar); 4] = [
        ("workspaceId", JsonScalar::Text(workspace_id.to_owned())),
        ("workspaceKey", JsonScalar::Text(workspace_key.encode())),
        ("authorizedSubject", JsonScalar::Text(principal.subject.duplicate())),
        ("organizationId", organization),
    ];
    assert(member_views(members@) =~= grant_members(workspace_id@, workspace_key@, principal@));
    write_object(members.as_slice())
}

/// The answer to an offer cannot be accepted, and why: the offer has expired, the token is another
/// one, somebody else is signed in, or the public key is none.
pub open spec fn response_fault(
    offer: OfferView,
    owner: PrincipalView,
    token: Seq<char>,
    phone_public_key: Seq<char>,
    principal: PrincipalView,
    now_ms: u64,
) -> Option<CryptoError> {
    if now_ms > offer.expires_at_ms {
        Some(CryptoError::ExpiredPairing)
    } else if offer.token != token {
        Some(CryptoError::InvalidPairingToken)
    } else if owner != principal {
        Some(CryptoError::PrincipalMismatch)
    } else if !decodable(phone_public_key, 32) {
        Some(CryptoError::InvalidEncoding)
    } else {
        None
    }
}

/// The grant wraps the workspace key for the device of the given public key.
pub open spec fn wraps_for(
    grant: GrantView,
    offer: OfferView,
    mac_secret: Seq<u8>,
    workspace_key: Seq<u8>,
    principal: PrincipalView,
    phone: Seq<u8>,
) -> bool {
    &&& decodes_to(grant.phone_public_key, phone, 32)
    &&& seals(
        grant.sealed,
        wrap_key(x25519_shared(mac_secret, phone), offer.token, offer.workspace),
        grant_payload(offer.workspace, workspace_key, principal),
        length_prefixed(pairing_fields(offer, grant.phone_public_key, principal)),
    )
}

/// The grant hands the workspace key over in answer to the offer.
pub open spec fn grants(
    grant: GrantView,
    offer: OfferView,
    mac_secret: Seq<u8>,
    workspace_key: Seq<u8>,
    principal: PrincipalView,
) -> bool {
    &&& grant.mac_public_key == offer.mac_public_key
    &&& exists|phone: Seq<u8>| #[trigger]
        wraps_for(grant, offer, mac_secret, workspace_key, principal, phone)
}

/// A pairing that waits for its answer.
pub struct PendingPairing {
    offer: PairingOffer,
    secret: [u8; 32],
    workspace_key: WorkspaceKey,
    owner: AuthenticatedPrincipal,
}

impl PendingPairing {
    /// The secret of this side.
    pub closed spec fn secret(self) -> Seq<u8> {
        self.secret@
    }

    /// The key that is to be handed over.
    pub closed spec fn key(self) -> Seq<u8> {
        self.workspace_key@
    }

    /// What this side offers.
    pub closed spec fn offered(self) -> OfferView {
        self.offer@
    }

    /// The offer, to be shown to the device that wants to join.
    pub fn offer(&self) -> (offer: &PairingOffer)
        ensures
            offer@ == self.offered(),
    {
        &self.offer
    }

    /// Whom the workspace belongs to.
    pub closed spec fn owner(self) -> PrincipalView {
        self.owner@
    }

    /// Offers to hand a workspace key over, for the given time.
    pub fn new(
        workspace_id: String,
        tunnel_url: String,
        workos_issuer: String,
        workos_audience: String,
        workspace_key: WorkspaceKey,
        owner: AuthenticatedPrincipal,
        ttl_ms: u64,
        now_ms: u64,
    ) -> (pairing: Self)
        ensures
            pairing.secret().len() == 32,
            pairing.key() == workspace_key@,
            pairing.owner() == owner@,
            pairing.offered().version == 1,
            pairing.offered().workspace == workspace_id@,
            pairing.offered().tunnel_url == tunnel_url@,
            pairing.offered().workos_issuer == workos_issuer@,
            pairing.offered().workos_audience == workos_audience@,
            pairing.offered().mac_public_key == base64url(x25519_public(pairing.secret())),
            decodable(pairing.offered().mac_public_key, 32),
            decodable(pairing.offered().token, 32),
            pairing.offered().expires_at_ms == (if now_ms + ttl_ms <= u64::MAX {
                (now_ms + ttl_ms) as u64
            } else {
                u64::MAX
            }),
    {
        let secret = random_secret();
        let public = public_key(&secret);
        let token = random_bytes::<32>();
        assert(decodes_to(base64url(token@), token@, 32));
        assert(decodes_to(base64url(public@), public@, 32));
        PendingPairing {
            offer: PairingOffer {
                version: 1,
                workspace_id,
                tunnel_url,
                workos_issuer,
                workos_audience,
                mac_public_key: base64_encode(public.as_slice()),
                one_time_token: base64_encode(token.as_slice()),
                expires_at_ms: now_ms.saturating_add(ttl_ms),
            },
            secret,
            workspace_key,
            owner,
        }
    }

    /// Whether an answer to the offer can be accepted.
    pub fn validate_response(
        &self,
        response: &PairingResponse,
        principal: &AuthenticatedPrincipal,
        now_ms: u64,
    ) -> (result: Result<(), CryptoError>)
        ensures
            match response_fault(
                self.offered(),
                self.owner(),
                response.one_time_token@,
                response.phone_public_key@,
                principal@,
                now_ms,
            ) {
                None => result is Ok,
                Some(error) => result == Err::<(), CryptoError>(error),
            },
    {
        if now_ms > self.offer.expires_at_ms {
            return Err(CryptoError::ExpiredPairing);
        }
        if !secret_eq(self.offer.one_time_token.as_str(), response.one_time_token.as_str()) {
            return Err(CryptoError::InvalidPairingToken);
        }
        if !principal_matches(&self.owner, principal) {
            return Err(CryptoError::PrincipalMismatch);
        }
        match decode_fixed(response.phone_public_key.as_str(), 32) {
            None => Err(CryptoError::InvalidEncoding),
            Some(_) => Ok(()),
        }
    }

    /// Wraps the workspace key for one authenticated peer. The shared secret of the pairing is
    /// never itself the workspace key, so that pairing further devices does not strand earlier
    /// ones. An answer that cannot be accepted is refused, and a payload that the cipher cannot
    /// take fails.
    pub fn complete(
        self,
        response: &PairingResponse,
        principal: &AuthenticatedPrincipal,
        now_ms: u64,
    ) -> (result: Result<PairingGrant, CryptoError>)
        ensures
            match response_fault(
                self.offered(),
                self.owner(),
                response.one_time_token@,
                response.phone_public_key@,
                principal@,
                now_ms,
            ) {
                Some(error) => result == Err::<PairingGrant, CryptoError>(error),
                None => {
                    let payload = grant_payload(self.offered().workspace, self.key(), principal@);
                    &&& result is Ok <==> sealable(payload)
                    &&& result matches Err(error) ==> error == CryptoError::EncryptionFailed
                    &&& result matches Ok(grant) ==> grant@.phone_public_key
                        == response.phone_public_key@ && grants(
                        grant@,
                        self.offered(),
                        self.secret(),
                        self.key(),
                        principal@,
                    )
                },
            },
    {
        if let Err(error) = self.validate_response(response, principal, now_ms) {
            return Err(error);
        }
        let phone = match decode_fixed(response.phone_public_key.as_str(), 32) {
            None => {
                return Err(CryptoError::InvalidEncoding);
            },
            Some(bytes) => fixed_32(bytes.as_slice()),
        };
        let shared = diffie_hellman(&self.secret, &phone);
        let key = match derive_pairing_wrap_key(
            shared.as_slice(),
            self.offer.one_time_token.as_str(),
            self.offer.workspace_id.as_str(),
        ) {
            Err(error) => {
                return Err(error);
            },
            Ok(key) => key,
        };
        let aad = pairing_aad(&self.offer, response.phone_public_key.as_str(), principal);
        let payload = write_grant_payload(
            self.offer.workspace_id.as_str(),
            &self.workspace_key,
            principal,
        );
        match seal(&key, payload.as_str().as_bytes(), aad.as_slice()) {
            Err(error) => Err(error),
            Ok(sealed_workspace) => {
                let grant = PairingGrant {
                    mac_public_key: self.offer.mac_public_key.duplicate(),
                    phone_public_key: response.phone_public_key.duplicate(),
                    sealed_workspace,
                };
                assert(wraps_for(
                    grant@,
                    self.offer@,
                    self.secret@,
                    self.workspace_key@,
                    principal@,
                    phone@,
                ));
                Ok(grant)
            },
        }
    }
}

/// What the payload of a grant says, where it can be read.
#[derive(Debug, Clone, PartialEq, Eq)]
pub struct PairingGrantPayload {
    pub workspace_id: String,
    pub workspace_key: String,
    pub authorized_subject: String,
    pub organization_id: Option<String>,
}

/// What a read payload says.
pub struct PayloadFields {
    pub workspace: Seq<char>,
    pub key: Seq<char>,
    pub subject: Seq<char>,
    pub organization: Option<Seq<char>>,
}

impl View for PairingGrantPayload {
    type V = PayloadFields;

    open spec fn view(&self) -> PayloadFields {
        PayloadFields {
            workspace: self.workspace_id@,
            key: self.workspace_key@,
            subject: self.authorized_subject@,
            organization: opt_view(self.organization_id),
        }
    }
}

/// The payload of a grant, where each of its members is there and of the right kind. The
/// organization may be null or missing.
pub open spec fn payload_fields(
    workspace: MemberView,
    key: MemberView,
    subject: MemberView,
    organization: MemberView,
) -> Option<PayloadFields> {
    match (workspace, key, subject, organization) {
        (
            MemberView::Text(workspace),
            MemberView::Text(key),
            MemberView::Text(subject),
            MemberView::Text(organization),
        ) => Some(PayloadFields { workspace, key, subject, organization: Some(organization) }),
        (
            MemberView::Text(workspace),
            MemberView::Text(key),
            MemberView::Text(subject),
            MemberView::Null,
        ) => Some(PayloadFields { workspace, key, subject, organization: None }),
        (
            MemberView::Text(workspace),
            MemberView::Text(key),
            MemberView::Text(subject),
            MemberView::Missing,
        ) => Some(PayloadFields { workspace, key, subject, organization: None }),
        _ => None,
    }
}

/// The payload of a grant from the members that were read of it.
pub fn payload_of(
    workspace: JsonMember,
    key: JsonMember,
    subject: JsonMember,
    organization: JsonMember,
) -> (payload: Option<PairingGrantPayload>)
    ensures
        opt_view(payload) == payload_fields(workspace@, key@, subject@, organization@),
{
    let organization_id = match organization {
        JsonMember::Text(text) => Some(text),
        JsonMember::Null | JsonMember::Missing => None,
        _ => {
            return None;
        },
    };
    match (workspace, key, subject) {
        (
            JsonMember::Text(workspace_id),
            JsonMember::Text(workspace_key),
            JsonMember::Text(authorized_subject),
        ) => Some(
            PairingGrantPayload {
                workspace_id,
                workspace_key,
                authorized_subject,
                organization_id,
            },
        ),
        _ => None,
    }
}

/// The workspace key that a payload hands to a principal, or why it does not.
pub open spec fn handed_key_fault(
    payload: PayloadFields,
    workspace: Seq<char>,
    principal: PrincipalView,
) -> Option<CryptoError> {
    if payload.workspace != workspace || payload.subject != principal.subject
        || payload.organization != principal.organization {
        Some(CryptoError::PrincipalMismatch)
    } else if !decodable(payload.key, 32) {
        Some(CryptoError::InvalidEncoding)
    } else {
        None
    }
}

/// Takes the workspace key out of a payload that is meant for this workspace and this principal.
pub fn accept_payload(
    payload: &PairingGrantPayload,
    workspace_id: &str,
    principal: &AuthenticatedPrincipal,
) -> (result: Result<WorkspaceKey, CryptoError>)
    ensures
        match handed_key_fault(payload@, workspace_id@, principal@) {
            Some(error) => result == Err::<WorkspaceKey, CryptoError>(error),
            None => result matches Ok(key) && decodes_to(payload@.key, key@, 32),
        },
{
    if !text_eq(payload.workspace_id.as_str(), workspace_id) || !secret_eq(
        payload.authorized_subject.as_str(),
        principal.subject.as_str(),
    ) || !same_opt(&payload.organization_id, &principal.organization_id) {
        return Err(CryptoError::PrincipalMismatch);
    }
    WorkspaceKey::decode(payload.workspace_key.as_str())
}

/// The key under which a device that joins opens a grant.
pub open spec fn opening_key(
    phone_secret: Seq<u8>,
    mac_public: Seq<u8>,
    offer: OfferView,
) -> Seq<u8> {
    wrap_key(x25519_shared(phone_secret, mac_public), offer.token, offer.workspace)
}

/// What the members of a payload say.
pub open spec fn read_payload(payload: Seq<u8>) -> Option<PayloadFields> {
    payload_fields(
        json_field(payload, "workspaceId"@, 0, 4),
        json_field(payload, "workspaceKey"@, 1, 4),
        json_field(payload, "authorizedSubject"@, 2, 4),
        json_field(payload, "organizationId"@, 3, 4),
    )
}

/// What comes of a grant once its payload is open.
pub open spec fn payload_outcome(
    payload: Seq<u8>,
    offer: OfferView,
    principal: PrincipalView,
    result: Result<WorkspaceKey, CryptoError>,
) -> bool {
    match read_payload(payload) {
        None => result == Err::<WorkspaceKey, CryptoError>(CryptoError::InvalidEncoding),
        Some(fields) => match handed_key_fault(fields, offer.workspace, principal) {
            Some(error) => result == Err::<WorkspaceKey, CryptoError>(error),
            None => result matches Ok(key) && decodes_to(fields.key, key@, 32),
        },
    }
}

/// Why an envelope does not open.
pub open spec fn open_fault(envelope: EnvelopeView) -> CryptoError {
    if envelope.version != 1 {
        CryptoError::UnsupportedVersion
    } else if !well_encoded(envelope) {
        CryptoError::InvalidEncoding
    } else {
        CryptoError::AuthenticationFailed
    }
}

/// The payload opens a grant for the device of the given secret.
pub open spec fn grant_opens(
    grant: GrantView,
    offer: OfferView,
    principal: PrincipalView,
    phone_secret: Seq<u8>,
    mac_public: Seq<u8>,
    payload: Seq<u8>,
) -> bool {
    &&& decodes_to(offer.mac_public_key, mac_public, 32)
    &&& seals(
        grant.sealed,
        opening_key(phone_secret, mac_public, offer),
        payload,
        length_prefixed(pairing_fields(offer, grant.phone_public_key, principal)),
    )
}

proof fn lemma_grant_names(workspace: Seq<char>, key: Seq<u8>, principal: PrincipalView)
    ensures
        distinct_names(grant_members(workspace, key, principal)),
{
    reveal_strlit("workspaceId");
    reveal_strlit("workspaceKey");
    reveal_strlit("authorizedSubject");
    reveal_strlit("organizationId");
    let members = grant_members(workspace, key, principal);
    assert(members[0].0.len() == 11);
    assert(members[1].0.len() == 12);
    assert(members[2].0.len() == 17);
    assert(members[3].0.len() == 14);
}

/// What comes of a grant on the side of the device that joins. Nothing but what the payload hands
/// over comes out, and a grant that was made in answer to this offer for the public key of this
/// secret and this principal gives the key that was handed over.
pub open spec fn unwraps_as(
    phone_secret: Seq<u8>,
    offer: OfferView,
    grant: GrantView,
    principal: PrincipalView,
    result: Result<WorkspaceKey, CryptoError>,
) -> bool {
    &&& grant.mac_public_key != offer.mac_public_key ==> result == Err::<
        WorkspaceKey,
        CryptoError,
    >(CryptoError::AuthenticationFailed)
    &&& grant.mac_public_key == offer.mac_public_key && !decodable(offer.mac_public_key, 32)
        ==> result == Err::<WorkspaceKey, CryptoError>(CryptoError::InvalidEncoding)
    &&& grant.mac_public_key == offer.mac_public_key ==> forall|public: Seq<u8>, payload: Seq<u8>|
        #[trigger]
        grant_opens(grant, offer, principal, phone_secret, public, payload) ==> payload_outcome(
            payload,
            offer,
            principal,
            result,
        )
    &&& grant.mac_public_key == offer.mac_public_key && decodable(offer.mac_public_key, 32) && (
    forall|public: Seq<u8>, payload: Seq<u8>|
        !(#[trigger] grant_opens(grant, offer, principal, phone_secret, public, payload)))
        ==> result == Err::<WorkspaceKey, CryptoError>(open_fault(grant.sealed))
    &&& forall|mac_secret: Seq<u8>, key: Seq<u8>| #[trigger]
        grants(grant, offer, mac_secret, key, principal) && mac_secret.len() == 32 && key.len()
            == 32 && decodable(offer.mac_public_key, 32) && offer.mac_public_key == base64url(
            x25519_public(mac_secret),
        ) && grant.phone_public_key == base64url(x25519_public(phone_secret)) ==> (
        result matches Ok(handed) && handed@ == key)
    &&& forall|made: OfferView, mac_secret: Seq<u8>, key: Seq<u8>, owner: PrincipalView|
        #[trigger]
        grants(grant, made, mac_secret, key, owner) && answers_alike(made, offer)
            && mac_secret.len() == 32 && key.len() == 32 && made.mac_public_key == base64url(
            x25519_public(mac_secret),
        ) && grant.phone_public_key == base64url(x25519_public(phone_secret)) ==> (
        result matches Ok(handed) ==> handed@ == key && owner == principal)
}

/// The two offers lead to the same key for the grant that answers them, whatever else they say.
pub open spec fn answers_alike(made: OfferView, offer: OfferView) -> bool {
    made.workspace == offer.workspace && made.token == offer.token
}

/// Whatever was altered in an offer, or whoever asks: a grant hands over the key that was put into
/// it, to the principal for whom it was made, or nothing. An offer with another public key than the
/// grant answers gives nothing.
pub proof fn lemma_grant_hands_over_its_key_alone(
    phone_secret: Seq<u8>,
    made: OfferView,
    offer: OfferView,
    grant: GrantView,
    mac_secret: Seq<u8>,
    key: Seq<u8>,
    owner: PrincipalView,
    principal: PrincipalView,
    result: Result<WorkspaceKey, CryptoError>,
)
    requires
        mac_secret.len() == 32,
        key.len() == 32,
        grants(grant, made, mac_secret, key, owner),
        made.mac_public_key == base64url(x25519_public(mac_secret)),
        grant.phone_public_key == base64url(x25519_public(phone_secret)),
        answers_alike(made, offer),
        unwraps_as(phone_secret, offer, grant, principal, result),
    ensures
        principal != owner ==> result is Err,
        offer.mac_public_key != made.mac_public_key ==> result is Err,
        result matches Ok(handed) ==> handed@ == key,
{
}

/// A grant that was made in answer to an offer, for the key of a device and its account, gives that
/// device the key that was put into it.
pub proof fn lemma_granted_key_arrives(
    phone_secret: Seq<u8>,
    offer: OfferView,
    grant: GrantView,
    mac_secret: Seq<u8>,
    key: Seq<u8>,
    principal: PrincipalView,
    result: Result<WorkspaceKey, CryptoError>,
)
    requires
        mac_secret.len() == 32,
        key.len() == 32,
        grants(grant, offer, mac_secret, key, principal),
        decodable(offer.mac_public_key, 32),
        offer.mac_public_key == base64url(x25519_public(mac_secret)),
        grant.phone_public_key == base64url(x25519_public(phone_secret)),
        unwraps_as(phone_secret, offer, grant, principal, result),
    ensures
        result matches Ok(handed) && handed@ == key,
{
}

/// The payload of a grant, on the side of the device that joins.
fn open_grant(
    phone_secret: &[u8; 32],
    offer: &PairingOffer,
    grant: &PairingGrant,
    principal: &AuthenticatedPrincipal,
) -> (result: Result<Vec<u8>, CryptoError>)
    ensures
        grant@.mac_public_key != offer@.mac_public_key ==> result == Err::<Vec<u8>, CryptoError>(
            CryptoError::AuthenticationFailed,
        ),
        grant@.mac_public_key == offer@.mac_public_key && !decodable(offer@.mac_public_key, 32)
            ==> result == Err::<Vec<u8>, CryptoError>(CryptoError::InvalidEncoding),
        grant@.mac_public_key == offer@.mac_public_key ==> forall|
            public: Seq<u8>,
            payload: Seq<u8>,
        | #[trigger]
            grant_opens(grant@, offer@, principal@, phone_secret@, public, payload) ==> (
            result matches Ok(opened) && opened@ == payload),
        grant@.mac_public_key == offer@.mac_public_key && decodable(offer@.mac_public_key, 32) && (
        forall|public: Seq<u8>, payload: Seq<u8>|
            !(#[trigger] grant_opens(grant@, offer@, principal@, phone_secret@, public, payload)))
            ==> result == Err::<Vec<u8>, CryptoError>(open_fault(grant@.sealed)),
        forall|mac_secret: Seq<u8>, key: Seq<u8>| #[trigger]
            grants(grant@, offer@, mac_secret, key, principal@) && mac_secret.len() == 32
                && decodable(offer@.mac_public_key, 32) && offer@.mac_public_key == base64url(
                x25519_public(mac_secret),
            ) && grant@.phone_public_key == base64url(x25519_public(phone_secret@)) ==> (
            result matches Ok(opened) && opened@ == grant_payload(
                offer@.workspace,
                key,
                principal@,
            )),
        forall|made: OfferView, mac_secret: Seq<u8>, key: Seq<u8>, owner: PrincipalView|
            #[trigger]
            grants(grant@, made, mac_secret, key, owner) && answers_alike(made, offer@)
                && mac_secret.len() == 32 && made.mac_public_key == base64url(
                x25519_public(mac_secret),
            ) && grant@.phone_public_key == base64url(x25519_public(phone_secret@)) ==> (
            result matches Ok(opened) ==> opened@ == grant_payload(offer@.workspace, key, owner)),
{
    if !text_eq(grant.mac_public_key.as_str(), offer.mac_public_key.as_str()) {
        return Err(CryptoError::AuthenticationFailed);
    }
    let mac_public = match decode_fixed(grant.mac_public_key.as_str(), 32) {
        None => {
            return Err(CryptoError::InvalidEncoding);
        },
        Some(bytes) => fixed_32(bytes.as_slice()),
    };
    let shared = diffie_hellman(phone_secret, &mac_public);
    let key = match derive_pairing_wrap_key(
        shared.as_slice(),
        offer.one_time_token.as_str(),
        offer.workspace_id.as_str(),
    ) {
        Err(error) => {
            return Err(error);
        },
        Ok(key) => key,
    };
    let aad = pairing_aad(offer, grant.phone_public_key.as_str(), principal);
    let ghost sealed = grant@.sealed;
    let ghost secret = phone_secret@;
    proof {
        assert forall|public: Seq<u8>, payload: Seq<u8>| #[trigger]
            grant_opens(grant@, offer@, principal@, secret, public, payload) implies seals(
            sealed,
            key@,
            payload,
            aad@,
        ) by {
            lemma_base64url_injective(public, mac_public@);
        }
        assert forall|payload: Seq<u8>| #[trigger] seals(sealed, key@, payload, aad@) implies
            grant_opens(grant@, offer@, principal@, secret, mac_public@, payload) by {
        }
        assert forall|made: OfferView, mac_secret: Seq<u8>, handed: Seq<u8>, owner: PrincipalView|
            #[trigger]
            grants(grant@, made, mac_secret, handed, owner) && answers_alike(made, offer@)
                && mac_secret.len() == 32 && made.mac_public_key == base64url(
                x25519_public(mac_secret),
            ) && grant@.phone_public_key == base64url(x25519_public(secret)) implies seals(
            sealed,
            key@,
            grant_payload(offer@.workspace, handed, owner),
            length_prefixed(pairing_fields(made, grant@.phone_public_key, owner)),
        ) by {
            let phone = choose|phone: Seq<u8>| #[trigger]
                wraps_for(grant@, made, mac_secret, handed, owner, phone);
            lemma_base64url_injective(phone, x25519_public(secret));
            lemma_base64url_injective(mac_public@, x25519_public(mac_secret));
            assert(shared@ == x25519_shared(mac_secret, x25519_public(secret)));
        }
    }
    open(&key, &grant.sealed_workspace, aad.as_slice())
}

/// Takes the workspace key out of the payload of a grant.
fn hand_over(payload: &[u8], offer: &PairingOffer, principal: &AuthenticatedPrincipal) -> (result:
    Result<WorkspaceKey, CryptoError>)
    ensures
        payload_outcome(payload@, offer@, principal@, result),
        forall|key: Seq<u8>, owner: PrincipalView|
            payload@ == #[trigger] grant_payload(offer@.workspace, key, owner) && key.len() == 32
                ==> if owner == principal@ {
                result matches Ok(handed) && handed@ == key
            } else {
                result == Err::<WorkspaceKey, CryptoError>(CryptoError::PrincipalMismatch)
            },
{
    let fields = payload_of(
        read_field(payload, "workspaceId", 0, 4),
        read_field(payload, "workspaceKey", 1, 4),
        read_field(payload, "authorizedSubject", 2, 4),
        read_field(payload, "organizationId", 3, 4),
    );
    assert(opt_view(fields) == read_payload(payload@));
    let result = match fields {
        None => Err(CryptoError::InvalidEncoding),
        Some(fields) => accept_payload(&fields, offer.workspace_id.as_str(), principal),
    };
    proof {
        assert forall|key: Seq<u8>, owner: PrincipalView|
            payload@ == #[trigger] grant_payload(offer@.workspace, key, owner) && key.len()
                == 32 implies if owner == principal@ {
            result matches Ok(handed) && handed@ == key
        } else {
            result == Err::<WorkspaceKey, CryptoError>(CryptoError::PrincipalMismatch)
        } by {
            let members = grant_members(offer@.workspace, key, owner);
            lemma_grant_names(offer@.workspace, key, owner);
            assert(payload@ == encode_utf8(json_object(members)));
            assert(members[0].0 == "workspaceId"@);
            assert(members[1].0 == "workspaceKey"@);
            assert(members[2].0 == "authorizedSubject"@);
            assert(members[3].0 == "organizationId"@);
            assert(read_payload(payload@) == Some(
                PayloadFields {
                    workspace: offer@.workspace,
                    key: base64url(key),
                    subject: owner.subject,
                    organization: owner.organization,
                },
            ));
            assert(decodes_to(base64url(key), key, 32));
            if let Ok(taken) = result {
                lemma_base64url_injective(taken@, key);
            }
        }
    }
    result
}

/// Takes the workspace key out of a grant, on the side of the device that joins.
pub fn unwrap_pairing_grant(
    phone_secret: &[u8; 32],
    offer: &PairingOffer,
    grant: &PairingGrant,
    principal: &AuthenticatedPrincipal,
) -> (result: Result<WorkspaceKey, CryptoError>)
    ensures
        unwraps_as(phone_secret@, offer@, grant@, principal@, result),
{
    match open_grant(phone_secret, offer, grant, principal) {
        Err(error) => Err(error),
        Ok(payload) => hand_over(payload.as_slice(), offer, principal),
    }
}

} // verus!
