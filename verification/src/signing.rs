//! The signing key of an environment, and the rules that every part of a connection shares.

use ed25519_dalek::{Signature, Signer, SigningKey, VerifyingKey};
use rand_core::OsRng;
use serde_json::Value;
use vstd::prelude::*;
use vstd::string::*;
use vstd::utf8::*;

use crate::crypto::{fixed_32, random_bytes};
use crate::encoding::{
    base64_encode, base64url, decodable, decode_fixed, decodes_to, lemma_base64url_injective,
};
use crate::files::{sha256, sha256_digest};
use crate::plain::opt_view;
use crate::text::text_eq;

verus! {

/// Why a connection is refused.
#[derive(Debug, Clone, Copy, PartialEq, Eq, Structural)]
pub enum ConnectError {
    InvalidConfiguration,
    InvalidKeyMaterial,
    InvalidEncoding,
    InvalidSignature,
    InvalidRelayProof,
    InvalidDpopProof,
    InvalidCredential,
    Replay,
    KeychainFailed,
    Busy,
}

/// The Ed25519 public key of a secret.
pub uninterp spec fn ed25519_public(secret: Seq<u8>) -> Seq<u8>;

/// `SigningKey::verifying_key`, in bytes.
#[verifier::external_body]
fn ed25519_verifying_key(secret: &[u8; 32]) -> (public: [u8; 32])
    ensures
        public@ == ed25519_public(secret@),
{
    SigningKey::from_bytes(secret).verifying_key().to_bytes()
}

/// The Ed25519 signature of a message under a secret.
pub uninterp spec fn ed25519_signature(secret: Seq<u8>, message: Seq<u8>) -> Seq<u8>;

/// `Signer::sign` of an Ed25519 `SigningKey`, which draws nothing at random.
#[verifier::external_body]
fn ed25519_sign(secret: &[u8; 32], message: &[u8]) -> (signature: [u8; 64])
    ensures
        signature@ == ed25519_signature(secret@, message@),
{
    SigningKey::from_bytes(secret).sign(message).to_bytes()
}

/// The bytes are an Ed25519 public key.
pub uninterp spec fn ed25519_key(public: Seq<u8>) -> bool;

/// `VerifyingKey::from_bytes` accepts the bytes of a curve point. The public key of a secret is one.
#[verifier::external_body]
fn is_ed25519_key(public: &[u8; 32]) -> (valid: bool)
    ensures
        valid == ed25519_key(public@),
        forall|secret: Seq<u8>|
            secret.len() == 32 && public@ == #[trigger] ed25519_public(secret) ==> valid,
{
    VerifyingKey::from_bytes(public).is_ok()
}

/// The signature holds of the message under the public key.
pub uninterp spec fn ed25519_holds(public: Seq<u8>, message: Seq<u8>, signature: Seq<u8>) -> bool;

/// The signature begins with the neutral point of the curve. A signature that was made with a secret
/// does so only where its one-time number happens to be nought.
pub open spec fn neutral_commitment(signature: Seq<u8>) -> bool {
    signature.take(32) == seq![1u8] + Seq::new(31, |i: int| 0u8)
}

/// `VerifyingKey::verify_strict`, where the bytes are a public key at all. It accepts what was
/// signed with the secret of the key, but for a signature whose commitment is the neutral point:
/// the strict check turns down points of small order.
#[verifier::external_body]
fn ed25519_verify(public: &[u8; 32], message: &[u8], signature: &[u8; 64]) -> (holds: bool)
    ensures
        holds == ed25519_holds(public@, message@, signature@),
        forall|secret: Seq<u8>|
            secret.len() == 32 && public@ == #[trigger] ed25519_public(secret) && signature@
                == ed25519_signature(secret, message@) && !neutral_commitment(signature@) ==> holds,
{
    VerifyingKey::from_bytes(public)
        .is_ok_and(|key| key.verify_strict(message, &Signature::from_bytes(signature)).is_ok())
}

/// `SigningKey::generate` draws a secret at random; nothing is known of it.
#[verifier::external_body]
fn ed25519_generate() -> (secret: [u8; 32]) {
    SigningKey::generate(&mut OsRng).to_bytes()
}

/// What `serde_jcs` writes for a JSON document: the canonical form of its value, or nothing where
/// it is no JSON document.
pub uninterp spec fn canonical_json(document: Seq<char>) -> Option<Seq<u8>>;

/// `serde_jcs::to_vec` of the value that `serde_json::from_str` reads.
#[verifier::external_body]
fn canonicalize(document: &str) -> (canonical: Option<Vec<u8>>)
    ensures
        opt_view(canonical) == canonical_json(document@),
{
    let value: Value = serde_json::from_str(document).ok()?;
    serde_jcs::to_vec(&value).ok()
}

/// The public signing key of an environment.
#[derive(Debug, Clone, PartialEq, Eq)]
pub struct OkpPublicJwk {
    pub kty: String,
    pub crv: String,
    pub x: String,
}

/// The sixty-four bytes of a list.
fn fixed_64(bytes: &[u8]) -> (array: [u8; 64])
    requires
        bytes@.len() == 64,
    ensures
        array@ == bytes@,
{
    let mut array: [u8; 64] = [0u8;64];
    let mut i: usize = 0;
    while i < 64
        invariant
            bytes@.len() == 64,
            i <= 64,
            forall|j: int| 0 <= j < i ==> array@[j] == bytes@[j],
        decreases 64 - i,
    {
        array[i] = bytes[i];
        i = i + 1;
    }
    assert(array@ =~= bytes@);
    array
}

/// The environments that may connect.
pub open spec fn connectable(environment: Seq<char>) -> bool {
    environment == "staging"@ || environment == "production"@
}

/// Refuses every environment but the known ones.
pub fn require_environment(environment: &str) -> (result: Result<(), ConnectError>)
    ensures
        result == if connectable(environment@) {
            Ok::<(), ConnectError>(())
        } else {
            Err(ConnectError::InvalidConfiguration)
        },
{
    if text_eq(environment, "staging") || text_eq(environment, "production") {
        Ok(())
    } else {
        Err(ConnectError::InvalidConfiguration)
    }
}

/// The name under which the signing key of an environment is kept.
pub open spec fn identity_account(environment: Seq<char>) -> Seq<char> {
    "connect:"@ + environment + ":environment-signing-key"@
}

/// The signing key of an environment.
#[derive(Clone)]
pub struct EnvironmentIdentity {
    secret: [u8; 32],
}

impl View for EnvironmentIdentity {
    type V = Seq<u8>;

    closed spec fn view(&self) -> Seq<u8> {
        self.secret@
    }
}

/// The signature is what the secret makes of the canonical form of the document.
pub open spec fn signed_by(secret: Seq<u8>, document: Seq<char>, signature: Seq<char>) -> bool {
    &&& canonical_json(document) is Some
    &&& signature == base64url(ed25519_signature(secret, canonical_json(document)->0))
    &&& decodable(signature, 64)
    &&& !neutral_commitment(ed25519_signature(secret, canonical_json(document)->0))
}

/// The verdict on a signature of a canonical document.
pub open spec fn canonical_verdict(
    kty: Seq<char>,
    crv: Seq<char>,
    x: Seq<char>,
    document: Seq<char>,
    signature: Seq<char>,
) -> Result<(), ConnectError> {
    if kty != "OKP"@ || crv != "Ed25519"@ {
        Err(ConnectError::InvalidKeyMaterial)
    } else if !decodable(x, 32) {
        Err(ConnectError::InvalidEncoding)
    } else {
        let public = choose|bytes: Seq<u8>| #[trigger] decodes_to(x, bytes, 32);
        if !ed25519_key(public) {
            Err(ConnectError::InvalidKeyMaterial)
        } else if !decodable(signature, 64) {
            Err(ConnectError::InvalidEncoding)
        } else {
            let signed = choose|bytes: Seq<u8>| #[trigger] decodes_to(signature, bytes, 64);
            match canonical_json(document) {
                None => Err(ConnectError::InvalidEncoding),
                Some(canonical) => if ed25519_holds(public, canonical, signed) {
                    Ok(())
                } else {
                    Err(ConnectError::InvalidSignature)
                },
            }
        }
    }
}

impl EnvironmentIdentity {
    /// The name under which the signing key of an environment is kept.
    pub fn account(environment: &str) -> (result: Result<String, ConnectError>)
        ensures
            match result {
                Ok(account) => connectable(environment@) && account@ == identity_account(
                    environment@,
                ),
                Err(error) => !connectable(environment@) && error
                    == ConnectError::InvalidConfiguration,
            },
    {
        match require_environment(environment) {
            Err(error) => {
                return Err(error);
            },
            Ok(()) => {},
        }
        let mut account = "connect:".to_owned();
        account.append(environment);
        account.append(":environment-signing-key");
        Ok(account)
    }

    /// The signing key of an environment, given what is kept under its name: that key, or a new
    /// one where there is none. The second part tells whether the key is new and to be kept.
    pub fn load_or_create(environment: &str, kept: Option<Vec<u8>>) -> (result: Result<
        (Self, bool),
        ConnectError,
    >)
        ensures
            !connectable(environment@) ==> result == Err::<(Self, bool), ConnectError>(
                ConnectError::InvalidConfiguration,
            ),
            connectable(environment@) ==> match kept {
                Some(bytes) => if bytes@.len() == 32 {
                    result matches Ok((identity, new)) && identity@ == bytes@ && !new
                } else {
                    result == Err::<(Self, bool), ConnectError>(ConnectError::InvalidKeyMaterial)
                },
                None => result matches Ok((identity, new)) && identity@.len() == 32 && new,
            },
    {
        match require_environment(environment) {
            Err(error) => {
                return Err(error);
            },
            Ok(()) => {},
        }
        match kept {
            Some(bytes) => {
                if bytes.len() != 32 {
                    return Err(ConnectError::InvalidKeyMaterial);
                }
                Ok((EnvironmentIdentity { secret: fixed_32(bytes.as_slice()) }, false))
            },
            None => Ok((EnvironmentIdentity { secret: ed25519_generate() }, true)),
        }
    }

    /// The identity of a secret.
    pub fn from_bytes(bytes: [u8; 32]) -> (identity: Self)
        ensures
            identity@ == bytes@,
    {
        EnvironmentIdentity { secret: bytes }
    }

    /// The bytes that are kept of the key.
    pub fn as_bytes(&self) -> (bytes: &[u8; 32])
        ensures
            bytes@ == self@,
    {
        &self.secret
    }

    /// The public half of the key.
    pub fn public_jwk(&self) -> (jwk: OkpPublicJwk)
        ensures
            jwk.kty@ == "OKP"@,
            jwk.crv@ == "Ed25519"@,
            jwk.x@ == base64url(ed25519_public(self@)),
            decodable(jwk.x@, 32),
    {
        let public = ed25519_verifying_key(&self.secret);
        assert(decodes_to(base64url(public@), public@, 32));
        OkpPublicJwk {
            kty: "OKP".to_owned(),
            crv: "Ed25519".to_owned(),
            x: base64_encode(public.as_slice()),
        }
    }

    /// Signs the canonical form of a JSON document.
    pub fn sign_canonical(&self, document: &str) -> (result: Result<String, ConnectError>)
        ensures
            match canonical_json(document@) {
                None => result == Err::<String, ConnectError>(ConnectError::InvalidEncoding),
                Some(canonical) => result matches Ok(signature) && signature@ == base64url(
                    ed25519_signature(self@, canonical),
                ) && decodable(signature@, 64),
            },
    {
        match canonicalize(document) {
            None => Err(ConnectError::InvalidEncoding),
            Some(canonical) => {
                let signature = ed25519_sign(&self.secret, canonical.as_slice());
                assert(decodes_to(base64url(signature@), signature@, 64));
                Ok(base64_encode(signature.as_slice()))
            },
        }
    }

    /// Checks a signature of the canonical form of a JSON document. Everything that the document
    /// says counts, and nothing of how it is written. What an identity has signed is accepted under
    /// its public key, however the document is written out.
    pub fn verify_canonical(jwk: &OkpPublicJwk, document: &str, signature: &str) -> (result: Result<
        (),
        ConnectError,
    >)
        ensures
            result == canonical_verdict(jwk.kty@, jwk.crv@, jwk.x@, document@, signature@),
            forall|secret: Seq<u8>|
                secret.len() == 32 && jwk.kty@ == "OKP"@ && jwk.crv@ == "Ed25519"@ && jwk.x@
                    == base64url(#[trigger] ed25519_public(secret)) && decodable(jwk.x@, 32)
                    && signed_by(secret, document@, signature@) ==> result is Ok,
    {
        if !text_eq(jwk.kty.as_str(), "OKP") || !text_eq(jwk.crv.as_str(), "Ed25519") {
            return Err(ConnectError::InvalidKeyMaterial);
        }
        let public = match decode_fixed(jwk.x.as_str(), 32) {
            None => {
                return Err(ConnectError::InvalidEncoding);
            },
            Some(bytes) => bytes,
        };
        proof {
            lemma_decodes_once(jwk.x@, public@, 32);
            assert forall|secret: Seq<u8>| jwk.x@ == base64url(
                #[trigger] ed25519_public(secret),
            ) implies public@ == ed25519_public(secret) by {
                lemma_base64url_injective(public@, ed25519_public(secret));
            }
        }
        let public = fixed_32(public.as_slice());
        if !is_ed25519_key(&public) {
            return Err(ConnectError::InvalidKeyMaterial);
        }
        let signed = match decode_fixed(signature, 64) {
            None => {
                return Err(ConnectError::InvalidEncoding);
            },
            Some(bytes) => bytes,
        };
        proof {
            lemma_decodes_once(signature@, signed@, 64);
            assert forall|secret: Seq<u8>| #[trigger]
                signed_by(secret, document@, signature@) implies signed@ == ed25519_signature(
                secret,
                canonical_json(document@)->0,
            ) by {
                lemma_base64url_injective(
                    signed@,
                    ed25519_signature(secret, canonical_json(document@)->0),
                );
            }
        }
        let signed = fixed_64(signed.as_slice());
        match canonicalize(document) {
            None => Err(ConnectError::InvalidEncoding),
            Some(canonical) => if ed25519_verify(&public, canonical.as_slice(), &signed) {
                Ok(())
            } else {
                Err(ConnectError::InvalidSignature)
            },
        }
    }
}

proof fn lemma_decodes_once(text: Seq<char>, bytes: Seq<u8>, length: int)
    requires
        decodes_to(text, bytes, length),
    ensures
        (choose|any: Seq<u8>| #[trigger] decodes_to(text, any, length)) == bytes,
{
    let found = choose|any: Seq<u8>| #[trigger] decodes_to(text, any, length);
    assert(decodes_to(text, found, length));
    lemma_base64url_injective(found, bytes);
}

/// A random token: the base64 form of thirty-two bytes.
pub open spec fn token_shaped(token: Seq<char>) -> bool {
    decodable(token, 32)
}

/// The text under which a token is known: the base64 form of its digest.
pub open spec fn token_hash_of(token: Seq<char>) -> Seq<char> {
    base64url(sha256(encode_utf8(token)))
}

/// The text under which a token is known.
pub fn token_hash(token: &str) -> (hash: String)
    ensures
        hash@ == token_hash_of(token@),
{
    base64_encode(sha256_digest(token.as_bytes()).as_slice())
}

/// A token that nobody can guess.
pub fn random_token() -> (token: String)
    ensures
        token_shaped(token@),
{
    let bytes = random_bytes::<32>();
    let token = base64_encode(bytes.as_slice());
    assert(decodes_to(token@, bytes@, 32));
    token
}

/// Whether a text has the shape of a random token. All of them are forty-three letters long.
pub fn valid_random_token(value: &str) -> (valid: bool)
    ensures
        valid == token_shaped(value@),
        valid ==> value@.len() == 43,
{
    let found = decode_fixed(value, 32);
    found.is_some()
}

} // verus!
