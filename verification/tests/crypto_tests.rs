use clippy_sync::crypto::{
    derive_pairing_wrap_key, open, pairing_aad, seal, unwrap_pairing_grant,
    AuthenticatedPrincipal, CryptoError, PairingGrant, PairingOffer, PairingResponse,
    PendingPairing, SealedEnvelope, WorkspaceKey, MAX_SEALED_BYTES, TAG_BYTES,
};
use base64::engine::general_purpose::URL_SAFE_NO_PAD;
use base64::Engine;
use x25519_dalek::{PublicKey, StaticSecret};

const NOW: u64 = 1_786_276_800_000;

fn principal() -> AuthenticatedPrincipal {
    AuthenticatedPrincipal {
        subject: "user_123".into(),
        organization_id: Some("org_123".into()),
    }
}

fn pairing(key: WorkspaceKey) -> PendingPairing {
    PendingPairing::new(
        "workspace".into(),
        "https://sync.example.com".into(),
        "https://issuer.example.com".into(),
        "client_test".into(),
        key,
        principal(),
        60_000,
        NOW,
    )
}

fn phone(seed: u8) -> ([u8; 32], String) {
    let secret = StaticSecret::from([seed; 32]);
    let public = PublicKey::from(&secret);
    (secret.to_bytes(), URL_SAFE_NO_PAD.encode(public.as_bytes()))
}

fn granted(seed: u8, key: [u8; 32]) -> (PairingOffer, PairingGrant, [u8; 32]) {
    let pairing = pairing(WorkspaceKey::from_bytes(key));
    let offer = pairing.offer().clone();
    let (secret, public) = phone(seed);
    let response = PairingResponse {
        phone_public_key: public,
        one_time_token: offer.one_time_token.clone(),
    };
    let grant = pairing.complete(&response, &principal(), NOW).unwrap();
    (offer, grant, secret)
}

#[test]
fn sealed_payload_rejects_tampering_and_wrong_context() {
    let key = WorkspaceKey::from_bytes([7; 32]);
    let sealed = seal(&key, b"private clipboard", b"workspace-1").unwrap();
    assert_eq!(
        open(&key, &sealed, b"workspace-1").unwrap(),
        b"private clipboard"
    );
    assert_eq!(
        open(&key, &sealed, b"workspace-2"),
        Err(CryptoError::AuthenticationFailed)
    );
}

#[test]
fn pairing_multiple_phones_preserves_one_workspace_key() {
    let workspace_key = WorkspaceKey::from_bytes([42; 32]);
    for seed in [3u8, 5u8] {
        let (offer, grant, secret) = granted(seed, [42; 32]);
        let taken = unwrap_pairing_grant(&secret, &offer, &grant, &principal()).unwrap();
        assert_eq!(taken.as_bytes(), workspace_key.as_bytes());
    }
}

#[test]
fn pairing_grant_binds_every_routing_and_identity_field() {
    let (offer, grant, secret) = granted(9, [9; 32]);
    let mut tampered = offer.clone();
    tampered.tunnel_url = "https://attacker.example".into();
    assert!(unwrap_pairing_grant(&secret, &tampered, &grant, &principal()).is_err());
    let mut tampered = offer.clone();
    tampered.workos_issuer = "https://attacker.example".into();
    assert!(unwrap_pairing_grant(&secret, &tampered, &grant, &principal()).is_err());
    let mut tampered = offer.clone();
    tampered.workos_audience = "client_attacker".into();
    assert!(unwrap_pairing_grant(&secret, &tampered, &grant, &principal()).is_err());
    let mut tampered = offer;
    tampered.expires_at_ms = tampered.expires_at_ms.saturating_add(1);
    assert!(unwrap_pairing_grant(&secret, &tampered, &grant, &principal()).is_err());
}

#[test]
fn a_grant_without_an_organization_opens() {
    let owner = AuthenticatedPrincipal {
        subject: "user \"quoted\" \u{1f600}".into(),
        organization_id: None,
    };
    let pairing = PendingPairing::new(
        "workspace".into(),
        "t".into(),
        "i".into(),
        "a".into(),
        WorkspaceKey::from_bytes([1; 32]),
        owner.clone(),
        1_000,
        NOW,
    );
    let offer = pairing.offer().clone();
    assert_eq!(offer.expires_at_ms, NOW + 1_000);
    let (secret, public) = phone(4);
    let response = PairingResponse {
        phone_public_key: public,
        one_time_token: offer.one_time_token.clone(),
    };
    let grant = pairing.complete(&response, &owner, NOW).unwrap();
    let key = unwrap_pairing_grant(&secret, &offer, &grant, &owner).unwrap();
    assert_eq!(key.as_bytes(), &[1; 32]);
    let stranger = AuthenticatedPrincipal {
        subject: "somebody else".into(),
        organization_id: None,
    };
    assert!(unwrap_pairing_grant(&secret, &offer, &grant, &stranger).is_err());
}

#[test]
fn each_unacceptable_answer_has_its_own_error() {
    let (_, public) = phone(6);
    let answer = |pairing: &PendingPairing| PairingResponse {
        phone_public_key: public.clone(),
        one_time_token: pairing.offer().one_time_token.clone(),
    };
    let waiting = pairing(WorkspaceKey::from_bytes([2; 32]));
    assert_eq!(
        waiting.validate_response(&answer(&waiting), &principal(), NOW + 60_001),
        Err(CryptoError::ExpiredPairing)
    );
    assert_eq!(
        waiting.validate_response(&answer(&waiting), &principal(), NOW + 60_000),
        Ok(())
    );
    let mut wrong = answer(&waiting);
    wrong.one_time_token = "guess".into();
    assert_eq!(
        waiting.validate_response(&wrong, &principal(), NOW),
        Err(CryptoError::InvalidPairingToken)
    );
    let stranger = AuthenticatedPrincipal {
        subject: "user_123".into(),
        organization_id: None,
    };
    assert_eq!(
        waiting.validate_response(&answer(&waiting), &stranger, NOW),
        Err(CryptoError::PrincipalMismatch)
    );
    let mut wrong = answer(&waiting);
    wrong.phone_public_key = "short".into();
    assert_eq!(
        waiting.validate_response(&wrong, &principal(), NOW),
        Err(CryptoError::InvalidEncoding)
    );
    assert_eq!(
        waiting.complete(&wrong, &principal(), NOW).err(),
        Some(CryptoError::InvalidEncoding)
    );
}

#[test]
fn envelopes_that_cannot_be_opened_are_told_apart() {
    let key = WorkspaceKey::from_bytes([7; 32]);
    let sealed = seal(&key, b"text", b"aad").unwrap();
    assert_eq!(sealed.version, 1);
    assert_eq!(sealed.nonce.len(), 16);
    assert_ne!(sealed.ciphertext, URL_SAFE_NO_PAD.encode(b"text"));
    let newer = SealedEnvelope {
        version: 2,
        ..sealed.clone()
    };
    assert_eq!(open(&key, &newer, b"aad"), Err(CryptoError::UnsupportedVersion));
    let broken = SealedEnvelope {
        nonce: "AAAA".into(),
        ..sealed.clone()
    };
    assert_eq!(open(&key, &broken, b"aad"), Err(CryptoError::InvalidEncoding));
    let broken = SealedEnvelope {
        ciphertext: "****".into(),
        ..sealed.clone()
    };
    assert_eq!(open(&key, &broken, b"aad"), Err(CryptoError::InvalidEncoding));
    let other = WorkspaceKey::from_bytes([8; 32]);
    assert_eq!(
        open(&other, &sealed, b"aad"),
        Err(CryptoError::AuthenticationFailed)
    );
}

#[test]
fn workspace_keys_are_written_in_unpadded_base64() {
    let key = WorkspaceKey::from_bytes([0xfb; 32]);
    let text = key.encode();
    assert_eq!(text, "-_v7-_v7-_v7-_v7-_v7-_v7-_v7-_v7-_v7-_v7-_s");
    assert_eq!(WorkspaceKey::decode(&text).unwrap().as_bytes(), &[0xfb; 32]);
    assert!(WorkspaceKey::decode("AAAA").is_err());
    assert!(WorkspaceKey::decode("-_v7-_v7-_v7-_v7-_v7-_v7-_v7-_v7-_v7-_v7-_t").is_err());
    assert_ne!(
        WorkspaceKey::random().as_bytes(),
        WorkspaceKey::random().as_bytes()
    );
}

#[test]
fn the_wrap_key_depends_on_all_it_is_derived_from() {
    let base = derive_pairing_wrap_key(&[1; 32], "token", "workspace").unwrap();
    for (shared, token, workspace) in [
        ([2; 32], "token", "workspace"),
        ([1; 32], "other", "workspace"),
        ([1; 32], "token", "elsewhere"),
    ] {
        let other = derive_pairing_wrap_key(&shared, token, workspace).unwrap();
        assert_ne!(base.as_bytes(), other.as_bytes());
    }
}

#[test]
fn pairing_data_is_length_prefixed() {
    let offer = PairingOffer {
        version: 1,
        workspace_id: "w".into(),
        tunnel_url: "".into(),
        workos_issuer: "".into(),
        workos_audience: "".into(),
        mac_public_key: "m".into(),
        one_time_token: "".into(),
        expires_at_ms: 12,
    };
    let who = AuthenticatedPrincipal {
        subject: "é".into(),
        organization_id: None,
    };
    let aad = pairing_aad(&offer, "p", &who);
    let mut expected = Vec::new();
    for field in ["1", "w", "", "", "", "12", "m", "p", "é", ""] {
        expected.extend_from_slice(&(field.len() as u32).to_be_bytes());
        expected.extend_from_slice(field.as_bytes());
    }
    assert_eq!(aad, expected);
}

#[test]
fn the_cipher_takes_as_many_blocks_as_it_can_count() {
    assert_eq!(MAX_SEALED_BYTES, (u64::from(u32::MAX) - 1) * 64);
    let key = WorkspaceKey::random();
    let sealed = seal(&key, b"message", b"data").unwrap();
    let length = sealed.ciphertext.len() as u64 * 6 / 8;
    assert_eq!(length, 7 + TAG_BYTES);
    assert_eq!(open(&key, &sealed, b"data").unwrap(), b"message");
    assert_eq!(open(&key, &sealed, b"other"), Err(CryptoError::AuthenticationFailed));
}
