use clippy_sync::crypto::AuthenticatedPrincipal;
use clippy_sync::dpop::{normalize_htu, normalize_method, verify_dpop, DpopKey};
use clippy_sync::origin::{
    allow_bucket, bearer_token, chunk_aad, dpop_credentials, length_prefixed, payload_aad,
    ApiError, DirectSessionOrigin, OriginState, RateWindow,
};
use clippy_sync::relay::{
    normalize_https_origin, normalize_relay_endpoint, RelayEndpoint, RelayMintClaims,
    RelayProofVerifier,
};
use clippy_sync::sessions::{format_timestamp, unsigned_mint_response, ConnectSessionStore};
use clippy_sync::signing::{
    random_token, require_environment, token_hash, valid_random_token, ConnectError,
    EnvironmentIdentity,
};
use clippy_sync::crypto::WorkspaceKey;
use clippy_sync::status::SyncState;
use clippy_sync::textmap::TextMap;
use base64::engine::general_purpose::URL_SAFE_NO_PAD;
use base64::Engine;
use ed25519_dalek::{Signer, SigningKey};
use uuid::Uuid;

const NOW: u64 = 1_786_276_800;

fn principal() -> AuthenticatedPrincipal {
    AuthenticatedPrincipal {
        subject: "user_123".into(),
        organization_id: Some("org_123".into()),
    }
}

#[test]
fn environment_signature_covers_canonical_payload() {
    let identity = EnvironmentIdentity::from_bytes([7; 32]);
    let signature = identity.sign_canonical(r#"{"z": 1, "a": {"y": 2, "b": 3}}"#).unwrap();
    let reordered = r#"{"a":{"b":3,"y":2},"z":1}"#;
    EnvironmentIdentity::verify_canonical(&identity.public_jwk(), reordered, &signature).unwrap();
    assert_eq!(
        EnvironmentIdentity::verify_canonical(
            &identity.public_jwk(),
            r#"{"z": 2, "a": {"y": 2, "b": 3}}"#,
            &signature,
        ),
        Err(ConnectError::InvalidSignature)
    );
    let expected = SigningKey::from_bytes(&[7; 32]).sign(reordered.as_bytes());
    assert_eq!(signature, URL_SAFE_NO_PAD.encode(expected.to_bytes()));
}

#[test]
fn unusable_keys_and_signatures_are_told_apart() {
    let identity = EnvironmentIdentity::from_bytes([7; 32]);
    let jwk = identity.public_jwk();
    let mut foreign = jwk.clone();
    foreign.crv = "X25519".into();
    assert_eq!(
        EnvironmentIdentity::verify_canonical(&foreign, "{}", ""),
        Err(ConnectError::InvalidKeyMaterial)
    );
    assert_eq!(
        EnvironmentIdentity::verify_canonical(&jwk, "{}", "short"),
        Err(ConnectError::InvalidEncoding)
    );
    assert_eq!(identity.sign_canonical("{"), Err(ConnectError::InvalidEncoding));
    assert_eq!(require_environment("development"), Err(ConnectError::InvalidConfiguration));
    let (_, made) = EnvironmentIdentity::load_or_create("staging", None).unwrap();
    assert!(made);
    let (kept, made) =
        EnvironmentIdentity::load_or_create("staging", Some(vec![7; 32])).unwrap();
    assert!(!made);
    assert_eq!(kept.public_jwk(), jwk);
    assert_eq!(
        EnvironmentIdentity::load_or_create("staging", Some(vec![7; 31])).err(),
        Some(ConnectError::InvalidKeyMaterial)
    );
}

#[test]
fn dpop_proof_is_bound_to_method_url_and_access_token() {
    let key = DpopKey::random();
    let url = "https://relay.clippy.saudecomalex.com/v1/environments";
    let proof = key.prove("GET", url, Some("access-token"), NOW).unwrap();
    let verified = verify_dpop(&proof, "GET", url, Some("access-token"), NOW).unwrap();
    assert_eq!(verified.thumbprint, key.thumbprint().unwrap());
    assert_eq!(
        verify_dpop(&proof, "POST", url, Some("access-token"), NOW),
        Err(ConnectError::InvalidDpopProof)
    );
    assert_eq!(
        verify_dpop(&proof, "GET", url, Some("other-token"), NOW),
        Err(ConnectError::InvalidDpopProof)
    );
    let query_proof = key
        .prove(
            "GET",
            "https://relay.clippy.saudecomalex.com/v1/environments?cursor=secret",
            Some("access-token"),
            NOW,
        )
        .unwrap();
    assert!(verify_dpop(&query_proof, "GET", url, Some("access-token"), NOW).is_ok());
}

#[test]
fn proofs_last_for_five_minutes() {
    let key = DpopKey::from_bytes([5; 32]).unwrap();
    let url = "https://relay.example.com/x";
    let proof = key.prove("get", url, None, NOW).unwrap();
    assert!(verify_dpop(&proof, "GET", url, None, NOW + 300).is_ok());
    assert!(verify_dpop(&proof, "GET", url, None, NOW - 300).is_ok());
    assert!(verify_dpop(&proof, "GET", url, None, NOW + 301).is_err());
    assert!(verify_dpop(&proof, "GET", url, None, NOW - 301).is_err());
    assert!(verify_dpop(&proof, "GET", url, Some("token"), NOW).is_err());
    assert!(verify_dpop(&proof[1..], "GET", url, None, NOW).is_err());
    assert_eq!(
        key.prove("GET", "not a url", None, NOW),
        Err(ConnectError::InvalidDpopProof)
    );
}

#[test]
fn the_thumbprint_of_a_key_is_the_digest_of_its_canonical_form() {
    let key = DpopKey::from_bytes([5; 32]).unwrap();
    let jwk = key.public_jwk();
    let document = format!(
        r#"{{"crv":"P-256","kty":"EC","x":"{}","y":"{}"}}"#,
        jwk.x, jwk.y
    );
    assert_eq!(key.thumbprint().unwrap(), token_hash(&document));
    assert_eq!(DpopKey::from_bytes([0; 32]).err(), Some(ConnectError::InvalidKeyMaterial));
    assert_eq!(
        DpopKey::load_or_create("staging", "no label", None).err(),
        Some(ConnectError::InvalidKeyMaterial)
    );
    assert_eq!(DpopKey::account("staging", "relay").unwrap(), "connect:staging:dpop:relay");
}

#[test]
fn methods_and_addresses_have_one_form() {
    assert_eq!(normalize_method("post").unwrap(), "POST");
    assert!(normalize_method("").is_err());
    assert_eq!(
        normalize_htu("https://Example.com:443/a?b#c").unwrap(),
        "https://example.com/a"
    );
    assert!(normalize_htu("ftp://example.com/").is_err());
    assert_eq!(
        normalize_https_origin("https://Relay.example.com/").unwrap(),
        "https://relay.example.com"
    );
    assert!(normalize_https_origin("https://relay.example.com/x").is_err());
}

#[test]
fn bootstrap_and_access_tokens_are_one_use_and_proof_bound() {
    let mut store = ConnectSessionStore::new();
    let key = DpopKey::random();
    let principal = AuthenticatedPrincipal { subject: "user_123".into(), organization_id: None };
    let bootstrap = random_token();
    store.open_bootstrap(&bootstrap, principal.clone(), key.thumbprint().unwrap(), NOW + 120);
    let url = "https://prod-test.clippy.saudecomalex.com/v1/connect/token";
    let proof = key.prove("POST", url, Some(&bootstrap), NOW).unwrap();
    let (token, owner) = store.exchange_bootstrap(&bootstrap, &proof, "POST", url, NOW).unwrap();
    assert_eq!(owner, principal);
    assert_eq!(token.token_type, "DPoP");
    let second_proof = key.prove("POST", url, Some(&bootstrap), NOW).unwrap();
    assert_eq!(
        store.exchange_bootstrap(&bootstrap, &second_proof, "POST", url, NOW),
        Err(ConnectError::InvalidCredential)
    );

    let exchange_url = "https://prod-test.clippy.saudecomalex.com/v1/sync/exchange";
    let access_proof = key.prove("POST", exchange_url, Some(&token.access_token), NOW).unwrap();
    assert_eq!(
        store.authorize(&token.access_token, &access_proof, "POST", exchange_url, NOW).unwrap(),
        principal
    );
    assert_eq!(
        store.authorize(&token.access_token, &access_proof, "POST", exchange_url, NOW),
        Err(ConnectError::Replay)
    );

    let ticket_url = "https://prod-test.clippy.saudecomalex.com/v1/connect/websocket-ticket";
    let ticket_proof = key.prove("POST", ticket_url, Some(&token.access_token), NOW).unwrap();
    let (ticket, ticket_owner) = store
        .issue_websocket_ticket(&token.access_token, &ticket_proof, "POST", ticket_url, NOW)
        .unwrap();
    assert_eq!(ticket_owner, principal);
    assert_eq!(store.consume_websocket_ticket(&ticket.ws_ticket, NOW).unwrap(), principal);
    assert_eq!(
        store.consume_websocket_ticket(&ticket.ws_ticket, NOW),
        Err(ConnectError::InvalidCredential)
    );
}

#[test]
fn credentials_end() {
    let mut store = ConnectSessionStore::new();
    let key = DpopKey::random();
    let bootstrap = random_token();
    store.open_bootstrap(&bootstrap, principal(), key.thumbprint().unwrap(), NOW + 120);
    let url = "https://prod-test.clippy.saudecomalex.com/v1/connect/token";
    let later = NOW + 121;
    let proof = key.prove("POST", url, Some(&bootstrap), later).unwrap();
    assert_eq!(
        store.exchange_bootstrap(&bootstrap, &proof, "POST", url, later),
        Err(ConnectError::InvalidCredential)
    );
    assert_eq!(
        store.consume_websocket_ticket("unknown", NOW),
        Err(ConnectError::InvalidCredential)
    );
    assert!(valid_random_token(&random_token()));
    assert!(!valid_random_token("short"));
    assert_eq!(format_timestamp(1_786_276_800).unwrap(), "2026-08-09T12:00:00Z");
    assert_eq!(format_timestamp(i64::MAX as u64), Err(ConnectError::InvalidEncoding));
}

fn relay_jwt(secret: [u8; 32], claims: &RelayMintClaims) -> String {
    let header = URL_SAFE_NO_PAD.encode(br#"{"alg":"EdDSA","typ":"JWT"}"#);
    let organization = match &claims.org_id {
        Some(organization) => format!("\"{organization}\""),
        None => "null".into(),
    };
    let payload = format!(
        r#"{{"iss":"{}","aud":"{}","sub":"{}","org_id":{},"environment_id":"{}","endpoint":{{"http_base_url":"{}","ws_base_url":"{}"}},"client_jkt":"{}","client_nonce":"{}","generation":{},"jti":"{}","iat":{},"exp":{}}}"#,
        claims.iss,
        claims.aud,
        claims.sub,
        organization,
        claims.environment_id,
        claims.endpoint.http_base_url,
        claims.endpoint.ws_base_url,
        claims.client_jkt,
        claims.client_nonce,
        claims.generation,
        claims.jti,
        claims.iat,
        claims.exp
    );
    let input = format!("{header}.{}", URL_SAFE_NO_PAD.encode(payload));
    let signature = SigningKey::from_bytes(&secret).sign(input.as_bytes());
    format!("{input}.{}", URL_SAFE_NO_PAD.encode(signature.to_bytes()))
}

fn jwk_text(identity: &EnvironmentIdentity) -> String {
    format!(
        r#"{{"kty":"OKP","crv":"Ed25519","x":"{}"}}"#,
        identity.public_jwk().x
    )
}

fn endpoint() -> RelayEndpoint {
    RelayEndpoint {
        http_base_url: "https://device.clippy.saudecomalex.com".into(),
        ws_base_url: "wss://device.clippy.saudecomalex.com".into(),
    }
}

fn mint_claims(environment_id: &str, client: &DpopKey) -> RelayMintClaims {
    RelayMintClaims {
        iss: "https://relay.example.com".into(),
        aud: format!("clippy-env:{environment_id}"),
        sub: "user_123".into(),
        org_id: Some("org_123".into()),
        environment_id: environment_id.into(),
        endpoint: endpoint(),
        client_jkt: client.thumbprint().unwrap(),
        client_nonce: random_token(),
        generation: 1,
        jti: Uuid::new_v4().to_string(),
        iat: NOW,
        exp: NOW + 60,
    }
}

#[test]
fn relay_mint_binds_canonical_http_and_websocket_endpoint() {
    let relay_identity = EnvironmentIdentity::from_bytes([9; 32]);
    let environment_identity = EnvironmentIdentity::from_bytes([7; 32]);
    let environment_id = Uuid::new_v4().to_string();
    let issuer = "https://relay.example.com";
    let client = DpopKey::random();
    let claims = mint_claims(&environment_id, &client);
    let proof = relay_jwt([9; 32], &claims);
    let verifier =
        RelayProofVerifier::new(issuer, environment_id, &jwk_text(&relay_identity)).unwrap();
    assert!(verifier.has_whole_key());
    let mut store = ConnectSessionStore::new();
    let response = store
        .mint_from_relay(
            &proof,
            &verifier,
            &environment_identity,
            &principal(),
            &endpoint(),
            NOW,
        )
        .unwrap();
    let unsigned = unsigned_mint_response(
        &response.environment_id,
        &response.bootstrap_credential,
        &response.expires_at,
        &response.client_jkt,
        &response.client_nonce,
    );
    EnvironmentIdentity::verify_canonical(
        &environment_identity.public_jwk(),
        &unsigned,
        &response.signature,
    )
    .unwrap();

    let mismatched = RelayEndpoint {
        ws_base_url: "wss://other.clippy.saudecomalex.com".into(),
        ..endpoint()
    };
    assert_eq!(
        verifier.verify(&proof, &principal(), &mismatched, NOW),
        Err(ConnectError::InvalidRelayProof)
    );
    assert_eq!(
        store.mint_from_relay(
            &proof,
            &verifier,
            &environment_identity,
            &principal(),
            &mismatched,
            NOW,
        ),
        Err(ConnectError::InvalidRelayProof)
    );
    assert_eq!(
        store.mint_from_relay(
            &proof,
            &verifier,
            &environment_identity,
            &principal(),
            &endpoint(),
            NOW,
        ),
        Err(ConnectError::Replay)
    );
}

#[test]
fn statements_of_the_relay_are_checked() {
    let environment_id = Uuid::new_v4().to_string();
    let client = DpopKey::random();
    let verifier = RelayProofVerifier::new(
        "https://relay.example.com",
        environment_id.clone(),
        &jwk_text(&EnvironmentIdentity::from_bytes([9; 32])),
    )
    .unwrap();
    let good = mint_claims(&environment_id, &client);
    let verdict = |claims: &RelayMintClaims, now| {
        verifier.verify(&relay_jwt([9; 32], claims), &principal(), &endpoint(), now)
    };
    assert_eq!(verdict(&good, NOW), Ok(good.clone()));
    assert_eq!(verdict(&good, NOW + 121), Err(ConnectError::InvalidRelayProof));
    let mut other = good.clone();
    other.generation = 0;
    assert!(verdict(&other, NOW).is_err());
    let mut other = good.clone();
    other.aud = "clippy-env:other".into();
    assert!(verdict(&other, NOW).is_err());
    let mut other = good.clone();
    other.iss = "https://other.example.com".into();
    assert!(verdict(&other, NOW).is_err());
    let mut other = good.clone();
    other.sub = "user_124".into();
    assert!(verdict(&other, NOW).is_err());
    assert!(verifier
        .verify(&relay_jwt([8; 32], &good), &principal(), &endpoint(), NOW)
        .is_err());
    assert_eq!(
        RelayProofVerifier::new("https://relay.example.com", environment_id, "{}").err(),
        Some(ConnectError::InvalidKeyMaterial)
    );
    assert_eq!(
        normalize_relay_endpoint(&RelayEndpoint {
            http_base_url: "https://A.example.com/".into(),
            ws_base_url: "wss://a.example.com".into()
        })
        .unwrap()
        .http_base_url,
        "https://a.example.com"
    );
}

#[test]
fn aad_matches_swift_length_prefixed_contract() {
    let workspace = "workspace-123";
    let hash = "00".repeat(32);
    assert_eq!(
        payload_aad(workspace),
        length_prefixed(&["clippy-sync-payload", "1", workspace])
    );
    assert_eq!(
        payload_aad(workspace)
            .iter()
            .map(|byte| format!("{byte:02x}"))
            .collect::<String>(),
        "00000013636c697070792d73796e632d7061796c6f616400000001310000000d776f726b73706163652d313233"
    );
    assert_eq!(
        chunk_aad(workspace, &hash),
        length_prefixed(&["clippy-sync-chunk", "1", workspace, &hash])
    );
    assert_ne!(payload_aad(workspace), payload_aad("workspace-124"));
}

#[test]
fn authenticated_chunk_burst_does_not_consume_unauthenticated_bucket() {
    let mut rates: TextMap<RateWindow> = TextMap::new();
    for _ in 0..256 {
        assert!(allow_bucket(&mut rates, "auth:peer", 4_096, 1_000));
    }
    assert_eq!(rates.get("auth:peer").map(|window| window.requests), Some(256));
    assert!(rates.get("unauth:peer").is_none());
}

#[test]
fn a_full_window_refuses_until_it_is_over() {
    let mut rates: TextMap<RateWindow> = TextMap::new();
    assert!(allow_bucket(&mut rates, "a", 2, 0));
    assert!(allow_bucket(&mut rates, "a", 2, 59_999));
    assert!(!allow_bucket(&mut rates, "a", 2, 59_999));
    assert!(allow_bucket(&mut rates, "b", 2, 59_999));
    assert!(allow_bucket(&mut rates, "a", 2, 60_000));
}

#[test]
fn direct_session_credentials_never_fall_back_to_bearer() {
    assert_eq!(
        dpop_credentials(Some("DPoP environment-token"), Some("proof.jwt.value")),
        Ok(("environment-token", "proof.jwt.value"))
    );
    assert!(matches!(
        dpop_credentials(Some("Bearer legacy-token"), Some("proof.jwt.value")),
        Err(ApiError::Unauthorized)
    ));
    assert!(dpop_credentials(None, Some("proof")).is_err());
    assert!(dpop_credentials(Some("DPoP x"), None).is_err());
    assert_eq!(bearer_token("Bearer x", true), Some("x"));
    assert_eq!(bearer_token("Bearer x", false), None);
}

fn origin(environment_id: &str) -> OriginState {
    OriginState::new(
        "workspace".into(),
        WorkspaceKey::from_bytes([3; 32]),
        principal(),
        Some(DirectSessionOrigin {
            sessions: ConnectSessionStore::new(),
            relay_verifier: RelayProofVerifier::new(
                "https://relay.example.com",
                environment_id.into(),
                &jwk_text(&EnvironmentIdentity::from_bytes([9; 32])),
            )
            .unwrap(),
            identity: EnvironmentIdentity::from_bytes([7; 32]),
            endpoint: endpoint(),
        }),
        false,
    )
}

#[test]
fn a_client_of_the_relay_gets_in_step_by_step() {
    let environment_id = Uuid::new_v4().to_string();
    let client = DpopKey::random();
    let mut origin = origin(&environment_id);
    let proof = relay_jwt([9; 32], &mint_claims(&environment_id, &client));
    assert_eq!(
        origin.connect_mint(true, &proof, "peer", NOW, 0).err(),
        Some(ApiError::InvalidRequest)
    );
    let minted = origin.connect_mint(false, &proof, "peer", NOW, 0).unwrap();
    let base = "https://device.clippy.saudecomalex.com";
    let shown = client
        .prove(
            "POST",
            &format!("{base}/v1/connect/token"),
            Some(&minted.bootstrap_credential),
            NOW,
        )
        .unwrap();
    let token = origin
        .connect_token(
            Some(&format!("DPoP {}", minted.bootstrap_credential)),
            Some(&shown),
            "peer",
            NOW,
            0,
        )
        .unwrap();
    let authorization = format!("DPoP {}", token.access_token);
    let shown = client
        .prove(
            "POST",
            &format!("{base}/v1/sync/exchange"),
            Some(&token.access_token),
            NOW,
        )
        .unwrap();
    let who = origin.authorize_http(
        &authorization,
        Some(&shown),
        None,
        "peer",
        "POST",
        "/v1/sync/exchange",
        NOW,
        0,
    );
    assert_eq!(who.unwrap(), principal());
    let shown = client
        .prove(
            "POST",
            &format!("{base}/v1/connect/websocket-ticket"),
            Some(&token.access_token),
            NOW,
        )
        .unwrap();
    let ticket = origin
        .connect_websocket_ticket(Some(&authorization), Some(&shown), "peer", NOW, 0)
        .unwrap();
    assert_eq!(
        origin.open_events(true, &ticket.ws_ticket, "peer", NOW, 0, Some(0)),
        Err(ApiError::Unauthorized)
    );
    assert_eq!(
        origin.open_events(false, &ticket.ws_ticket, "peer", NOW, 0, Some(0)),
        Ok(SyncState::Synced)
    );
    assert!(origin.authorize_ticket(&ticket.ws_ticket, "peer", NOW, 0).is_err());
    origin.peer_joined();
    assert_eq!(origin.peer_left(), Some(SyncState::WaitingForDevice));
    assert_eq!(
        origin
            .authorize_http("Bearer x", None, Some(principal()), "peer", "GET", "/x", NOW, 0)
            .err(),
        Some(ApiError::Unauthorized)
    );
    assert_eq!(ApiError::TooManyRequests.status(), 429);
}

#[test]
fn payloads_and_chunks_are_sealed_for_the_workspace() {
    let origin = origin("env");
    let device = Uuid::new_v4().to_string();
    let sealed = origin.seal_payload(b"payload").unwrap();
    assert_eq!(origin.open_payload(&device, &sealed).unwrap(), b"payload");
    assert_eq!(
        origin.open_payload("no uuid", &sealed).err(),
        Some(ApiError::InvalidRequest)
    );
    let hash = "ba7816bf8f01cfea414140de5dae2223b00361a396177a9cb410ff61f20015ad";
    let sealed = origin.seal_chunk(hash, b"abc").unwrap();
    assert_eq!(origin.open_chunk(hash, &sealed).unwrap(), b"abc");
    assert!(origin.open_chunk(&"0".repeat(64), &sealed).is_err());
    assert!(origin.open_payload(&device, &sealed).is_err());
}

#[test]
fn a_proof_from_ahead_of_time_counts_once_as_long_as_it_lasts() {
    let mut store = ConnectSessionStore::new();
    let key = DpopKey::random();
    let bootstrap = random_token();
    store.open_bootstrap(&bootstrap, principal(), key.thumbprint().unwrap(), NOW + 120);
    let url = "https://prod-test.clippy.saudecomalex.com/v1/connect/token";
    let proof = key.prove("POST", url, Some(&bootstrap), NOW).unwrap();
    let (token, _) = store.exchange_bootstrap(&bootstrap, &proof, "POST", url, NOW).unwrap();

    let url = "https://prod-test.clippy.saudecomalex.com/v1/sync/exchange";
    let ahead = key.prove("POST", url, Some(&token.access_token), NOW + 300).unwrap();
    assert!(store.authorize(&token.access_token, &ahead, "POST", url, NOW).is_ok());
    for later in [NOW + 1, NOW + 301, NOW + 600] {
        assert_eq!(
            store.authorize(&token.access_token, &ahead, "POST", url, later),
            Err(ConnectError::Replay)
        );
    }
    assert_eq!(
        store.authorize(&token.access_token, &ahead, "POST", url, NOW + 601),
        Err(ConnectError::InvalidDpopProof)
    );
}

#[test]
fn a_statement_of_the_relay_counts_once_as_long_as_it_lasts() {
    let relay_identity = EnvironmentIdentity::from_bytes([9; 32]);
    let identity = EnvironmentIdentity::from_bytes([7; 32]);
    let environment_id = Uuid::new_v4().to_string();
    let claims = mint_claims(&environment_id, &DpopKey::random());
    let proof = relay_jwt([9; 32], &claims);
    let issuer = "https://relay.example.com";
    let verifier =
        RelayProofVerifier::new(issuer, environment_id, &jwk_text(&relay_identity)).unwrap();
    let mut store = ConnectSessionStore::new();
    let mut mint = |now| {
        store
            .mint_from_relay(&proof, &verifier, &identity, &principal(), &endpoint(), now)
            .err()
    };
    assert_eq!(mint(NOW), None);
    let last = (NOW..NOW + 300)
        .filter(|now| verifier.verify(&proof, &principal(), &endpoint(), *now).is_ok())
        .last()
        .unwrap();
    assert_eq!(mint(NOW + 60), Some(ConnectError::Replay));
    assert_eq!(mint(last), Some(ConnectError::Replay));
    assert_eq!(mint(last + 1), Some(ConnectError::InvalidRelayProof));
}

#[test]
fn the_claims_of_a_proof_may_stand_in_a_list() {
    let key = DpopKey::from_bytes([5; 32]).unwrap();
    let url = "https://relay.example.com/x";
    let header = key.prove("GET", url, None, NOW).unwrap();
    let header = header.split('.').next().unwrap();
    let signed = |claims: String| {
        let input = format!("{header}.{}", URL_SAFE_NO_PAD.encode(claims));
        let secret = p256::ecdsa::SigningKey::from_slice(&[5; 32]).unwrap();
        let signature: p256::ecdsa::Signature =
            p256::ecdsa::signature::Signer::sign(&secret, input.as_bytes());
        format!("{input}.{}", URL_SAFE_NO_PAD.encode(signature.to_bytes()))
    };
    let identifier = Uuid::new_v4().to_string();
    let hash = token_hash("token");
    let listed = signed(format!(r#"["GET","{url}",{NOW},"{identifier}","{hash}"]"#));
    let verified = verify_dpop(&listed, "GET", url, Some("token"), NOW).unwrap();
    assert_eq!(verified.jti, identifier);
    assert!(verify_dpop(&listed, "POST", url, Some("token"), NOW).is_err());
    let unbound = signed(format!(r#"["GET","{url}",{NOW},"{identifier}",null]"#));
    assert!(verify_dpop(&unbound, "GET", url, None, NOW).is_ok());
    let shorter = signed(format!(r#"["GET","{url}",{NOW},"{identifier}"]"#));
    assert!(verify_dpop(&shorter, "GET", url, None, NOW).is_err());
    let swapped = signed(format!(r#"["{url}","GET",{NOW},"{identifier}",null]"#));
    assert!(verify_dpop(&swapped, "GET", url, None, NOW).is_err());
    let named = signed(format!(
        r#"{{"other":1,"htm":"GET","htu":"{url}","iat":{NOW},"jti":"{identifier}"}}"#
    ));
    assert!(verify_dpop(&named, "GET", url, None, NOW).is_ok());
}
