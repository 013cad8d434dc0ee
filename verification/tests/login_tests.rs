use clippy_sync::auth::{AuthError, VerifyStep, WorkOsVerifier};
use clippy_sync::config::Environment;
use clippy_sync::crypto::AuthenticatedPrincipal;
use clippy_sync::linking::{
    account_name, check_relay_token, check_status, clear_link, device_name, environment_id_with,
    linked_environment_id, pending_or_linked_environment_id, persist_link, relay_refusal,
    sync_command,
    validate_managed_url, validate_response, EnvironmentIdentifier, LinkAttempt, LinkChallenge,
    LinkFault, LinkResponse, LinkRuntime, LinkStep, RelayConfig, RelayEnvironment,
    RelayPublicJwk, SyncCommand, UsageFault,
};
use clippy_sync::login::{
    callback_outcome, check_subjects, new_login, option_value, parse_callback,
    parse_callback_target, respond, token_account, CallbackError, CallbackOutcome, LoginConfig,
    LoginFault, Surface, TokenFault,
};
use clippy_sync::relay::RelayEndpoint;
use clippy_sync::signing::{token_hash, EnvironmentIdentity};

const ACCESS: &str = "eyJhbGciOiJSUzI1NiIsInR5cCI6IkpXVCIsImtpZCI6ImtleS0xIn0.eyJpc3MiOiJodHRwczovL2lzc3Vlci\
    5leGFtcGxlLmNvbSIsImF1ZCI6ImNsaWVudF8xIiwic3ViIjoidXNlcl8xIiwib3JnX2lkIjoib3JnXzEiLCJj\
    bGllbnRfaWQiOiJjbGllbnRfMSIsImV4cCI6NDEwMjQ0NDgwMH0.qwTLwAUOrjjj4cdZkcgP9b9hi-mUh9nl8h\
    IcTA11TraEt9nk32gvF7q8uROeZeI9Y-eVPgZJ0r_mGb4jqNYHANXb88yXOaoRnMSCn8j1KTgd2sDalUMEujMv\
    KWCUQsypBvsEguO7Db3uojr_WyT7j9ZcGezzbMUQejxx3VjtAiW9UtmczOFxKDErwkOY6s-DtYRRucalVKlyFy\
    Tt3VFQYUzFBdx97Xvc8ncrD5hNyXOMVxgskc3d5CzkN8xaf-4MFlpQNkHHRDMMh3aidiNDjZ71H7j8RvFUpJdk\
    0FojywygsFAgAymvXVfVRFHmA6fExo01BMVaYmWGWBTFZntALg";
const IDENTITY: &str = "eyJhbGciOiJSUzI1NiIsInR5cCI6IkpXVCIsImtpZCI6ImtleS0xIn0.eyJpc3MiOiJodHRwczovL2lzc3Vlci\
    5leGFtcGxlLmNvbSIsImF1ZCI6WyJvdGhlciIsImNsaWVudF8xIl0sInN1YiI6InVzZXJfMSIsIm5vbmNlIjoi\
    bm9uY2UtMSIsImV4cCI6NDEwMjQ0NDgwMH0.RV5T4y-LJl9VyXgED02vaLedQJAh1gGu43zXcb2Xy6VMtA-kP6\
    Cw0Dk0zXPHJ41XRVaLfTkIYt8xbPnau5KAh80ykDwqfA3mYxmH53eQEeELF4wi-1wb7fXIGk1c63FJ-BGNLBPU\
    2RZMAgVmOL9M5xveZ9mIXaddwHawVjvqNaVYwDpvWsAUJ1rJ__YIchZZVxteKWAFn5CgyWVK7YniizqzE_2zHX\
    Sxb0llNntyUtPjj-S_BrSGdowLyOFSpswaJptOQ2TRUMvs20phSC69TsjujFAmSaCoEWDpH6ENEx7X2MjQt3f1\
    cRK3vn8EYWXZuOyVvkPPdOTw7RRiILhnOQ";
const FOREIGN: &str = "eyJhbGciOiJSUzI1NiIsInR5cCI6IkpXVCIsImtpZCI6ImtleS0xIn0.eyJpc3MiOiJodHRwczovL290aGVyLm\
    V4YW1wbGUuY29tIiwiYXVkIjoiY2xpZW50XzEiLCJzdWIiOiJ1c2VyXzEiLCJjbGllbnRfaWQiOiJjbGllbnRf\
    MSIsImV4cCI6NDEwMjQ0NDgwMH0.FTa8CF7aE97k4BH1xrlpcWhCZhYNWWSEySQFK1ypegfJ-QeUOYp824UbtH\
    R9sSjUHEGJpZF_20bnME7SFzmk1diV9XiwzEJDeNzH3rPdUNvk_8Raa8DkJfPHs5Z76Knw5a2gN1SZRIlVSn6I\
    la3APxZv2zWZJNHaKDWOPBgGP4qLaOZLFX_O5yZc-8xbXNdTl_GMMhKte0Sm76MeKw163vdH4A_DBWaBqePIyD\
    Y3tLwgcoPOUNKkWyF7pnAUxNKrlYRlwwV5sfBtF5ledSOhaEXdWrrijmL-aYvRq6NCbeqo9ZlHnNpiPbQhUv3_\
    M_WDeVHfPxigXhSrLXbtf2-d6w";
const OTHER_KEY: &str = "eyJhbGciOiJSUzI1NiIsInR5cCI6IkpXVCIsImtpZCI6ImtleS0yIn0.eyJpc3MiOiJodHRwczovL2lzc3Vlci\
    5leGFtcGxlLmNvbSIsImF1ZCI6ImNsaWVudF8xIiwic3ViIjoidXNlcl8xIiwiY2xpZW50X2lkIjoiY2xpZW50\
    XzEiLCJleHAiOjQxMDI0NDQ4MDB9.ExKHIWjlHpVCn9uYhDqguMlkCRlPUxqz9ooKAXfs0H-PObx07f7F7fX0a\
    fzt6B7iCVJu5NCMlisNgvmDsKRk5WDoKKunnd0YWMLGXUlhwlDcV5gEQtJdv1iV1Ik2AK7_kcCz52EHnyldtzK\
    _aEduuJtffB4Godxaxmelghg1ZGH2RLOwTGt6lO2rSh82xpvkqFxre8waE2EF-0I260fva3rO_g2U7JzTMR0WC\
    FYnGTPfB_eTBp_UPcpo7anXuTEiceLSVSxRdwYxTq0K3AhzF3Uwf2ZP3AdAYIB6V4I9CSmQQUrMDPoDclPw7UE\
    rjpfcTJVNsp06XYwDkLjfab3Kcg";
const KEYLESS: &str = "eyJhbGciOiJSUzI1NiIsInR5cCI6IkpXVCJ9.eyJpc3MiOiJodHRwczovL2lzc3Vlci5leGFtcGxlLmNvbSIsI\
    mF1ZCI6ImNsaWVudF8xIiwic3ViIjoidXNlcl8xIiwiY2xpZW50X2lkIjoiY2xpZW50XzEiLCJleHAiOjQxMDI\
    0NDQ4MDB9.cmhBmmTJHp3ffYdVdo-cW1N7euCTMPyQzQUGr2Ri2vl6okk5qBPL-v8Ozuov9Qc7jL7CyuqlB8Kl\
    PBwUUiBBnCReiCmoQe_HI8auC36wndn9RXhqIADQ0DG1_gTzn3tuYGJ7joSNswyGN3Es4XW74oLn6c6scBu6bR\
    3Qr5-o_Q-_qsjFiLaCp8nuCjnle6lT_ydyj5DaZe9GAjGukdiR4p2ZN7kqCgfKsO6g2Z3upJcfeWW10dElfxGW\
    2uplLB0pDapp1SdxZK_HXZc9AClQxuBylrk4BrfYtGJCo4HDxKA4jERAH3U7hywHUjCVoSyhwmhpE3TQOTKqSP\
    rTvaUeIQ";
const SYMMETRIC: &str = "eyJhbGciOiJIUzI1NiIsInR5cCI6IkpXVCIsImtpZCI6ImtleS0xIn0.e30.AAAA";
const NAMELESS: &str = "eyJhbGciOiJSUzI1NiIsInR5cCI6IkpXVCIsImtpZCI6ImtleS0xIn0.eyJpc3MiOiJodHRwczovL2lzc3Vlci\
    5leGFtcGxlLmNvbSIsImF1ZCI6ImNsaWVudF8xIiwic3ViIjoiIiwiY2xpZW50X2lkIjoiY2xpZW50XzEiLCJl\
    eHAiOjQxMDI0NDQ4MDB9.X0nbS_SUoFBBdiOPxRP6HTXaK_zwLkWH8ZL13nAXZFCq7oGdpvG1-LT3jvA3V1I_z\
    6O86RNzFPsqRk4GYJ2rCIiRjdPFteKGwuuREF20mp6_5L6DZxAYSV0Hrhmy-Jmxmb39P1HpyZNOzBiBnJYwJ0Q\
    WCAVgYviSAxGKKFr91PA8iDGJ2hgChYJIX1RINTRcQI4CtFXpTQhs4E179MH3flLDfl_MJ4Cy52uGlPcjAr8YF\
    W_6QBnU17Pizb4fItb8YZldxDYzdNwOKrtWlodaKvZxek2xifeW_ZfpyQza7Pob0w6-CaX2Un_4X0MkduBxlPZ\
    2j0H_nW3q_4eg35_25A";
const MODULUS: &str = "xJGpeo1vch0r_bsIjynhhx2P10g7czib2zyjmV5nncUw5FjBo86xe9mbzRpbQiVQIeSLk0qNNzg-aHKQYDKCG9\
    9TV2QUzIcuE1zXrrxQgO2tLweI_ffmWWBheO7KFmywDyRRCdogUP98MTy--5UIS7Z8EQRjCeMFbjpPZTtjbnkn\
    DnuS2pYEAhuv6nZR3z2hBUiPyBP21we1QbxfXLrIte5IrsWcZMGBOs0TRuP460vSnBK0jywq1SJjE3kBJyqJJX\
    -FHS886dNj2Qy903ChA4vvxnjiK-BawPqCYhbuW7UL0Hu9_tdDcIvslgeJ7sdOfN3ainA8_dY_bNQirU4QMw";
const NOW: u64 = 1_786_276_800;
const IDENTIFIER: &str = "11111111-1111-4111-8111-111111111111";

const FRACTIONAL: &str = "eyJhbGciOiJSUzI1NiIsInR5cCI6IkpXVCIsImtpZCI6ImtleS0xIn0.eyJpc3MiOiJodHRwczovL2lzc3Vlci\
    5leGFtcGxlLmNvbSIsImF1ZCI6ImNsaWVudF8xIiwic3ViIjoidXNlcl8xIiwibm9uY2UiOiJub25jZS0xIiwi\
    ZXhwIjo0MTAyNDQ0ODAwLjV9.RSxYBco4R6dp-JBdR9WUnU8Col0n9WsDFFlBWb2RvYinKbs1xCy3dSw7hmL_a\
    OUstwc0036y1TJHQhWfI1Tqf2i1xvwqFNCJWrYdqpBZyZSj1b3s4uyXKgoRrGkM09PifXIIXRuHD_jJZYwtZkD\
    ZfxwHQ8Z0jn5gGKOUivraLRbiBpSLudr-81WHJJRHTnReLfrzyoczPekJ-AfcrTz3UJl1HL2M3yD-loBCMcckE\
    E45MBZPFZBYS7brgMFehZN6Tiod2yvS-tGb0ZLOl3U0zZcbygLGQoZCeKKZpKG_RDnr50AAQ85zN-J9v3eXque\
    5le-t0VKt7RmuWZU95XvA0w";
const LONG_PAST: &str = "eyJhbGciOiJSUzI1NiIsInR5cCI6IkpXVCIsImtpZCI6ImtleS0xIn0.eyJpc3MiOiJodHRwczovL2lzc3Vlci\
    5leGFtcGxlLmNvbSIsImF1ZCI6ImNsaWVudF8xIiwic3ViIjoidXNlcl8xIiwibm9uY2UiOiJub25jZS0xIiwi\
    ZXhwIjoxMDAwLjV9.qZV_o_B8z7XIpRHo-AVt115BPVZOZST8GDUabvhdsSmhLQk9lIOaIPLbOjitOYSrW90zh\
    IM3FY7c2kiefyCLq3BmWvurmKUI3lTxgl1cz3Cbz28z9DhsQwdBvphwi76wKt6VCVBKLUO91ajKZ1iGuwFzj3s\
    WY03RSbUa4vmIqGrIboeEIpCS5BOVNkj5MvMdmUEfuYXYHnqRWO4pEXrtz0yHsWn3HUAcGQyL0tU3LAAuw6c1m\
    ylURR3v323qo7QIJ_jhN-17TWE-dqC3wI0Uy6HafEIdzb7bV1-ubOruw_RBsgGWQvUd9LatphudstvGCE7AQ8G\
    LT4wM6C5fUtYbKA";

fn keys() -> String {
    format!(
        r#"{{"keys":[{{"kty":"RSA","kid":"key-1","alg":"RS256","use":"sig","n":"{MODULUS}","e":"AQAB"}}]}}"#
    )
}

fn config() -> LoginConfig {
    LoginConfig::load(
        Environment::Staging,
        Surface::Window,
        Some("https://issuer.example.com".into()),
        Some("client_1".into()),
    )
    .unwrap()
}

#[test]
fn rejects_forged_callback_state() {
    assert_eq!(
        parse_callback_target("/auth/callback?code=x&state=wrong", "expected")
            .map_err(|error| error.command_message()),
        Err("callback state did not match".into())
    );
}

#[test]
fn auth_login_rejects_forged_callback_state() {
    assert_eq!(
        parse_callback_target("/auth/callback?code=x&state=wrong", "expected")
            .map_err(|error| error.message()),
        Err("AuthKit callback state did not match".into())
    );
}

#[test]
fn stray_loopback_request_does_not_cancel_login() {
    let stray = parse_callback(
        b"GET /favicon.ico HTTP/1.1\r\nHost: 127.0.0.1\r\n\r\n",
        "expected",
    );
    let message = stray.clone().unwrap_err().message();
    assert!(respond(Surface::Window, false, &message).starts_with("HTTP/1.1 400"));
    assert_eq!(callback_outcome(stray), CallbackOutcome::Ignore);
    let valid = parse_callback(
        b"GET /auth/callback?code=valid&state=expected HTTP/1.1\r\nHost: 127.0.0.1\r\n\r\n",
        "expected",
    );
    assert_eq!(callback_outcome(valid), CallbackOutcome::Accept("valid".into()));
}

#[test]
fn managed_endpoint_rejects_suffix_confusion() {
    assert!(validate_managed_url(
        "https://evilclippy.saudecomalex.com.attacker.test",
        "https",
        "clippy.saudecomalex.com"
    )
    .is_err());
}

#[test]
fn each_unacceptable_callback_has_its_own_error() {
    let read = |target| parse_callback_target(target, "expected");
    assert_eq!(read("/other?code=x&state=expected"), Err(CallbackError::UnexpectedPath));
    assert_eq!(read("/auth/callback?code=x"), Err(CallbackError::MissingState));
    assert_eq!(read("/auth/callback?state=expected"), Err(CallbackError::MissingCode));
    assert_eq!(read("/auth/callback?state=expected&code="), Err(CallbackError::MissingCode));
    assert_eq!(
        read("/auth/callback?state=expected&code=x&error=access%20denied"),
        Err(CallbackError::Denied("access denied".into()))
    );
    assert_eq!(read("/auth/callback?state=expected&code=a+b"), Ok("a b".into()));
    assert_eq!(
        read("/auth/callback?state=wrong&code=x&state=expected"),
        Ok("x".into())
    );
    assert_eq!(
        parse_callback(b"POST /auth/callback HTTP/1.1", "expected"),
        Err(CallbackError::InvalidRequest)
    );
    assert_eq!(parse_callback(&[0xff, 0xfe], "expected"), Err(CallbackError::InvalidRequest));
    assert_eq!(parse_callback(b"GET  ", "expected"), Err(CallbackError::InvalidRequest));
    let denied = CallbackError::Denied("no".into());
    assert_eq!(denied.message(), "AuthKit authorization failed: no");
    assert_eq!(denied.command_message(), "AuthKit returned no");
    assert_eq!(
        callback_outcome(Err(denied.clone())),
        CallbackOutcome::Refuse(denied)
    );
}

#[test]
fn the_browser_is_answered_with_the_length_of_the_page() {
    let text = respond(Surface::CommandLine, true, "Done");
    let (head, body) = text.split_once("\r\n\r\n").unwrap();
    assert!(head.starts_with("HTTP/1.1 200 OK\r\n"));
    assert!(head.contains(&format!("Content-Length: {}", body.len())));
    assert!(body.ends_with("<p>Done</p>"));
}

#[test]
fn a_sign_in_asks_for_a_code_with_a_challenge() {
    let config = config();
    assert_eq!(
        config.authorize_url("c", "s s", "n").unwrap(),
        "https://issuer.example.com/oauth2/authorize?client_id=client_1\
         &redirect_uri=http%3A%2F%2F127.0.0.1%3A49834%2Fauth%2Fcallback&response_type=code\
         &scope=openid+profile+email+offline_access&code_challenge=c&code_challenge_method=S256\
         &state=s+s&nonce=n"
    );
    assert_eq!(
        config.checked_authorize_url("c", "s s", "n").unwrap(),
        config.authorize_url("c", "s s", "n")
    );
    assert_eq!(
        config.endpoint("oauth2/jwks").unwrap(),
        "https://issuer.example.com/oauth2/jwks"
    );
    let secrets = new_login();
    assert_eq!(secrets.challenge, token_hash(&secrets.verifier));
    assert_ne!(secrets.state, secrets.nonce);
    assert_eq!(secrets.state.len(), 43);
}

#[test]
fn a_sign_in_needs_a_safe_issuer_and_a_client() {
    let load = |surface, issuer: Option<&str>, client: Option<&str>| {
        LoginConfig::load(
            Environment::Production,
            surface,
            issuer.map(Into::into),
            client.map(Into::into),
        )
        .err()
    };
    assert_eq!(load(Surface::Window, None, None), None);
    assert_eq!(load(Surface::Window, Some("no address"), None), Some(LoginFault::InvalidIssuer));
    assert_eq!(
        load(Surface::Window, Some("http://issuer.example.com"), None),
        Some(LoginFault::InsecureIssuer)
    );
    assert_eq!(load(Surface::Window, None, Some("")), Some(LoginFault::MissingClient));
    assert_eq!(load(Surface::Window, None, Some(" ")), None);
    assert_eq!(load(Surface::CommandLine, None, Some(" ")), Some(LoginFault::MissingClient));
}

#[test]
fn tokens_of_a_sign_in_are_checked() {
    let config = config();
    let claims = config.verify_token(ACCESS, &keys(), None, NOW).unwrap();
    assert_eq!((claims.sub.as_str(), claims.org_id.as_deref()), ("user_1", Some("org_1")));
    assert_eq!(
        config.verify_token(IDENTITY, &keys(), Some("nonce-1"), NOW).unwrap().sub,
        "user_1"
    );
    assert_eq!(
        config.verify_id_token(IDENTITY, &keys(), "nonce-1", NOW),
        Ok("user_1".into())
    );
    assert!(config.verify_id_token(IDENTITY, &keys(), "other", NOW).is_err());
    let fault = |token: &str, keys: &str, nonce, now| {
        config.verify_token(token, keys, nonce, now).err()
    };
    assert_eq!(
        fault(IDENTITY, &keys(), Some("other"), NOW),
        Some(TokenFault::NonceMismatch)
    );
    assert_eq!(
        fault(ACCESS, &keys(), Some("nonce-1"), NOW),
        Some(TokenFault::MissingNonce)
    );
    assert_eq!(fault(IDENTITY, &keys(), None, NOW), Some(TokenFault::WrongClient));
    assert_eq!(fault(FOREIGN, &keys(), None, NOW), Some(TokenFault::InvalidClaims));
    assert_eq!(fault(OTHER_KEY, &keys(), None, NOW), Some(TokenFault::UnknownKey));
    assert_eq!(fault(KEYLESS, &keys(), None, NOW), Some(TokenFault::MissingKeyId));
    assert_eq!(fault(SYMMETRIC, &keys(), None, NOW), Some(TokenFault::WrongAlgorithm));
    assert_eq!(fault("no token", &keys(), None, NOW), Some(TokenFault::InvalidHeader));
    assert_eq!(fault(ACCESS, "{", None, NOW), Some(TokenFault::InvalidKeys));
    assert_eq!(fault(ACCESS, &keys(), None, 4_102_444_861), Some(TokenFault::InvalidClaims));
    assert_eq!(fault(ACCESS, &keys(), None, 4_102_444_860), None);
    let mut forged = ACCESS.to_string();
    forged.replace_range(forged.len() - 8.., "AAAAAAAA");
    assert_eq!(fault(&forged, &keys(), None, NOW), Some(TokenFault::InvalidClaims));
    assert_eq!(check_subjects("a", "a"), Ok(()));
    assert_eq!(check_subjects("a", "b"), Err(TokenFault::SubjectMismatch));
    assert_eq!(token_account("staging", "access"), "workos:staging:access");
}

#[test]
fn access_tokens_are_remembered_and_keys_are_fetched_once() {
    let mut verifier =
        WorkOsVerifier::new("https://issuer.example.com/", "client_1".into()).unwrap();
    let fetch = |forced| {
        Ok(VerifyStep::FetchKeys {
            address: "https://issuer.example.com/oauth2/jwks".into(),
            forced,
        })
    };
    let owner = AuthenticatedPrincipal {
        subject: "user_1".into(),
        organization_id: Some("org_1".into()),
    };
    assert_eq!(verifier.verify(ACCESS, false, NOW, 0), fetch(false));
    assert_eq!(verifier.keys_fetched("{".into(), 0), Err(AuthError::JwksUnavailable));
    assert_eq!(verifier.keys_fetched(keys(), 0), Ok(()));
    assert_eq!(
        verifier.verify(ACCESS, false, NOW, 1),
        Ok(VerifyStep::Verified(owner.clone()))
    );
    assert_eq!(verifier.verify(OTHER_KEY, false, NOW, 1), fetch(true));
    assert_eq!(verifier.verify(OTHER_KEY, true, NOW, 1), Err(AuthError::InvalidToken));
    assert_eq!(verifier.verify(NAMELESS, false, NOW, 1), Err(AuthError::InvalidToken));
    assert_eq!(verifier.verify(FOREIGN, false, NOW, 1), Err(AuthError::InvalidToken));
    assert_eq!(verifier.verify("x", false, NOW, 1), Err(AuthError::InvalidToken));
    assert_eq!(verifier.verify(ACCESS, false, NOW, 900_001), fetch(false));
    assert_eq!(
        WorkOsVerifier::new("http://issuer.example.com", "client_1".into()).err(),
        Some(AuthError::Configuration)
    );
}

fn words(text: &str) -> Vec<String> {
    text.split(' ').map(Into::into).collect()
}

#[test]
fn the_command_line_is_understood() {
    assert_eq!(
        sync_command(&words("login --environment staging")),
        Ok(SyncCommand::Login("staging".into()))
    );
    assert_eq!(
        sync_command(&words("link --environment staging --name Desk")),
        Ok(SyncCommand::Link("staging".into(), "Desk".into()))
    );
    assert_eq!(
        sync_command(&words("link --environment staging")),
        Ok(SyncCommand::Link("staging".into(), "Clippy on this Mac".into()))
    );
    assert_eq!(
        sync_command(&words("status --environment production")),
        Ok(SyncCommand::Status("production".into()))
    );
    assert_eq!(
        sync_command(&words("unlink --environment production --delete-tunnel")),
        Ok(SyncCommand::Unlink("production".into(), true))
    );
    assert_eq!(
        sync_command(&words("unlink --environment production")),
        Ok(SyncCommand::Unlink("production".into(), false))
    );
    assert_eq!(sync_command(&words("status")), Err(UsageFault::MissingEnvironment));
    assert_eq!(sync_command(&words("dance --environment staging")), Err(UsageFault::Usage));
    assert_eq!(sync_command(&[]), Err(UsageFault::Usage));
    assert_eq!(option_value(&words("--name"), "--name"), None);
}

#[test]
fn names_of_devices_are_trimmed_and_bounded() {
    assert_eq!(device_name("  Desk "), Ok("Desk".into()));
    assert_eq!(device_name("  "), Err(LinkFault::InvalidName));
    assert_eq!(device_name("a\tb"), Err(LinkFault::InvalidName));
    assert_eq!(device_name(&"a".repeat(120)), Ok("a".repeat(120)));
    assert_eq!(device_name(&"a".repeat(121)), Err(LinkFault::InvalidName));
}

#[test]
fn an_environment_keeps_its_identifier() {
    let kept = Ok(EnvironmentIdentifier::Kept(IDENTIFIER.into()));
    assert_eq!(environment_id_with(Some(IDENTIFIER.into()), None, "x".into()), kept);
    assert_eq!(environment_id_with(None, Some(IDENTIFIER.into()), "x".into()), kept);
    assert_eq!(
        environment_id_with(None, None, "x".into()),
        Ok(EnvironmentIdentifier::Fresh("x".into()))
    );
    assert_eq!(
        pending_or_linked_environment_id(Some("no".into()), None),
        Err(LinkFault::InvalidIdentity)
    );
    assert!(matches!(
        pending_or_linked_environment_id(None, None),
        Ok(EnvironmentIdentifier::Fresh(text)) if text.len() == 36
    ));
    assert_eq!(linked_environment_id(None), Err(LinkFault::NotLinked));
    assert_eq!(linked_environment_id(Some(IDENTIFIER.into())), Ok(IDENTIFIER.into()));
}

fn relay() -> RelayConfig {
    RelayConfig::load(Environment::Production, None).unwrap()
}

fn answer() -> LinkResponse {
    let endpoint = RelayEndpoint {
        http_base_url: "https://desk.clippy.saudecomalex.com".into(),
        ws_base_url: "wss://desk.clippy.saudecomalex.com".into(),
    };
    LinkResponse {
        environment: RelayEnvironment {
            id: IDENTIFIER.into(),
            environment_id: IDENTIFIER.into(),
            workspace_id: IDENTIFIER.into(),
            endpoint: endpoint.clone(),
            hostname: "desk.clippy.saudecomalex.com".into(),
        },
        endpoint,
        runtime: LinkRuntime {
            tunnel_id: "tunnel".into(),
            hostname: "desk.clippy.saudecomalex.com".into(),
            connector_token: "connector".into(),
            relay_signing_public_jwk: RelayPublicJwk {
                kty: "OKP".into(),
                crv: "Ed25519".into(),
                x: "point".into(),
                alg: None,
                kid: Some("k".into()),
                key_use: None,
            },
        },
    }
}

#[test]
fn relays_have_safe_addresses() {
    assert_eq!(relay().base_url, "https://relay.saudecomalex.com/");
    assert_eq!(
        relay().endpoint("/v1/x").unwrap(),
        "https://relay.saudecomalex.com/v1/x"
    );
    assert_eq!(
        RelayConfig::environment_path("id", "/status"),
        "/v1/environments/id/status"
    );
    let load = |address: &str| {
        RelayConfig::load(Environment::Staging, Some(address.into())).err()
    };
    assert_eq!(load("x"), Some(LinkFault::InvalidRelay));
    assert_eq!(load("http://relay.example.com"), Some(LinkFault::InsecureRelay));
    assert_eq!(load("https://relay.example.com?a"), Some(LinkFault::InsecureRelay));
}

#[test]
fn answers_of_the_relay_are_checked() {
    let verdict = |surface, response: &LinkResponse| {
        validate_response(surface, &relay(), IDENTIFIER, response)
    };
    assert_eq!(verdict(Surface::Window, &answer()), Ok(()));
    assert_eq!(verdict(Surface::CommandLine, &answer()), Ok(()));
    let mut other = answer();
    other.environment.workspace_id = "other".into();
    assert_eq!(verdict(Surface::Window, &other), Err(LinkFault::MismatchedAllocation));
    let mut other = answer();
    other.environment.endpoint.http_base_url = "https://x.clippy.saudecomalex.com".into();
    assert_eq!(verdict(Surface::Window, &other), Err(LinkFault::MismatchedAllocation));
    assert_eq!(verdict(Surface::CommandLine, &other), Err(LinkFault::InconsistentEndpoints));
    let mut other = answer();
    other.endpoint.ws_base_url = "wss://x.clippy.saudecomalex.com".into();
    other.environment.endpoint = other.endpoint.clone();
    assert_eq!(verdict(Surface::Window, &other), Err(LinkFault::InconsistentEndpoints));
    let mut other = answer();
    other.runtime.relay_signing_public_jwk.x = String::new();
    assert_eq!(verdict(Surface::Window, &other), Err(LinkFault::InvalidKey));
    let managed = |address| {
        validate_managed_url(address, "https", "clippy.saudecomalex.com").err()
    };
    assert_eq!(managed("https://a.Clippy.saudecomalex.com"), None);
    assert_eq!(managed("no address"), Some(LinkFault::InvalidManagedUrl));
    assert_eq!(managed("https://evilclippy.saudecomalex.com"), Some(LinkFault::UntrustedHost));
    assert_eq!(managed("https://a.clippy.saudecomalex.com/x"), Some(LinkFault::UntrustedHost));
    assert_eq!(managed("mailto:x"), Some(LinkFault::MissingHost));
}

#[test]
fn a_challenge_is_answered_with_a_signature() {
    let identity = EnvironmentIdentity::from_bytes([7; 32]);
    let attempt = LinkAttempt {
        config: relay(),
        environment_id: IDENTIFIER.into(),
        name: "Desk".into(),
    };
    let asked = attempt.challenge_request().unwrap();
    assert_eq!(
        asked.address,
        "https://relay.saudecomalex.com/v1/environments/link/challenge"
    );
    assert_eq!(
        asked.body,
        format!(r#"{{"environment_id":"{IDENTIFIER}","name":"Desk"}}"#)
    );
    let challenge = LinkChallenge { challenge_id: "id".into(), challenge: "sign me".into() };
    let sent = attempt
        .answer_challenge(Surface::Window, &identity, &challenge, 1_786_305_600)
        .unwrap();
    assert_eq!(sent.address, "https://relay.saudecomalex.com/v1/environments/link");
    let x = identity.public_jwk().x;
    let signed = format!(
        r#"{{"challenge":"sign me","challenge_id":"id","environment_id":"{IDENTIFIER}","environment_public_jwk":{{"crv":"Ed25519","kty":"OKP","x":"{x}"}},"issued_at":"2026-08-09T20:00:00Z","name":"Desk"}}"#
    );
    let body: serde_json::Value = serde_json::from_str(&sent.body).unwrap();
    assert_eq!(body["issued_at"].as_str(), Some("2026-08-09T20:00:00Z"));
    assert_eq!(body["environment_public_jwk"]["x"].as_str(), Some(x.as_str()));
    EnvironmentIdentity::verify_canonical(
        &identity.public_jwk(),
        &signed,
        body["signature"].as_str().unwrap(),
    )
    .unwrap();
    let empty = LinkChallenge { challenge_id: String::new(), challenge: "x".into() };
    assert_eq!(
        attempt.answer_challenge(Surface::CommandLine, &identity, &empty, NOW),
        Err(LinkFault::InvalidChallenge)
    );
    assert_eq!(
        attempt.answer_challenge(Surface::Window, &identity, &challenge, i64::MAX as u64),
        Err(LinkFault::Unsigned)
    );
}

#[test]
fn giving_up_a_tunnel_names_its_generation() {
    let whole = relay().unlink_request(IDENTIFIER, None).unwrap();
    let environment = format!("https://relay.saudecomalex.com/v1/environments/{IDENTIFIER}");
    assert_eq!(whole.address, environment);
    assert_eq!(whole.body, "");
    let tunnel = relay().unlink_request(IDENTIFIER, Some(7)).unwrap();
    assert_eq!(tunnel.address, format!("{environment}/tunnel"));
    assert_eq!(tunnel.body, r#"{"generation":7}"#);
}

#[test]
fn a_link_counts_from_the_last_step_on() {
    let steps = persist_link(&relay(), IDENTIFIER, "user_1", None, &answer());
    let account = |field| account_name(Environment::Production, field);
    assert_eq!(steps.len(), 9);
    assert_eq!(
        steps[0],
        LinkStep::SetSecret(account("relay-issuer"), "https://relay.saudecomalex.com".into())
    );
    assert_eq!(
        steps[1],
        LinkStep::SetSecret(
            account("relay-signing-public-jwk"),
            r#"{"kty":"OKP","crv":"Ed25519","x":"point","kid":"k"}"#.into()
        )
    );
    assert_eq!(steps[4], LinkStep::DeleteSecret(account("owner-org")));
    assert_eq!(
        steps[5],
        LinkStep::SetSecret("cloudflare-tunnel:production".into(), "connector".into())
    );
    assert_eq!(
        steps[6],
        LinkStep::SetSettings(vec![
            ("sync_environment".into(), "production".into()),
            ("sync_workspace_id:production".into(), IDENTIFIER.into())
        ])
    );
    assert_eq!(steps[7], LinkStep::SetSecret(account("environment-id"), IDENTIFIER.into()));
    let steps = clear_link(Environment::Production, IDENTIFIER);
    assert_eq!(
        steps[0],
        LinkStep::SetSecret(account("pending-environment-id"), IDENTIFIER.into())
    );
    assert_eq!(steps[1], LinkStep::DeleteSecret(account("environment-id")));
    assert_eq!(
        steps[8],
        LinkStep::DeleteSetting("sync_workspace_id:production".into())
    );
}

#[test]
fn the_relay_is_called_with_tokens_for_this_key_only() {
    assert_eq!(check_relay_token("DPoP", "relay:environments", "k", "k"), Ok(()));
    assert_eq!(
        check_relay_token("Bearer", "relay:environments", "k", "k"),
        Err(LinkFault::ForeignToken)
    );
    assert_eq!(
        check_relay_token("DPoP", "relay:environments", "k", "l"),
        Err(LinkFault::ForeignToken)
    );
    assert_eq!(check_status("a", "a"), Ok(()));
    assert_eq!(check_status("a", "b"), Err(LinkFault::DifferentEnvironment));
}

#[test]
fn refusals_of_the_relay_are_told() {
    assert_eq!(
        relay_refusal(Surface::Window, "404 Not Found", Some("gone")),
        "Clippy relay returned HTTP 404 Not Found: gone"
    );
    assert_eq!(
        relay_refusal(Surface::CommandLine, "500 Internal Server Error", Some("")),
        "relay returned HTTP 500 Internal Server Error: request failed"
    );
    assert_eq!(
        relay_refusal(Surface::CommandLine, "502 Bad Gateway", None),
        "relay returned HTTP 502 Bad Gateway: request failed"
    );
}

#[test]
fn a_code_is_exchanged_with_its_verifier() {
    let form = config().exchange_form("code-1", "verifier-1");
    let pairs: Vec<(&str, &str)> =
        form.iter().map(|(name, value)| (name.as_str(), value.as_str())).collect();
    assert_eq!(
        pairs,
        [
            ("client_id", "client_1"),
            ("grant_type", "authorization_code"),
            ("code", "code-1"),
            ("redirect_uri", "http://127.0.0.1:49834/auth/callback"),
            ("code_verifier", "verifier-1"),
        ]
    );
}

#[test]
fn a_token_may_expire_at_a_fraction_of_a_second() {
    let config = config();
    let claims = config.verify_token(FRACTIONAL, &keys(), Some("nonce-1"), NOW).unwrap();
    assert_eq!(claims.sub, "user_1");
    assert_eq!(
        config.verify_id_token(FRACTIONAL, &keys(), "nonce-1", NOW),
        Ok("user_1".into())
    );
    assert_eq!(
        config.verify_id_token(LONG_PAST, &keys(), "nonce-1", NOW),
        Err(TokenFault::InvalidClaims)
    );
    assert_eq!(
        config.verify_token(LONG_PAST, &keys(), Some("nonce-1"), NOW).err(),
        Some(TokenFault::InvalidClaims)
    );
    for current in [true, false] {
        assert_eq!(
            config.verify_id_token_with(FRACTIONAL, &keys(), "nonce-1", NOW, current).is_ok(),
            current
        );
        assert!(config
            .verify_token_with(ACCESS, &keys(), None, NOW, current)
            .is_ok());
    }
}
