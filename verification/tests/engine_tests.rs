use clippy_sync::activation::{
    choose_environment, may_sign_in, selected_environment, signed_in, workspace_id,
    workspace_setting, Activation, ActivationAction, ActivationEvent, ActivationFault,
};
use clippy_sync::admission::{Enrollment, EnrollmentAction, EnrollmentEvent};
use clippy_sync::cloud::{
    accept_download, call_address, deployment_address, validate_hashes, AcceptedEnrollment, ActorCounter, CloudError,
    EnrollmentRequestResult, EnrollmentStatus, PendingEnrollment, StorageDownload, StorageUpload,
};
use clippy_sync::config::{ConfigError, Environment};
use clippy_sync::coordinator::{
    safety_delay, ChangeWatch, PassOutcome, Retries, SyncRound, WatchEvent, WatchStep,
};
use clippy_sync::crypto::{AuthenticatedPrincipal, CryptoError, WorkspaceKey};
use clippy_sync::engine::{PassAction, PassEvent, PassFault, SyncPass};
use clippy_sync::enrollment::{
    check_accepted, check_requested, check_status, grant_enrollment, AccountEnrollment,
    EnrollmentFault, EnrollmentPoll, EnrollmentStep, Membership,
};
use clippy_sync::files::DEFAULT_CHUNK_SIZE;
use clippy_sync::model::VersionVector;
use clippy_sync::status::SyncState;
use clippy_sync::textmap::TextMap;

const WORKSPACE: &str = "11111111-1111-4111-8111-111111111111";
const NOW_MS: u64 = 1_786_276_800_000;

fn hash(letter: &str) -> String {
    letter.repeat(64)
}

fn counters(entries: &[(&str, u64)]) -> Vec<ActorCounter> {
    entries
        .iter()
        .map(|(actor, latest)| ActorCounter { actor_id: actor.to_string(), latest_counter: *latest })
        .collect()
}

fn frontier(entries: &[(&str, u64)]) -> PassEvent {
    let mut known = TextMap::new();
    for (actor, counter) in entries {
        known.insert(actor.to_string(), *counter);
    }
    PassEvent::Frontier(VersionVector(known))
}

fn started(changes: &[(&str, u64)]) -> SyncPass {
    let (mut pass, action) = SyncPass::new("me".into(), TextMap::new());
    assert_eq!(action, PassAction::ScanLocal);
    assert_eq!(pass.advance(PassEvent::Scanned(3)), PassAction::GrantEnrollments);
    assert_eq!(pass.advance(PassEvent::Granted), PassAction::ReadChanges);
    let mine = changes.iter().find(|(actor, _)| *actor == "me").map_or(0, |(_, latest)| *latest);
    assert_eq!(
        pass.advance(PassEvent::Changes(counters(changes))),
        PassAction::ListUploads { accepted_through: mine }
    );
    pass
}

#[test]
fn a_pass_sends_and_fetches_until_nothing_is_left() {
    let mut pass = started(&[("me", 4), ("phone", 7)]);
    assert_eq!(
        pass.advance(PassEvent::Candidates(vec![hash("a"), hash("b")])),
        PassAction::PrepareUploads { hashes: vec![hash("a"), hash("b")] }
    );
    let uploads = vec![
        StorageUpload { hash: hash("a"), exists: true, url: None },
        StorageUpload { hash: hash("b"), exists: false, url: Some("https://u".into()) },
    ];
    assert_eq!(
        pass.advance(PassEvent::UploadsPrepared(uploads)),
        PassAction::SealChunk { hash: hash("b") }
    );
    assert_eq!(
        pass.advance(PassEvent::ChunkSealed),
        PassAction::Upload { hash: hash("b"), url: "https://u".into() }
    );
    assert_eq!(pass.advance(PassEvent::Uploaded), PassAction::BuildBatch { limit: 256 });
    assert_eq!(
        pass.advance(PassEvent::BatchBuilt { operations: 3, bytes: 900, last: 7 }),
        PassAction::PushBatch
    );
    assert_eq!(pass.advance(PassEvent::Pushed(7)), PassAction::ReadFrontier);
    assert_eq!(
        pass.advance(frontier(&[("me", 7), ("phone", 6)])),
        PassAction::Pull
    );
    assert_eq!(pass.advance(PassEvent::Pulled(1)), PassAction::OpenBatch);
    assert_eq!(pass.advance(PassEvent::Opened(550_000)), PassAction::ApplyBatch);
    assert_eq!(pass.advance(PassEvent::Applied(1)), PassAction::FindMissing);
    assert_eq!(
        pass.advance(PassEvent::Missing(vec![hash("c")])),
        PassAction::PrepareDownloads { hashes: vec![hash("c")] }
    );
    let downloads = vec![StorageDownload { hash: hash("c"), url: "https://d".into() }];
    assert_eq!(
        pass.advance(PassEvent::DownloadsPrepared(downloads)),
        PassAction::Download { hash: hash("c"), url: "https://d".into() }
    );
    assert_eq!(pass.advance(PassEvent::Stored), PassAction::Project);
    assert_eq!(
        pass.advance(PassEvent::Projected),
        PassAction::Finish { has_more: false, refresh: true }
    );
    let confirmed = pass.into_confirmed();
    assert!(confirmed.get(&hash("a")).is_some());
    assert!(confirmed.get(&hash("b")).is_some());
    assert!(confirmed.get(&hash("c")).is_some());
    assert_eq!(confirmed.len(), 3);
}

#[test]
fn chunks_that_the_store_has_are_not_offered_again() {
    let mut confirmed = TextMap::new();
    confirmed.insert(hash("a"), 0);
    let (mut pass, _) = SyncPass::new("me".into(), confirmed);
    pass.advance(PassEvent::Scanned(0));
    pass.advance(PassEvent::Granted);
    pass.advance(PassEvent::Changes(vec![]));
    assert_eq!(
        pass.advance(PassEvent::Candidates(vec![hash("a")])),
        PassAction::BuildBatch { limit: 256 }
    );
    assert_eq!(
        pass.advance(PassEvent::BatchBuilt { operations: 0, bytes: 0, last: 0 }),
        PassAction::ReadFrontier
    );
    assert_eq!(pass.advance(frontier(&[])), PassAction::FindMissing);
    assert_eq!(pass.advance(PassEvent::Missing(vec![])), PassAction::Project);
    assert_eq!(
        pass.advance(PassEvent::Projected),
        PassAction::Finish { has_more: false, refresh: false }
    );
}

#[test]
fn a_pass_takes_a_bounded_number_of_chunks() {
    let many: Vec<String> = (0..65).map(|index| format!("{index:064x}")).collect();
    let mut pass = started(&[]);
    assert_eq!(
        pass.advance(PassEvent::Candidates(many.clone())),
        PassAction::PrepareUploads { hashes: many[..64].to_vec() }
    );
    let uploads = many[..64]
        .iter()
        .map(|hash| StorageUpload { hash: hash.clone(), exists: true, url: None })
        .collect();
    assert_eq!(
        pass.advance(PassEvent::UploadsPrepared(uploads)),
        PassAction::Finish { has_more: true, refresh: false }
    );
}

#[test]
fn large_batches_are_halved() {
    let mut pass = started(&[]);
    pass.advance(PassEvent::Candidates(vec![]));
    let large = |operations| PassEvent::BatchBuilt { operations, bytes: 550_001, last: 9 };
    assert_eq!(pass.advance(large(256)), PassAction::BuildBatch { limit: 128 });
    for limit in [64, 32, 16, 8, 4, 2, 1] {
        assert_eq!(pass.advance(large(limit * 2)), PassAction::BuildBatch { limit });
    }
    assert_eq!(pass.advance(large(1)), PassAction::Fail(PassFault::OperationTooLarge));
}

#[test]
fn a_full_batch_or_page_means_that_there_is_more() {
    let mut pass = started(&[("phone", 1)]);
    pass.advance(PassEvent::Candidates(vec![]));
    pass.advance(PassEvent::BatchBuilt { operations: 256, bytes: 1, last: 256 });
    pass.advance(PassEvent::Pushed(256));
    assert_eq!(pass.advance(frontier(&[("phone", 1)])), PassAction::FindMissing);
    pass.advance(PassEvent::Missing(vec![]));
    assert_eq!(
        pass.advance(PassEvent::Projected),
        PassAction::Finish { has_more: true, refresh: true }
    );
    let mut pass = started(&[("phone", 1)]);
    pass.advance(PassEvent::Candidates(vec![]));
    pass.advance(PassEvent::BatchBuilt { operations: 0, bytes: 0, last: 0 });
    pass.advance(frontier(&[]));
    pass.advance(PassEvent::Pulled(12));
    for _ in 0..11 {
        pass.advance(PassEvent::Opened(1));
        assert_eq!(pass.advance(PassEvent::Applied(0)), PassAction::OpenBatch);
    }
    pass.advance(PassEvent::Opened(1));
    assert_eq!(pass.advance(PassEvent::Applied(0)), PassAction::FindMissing);
    pass.advance(PassEvent::Missing(vec![]));
    assert_eq!(
        pass.advance(PassEvent::Projected),
        PassAction::Finish { has_more: true, refresh: true }
    );
}

#[test]
fn a_pass_that_cannot_go_on_says_why() {
    let mut pass = started(&[]);
    pass.advance(PassEvent::Candidates(vec![hash("a")]));
    let uploads = vec![StorageUpload { hash: hash("a"), exists: false, url: None }];
    assert_eq!(
        pass.advance(PassEvent::UploadsPrepared(uploads)),
        PassAction::SealChunk { hash: hash("a") }
    );
    assert_eq!(
        pass.advance(PassEvent::ChunkSealed),
        PassAction::Fail(PassFault::MissingUploadUrl)
    );
    let mut pass = started(&[]);
    pass.advance(PassEvent::Candidates(vec![]));
    pass.advance(PassEvent::BatchBuilt { operations: 2, bytes: 10, last: 2 });
    assert_eq!(
        pass.advance(PassEvent::Pushed(1)),
        PassAction::Fail(PassFault::NotAcknowledged)
    );
    let mut pass = started(&[("phone", 1)]);
    pass.advance(PassEvent::Candidates(vec![]));
    pass.advance(PassEvent::BatchBuilt { operations: 0, bytes: 0, last: 0 });
    pass.advance(frontier(&[]));
    pass.advance(PassEvent::Pulled(1));
    assert_eq!(
        pass.advance(PassEvent::Opened(550_001)),
        PassAction::Fail(PassFault::BatchTooLarge)
    );
    assert_eq!(pass.advance(PassEvent::Stored), PassAction::Fail(PassFault::Unexpected));
}

fn key(byte: u8) -> WorkspaceKey {
    WorkspaceKey::from_bytes([byte; 32])
}

fn step(activation: &mut Activation, event: ActivationEvent) -> ActivationAction {
    activation.advance_with(event, WORKSPACE.into(), key(1))
}

#[test]
fn the_first_device_of_an_account_makes_a_workspace() {
    let (mut activation, action) = Activation::new(true, None, None);
    assert!(matches!(action, ActivationAction::ReadAccount));
    assert!(matches!(
        step(&mut activation, ActivationEvent::Account(None)),
        ActivationAction::SaveWorkspace(id) if id == WORKSPACE
    ));
    assert!(matches!(
        step(&mut activation, ActivationEvent::WorkspaceSaved),
        ActivationAction::LoadKey(id) if id == WORKSPACE
    ));
    assert!(matches!(
        step(&mut activation, ActivationEvent::KeyLoaded(None)),
        ActivationAction::StoreKey(_, made) if made.as_bytes() == &[1; 32]
    ));
    assert!(matches!(
        step(&mut activation, ActivationEvent::KeyStored),
        ActivationAction::Bootstrap(id) if id == WORKSPACE
    ));
    assert!(matches!(
        step(&mut activation, ActivationEvent::Bootstrapped(true)),
        ActivationAction::Activate(_, kept) if kept.as_bytes() == &[1; 32]
    ));
}

#[test]
fn another_device_asks_for_the_key() {
    let (mut activation, _) = Activation::new(false, None, Some(WORKSPACE.into()));
    step(&mut activation, ActivationEvent::Account(Some(WORKSPACE.into())));
    step(&mut activation, ActivationEvent::WorkspaceSaved);
    assert!(matches!(
        step(&mut activation, ActivationEvent::KeyLoaded(None)),
        ActivationAction::Enroll(id) if id == WORKSPACE
    ));
    assert!(matches!(
        step(&mut activation, ActivationEvent::KeyReceived(key(2))),
        ActivationAction::StoreKey(_, handed) if handed.as_bytes() == &[2; 32]
    ));
    assert!(matches!(
        step(&mut activation, ActivationEvent::KeyStored),
        ActivationAction::Activate(_, kept) if kept.as_bytes() == &[2; 32]
    ));
}

#[test]
fn a_device_with_the_key_is_registered_again_where_it_is_not_known() {
    let joining = || {
        let (mut activation, _) = Activation::new(false, None, None);
        step(&mut activation, ActivationEvent::Account(Some(WORKSPACE.into())));
        step(&mut activation, ActivationEvent::WorkspaceSaved);
        assert!(matches!(
            step(&mut activation, ActivationEvent::KeyLoaded(Some(key(3)))),
            ActivationAction::CheckEnrolled(_)
        ));
        activation
    };
    assert!(matches!(
        step(&mut joining(), ActivationEvent::Enrolled(true)),
        ActivationAction::Activate(_, _)
    ));
    let mut activation = joining();
    assert!(matches!(
        step(&mut activation, ActivationEvent::Enrolled(false)),
        ActivationAction::Bootstrap(_)
    ));
    assert!(matches!(
        step(&mut activation, ActivationEvent::Bootstrapped(false)),
        ActivationAction::Fail(ActivationFault::DeviceRejected)
    ));
}

#[test]
fn an_activation_that_cannot_go_on_says_why() {
    let refused = |create, configured: Option<&str>, events: Vec<ActivationEvent>| {
        let (mut activation, _) = Activation::new(create, None, configured.map(Into::into));
        match events.into_iter().map(|event| step(&mut activation, event)).last() {
            Some(ActivationAction::Fail(fault)) => Some(fault),
            _ => None,
        }
    };
    assert_eq!(
        refused(false, None, vec![ActivationEvent::Account(None)]),
        Some(ActivationFault::NoWorkspace)
    );
    assert_eq!(
        refused(true, Some("other"), vec![ActivationEvent::Account(Some(WORKSPACE.into()))]),
        Some(ActivationFault::WorkspaceMismatch)
    );
    assert_eq!(
        refused(true, None, vec![ActivationEvent::Account(Some("no".into()))]),
        Some(ActivationFault::InvalidWorkspace)
    );
    assert_eq!(
        refused(true, None, vec![ActivationEvent::KeyStored]),
        Some(ActivationFault::Unexpected)
    );
    assert_eq!(
        refused(
            true,
            None,
            vec![
                ActivationEvent::Account(None),
                ActivationEvent::WorkspaceSaved,
                ActivationEvent::KeyLoaded(Some(key(4))),
                ActivationEvent::Bootstrapped(false),
                ActivationEvent::Account(None),
            ]
        ),
        Some(ActivationFault::WorkspaceRejected)
    );
}

#[test]
fn environments_and_workspaces_are_chosen() {
    assert_eq!(choose_environment(None), Ok(Environment::Production));
    assert_eq!(choose_environment(Some("staging")), Ok(Environment::Staging));
    assert_eq!(choose_environment(Some("x")), Err(ConfigError::InvalidEnvironment));
    assert_eq!(
        selected_environment(Some("staging"), Some("production")),
        Some(Environment::Staging)
    );
    assert_eq!(selected_environment(Some("x"), None), None);
    assert_eq!(selected_environment(None, Some("x")), Some(Environment::Production));
    assert_eq!(workspace_setting(Environment::Staging), "sync_workspace_id:staging");
    assert_eq!(
        workspace_id(Some(WORKSPACE), None, false),
        Ok(Some((WORKSPACE.into(), false)))
    );
    assert_eq!(workspace_id(Some("x"), None, true), Err(ActivationFault::InvalidWorkspace));
    assert_eq!(workspace_id(None, Some("x"), false), Ok(None));
    assert!(matches!(workspace_id(None, None, true), Ok(Some((id, true))) if id.len() == 36));
    assert!(may_sign_in(None, Environment::Staging));
    assert!(!may_sign_in(Some(Environment::Production), Environment::Staging));
    assert_eq!(
        signed_in(Environment::Staging, "https://a.example.com/").endpoint,
        "https://a.example.com"
    );
}

fn membership() -> Membership {
    Membership {
        workspace_id: WORKSPACE.into(),
        sync_url: "https://desk.example.com/".into(),
        workos_issuer: "https://issuer.example.com".into(),
        workos_audience: "client_1".into(),
    }
}

fn owner() -> AuthenticatedPrincipal {
    AuthenticatedPrincipal { subject: "user_1".into(), organization_id: None }
}

#[test]
fn a_device_that_asks_gets_the_key_of_the_workspace() {
    let asking = AccountEnrollment::new();
    let request = PendingEnrollment {
        enrollment_id: "e".into(),
        phone_public_key: asking.public_key().clone(),
    };
    let (offer, grant) =
        grant_enrollment(&membership(), &request, &key(9), &owner(), NOW_MS).unwrap();
    assert_eq!(offer.tunnel_url, "https://desk.example.com");
    assert_eq!(offer.expires_at_ms, NOW_MS + 600_000);
    let status = EnrollmentStatus {
        state: "granted".into(),
        workspace_id: Some(WORKSPACE.into()),
        offer: Some(offer.clone()),
        grant: Some(grant.clone()),
    };
    assert!(matches!(
        check_status(Some(&status), &membership(), NOW_MS),
        Ok(EnrollmentStep::Granted(_, _))
    ));
    assert_eq!(asking.unwrap(&offer, &grant, &owner()).unwrap().as_bytes(), &[9; 32]);
    assert!(AccountEnrollment::new().unwrap(&offer, &grant, &owner()).is_err());
    let unreadable = PendingEnrollment {
        enrollment_id: "e".into(),
        phone_public_key: "x".into(),
    };
    assert_eq!(
        grant_enrollment(&membership(), &unreadable, &key(9), &owner(), NOW_MS).err(),
        Some(CryptoError::InvalidEncoding)
    );

    let fault = |change: fn(&mut EnrollmentStatus), now| {
        let mut other = status.clone();
        change(&mut other);
        check_status(Some(&other), &membership(), now).err()
    };
    assert_eq!(
        fault(|status| status.state = "expired".into(), NOW_MS),
        Some(EnrollmentFault::Expired)
    );
    assert_eq!(fault(|status| status.state = "waiting".into(), NOW_MS), None);
    assert_eq!(
        fault(|status| status.grant = None, NOW_MS),
        Some(EnrollmentFault::Incomplete)
    );
    assert_eq!(
        fault(|status| status.workspace_id = None, NOW_MS),
        Some(EnrollmentFault::Mismatch)
    );
    assert_eq!(fault(|_| (), NOW_MS + 600_001), Some(EnrollmentFault::Mismatch));
    assert!(matches!(check_status(None, &membership(), NOW_MS), Ok(EnrollmentStep::Wait)));
}

#[test]
fn requests_to_join_are_for_one_workspace() {
    let requested = |state: &str, workspace: Option<&str>| {
        check_requested(
            &EnrollmentRequestResult {
                state: state.into(),
                workspace_id: workspace.map(Into::into),
            },
            WORKSPACE,
        )
    };
    assert_eq!(requested("pending", Some(WORKSPACE)), Ok(()));
    assert_eq!(requested("noWorkspace", None), Err(EnrollmentFault::NoWorkspace));
    assert_eq!(requested("pending", Some("x")), Err(EnrollmentFault::WrongWorkspace));
    assert_eq!(
        check_accepted(&AcceptedEnrollment { workspace_id: "x".into() }, WORKSPACE),
        Err(EnrollmentFault::WrongAcceptance)
    );
    let mut poll = EnrollmentPoll::new(1_000);
    assert_eq!(
        (0..6).map(|_| poll.wait()).collect::<Vec<u64>>(),
        [1, 2, 4, 8, 15, 15]
    );
    assert_eq!(poll.check(615_999), Ok(()));
    assert_eq!(poll.check(616_000), Err(EnrollmentFault::TimedOut));
}

#[test]
fn a_round_ends_after_eight_passes() {
    let mut round = SyncRound::new();
    for _ in 0..7 {
        assert!(round.pass_ended(PassOutcome::Done { has_more: true }));
    }
    assert!(!round.pass_ended(PassOutcome::Done { has_more: true }));
    assert_eq!(round.status(), SyncState::Synced);
    let mut round = SyncRound::new();
    assert!(!round.pass_ended(PassOutcome::Failed));
    assert_eq!(round.status(), SyncState::WaitingForDevice);
    assert_eq!((safety_delay(true), safety_delay(false)), (30, 300));
}

#[test]
fn retries_wait_longer_and_longer() {
    let mut retries = Retries::new();
    assert_eq!(
        (0..6).map(|_| retries.activation_failed()).collect::<Vec<u64>>(),
        [5, 15, 30, 60, 300, 300]
    );
    retries.worked();
    assert_eq!(
        (0..7).map(|_| retries.watching_failed()).collect::<Vec<u64>>(),
        [1, 2, 4, 8, 16, 30, 30]
    );
}

#[test]
fn a_signal_wakes_once() {
    let mut watch = ChangeWatch::new();
    assert_eq!(watch.heard(WatchEvent::Signal("a".into())), WatchStep::Wake);
    assert_eq!(watch.heard(WatchEvent::Signal("a".into())), WatchStep::Listen);
    assert_eq!(watch.heard(WatchEvent::Idle { cancelled: false }), WatchStep::Listen);
    assert_eq!(watch.heard(WatchEvent::Signal("b".into())), WatchStep::Wake);
    assert_eq!(watch.heard(WatchEvent::Refused), WatchStep::Fail(CloudError::Rejected));
    assert_eq!(watch.heard(WatchEvent::Ended), WatchStep::Fail(CloudError::Connection));
    assert_eq!(watch.heard(WatchEvent::Idle { cancelled: true }), WatchStep::Stop);
}

#[test]
fn the_store_is_asked_for_hashes_and_sends_bounded_chunks() {
    assert_eq!(validate_hashes(&[hash("a")]), Ok(()));
    assert_eq!(validate_hashes(&["x".into()]), Err(CloudError::InvalidResponse));
    assert_eq!(
        validate_hashes(&vec![hash("a"); 65]),
        Err(CloudError::InvalidResponse)
    );
    assert_eq!(accept_download(vec![1, 2]), Ok(vec![1, 2]));
    assert!(accept_download(vec![0; 2 * DEFAULT_CHUNK_SIZE + 1]).is_err());
}

fn requested(workspace: &str) -> EnrollmentEvent {
    EnrollmentEvent::Requested(EnrollmentRequestResult {
        state: "pending".into(),
        workspace_id: Some(workspace.into()),
    })
}

fn let_in(workspace: &str) -> EnrollmentEvent {
    EnrollmentEvent::Accepted(AcceptedEnrollment { workspace_id: workspace.into() })
}

fn granted_to(enrollment: &Enrollment) -> EnrollmentEvent {
    let request = PendingEnrollment {
        enrollment_id: "e".into(),
        phone_public_key: enrollment.public_key().clone(),
    };
    let (offer, grant) =
        grant_enrollment(&membership(), &request, &key(9), &owner(), NOW_MS).unwrap();
    EnrollmentEvent::Status(Some(EnrollmentStatus {
        state: "granted".into(),
        workspace_id: Some(WORKSPACE.into()),
        offer: Some(offer),
        grant: Some(grant),
    }))
}

#[test]
fn calls_go_to_the_store_by_their_kind() {
    let store = deployment_address("https://Store.example").unwrap();
    assert_eq!(store, "https://store.example/");
    assert_eq!(call_address(&store, "query").unwrap(), "https://store.example/api/query");
    assert_eq!(
        call_address("https://store.example/a/b?c#d", "mutation").unwrap(),
        "https://store.example/a/api/mutation"
    );
    assert_eq!(deployment_address("store.example"), Err(CloudError::Connection));
    assert_eq!(call_address("store.example", "query"), Err(CloudError::Connection));
}

#[test]
fn each_request_has_a_name_of_its_own() {
    let first = Enrollment::new(membership(), owner());
    let second = Enrollment::new(membership(), owner());
    assert_eq!(first.identifier().len(), 36);
    assert_ne!(first.identifier(), second.identifier());
}

#[test]
fn the_key_comes_once_the_store_has_let_the_device_in() {
    let mut device = Enrollment::new(membership(), owner());
    let grant = granted_to(&device);
    assert!(matches!(
        device.advance(requested(WORKSPACE), 0, NOW_MS),
        EnrollmentAction::ReadStatus
    ));
    for seconds in [1, 2, 4, 8, 15, 15] {
        let waiting = device.advance(EnrollmentEvent::Status(None), 10, NOW_MS);
        assert!(matches!(waiting, EnrollmentAction::Wait(wait) if wait == seconds));
        let looking = device.advance(EnrollmentEvent::Waited, 614_999, NOW_MS);
        assert!(matches!(looking, EnrollmentAction::ReadStatus));
    }
    assert!(matches!(device.advance(grant, 20, NOW_MS), EnrollmentAction::Accept));
    match device.advance(let_in(WORKSPACE), 30, NOW_MS) {
        EnrollmentAction::Finish(key) => assert_eq!(key.as_bytes(), &[9; 32]),
        _ => panic!("the key does not come"),
    }
    assert!(matches!(
        device.advance(let_in(WORKSPACE), 30, NOW_MS),
        EnrollmentAction::Fail(EnrollmentFault::Unexpected)
    ));
}

#[test]
fn a_device_that_asks_can_be_turned_away() {
    let fault = |action| match action {
        EnrollmentAction::Fail(fault) => Some(fault),
        _ => None,
    };
    let mut device = Enrollment::new(membership(), owner());
    assert_eq!(
        fault(device.advance(let_in(WORKSPACE), 0, NOW_MS)),
        Some(EnrollmentFault::Unexpected)
    );
    let mut device = Enrollment::new(membership(), owner());
    assert_eq!(
        fault(device.advance(requested("x"), 0, NOW_MS)),
        Some(EnrollmentFault::WrongWorkspace)
    );
    let mut device = Enrollment::new(membership(), owner());
    device.advance(requested(WORKSPACE), 0, NOW_MS);
    device.advance(EnrollmentEvent::Status(None), 0, NOW_MS);
    assert_eq!(
        fault(device.advance(EnrollmentEvent::Waited, 615_000, NOW_MS)),
        Some(EnrollmentFault::TimedOut)
    );
    let mut device = Enrollment::new(membership(), owner());
    let elsewhere = granted_to(&Enrollment::new(membership(), owner()));
    device.advance(requested(WORKSPACE), 0, NOW_MS);
    assert_eq!(
        fault(device.advance(elsewhere, 0, NOW_MS)),
        Some(EnrollmentFault::Unreadable)
    );
    let mut device = Enrollment::new(membership(), owner());
    let grant = granted_to(&device);
    device.advance(requested(WORKSPACE), 0, NOW_MS);
    device.advance(grant, 0, NOW_MS);
    assert_eq!(
        fault(device.advance(let_in("x"), 0, NOW_MS)),
        Some(EnrollmentFault::WrongAcceptance)
    );
    let mut device = Enrollment::new(membership(), owner());
    let grant = granted_to(&device);
    device.advance(requested(WORKSPACE), 0, NOW_MS);
    assert_eq!(
        fault(device.advance(grant, 0, NOW_MS + 600_001)),
        Some(EnrollmentFault::Mismatch)
    );
}
