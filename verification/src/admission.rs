//! The way of a device into the workspace of its account, as a machine: it is told what has happened,
//! and tells what is to be done next.

use vstd::prelude::*;
use vstd::string::*;

use crate::cloud::{AcceptedEnrollment, EnrollmentRequestResult, EnrollmentStatus};
use crate::crypto::{
    unwraps_as, x25519_public, AuthenticatedPrincipal, CryptoError, GrantView, OfferView,
    PrincipalView, WorkspaceKey,
};
use crate::encoding::base64url;
use crate::enrollment::{
    check_accepted, check_requested, check_status, offer_fits, AccountEnrollment, EnrollmentFault,
    EnrollmentPoll, EnrollmentStep, Membership, MembershipView,
};
use crate::ids::{hyphenated_uuid, new_uuid};
use crate::plain::opt_view;

verus! {

/// What has happened.
pub enum EnrollmentEvent {
    /// The store has answered the request.
    Requested(EnrollmentRequestResult),
    /// How far the request has come, if the store knows it.
    Status(Option<EnrollmentStatus>),
    /// The wait is over.
    Waited,
    /// The store has let this device in.
    Accepted(AcceptedEnrollment),
}

/// What has happened.
pub enum EnrollmentEventView {
    Requested { state: Seq<char>, workspace: Option<Seq<char>> },
    Status(Option<StatusView>),
    Waited,
    Accepted(Seq<char>),
}

/// How far a request has come.
pub struct StatusView {
    pub state: Seq<char>,
    pub workspace: Option<Seq<char>>,
    pub offer: Option<OfferView>,
    pub grant: Option<GrantView>,
}

/// How far a request has come.
pub open spec fn status_view(status: EnrollmentStatus) -> StatusView {
    StatusView {
        state: status.state@,
        workspace: opt_view(status.workspace_id),
        offer: opt_view(status.offer),
        grant: opt_view(status.grant),
    }
}

impl View for EnrollmentEvent {
    type V = EnrollmentEventView;

    open spec fn view(&self) -> EnrollmentEventView {
        match self {
            EnrollmentEvent::Requested(requested) => EnrollmentEventView::Requested {
                state: requested.state@,
                workspace: opt_view(requested.workspace_id),
            },
            EnrollmentEvent::Status(None) => EnrollmentEventView::Status(None),
            EnrollmentEvent::Status(Some(status)) => EnrollmentEventView::Status(
                Some(status_view(*status)),
            ),
            EnrollmentEvent::Waited => EnrollmentEventView::Waited,
            EnrollmentEvent::Accepted(accepted) => EnrollmentEventView::Accepted(
                accepted.workspace_id@,
            ),
        }
    }
}

/// What is to be done.
pub enum EnrollmentAction {
    /// Ask how far the request has come.
    ReadStatus,
    /// Wait this many seconds.
    Wait(u64),
    /// Tell the store that the key has come.
    Accept,
    /// The device has the key of the workspace.
    Finish(WorkspaceKey),
    Fail(EnrollmentFault),
}

/// What is to be done.
pub enum EnrollmentActionView {
    ReadStatus,
    Wait(u64),
    Accept,
    Finish(Seq<u8>),
    Fail(EnrollmentFault),
}

impl View for EnrollmentAction {
    type V = EnrollmentActionView;

    open spec fn view(&self) -> EnrollmentActionView {
        match self {
            EnrollmentAction::ReadStatus => EnrollmentActionView::ReadStatus,
            EnrollmentAction::Wait(seconds) => EnrollmentActionView::Wait(*seconds),
            EnrollmentAction::Accept => EnrollmentActionView::Accept,
            EnrollmentAction::Finish(key) => EnrollmentActionView::Finish(key@),
            EnrollmentAction::Fail(fault) => EnrollmentActionView::Fail(*fault),
        }
    }
}

/// How far a device has come on its way in.
pub enum EnrollmentStage {
    Requesting,
    Reading(EnrollmentPoll),
    Waiting(EnrollmentPoll),
    /// The key has come, and the store is yet to agree.
    Accepting(Seq<u8>),
    Over,
}

enum Stage {
    Requesting,
    Reading(EnrollmentPoll),
    Waiting(EnrollmentPoll),
    Accepting(WorkspaceKey),
    Over,
}

impl View for Stage {
    type V = EnrollmentStage;

    closed spec fn view(&self) -> EnrollmentStage {
        match self {
            Stage::Requesting => EnrollmentStage::Requesting,
            Stage::Reading(poll) => EnrollmentStage::Reading(*poll),
            Stage::Waiting(poll) => EnrollmentStage::Waiting(*poll),
            Stage::Accepting(key) => EnrollmentStage::Accepting(key@),
            Stage::Over => EnrollmentStage::Over,
        }
    }
}

/// A device on its way in.
pub struct EnrollmentView {
    pub membership: MembershipView,
    pub owner: PrincipalView,
    pub secret: Seq<u8>,
    /// The public key that others are told.
    pub public_key: Seq<char>,
    /// The name of the request.
    pub identifier: Seq<char>,
    pub stage: EnrollmentStage,
}

/// The offer and the grant that a status brings, where they count; why the way in ends, where it
/// does.
pub open spec fn status_outcome(
    status: Option<StatusView>,
    membership: MembershipView,
    now_ms: u64,
) -> Result<Option<(OfferView, GrantView)>, EnrollmentFault> {
    match status {
        None => Ok(None),
        Some(known) => if known.state == "expired"@ {
            Err(EnrollmentFault::Expired)
        } else if known.state != "granted"@ {
            Ok(None)
        } else if known.offer is None || known.grant is None {
            Err(EnrollmentFault::Incomplete)
        } else if known.workspace != Some(membership.workspace) || !offer_fits(
            known.offer->0,
            membership,
            now_ms,
        ) {
            Err(EnrollmentFault::Mismatch)
        } else {
            Ok(Some((known.offer->0, known.grant->0)))
        },
    }
}

/// The way in ends.
pub open spec fn enrollment_failed(state: EnrollmentView, fault: EnrollmentFault) -> (
    EnrollmentView,
    EnrollmentActionView,
) {
    (
        EnrollmentView { stage: EnrollmentStage::Over, ..state },
        EnrollmentActionView::Fail(fault),
    )
}

/// The device looks how far its request has come, if there is still time.
pub open spec fn enrollment_looking(
    state: EnrollmentView,
    poll: EnrollmentPoll,
    clock_ms: u64,
) -> (EnrollmentView, EnrollmentActionView) {
    if clock_ms >= poll.deadline_ms {
        enrollment_failed(state, EnrollmentFault::TimedOut)
    } else {
        (
            EnrollmentView { stage: EnrollmentStage::Reading(poll), ..state },
            EnrollmentActionView::ReadStatus,
        )
    }
}

/// What comes of what has happened, given the key that the grant holds for this device, if there is
/// a grant and it holds one.
pub open spec fn enrollment_advanced(
    state: EnrollmentView,
    event: EnrollmentEventView,
    clock_ms: u64,
    now_ms: u64,
    held: Option<Seq<u8>>,
) -> (EnrollmentView, EnrollmentActionView) {
    match (state.stage, event) {
        (EnrollmentStage::Requesting, EnrollmentEventView::Requested { state: told, workspace }) =>
        if told == "noWorkspace"@ {
            enrollment_failed(state, EnrollmentFault::NoWorkspace)
        } else if workspace != Some(state.membership.workspace) {
            enrollment_failed(state, EnrollmentFault::WrongWorkspace)
        } else {
            enrollment_looking(state, EnrollmentPoll::begun(clock_ms), clock_ms)
        },
        (EnrollmentStage::Waiting(poll), EnrollmentEventView::Waited) => enrollment_looking(
            state,
            poll,
            clock_ms,
        ),
        (EnrollmentStage::Reading(poll), EnrollmentEventView::Status(status)) =>
        match status_outcome(status, state.membership, now_ms) {
            Err(fault) => enrollment_failed(state, fault),
            Ok(None) => (
                EnrollmentView { stage: EnrollmentStage::Waiting(poll.slowed()), ..state },
                EnrollmentActionView::Wait(poll.delay_seconds),
            ),
            Ok(Some(_)) => match held {
                Some(key) => (
                    EnrollmentView { stage: EnrollmentStage::Accepting(key), ..state },
                    EnrollmentActionView::Accept,
                ),
                None => enrollment_failed(state, EnrollmentFault::Unreadable),
            },
        },
        (EnrollmentStage::Accepting(key), EnrollmentEventView::Accepted(workspace)) => if workspace
            == state.membership.workspace {
            (
                EnrollmentView { stage: EnrollmentStage::Over, ..state },
                EnrollmentActionView::Finish(key),
            )
        } else {
            enrollment_failed(state, EnrollmentFault::WrongAcceptance)
        },
        _ => enrollment_failed(state, EnrollmentFault::Unexpected),
    }
}

/// The key is what the grant holds for the device with this secret.
pub open spec fn key_held(
    secret: Seq<u8>,
    offer: OfferView,
    grant: GrantView,
    owner: PrincipalView,
    held: Option<Seq<u8>>,
) -> bool {
    exists|result: Result<WorkspaceKey, CryptoError>|
        #[trigger] unwraps_as(secret, offer, grant, owner, result) && held == (match result {
            Ok(key) => Some(key@),
            Err(_) => None,
        })
}

/// The key is what the grant that has come holds for this device, where a grant has come that
/// counts.
pub open spec fn grant_holds(
    state: EnrollmentView,
    event: EnrollmentEventView,
    now_ms: u64,
    held: Option<Seq<u8>>,
) -> bool {
    event matches EnrollmentEventView::Status(status) ==> status_outcome(
        status,
        state.membership,
        now_ms,
    ) matches Ok(Some((offer, grant))) ==> key_held(state.secret, offer, grant, state.owner, held)
}

/// A device on its way in, as a machine: it is told what has happened, and tells what is to be done
/// next. The key comes out at the end, once the store has agreed.
pub struct Enrollment {
    membership: Membership,
    owner: AuthenticatedPrincipal,
    asking: AccountEnrollment,
    identifier: String,
    stage: Stage,
}

impl View for Enrollment {
    type V = EnrollmentView;

    closed spec fn view(&self) -> EnrollmentView {
        EnrollmentView {
            membership: self.membership@,
            owner: self.owner@,
            secret: self.asking.secret(),
            public_key: self.asking.told(),
            identifier: self.identifier@,
            stage: self.stage@,
        }
    }
}

impl Enrollment {
    /// A device that is about to ask, with a fresh secret and a fresh name for the request.
    pub fn new(membership: Membership, owner: AuthenticatedPrincipal) -> (enrollment: Self)
        ensures
            enrollment@.membership == membership@,
            enrollment@.owner == owner@,
            enrollment@.secret.len() == 32,
            enrollment@.stage == EnrollmentStage::Requesting,
            enrollment@.public_key == base64url(x25519_public(enrollment@.secret)),
            hyphenated_uuid(enrollment@.identifier),
    {
        Enrollment {
            membership,
            owner,
            asking: AccountEnrollment::new(),
            identifier: new_uuid(),
            stage: Stage::Requesting,
        }
    }

    /// The name of the request.
    pub fn identifier(&self) -> (identifier: &String)
        ensures
            identifier@ == self@.identifier,
    {
        &self.identifier
    }

    /// The public key that others are told.
    pub fn public_key(&self) -> (key: &String)
        ensures
            key@ == self@.public_key,
    {
        self.asking.public_key()
    }

    fn look(&mut self, poll: EnrollmentPoll, clock_ms: u64) -> (action: EnrollmentAction)
        requires
            old(self)@.stage is Over,
        ensures
            (final(self)@, action@) == enrollment_looking(old(self)@, poll, clock_ms),
    {
        match poll.check(clock_ms) {
            Err(fault) => EnrollmentAction::Fail(fault),
            Ok(()) => {
                self.stage = Stage::Reading(poll);
                EnrollmentAction::ReadStatus
            },
        }
    }

    /// Takes note of what has happened, and tells what is to be done next, given the key that the
    /// grant holds for this device, if there is a grant and it holds one. The time on a clock that
    /// never goes back bounds the wait; the time of day is held against the offer.
    pub fn advance_with(
        &mut self,
        event: EnrollmentEvent,
        clock_ms: u64,
        now_ms: u64,
        held: Option<WorkspaceKey>,
    ) -> (action: EnrollmentAction)
        ensures
            (final(self)@, action@) == enrollment_advanced(
                old(self)@,
                event@,
                clock_ms,
                now_ms,
                opt_view(held),
            ),
    {
        let mut stage = Stage::Over;
        std::mem::swap(&mut stage, &mut self.stage);
        match (stage, event) {
            (Stage::Requesting, EnrollmentEvent::Requested(requested)) => {
                match check_requested(&requested, self.membership.workspace_id.as_str()) {
                    Err(fault) => EnrollmentAction::Fail(fault),
                    Ok(()) => self.look(EnrollmentPoll::new(clock_ms), clock_ms),
                }
            },
            (Stage::Waiting(poll), EnrollmentEvent::Waited) => self.look(poll, clock_ms),
            (Stage::Reading(poll), EnrollmentEvent::Status(status)) => {
                match check_status(status.as_ref(), &self.membership, now_ms) {
                    Err(fault) => EnrollmentAction::Fail(fault),
                    Ok(EnrollmentStep::Wait) => {
                        let mut poll = poll;
                        let seconds = poll.wait();
                        self.stage = Stage::Waiting(poll);
                        EnrollmentAction::Wait(seconds)
                    },
                    Ok(EnrollmentStep::Granted(_, _)) => match held {
                        Some(key) => {
                            self.stage = Stage::Accepting(key);
                            EnrollmentAction::Accept
                        },
                        None => EnrollmentAction::Fail(EnrollmentFault::Unreadable),
                    },
                }
            },
            (Stage::Accepting(key), EnrollmentEvent::Accepted(accepted)) => {
                match check_accepted(&accepted, self.membership.workspace_id.as_str()) {
                    Err(fault) => EnrollmentAction::Fail(fault),
                    Ok(()) => EnrollmentAction::Finish(key),
                }
            },
            _ => EnrollmentAction::Fail(EnrollmentFault::Unexpected),
        }
    }

    /// The key that the grant holds for this device, where a grant has come that counts.
    fn take_key(&self, event: &EnrollmentEvent, now_ms: u64) -> (held: Option<WorkspaceKey>)
        ensures
            grant_holds(self@, event@, now_ms, opt_view(held)),
    {
        let status = match event {
            EnrollmentEvent::Status(status) => status,
            _ => {
                return None;
            },
        };
        match check_status(status.as_ref(), &self.membership, now_ms) {
            Ok(EnrollmentStep::Granted(offer, grant)) => {
                let result = self.asking.unwrap(offer, grant, &self.owner);
                let held = match result {
                    Ok(key) => Some(key),
                    Err(_) => None,
                };
                assert(key_held(self@.secret, offer@, grant@, self@.owner, opt_view(held)));
                held
            },
            _ => None,
        }
    }

    /// Takes note of what has happened, and tells what is to be done next. The key is taken out of
    /// the grant where one has come that counts.
    pub fn advance(&mut self, event: EnrollmentEvent, clock_ms: u64, now_ms: u64) -> (action:
        EnrollmentAction)
        ensures
            exists|held: Option<Seq<u8>>|
                grant_holds(old(self)@, event@, now_ms, held) && (final(self)@, action@)
                    == #[trigger] enrollment_advanced(
                    old(self)@,
                    event@,
                    clock_ms,
                    now_ms,
                    held,
                ),
    {
        let held = self.take_key(&event, now_ms);
        let ghost before = self@;
        let ghost told = event@;
        let ghost opened = opt_view(held);
        let action = self.advance_with(event, clock_ms, now_ms, held);
        assert((self@, action@) == enrollment_advanced(before, told, clock_ms, now_ms, opened));
        action
    }
}

/// One step of a device on its way in: what has happened, when, and the key that a grant held.
pub struct EnrollmentMoment {
    pub event: EnrollmentEventView,
    pub clock_ms: u64,
    pub now_ms: u64,
    pub held: Option<Seq<u8>>,
}

/// How far a device has come after a number of steps.
pub open spec fn enrollment_after(start: EnrollmentView, steps: Seq<EnrollmentMoment>) -> EnrollmentView
    decreases steps.len(),
{
    if steps.len() == 0 {
        start
    } else {
        enrollment_advanced(
            enrollment_after(start, steps.drop_last()),
            steps.last().event,
            steps.last().clock_ms,
            steps.last().now_ms,
            steps.last().held,
        ).0
    }
}

/// The step brings a grant that counts, and the grant holds the key.
pub open spec fn brings_key(
    step: EnrollmentMoment,
    membership: MembershipView,
    key: Seq<u8>,
) -> bool {
    &&& step.held == Some(key)
    &&& step.event matches EnrollmentEventView::Status(status)
    &&& status_outcome(status, membership, step.now_ms) matches Ok(Some(_))
}

/// The step is the answer that the request is for the workspace of the account.
pub open spec fn admits_request(step: EnrollmentMoment, membership: MembershipView) -> bool {
    step.event matches EnrollmentEventView::Requested { state, workspace } && state
        != "noWorkspace"@ && workspace == Some(membership.workspace)
}

/// A key comes out only of the step in which the store has let the device into the workspace of its
/// account, and only after the request was taken for that workspace and a grant has come, made for
/// this account and still standing, that held just this key.
pub proof fn lemma_key_after_consent(
    start: EnrollmentView,
    steps: Seq<EnrollmentMoment>,
    last: EnrollmentMoment,
    key: Seq<u8>,
)
    requires
        start.stage is Requesting,
        enrollment_advanced(
            enrollment_after(start, steps),
            last.event,
            last.clock_ms,
            last.now_ms,
            last.held,
        ).1 == EnrollmentActionView::Finish(key),
    ensures
        last.event == EnrollmentEventView::Accepted(start.membership.workspace),
        steps.len() > 0 && admits_request(steps[0], start.membership),
        exists|i: int|
            0 < i < steps.len() && #[trigger] brings_key(steps[i], start.membership, key),
{
    lemma_stages(start, steps);
}

proof fn lemma_stages(start: EnrollmentView, steps: Seq<EnrollmentMoment>)
    requires
        start.stage is Requesting,
    ensures
        ({
            let state = enrollment_after(start, steps);
            &&& state.membership == start.membership
            &&& state.stage is Requesting <==> steps.len() == 0
            &&& state.stage is Reading || state.stage is Waiting || state.stage is Accepting
                ==> admits_request(steps[0], start.membership)
            &&& state.stage matches EnrollmentStage::Accepting(key) ==> exists|i: int|
                0 < i < steps.len() && #[trigger] brings_key(steps[i], start.membership, key)
        }),
    decreases steps.len(),
{
    if steps.len() > 0 {
        let before = steps.drop_last();
        lemma_stages(start, before);
        let state = enrollment_after(start, steps);
        if state.stage is Accepting {
            let key = state.stage->Accepting_0;
            assert(brings_key(steps[steps.len() - 1], start.membership, key));
        }
        if before.len() > 0 {
            assert(before[0] == steps[0]);
        }
    }
}

/// A device that has been turned away, or has the key, does nothing more.
pub proof fn lemma_enrollment_stays_over(
    state: EnrollmentView,
    event: EnrollmentEventView,
    clock_ms: u64,
    now_ms: u64,
    held: Option<Seq<u8>>,
)
    requires
        state.stage is Over,
    ensures
        enrollment_advanced(state, event, clock_ms, now_ms, held) == enrollment_failed(
            state,
            EnrollmentFault::Unexpected,
        ),
{
}

} // verus!
