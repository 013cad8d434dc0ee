//! Where the ways through a pass, into a workspace and onto a device lead.

use vstd::prelude::*;
use vstd::string::*;

use crate::activation::{
    activation_advanced, ActivationActionView, ActivationEventView, ActivationStage, ActivationView,
};
use crate::admission::{
    enrollment_advanced, EnrollmentActionView, EnrollmentEventView, EnrollmentStage, EnrollmentView,
    StatusView,
};
use crate::cloud::{CounterView, UploadView};
use crate::engine::{
    accepted_through, advanced, uploads_go_on, ActionView, EventView, PassView, StageView,
    MAX_CHUNKS_PER_PASS,
};
use crate::enrollment::{EnrollmentFault, EnrollmentPoll};
use crate::ids::uuid_text;
use crate::model::counter_of;
use crate::status::{badge_painted, state_words, SyncState};

verus! {

/// How far the store is with a device is what it says first of the device, and the beginning where it
/// says nothing of it.
pub proof fn lemma_accepted_through(changes: Seq<CounterView>, actor: Seq<char>)
    ensures
        (forall|i: int| 0 <= i < changes.len() ==> (#[trigger] changes[i]).actor != actor)
            ==> accepted_through(changes, actor) == 0,
        forall|i: int|
            0 <= i < changes.len() && (#[trigger] changes[i]).actor == actor && (forall|j: int|
                0 <= j < i ==> (#[trigger] changes[j]).actor != actor) ==> accepted_through(
                changes,
                actor,
            ) == changes[i].latest,
    decreases changes.len(),
{
    if changes.len() > 0 {
        let rest = changes.drop_first();
        lemma_accepted_through(rest, actor);
        assert(changes[0] == changes.first());
        if forall|i: int| 0 <= i < changes.len() ==> (#[trigger] changes[i]).actor != actor {
            assert(changes[0].actor != actor);
            assert forall|i: int| 0 <= i < rest.len() implies (#[trigger] rest[i]).actor
                != actor by {
                assert(rest[i] == changes[i + 1]);
            }
        }
        assert forall|i: int|
            0 <= i < changes.len() && (#[trigger] changes[i]).actor == actor && (forall|j: int|
                0 <= j < i ==> (
                #[trigger] changes[j]).actor != actor) implies accepted_through(changes, actor)
            == changes[i].latest by {
            if i > 0 {
                assert(changes[0].actor != actor);
                assert(rest[i - 1] == changes[i]);
                assert forall|j: int| 0 <= j < i - 1 implies (#[trigger] rest[j]).actor
                    != actor by {
                    assert(rest[j] == changes[j + 1]);
                }
            }
        }
    }
}

/// Of the chunks that local operations tell of, those that the store is known to have are not sent
/// again. The others are, all of them where a pass takes so many; and operations are sent only where
/// none is left.
pub proof fn lemma_chunks_before_operations(state: PassView, hashes: Seq<Seq<char>>)
    requires
        state.stage is ListingUploads,
    ensures
        ({
            let action = advanced(state, EventView::Candidates(hashes)).1;
            &&& action matches ActionView::PrepareUploads { hashes: sent } ==> {
                &&& forall|i: int|
                    0 <= i < sent.len() ==> hashes.contains(#[trigger] sent[i])
                        && !state.confirmed.contains(sent[i])
                &&& sent.len() < MAX_CHUNKS_PER_PASS ==> forall|hash: Seq<char>| #[trigger]
                    hashes.contains(hash) && !state.confirmed.contains(hash) ==> sent.contains(hash)
            }
            &&& action is PrepareUploads || action is BuildBatch
            &&& action is BuildBatch <==> forall|hash: Seq<char>| #[trigger]
                hashes.contains(hash) ==> state.confirmed.contains(hash)
        }),
{
    let keep = |hash: Seq<char>| !state.confirmed.contains(hash);
    let open = hashes.filter(keep);
    crate::scan::lemma_filter_members(hashes, keep);
    let action = advanced(state, EventView::Candidates(hashes)).1;
    if let ActionView::PrepareUploads { hashes: sent } = action {
        assert forall|i: int| 0 <= i < sent.len() implies hashes.contains(#[trigger] sent[i])
            && !state.confirmed.contains(sent[i]) by {
            assert(sent[i] == open[i]);
            assert(open.contains(open[i]));
        }
        assert(open.contains(open[0]));
        assert(hashes.contains(open[0]));
    }
    if open.len() == 0 {
        assert forall|hash: Seq<char>| #[trigger]
            hashes.contains(hash) implies state.confirmed.contains(hash) by {
            if !state.confirmed.contains(hash) {
                assert(open.contains(hash));
            }
        }
    }
}

/// Chunks that the store has are passed over; the first that it lacks is sealed, with all behind it
/// still to come. Operations are sent once no chunk is left, and a pass that has left chunks over ends
/// so that another follows.
pub proof fn lemma_uploads_in_turn(state: PassView, queue: Seq<UploadView>, more: bool)
    ensures
        ({
            let (next, action) = uploads_go_on(state, queue, more);
            &&& (exists|i: int| 0 <= i < queue.len() && !(#[trigger] queue[i]).exists)
                <==> action is SealChunk
            &&& action matches ActionView::SealChunk { hash } ==> exists|i: int|
                0 <= i < queue.len() && !(#[trigger] queue[i]).exists && queue[i].hash == hash && (
                forall|j: int| 0 <= j < i ==> (#[trigger] queue[j]).exists) && next.stage == (
                StageView::Sealing { queue: queue.skip(i), more })
            &&& !(action is SealChunk) && !more ==> action is BuildBatch
            &&& !(action is SealChunk) && more ==> action == (ActionView::Finish {
                has_more: true,
                refresh: false,
            })
        }),
    decreases queue.len(),
{
    if queue.len() > 0 {
        let rest = queue.drop_first();
        assert(queue[0] == queue.first());
        if queue.first().exists {
            let passed = PassView {
                confirmed: state.confirmed.insert(queue.first().hash),
                ..state
            };
            lemma_uploads_in_turn(passed, rest, more);
            let (next, action) = uploads_go_on(state, queue, more);
            if exists|i: int| 0 <= i < queue.len() && !(#[trigger] queue[i]).exists {
                let i = choose|i: int| 0 <= i < queue.len() && !(#[trigger] queue[i]).exists;
                assert(!rest[i - 1].exists);
            }
            if let ActionView::SealChunk { hash } = action {
                let i = choose|i: int|
                    0 <= i < rest.len() && !(#[trigger] rest[i]).exists && rest[i].hash == hash && (
                    forall|j: int| 0 <= j < i ==> (#[trigger] rest[j]).exists) && next.stage == (
                    StageView::Sealing { queue: rest.skip(i), more });
                assert(queue[i + 1] == rest[i]);
                assert forall|j: int| 0 <= j < i + 1 implies (#[trigger] queue[j]).exists by {
                    if j > 0 {
                        assert(queue[j] == rest[j - 1]);
                    }
                }
                assert(queue.skip(i + 1) =~= rest.skip(i));
            }
        } else {
            assert(queue.skip(0) =~= queue);
        }
    }
}

/// A chunk that was sealed is sent to where the store wants it, and once it is there the store is
/// known to have it.
pub proof fn lemma_chunk_sent(state: PassView, queue: Seq<UploadView>, more: bool, url: Seq<char>)
    requires
        queue.len() > 0,
        queue[0].url == Some(url),
        state.stage == (StageView::Sealing { queue, more }),
    ensures
        ({
            let (sent, action) = advanced(state, EventView::ChunkSealed);
            let (next, _) = advanced(sent, EventView::Uploaded);
            &&& action == (ActionView::Upload { hash: queue[0].hash, url })
            &&& next.confirmed.contains(queue[0].hash)
        }),
{
    let (sent, action) = advanced(state, EventView::ChunkSealed);
    crate::engine::lemma_confirmed_grows(sent, EventView::Uploaded);
    let passed = PassView { confirmed: sent.confirmed.insert(queue[0].hash), ..sent };
    lemma_confirmed_kept(passed, queue.drop_first(), more);
}

proof fn lemma_confirmed_kept(state: PassView, queue: Seq<UploadView>, more: bool)
    ensures
        state.confirmed.subset_of(uploads_go_on(state, queue, more).0.confirmed),
    decreases queue.len(),
{
    if queue.len() > 0 && queue.first().exists {
        let passed = PassView { confirmed: state.confirmed.insert(queue.first().hash), ..state };
        lemma_confirmed_kept(passed, queue.drop_first(), more);
    }
}

/// Batches of others are fetched exactly where the store is further with some device than the log
/// here; a batch that the store has not taken whole ends the pass; and what is shown is read again
/// exactly where a pass has told or taken in something.
pub proof fn lemma_pass_decides(
    state: PassView,
    frontier: Map<Seq<char>, u64>,
    counter: u64,
)
    ensures
        state.stage is ReadingFrontier ==> (advanced(state, EventView::Frontier(frontier)).1 is Pull
            <==> exists|i: int|
            0 <= i < state.changes.len() && (#[trigger] state.changes[i]).latest > counter_of(
                frontier,
                state.changes[i].actor,
            )),
        state.stage matches StageView::Pushing { last } ==> (advanced(
            state,
            EventView::Pushed(counter),
        ).1 is Fail <==> counter < last),
        state.stage is Projecting ==> (advanced(state, EventView::Projected).1
            matches ActionView::Finish { has_more, refresh } && (refresh <==> state.emitted != 0
            || state.applied != 0) && (has_more <==> state.full_page || state.may_have_more)),
        state.stage is Scanning ==> advanced(state, EventView::Scanned(counter)).0.emitted
            == counter,
        state.stage is Applying && state.applied == 0 ==> advanced(
            state,
            EventView::Applied(counter),
        ).0.applied == counter,
{
}

/// A device whose account has a workspace, and which has the key and is known there, takes part in
/// that workspace with that key.
pub proof fn lemma_known_device_takes_part(
    state: ActivationView,
    workspace: Seq<char>,
    key: Seq<u8>,
    fresh_workspace: Seq<char>,
    fresh_key: Seq<u8>,
)
    requires
        state.stage is Asking,
        uuid_text(workspace),
        state.configured is None || state.configured == Some(workspace),
    ensures
        ({
            let (a, first) = activation_advanced(
                state,
                ActivationEventView::Account(Some(workspace)),
                fresh_workspace,
                fresh_key,
            );
            let (b, second) = activation_advanced(
                a,
                ActivationEventView::WorkspaceSaved,
                fresh_workspace,
                fresh_key,
            );
            let (c, third) = activation_advanced(
                b,
                ActivationEventView::KeyLoaded(Some(key)),
                fresh_workspace,
                fresh_key,
            );
            let (d, fourth) = activation_advanced(
                c,
                ActivationEventView::Enrolled(true),
                fresh_workspace,
                fresh_key,
            );
            &&& first == ActivationActionView::SaveWorkspace(workspace)
            &&& second == ActivationActionView::LoadKey(workspace)
            &&& third == ActivationActionView::CheckEnrolled(workspace)
            &&& fourth == ActivationActionView::Activate(workspace, key)
        }),
{
}

/// A device whose account has a workspace and which has no key asks for one, keeps the one that comes
/// and takes part with it.
pub proof fn lemma_new_device_takes_part(
    state: ActivationView,
    workspace: Seq<char>,
    key: Seq<u8>,
    fresh_workspace: Seq<char>,
    fresh_key: Seq<u8>,
)
    requires
        state.stage == ActivationStage::LoadingShared(workspace),
    ensures
        ({
            let (a, first) = activation_advanced(
                state,
                ActivationEventView::KeyLoaded(None),
                fresh_workspace,
                fresh_key,
            );
            let (b, second) = activation_advanced(
                a,
                ActivationEventView::KeyReceived(key),
                fresh_workspace,
                fresh_key,
            );
            let (c, third) = activation_advanced(
                b,
                ActivationEventView::KeyStored,
                fresh_workspace,
                fresh_key,
            );
            &&& first == ActivationActionView::Enroll(workspace)
            &&& second == ActivationActionView::StoreKey(workspace, key)
            &&& third == ActivationActionView::Activate(workspace, key)
        }),
{
}

/// A device whose account has no workspace makes one, where it may, with a key of its own, which it
/// keeps before it tells the store; it then takes part in that workspace with that key.
pub proof fn lemma_first_device_takes_part(
    state: ActivationView,
    fresh_workspace: Seq<char>,
    fresh_key: Seq<u8>,
    later_workspace: Seq<char>,
    later_key: Seq<u8>,
)
    requires
        state.stage is Asking,
        state.create,
        state.local is None,
    ensures
        ({
            let (a, first) = activation_advanced(
                state,
                ActivationEventView::Account(None),
                fresh_workspace,
                later_key,
            );
            let (b, second) = activation_advanced(
                a,
                ActivationEventView::WorkspaceSaved,
                later_workspace,
                later_key,
            );
            let (c, third) = activation_advanced(
                b,
                ActivationEventView::KeyLoaded(None),
                later_workspace,
                fresh_key,
            );
            let (d, fourth) = activation_advanced(
                c,
                ActivationEventView::KeyStored,
                later_workspace,
                later_key,
            );
            let (e, fifth) = activation_advanced(
                d,
                ActivationEventView::Bootstrapped(true),
                later_workspace,
                later_key,
            );
            &&& first == ActivationActionView::SaveWorkspace(fresh_workspace)
            &&& second == ActivationActionView::LoadKey(fresh_workspace)
            &&& third == ActivationActionView::StoreKey(fresh_workspace, fresh_key)
            &&& fourth == ActivationActionView::Bootstrap(fresh_workspace)
            &&& fifth == ActivationActionView::Activate(fresh_workspace, fresh_key)
        }),
{
}

/// A device whose request was granted, by an offer that is for its workspace and account and still
/// stands, has the key that the grant holds for it once the store has let it in; an address may end
/// in a slash or not. A grant for another workspace or account, or one that has expired, gives no key.
pub proof fn lemma_granted_device_gets_key(
    state: EnrollmentView,
    poll: EnrollmentPoll,
    status: StatusView,
    clock_ms: u64,
    now_ms: u64,
    key: Seq<u8>,
)
    requires
        state.stage == EnrollmentStage::Reading(poll),
        status.state == "granted"@,
        status.offer is Some,
        status.grant is Some,
    ensures
        ({
            let (a, first) = enrollment_advanced(
                state,
                EnrollmentEventView::Status(Some(status)),
                clock_ms,
                now_ms,
                Some(key),
            );
            let (b, second) = enrollment_advanced(
                a,
                EnrollmentEventView::Accepted(state.membership.workspace),
                clock_ms,
                now_ms,
                None,
            );
            let offer = status.offer->0;
            &&& status.workspace == Some(state.membership.workspace) && offer.workspace
                == state.membership.workspace && offer.tunnel_url == state.membership.sync_url
                && offer.workos_issuer == state.membership.issuer && offer.workos_audience
                == state.membership.audience && offer.expires_at_ms >= now_ms ==> first
                == EnrollmentActionView::Accept && second == EnrollmentActionView::Finish(key)
            &&& status.workspace != Some(state.membership.workspace) || offer.workspace
                != state.membership.workspace || offer.workos_audience != state.membership.audience
                || offer.expires_at_ms < now_ms ==> first == EnrollmentActionView::Fail(
                EnrollmentFault::Mismatch,
            )
        }),
{
    reveal_strlit("granted");
    reveal_strlit("expired");
    assert("granted"@[0] != "expired"@[0]);
}

/// Nobody waits for longer than ten minutes and a quarter: a request that was answered by nobody
/// until then has failed. The waits in between double, from one second to fifteen.
pub proof fn lemma_enrollment_waits(
    state: EnrollmentView,
    begun_ms: u64,
    clock_ms: u64,
    now_ms: u64,
    poll: EnrollmentPoll,
)
    requires
        begun_ms <= u64::MAX - 1_000_000,
    ensures
        EnrollmentPoll::begun(begun_ms).deadline_ms == begun_ms + 615_000,
        EnrollmentPoll::begun(begun_ms).delay_seconds == 1,
        poll.slowed().deadline_ms == poll.deadline_ms,
        poll.delay_seconds <= 7 ==> poll.slowed().delay_seconds == 2 * poll.delay_seconds,
        poll.delay_seconds > 7 ==> poll.slowed().delay_seconds == 15,
        state.stage == EnrollmentStage::Waiting(poll) && clock_ms >= poll.deadline_ms
            ==> enrollment_advanced(
            state,
            EnrollmentEventView::Waited,
            clock_ms,
            now_ms,
            None,
        ).1 == EnrollmentActionView::Fail(EnrollmentFault::TimedOut),
        state.stage == EnrollmentStage::Waiting(poll) && clock_ms < poll.deadline_ms
            ==> enrollment_advanced(
            state,
            EnrollmentEventView::Waited,
            clock_ms,
            now_ms,
            None,
        ).1 == EnrollmentActionView::ReadStatus,
        state.stage == EnrollmentStage::Reading(poll) ==> enrollment_advanced(
            state,
            EnrollmentEventView::Status(None),
            clock_ms,
            now_ms,
            None,
        ).1 == EnrollmentActionView::Wait(poll.delay_seconds),
{
}

/// Each state of the synchronisation is told in words of its own.
pub proof fn lemma_states_told_apart(a: SyncState, b: SyncState)
    ensures
        state_words(a) == state_words(b) ==> a == b,
{
    reveal_strlit("Clippy — sync is not configured");
    reveal_strlit("Clippy — syncing");
    reveal_strlit("Clippy — synced");
    reveal_strlit("Clippy — waiting for a device");
    assert("Clippy — syncing"@.len() == 16);
    assert("Clippy — synced"@.len() == 15);
    assert("Clippy — waiting for a device"@.len() == 29);
    assert("Clippy — sync is not configured"@.len() == 31);
}

/// The icon has no mark while nothing is set up. The mark of a device that waits is a ring: it lies
/// within the dot of one that is in step, and leaves the middle of it free, which the dot fills. A
/// device that is about to be in step has two dots, to the left and to the right of that middle.
pub proof fn lemma_badges(width: int, height: int, x: int, y: int)
    requires
        width >= 18,
        height >= 18,
    ensures
        !badge_painted(SyncState::Idle, width, height, x, y),
        badge_painted(SyncState::WaitingForDevice, width, height, x, y) ==> badge_painted(
            SyncState::Synced,
            width,
            height,
            x,
            y,
        ),
        ({
            let radius = crate::status::radius_of(width, height);
            let middle_x = width - radius - 1;
            let middle_y = height - radius - 1;
            &&& badge_painted(SyncState::Synced, width, height, middle_x, middle_y)
            &&& !badge_painted(SyncState::WaitingForDevice, width, height, middle_x, middle_y)
            &&& !badge_painted(SyncState::Syncing, width, height, middle_x, middle_y)
            &&& badge_painted(
                SyncState::Syncing,
                width,
                height,
                middle_x + 2 * (radius / 2),
                middle_y,
            )
            &&& badge_painted(
                SyncState::Syncing,
                width,
                height,
                middle_x - 2 * (radius / 2),
                middle_y,
            )
        }),
{
    let radius = crate::status::radius_of(width, height);
    assert(radius >= 2);
    let inner = crate::status::inner_radius(radius);
    assert(inner >= 1);
    assert(radius * radius >= 0) by (nonlinear_arith)
        requires
            radius >= 2,
    ;
    assert(inner * inner >= 1) by (nonlinear_arith)
        requires
            inner >= 1,
    ;
    let middle_x = width - radius - 1;
    let middle_y = height - radius - 1;
    assert(middle_x >= 0 && middle_y >= 0);
    assert(crate::status::distance(middle_x, middle_y, middle_x, middle_y) == 0) by (
        nonlinear_arith);
    let small = radius / 2;
    assert(small >= 1 && middle_x - 2 * small >= 0);
    let right = middle_x + 2 * small;
    let left = middle_x - 2 * small;
    assert(crate::status::distance(right, middle_y, right, middle_y) == 0) by (nonlinear_arith);
    assert(crate::status::distance(left, middle_y, left, middle_y) == 0) by (nonlinear_arith);
    assert(small * small >= 0) by (nonlinear_arith);
    assert((middle_x - right) * (middle_x - right) > small * small) by (nonlinear_arith)
        requires
            right == middle_x + 2 * small,
            small >= 1,
    ;
    assert((middle_x - left) * (middle_x - left) > small * small) by (nonlinear_arith)
        requires
            left == middle_x - 2 * small,
            small >= 1,
    ;
    assert((middle_y - middle_y) * (middle_y - middle_y) == 0) by (nonlinear_arith);
}

} // verus!
