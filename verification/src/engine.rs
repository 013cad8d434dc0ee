//! One pass of synchronisation with the cloud store, as a machine: it is told what has happened,
//! and tells what is to be done next.

use vstd::prelude::*;
use vstd::string::*;

use crate::cloud::{
    ActorCounter, CounterView, DownloadView, StorageDownload, StorageUpload, UploadView,
};
use crate::model::{counter_of, VersionVector};
use crate::plain::{views, Plain};
use crate::text::text_eq;
use crate::textmap::TextMap;

verus! {

/// The largest batch of operations, in bytes before it is sealed.
pub const MAX_BATCH_PLAINTEXT_BYTES: usize = 550_000;

/// How many chunks are sent or fetched in one pass.
pub const MAX_CHUNKS_PER_PASS: usize = 64;

/// How many operations are put into a batch at first.
pub const FIRST_BATCH_LIMIT: usize = 256;

/// This many batches are a full page, behind which there may be more.
pub const FULL_PAGE: usize = 12;

/// Why a pass cannot go on.
#[derive(Debug, Clone, Copy, PartialEq, Eq, Structural)]
pub enum PassFault {
    /// The store says that a chunk is not there, but not where it is to be put.
    MissingUploadUrl,
    /// One operation alone is larger than a batch can be.
    OperationTooLarge,
    /// The store has not taken the whole batch.
    NotAcknowledged,
    /// A batch that was fetched is larger than a batch can be.
    BatchTooLarge,
    /// What has happened is not what was to be done.
    Unexpected,
}

/// What has happened.
#[derive(Debug, Clone, PartialEq)]
pub enum PassEvent {
    /// The notebook was scanned, and so many operations came of it.
    Scanned(u64),
    /// The devices that asked to join were answered.
    Granted,
    /// How far the store is for each device.
    Changes(Vec<ActorCounter>),
    /// The chunks of local operations that the store has yet to take.
    Candidates(Vec<String>),
    UploadsPrepared(Vec<StorageUpload>),
    /// The chunk was found, read and sealed.
    ChunkSealed,
    Uploaded,
    /// A batch was put together and encoded.
    BatchBuilt { operations: usize, bytes: usize, last: u64 },
    /// The store has taken the operations of this device so far.
    Pushed(u64),
    /// How far the log reaches for each device.
    Frontier(VersionVector),
    /// So many batches were fetched.
    Pulled(usize),
    /// The next batch was opened, and is so many bytes long.
    Opened(usize),
    /// The batch was taken in, and so many of its operations were new.
    Applied(u64),
    /// The chunks that attachments need and that are not there.
    Missing(Vec<String>),
    DownloadsPrepared(Vec<StorageDownload>),
    Stored,
    Projected,
}

/// What has happened.
pub enum EventView {
    Scanned(u64),
    Granted,
    Changes(Seq<CounterView>),
    Candidates(Seq<Seq<char>>),
    UploadsPrepared(Seq<UploadView>),
    ChunkSealed,
    Uploaded,
    BatchBuilt { operations: usize, bytes: usize, last: u64 },
    Pushed(u64),
    Frontier(Map<Seq<char>, u64>),
    Pulled(usize),
    Opened(usize),
    Applied(u64),
    Missing(Seq<Seq<char>>),
    DownloadsPrepared(Seq<DownloadView>),
    Stored,
    Projected,
}

impl View for PassEvent {
    type V = EventView;

    open spec fn view(&self) -> EventView {
        match self {
            PassEvent::Scanned(count) => EventView::Scanned(*count),
            PassEvent::Granted => EventView::Granted,
            PassEvent::Changes(changes) => EventView::Changes(views(changes@)),
            PassEvent::Candidates(hashes) => EventView::Candidates(views(hashes@)),
            PassEvent::UploadsPrepared(uploads) => EventView::UploadsPrepared(views(uploads@)),
            PassEvent::ChunkSealed => EventView::ChunkSealed,
            PassEvent::Uploaded => EventView::Uploaded,
            PassEvent::BatchBuilt { operations, bytes, last } => EventView::BatchBuilt {
                operations: *operations,
                bytes: *bytes,
                last: *last,
            },
            PassEvent::Pushed(counter) => EventView::Pushed(*counter),
            PassEvent::Frontier(frontier) => EventView::Frontier(frontier@),
            PassEvent::Pulled(count) => EventView::Pulled(*count),
            PassEvent::Opened(bytes) => EventView::Opened(*bytes),
            PassEvent::Applied(count) => EventView::Applied(*count),
            PassEvent::Missing(hashes) => EventView::Missing(views(hashes@)),
            PassEvent::DownloadsPrepared(downloads) => EventView::DownloadsPrepared(
                views(downloads@),
            ),
            PassEvent::Stored => EventView::Stored,
            PassEvent::Projected => EventView::Projected,
        }
    }
}

/// What is to be done.
#[derive(Debug, Clone, PartialEq, Eq)]
pub enum PassAction {
    ScanLocal,
    GrantEnrollments,
    ReadChanges,
    /// List the chunks of local operations behind this counter.
    ListUploads { accepted_through: u64 },
    PrepareUploads { hashes: Vec<String> },
    /// Find, read and seal a chunk.
    SealChunk { hash: String },
    Upload { hash: String, url: String },
    /// Put the next operations together, at most so many.
    BuildBatch { limit: usize },
    PushBatch,
    ReadFrontier,
    Pull,
    OpenBatch,
    ApplyBatch,
    FindMissing,
    PrepareDownloads { hashes: Vec<String> },
    Download { hash: String, url: String },
    Project,
    /// The pass is over. There may be more to be done, and what is shown may have changed.
    Finish { has_more: bool, refresh: bool },
    Fail(PassFault),
}

/// What is to be done.
pub enum ActionView {
    ScanLocal,
    GrantEnrollments,
    ReadChanges,
    ListUploads { accepted_through: u64 },
    PrepareUploads { hashes: Seq<Seq<char>> },
    SealChunk { hash: Seq<char> },
    Upload { hash: Seq<char>, url: Seq<char> },
    BuildBatch { limit: usize },
    PushBatch,
    ReadFrontier,
    Pull,
    OpenBatch,
    ApplyBatch,
    FindMissing,
    PrepareDownloads { hashes: Seq<Seq<char>> },
    Download { hash: Seq<char>, url: Seq<char> },
    Project,
    Finish { has_more: bool, refresh: bool },
    Fail(PassFault),
}

impl View for PassAction {
    type V = ActionView;

    open spec fn view(&self) -> ActionView {
        match self {
            PassAction::ScanLocal => ActionView::ScanLocal,
            PassAction::GrantEnrollments => ActionView::GrantEnrollments,
            PassAction::ReadChanges => ActionView::ReadChanges,
            PassAction::ListUploads { accepted_through } => ActionView::ListUploads {
                accepted_through: *accepted_through,
            },
            PassAction::PrepareUploads { hashes } => ActionView::PrepareUploads {
                hashes: views(hashes@),
            },
            PassAction::SealChunk { hash } => ActionView::SealChunk { hash: hash@ },
            PassAction::Upload { hash, url } => ActionView::Upload { hash: hash@, url: url@ },
            PassAction::BuildBatch { limit } => ActionView::BuildBatch { limit: *limit },
            PassAction::PushBatch => ActionView::PushBatch,
            PassAction::ReadFrontier => ActionView::ReadFrontier,
            PassAction::Pull => ActionView::Pull,
            PassAction::OpenBatch => ActionView::OpenBatch,
            PassAction::ApplyBatch => ActionView::ApplyBatch,
            PassAction::FindMissing => ActionView::FindMissing,
            PassAction::PrepareDownloads { hashes } => ActionView::PrepareDownloads {
                hashes: views(hashes@),
            },
            PassAction::Download { hash, url } => ActionView::Download { hash: hash@, url: url@ },
            PassAction::Project => ActionView::Project,
            PassAction::Finish { has_more, refresh } => ActionView::Finish {
                has_more: *has_more,
                refresh: *refresh,
            },
            PassAction::Fail(fault) => ActionView::Fail(*fault),
        }
    }
}

/// How far a pass has come.
enum Stage {
    Scanning,
    Granting,
    ReadingChanges,
    ListingUploads,
    PreparingUploads { more: bool },
    Sealing { queue: Vec<StorageUpload>, at: usize, more: bool },
    Uploading { queue: Vec<StorageUpload>, at: usize, more: bool },
    Building { limit: usize },
    Pushing { last: u64 },
    ReadingFrontier,
    Pulling,
    Opening { left: usize },
    Applying { left: usize },
    FindingMissing,
    PreparingDownloads { more: bool },
    Downloading { queue: Vec<StorageDownload>, at: usize, more: bool },
    Projecting,
    Over,
}

/// How far a pass has come. The queues begin with the chunk that is on its way.
pub enum StageView {
    Scanning,
    Granting,
    ReadingChanges,
    ListingUploads,
    PreparingUploads { more: bool },
    Sealing { queue: Seq<UploadView>, more: bool },
    Uploading { queue: Seq<UploadView>, more: bool },
    Building { limit: usize },
    Pushing { last: u64 },
    ReadingFrontier,
    Pulling,
    Opening { left: usize },
    Applying { left: usize },
    FindingMissing,
    PreparingDownloads { more: bool },
    Downloading { queue: Seq<DownloadView>, more: bool },
    Projecting,
    Over,
}

impl Stage {
    spec fn told(self) -> StageView {
        match self {
            Stage::Scanning => StageView::Scanning,
            Stage::Granting => StageView::Granting,
            Stage::ReadingChanges => StageView::ReadingChanges,
            Stage::ListingUploads => StageView::ListingUploads,
            Stage::PreparingUploads { more } => StageView::PreparingUploads { more },
            Stage::Sealing { queue, at, more } => StageView::Sealing {
                queue: views(queue@).skip(at as int),
                more,
            },
            Stage::Uploading { queue, at, more } => StageView::Uploading {
                queue: views(queue@).skip(at as int),
                more,
            },
            Stage::Building { limit } => StageView::Building { limit },
            Stage::Pushing { last } => StageView::Pushing { last },
            Stage::ReadingFrontier => StageView::ReadingFrontier,
            Stage::Pulling => StageView::Pulling,
            Stage::Opening { left } => StageView::Opening { left },
            Stage::Applying { left } => StageView::Applying { left },
            Stage::FindingMissing => StageView::FindingMissing,
            Stage::PreparingDownloads { more } => StageView::PreparingDownloads { more },
            Stage::Downloading { queue, at, more } => StageView::Downloading {
                queue: views(queue@).skip(at as int),
                more,
            },
            Stage::Projecting => StageView::Projecting,
            Stage::Over => StageView::Over,
        }
    }

    spec fn sound(self) -> bool {
        match self {
            Stage::Sealing { queue, at, more } => at < queue@.len(),
            Stage::Uploading { queue, at, more } => at < queue@.len(),
            Stage::Downloading { queue, at, more } => at < queue@.len(),
            _ => true,
        }
    }
}

/// One pass of synchronisation.
pub struct SyncPass {
    actor: String,
    confirmed: TextMap<u64>,
    changes: Vec<ActorCounter>,
    emitted: u64,
    applied: u64,
    full_page: bool,
    may_have_more: bool,
    stage: Stage,
}

/// What is known in a pass.
pub struct PassView {
    pub actor: Seq<char>,
    /// The chunks that the store is known to have.
    pub confirmed: Set<Seq<char>>,
    pub changes: Seq<CounterView>,
    pub emitted: u64,
    pub applied: u64,
    pub full_page: bool,
    pub may_have_more: bool,
    pub stage: StageView,
}

impl View for SyncPass {
    type V = PassView;

    closed spec fn view(&self) -> PassView {
        PassView {
            actor: self.actor@,
            confirmed: self.confirmed@.dom(),
            changes: views(self.changes@),
            emitted: self.emitted,
            applied: self.applied,
            full_page: self.full_page,
            may_have_more: self.may_have_more,
            stage: self.stage.told(),
        }
    }
}

/// How far the store has taken the operations of a device: the first entry of the device counts.
pub open spec fn accepted_through(changes: Seq<CounterView>, actor: Seq<char>) -> u64
    decreases changes.len(),
{
    if changes.len() == 0 {
        0
    } else if changes.first().actor == actor {
        changes.first().latest
    } else {
        accepted_through(changes.drop_first(), actor)
    }
}

/// The store has operations that are not known here.
pub open spec fn remote_is_ahead(
    changes: Seq<CounterView>,
    frontier: Map<Seq<char>, u64>,
) -> bool {
    exists|i: int|
        0 <= i < changes.len() && (#[trigger] changes[i]).latest > counter_of(
            frontier,
            changes[i].actor,
        )
}

/// The first of several, as many as a pass takes.
pub open spec fn first_chunks(hashes: Seq<Seq<char>>) -> Seq<Seq<char>> {
    if hashes.len() > MAX_CHUNKS_PER_PASS {
        hashes.take(MAX_CHUNKS_PER_PASS as int)
    } else {
        hashes
    }
}

/// The pass goes on to send operations.
pub open spec fn to_building(state: PassView) -> (PassView, ActionView) {
    (
        PassView { stage: StageView::Building { limit: FIRST_BATCH_LIMIT }, ..state },
        ActionView::BuildBatch { limit: FIRST_BATCH_LIMIT },
    )
}

/// The pass is over.
pub open spec fn to_end(state: PassView, has_more: bool, refresh: bool) -> (PassView, ActionView) {
    (
        PassView { stage: StageView::Over, ..state },
        ActionView::Finish { has_more, refresh },
    )
}

/// The pass cannot go on.
pub open spec fn to_fault(state: PassView, fault: PassFault) -> (PassView, ActionView) {
    (PassView { stage: StageView::Over, ..state }, ActionView::Fail(fault))
}

/// The pass goes on to look for operations of other devices.
pub open spec fn to_frontier(state: PassView) -> (PassView, ActionView) {
    (PassView { stage: StageView::ReadingFrontier, ..state }, ActionView::ReadFrontier)
}

/// The pass goes on to look for chunks that are missing.
pub open spec fn to_missing(state: PassView) -> (PassView, ActionView) {
    (PassView { stage: StageView::FindingMissing, ..state }, ActionView::FindMissing)
}

/// The pass goes on to show attachments.
pub open spec fn to_projecting(state: PassView) -> (PassView, ActionView) {
    (PassView { stage: StageView::Projecting, ..state }, ActionView::Project)
}

/// The pass goes on with the chunks that are to be sent. Those that the store has already are
/// confirmed at once.
pub open spec fn uploads_go_on(state: PassView, queue: Seq<UploadView>, more: bool) -> (
    PassView,
    ActionView,
)
    decreases queue.len(),
{
    if queue.len() == 0 {
        if more {
            to_end(state, true, false)
        } else {
            to_building(state)
        }
    } else if queue.first().exists {
        uploads_go_on(
            PassView { confirmed: state.confirmed.insert(queue.first().hash), ..state },
            queue.drop_first(),
            more,
        )
    } else {
        (
            PassView { stage: StageView::Sealing { queue, more }, ..state },
            ActionView::SealChunk { hash: queue.first().hash },
        )
    }
}

/// The pass sends the chunk that was sealed, if the store has told where to.
pub open spec fn chunk_sent(state: PassView, queue: Seq<UploadView>, more: bool) -> (
    PassView,
    ActionView,
) {
    match queue.first().url {
        None => to_fault(state, PassFault::MissingUploadUrl),
        Some(url) => (
            PassView { stage: StageView::Uploading { queue, more }, ..state },
            ActionView::Upload { hash: queue.first().hash, url },
        ),
    }
}

/// The pass goes on with the chunks that are to be fetched.
pub open spec fn downloads_go_on(state: PassView, queue: Seq<DownloadView>, more: bool) -> (
    PassView,
    ActionView,
) {
    if queue.len() == 0 {
        if more {
            to_end(state, true, false)
        } else {
            to_projecting(state)
        }
    } else {
        (
            PassView { stage: StageView::Downloading { queue, more }, ..state },
            ActionView::Download { hash: queue.first().hash, url: queue.first().url },
        )
    }
}

/// A batch was put together. One that is too large is put together again with half as many
/// operations.
pub open spec fn batch_built(
    state: PassView,
    limit: usize,
    operations: usize,
    bytes: usize,
    last: u64,
) -> (PassView, ActionView) {
    if operations == 0 {
        to_frontier(state)
    } else if bytes <= MAX_BATCH_PLAINTEXT_BYTES {
        (
            PassView {
                may_have_more: operations == limit,
                stage: StageView::Pushing { last },
                ..state
            },
            ActionView::PushBatch,
        )
    } else if limit <= 1 {
        to_fault(state, PassFault::OperationTooLarge)
    } else {
        (
            PassView { stage: StageView::Building { limit: limit / 2 }, ..state },
            ActionView::BuildBatch { limit: limit / 2 },
        )
    }
}

/// The sum of two counts, as far as it can be told.
pub open spec fn count_sum(a: u64, b: u64) -> u64 {
    if a + b <= u64::MAX {
        (a + b) as u64
    } else {
        u64::MAX
    }
}

/// What comes of what has happened.
pub open spec fn advanced(state: PassView, event: EventView) -> (PassView, ActionView) {
    match (state.stage, event) {
        (StageView::Scanning, EventView::Scanned(count)) => (
            PassView { emitted: count, stage: StageView::Granting, ..state },
            ActionView::GrantEnrollments,
        ),
        (StageView::Granting, EventView::Granted) => (
            PassView { stage: StageView::ReadingChanges, ..state },
            ActionView::ReadChanges,
        ),
        (StageView::ReadingChanges, EventView::Changes(changes)) => (
            PassView { changes, stage: StageView::ListingUploads, ..state },
            ActionView::ListUploads { accepted_through: accepted_through(changes, state.actor) },
        ),
        (StageView::ListingUploads, EventView::Candidates(hashes)) => {
            let open = hashes.filter(|hash: Seq<char>| !state.confirmed.contains(hash));
            if open.len() == 0 {
                to_building(state)
            } else {
                (
                    PassView {
                        stage: StageView::PreparingUploads {
                            more: open.len() > MAX_CHUNKS_PER_PASS,
                        },
                        ..state
                    },
                    ActionView::PrepareUploads { hashes: first_chunks(open) },
                )
            }
        },
        (
            StageView::PreparingUploads { more },
            EventView::UploadsPrepared(queue),
        ) => uploads_go_on(state, queue, more),
        (StageView::Sealing { queue, more }, EventView::ChunkSealed) => chunk_sent(
            state,
            queue,
            more,
        ),
        (StageView::Uploading { queue, more }, EventView::Uploaded) => uploads_go_on(
            PassView { confirmed: state.confirmed.insert(queue.first().hash), ..state },
            queue.drop_first(),
            more,
        ),
        (
            StageView::Building { limit },
            EventView::BatchBuilt { operations, bytes, last },
        ) => batch_built(state, limit, operations, bytes, last),
        (StageView::Pushing { last }, EventView::Pushed(counter)) => if counter < last {
            to_fault(state, PassFault::NotAcknowledged)
        } else {
            to_frontier(state)
        },
        (StageView::ReadingFrontier, EventView::Frontier(frontier)) => if remote_is_ahead(
            state.changes,
            frontier,
        ) {
            (PassView { stage: StageView::Pulling, ..state }, ActionView::Pull)
        } else {
            to_missing(state)
        },
        (StageView::Pulling, EventView::Pulled(count)) => {
            let next = PassView { full_page: count >= FULL_PAGE, ..state };
            if count == 0 {
                to_missing(next)
            } else {
                (
                    PassView { stage: StageView::Opening { left: count }, ..next },
                    ActionView::OpenBatch,
                )
            }
        },
        (StageView::Opening { left }, EventView::Opened(bytes)) => if bytes
            > MAX_BATCH_PLAINTEXT_BYTES {
            to_fault(state, PassFault::BatchTooLarge)
        } else {
            (PassView { stage: StageView::Applying { left }, ..state }, ActionView::ApplyBatch)
        },
        (StageView::Applying { left }, EventView::Applied(count)) => {
            let next = PassView { applied: count_sum(state.applied, count), ..state };
            if left <= 1 {
                to_missing(next)
            } else {
                (
                    PassView { stage: StageView::Opening { left: (left - 1) as usize }, ..next },
                    ActionView::OpenBatch,
                )
            }
        },
        (StageView::FindingMissing, EventView::Missing(hashes)) => if hashes.len() == 0 {
            to_projecting(state)
        } else {
            (
                PassView {
                    stage: StageView::PreparingDownloads {
                        more: hashes.len() > MAX_CHUNKS_PER_PASS,
                    },
                    ..state
                },
                ActionView::PrepareDownloads { hashes: first_chunks(hashes) },
            )
        },
        (
            StageView::PreparingDownloads { more },
            EventView::DownloadsPrepared(queue),
        ) => downloads_go_on(state, queue, more),
        (StageView::Downloading { queue, more }, EventView::Stored) => downloads_go_on(
            PassView { confirmed: state.confirmed.insert(queue.first().hash), ..state },
            queue.drop_first(),
            more,
        ),
        (StageView::Projecting, EventView::Projected) => to_end(
            state,
            state.full_page || state.may_have_more,
            state.emitted > 0 || state.applied > 0,
        ),
        _ => to_fault(state, PassFault::Unexpected),
    }
}

proof fn lemma_uploads_go_on_anywhere(
    state: PassView,
    stage: StageView,
    queue: Seq<UploadView>,
    more: bool,
)
    ensures
        uploads_go_on(PassView { stage, ..state }, queue, more) == uploads_go_on(
            state,
            queue,
            more,
        ),
    decreases queue.len(),
{
    if queue.len() > 0 && queue.first().exists {
        lemma_uploads_go_on_anywhere(
            PassView { confirmed: state.confirmed.insert(queue.first().hash), ..state },
            stage,
            queue.drop_first(),
            more,
        );
    }
}

fn find_accepted(changes: &[ActorCounter], actor: &str) -> (counter: u64)
    ensures
        counter == accepted_through(views(changes@), actor@),
{
    let ghost all = views(changes@);
    let mut i: usize = 0;
    assert(all.skip(0) =~= all);
    while i < changes.len()
        invariant
            all == views(changes@),
            i <= changes@.len(),
            accepted_through(all.skip(i as int), actor@) == accepted_through(all, actor@),
        decreases changes@.len() - i,
    {
        assert(all.skip(i as int).first() == changes@[i as int]@);
        if text_eq(changes[i].actor_id.as_str(), actor) {
            return changes[i].latest_counter;
        }
        assert(all.skip(i as int).drop_first() =~= all.skip(i + 1));
        i = i + 1;
    }
    0
}

fn is_remote_ahead(changes: &[ActorCounter], frontier: &VersionVector) -> (ahead: bool)
    ensures
        ahead == remote_is_ahead(views(changes@), frontier@),
{
    let ghost all = views(changes@);
    let mut i: usize = 0;
    while i < changes.len()
        invariant
            all == views(changes@),
            i <= changes@.len(),
            forall|j: int|
                0 <= j < i ==> (#[trigger] all[j]).latest <= counter_of(frontier@, all[j].actor),
        decreases changes@.len() - i,
    {
        assert(all[i as int] == changes@[i as int]@);
        if changes[i].latest_counter > frontier.counter(changes[i].actor_id.as_str()) {
            return true;
        }
        i = i + 1;
    }
    false
}

fn take_first_chunks(hashes: &[String]) -> (batch: Vec<String>)
    ensures
        views(batch@) == first_chunks(views(hashes@)),
{
    let ghost all = views(hashes@);
    let mut batch: Vec<String> = Vec::new();
    let mut i: usize = 0;
    while i < hashes.len() && i < MAX_CHUNKS_PER_PASS
        invariant
            all == views(hashes@),
            i <= hashes@.len(),
            i <= MAX_CHUNKS_PER_PASS,
            views(batch@) =~= all.take(i as int),
        decreases hashes@.len() - i,
    {
        let ghost before = batch@;
        batch.push(hashes[i].duplicate());
        proof {
            assert(views(batch@) =~= views(before).push(all[i as int]));
            assert(all.take(i + 1) =~= all.take(i as int).push(all[i as int]));
        }
        i = i + 1;
    }
    assert(all.len() <= MAX_CHUNKS_PER_PASS ==> all.take(i as int) =~= all);
    batch
}

impl SyncPass {
    #[verifier::type_invariant]
    spec fn well_formed(self) -> bool {
        self.stage.sound()
    }

    /// A pass of a device, given the chunks that the store is known to have.
    pub fn new(actor: String, confirmed: TextMap<u64>) -> (result: (Self, PassAction))
        ensures
            result.0@ == (PassView {
                actor: actor@,
                confirmed: confirmed@.dom(),
                changes: Seq::empty(),
                emitted: 0,
                applied: 0,
                full_page: false,
                may_have_more: false,
                stage: StageView::Scanning,
            }),
            result.1@ == ActionView::ScanLocal,
    {
        let pass = SyncPass {
            actor,
            confirmed,
            changes: Vec::new(),
            emitted: 0,
            applied: 0,
            full_page: false,
            may_have_more: false,
            stage: Stage::Scanning,
        };
        assert(views(pass.changes@) =~= Seq::empty());
        (pass, PassAction::ScanLocal)
    }

    /// The chunks that the store is known to have by now.
    pub fn into_confirmed(self) -> (confirmed: TextMap<u64>)
        ensures
            confirmed@.dom() == self@.confirmed,
    {
        self.confirmed
    }

    fn confirm(&mut self, hash: String)
        ensures
            final(self)@ == (PassView {
                confirmed: old(self)@.confirmed.insert(hash@),
                ..old(self)@
            }),
    {
        let ghost before = self.confirmed@;
        let ghost name = hash@;
        proof {
            use_type_invariant(&*self);
        }
        let mut confirmed: TextMap<u64> = TextMap::new();
        std::mem::swap(&mut confirmed, &mut self.confirmed);
        confirmed.insert(hash, 0);
        self.confirmed = confirmed;
        assert(self.confirmed@.dom() =~= before.dom().insert(name));
    }

    fn open_candidates(&self, hashes: &[String]) -> (open: Vec<String>)
        ensures
            views(open@) == views(hashes@).filter(
                |hash: Seq<char>| !self@.confirmed.contains(hash),
            ),
    {
        let ghost all = views(hashes@);
        let ghost keep = |hash: Seq<char>| !self@.confirmed.contains(hash);
        let mut open: Vec<String> = Vec::new();
        let mut i: usize = 0;
        proof {
            reveal(Seq::filter);
            assert(all.take(0).filter(keep) =~= Seq::empty());
            assert(views(open@) =~= Seq::empty());
        }
        while i < hashes.len()
            invariant
                all == views(hashes@),
                keep == (|hash: Seq<char>| !self@.confirmed.contains(hash)),
                i <= hashes@.len(),
                views(open@) == all.take(i as int).filter(keep),
            decreases hashes@.len() - i,
        {
            let ghost before = open@;
            proof {
                reveal(Seq::filter);
                assert(all.take(i + 1).drop_last() =~= all.take(i as int));
                assert(all.take(i + 1).last() == hashes@[i as int]@);
            }
            if self.confirmed.get(hashes[i].as_str()).is_none() {
                open.push(hashes[i].duplicate());
                assert(views(open@) =~= views(before).push(hashes@[i as int]@));
            }
            i = i + 1;
        }
        assert(all.take(i as int) =~= all);
        open
    }

    fn go_on_with_uploads(&mut self, queue: Vec<StorageUpload>, at: usize, more: bool) -> (action:
        PassAction)
        requires
            at <= queue@.len(),
        ensures
            (final(self)@, action@) == uploads_go_on(
                old(self)@,
                views(queue@).skip(at as int),
                more,
            ),
    {
        let ghost all = views(queue@);
        let ghost goal = uploads_go_on(self@, all.skip(at as int), more);
        let mut at: usize = at;
        while at < queue.len() && queue[at].exists
            invariant
                all == views(queue@),
                at <= queue@.len(),
                uploads_go_on(self@, all.skip(at as int), more) == goal,
            decreases queue@.len() - at,
        {
            proof {
                let rest = all.skip(at as int);
                assert(rest.first() == queue@[at as int]@);
                assert(rest.drop_first() =~= all.skip(at + 1));
            }
            self.confirm(queue[at].hash.duplicate());
            at = at + 1;
        }
        if at == queue.len() {
            assert(all.skip(at as int) =~= Seq::empty());
            if more {
                self.stage = Stage::Over;
                return PassAction::Finish { has_more: true, refresh: false };
            }
            self.stage = Stage::Building { limit: FIRST_BATCH_LIMIT };
            return PassAction::BuildBatch { limit: FIRST_BATCH_LIMIT };
        }
        assert(all.skip(at as int).first() == queue@[at as int]@);
        let hash = queue[at].hash.duplicate();
        self.stage = Stage::Sealing { queue, at, more };
        PassAction::SealChunk { hash }
    }

    fn go_on_with_downloads(&mut self, queue: Vec<StorageDownload>, at: usize, more: bool) -> (action:
        PassAction)
        requires
            at <= queue@.len(),
        ensures
            (final(self)@, action@) == downloads_go_on(
                old(self)@,
                views(queue@).skip(at as int),
                more,
            ),
    {
        let ghost all = views(queue@);
        if at == queue.len() {
            assert(all.skip(at as int) =~= Seq::empty());
            if more {
                self.stage = Stage::Over;
                return PassAction::Finish { has_more: true, refresh: false };
            }
            self.stage = Stage::Projecting;
            return PassAction::Project;
        }
        assert(all.skip(at as int).first() == queue@[at as int]@);
        let hash = queue[at].hash.duplicate();
        let url = queue[at].url.duplicate();
        self.stage = Stage::Downloading { queue, at, more };
        PassAction::Download { hash, url }
    }

    fn batch_built(&mut self, limit: usize, operations: usize, bytes: usize, last: u64) -> (action:
        PassAction)
        ensures
            (final(self)@, action@) == batch_built(old(self)@, limit, operations, bytes, last),
    {
        if operations == 0 {
            self.stage = Stage::ReadingFrontier;
            return PassAction::ReadFrontier;
        }
        if bytes <= MAX_BATCH_PLAINTEXT_BYTES {
            self.stage = Stage::Pushing { last };
            self.may_have_more = operations == limit;
            return PassAction::PushBatch;
        }
        if limit <= 1 {
            self.stage = Stage::Over;
            return PassAction::Fail(PassFault::OperationTooLarge);
        }
        self.stage = Stage::Building { limit: limit / 2 };
        PassAction::BuildBatch { limit: limit / 2 }
    }

    /// Takes note of what has happened, and tells what is to be done next.
    pub fn advance(&mut self, event: PassEvent) -> (action: PassAction)
        ensures
            (final(self)@, action@) == advanced(old(self)@, event@),
    {
        let ghost before = self@;
        proof {
            use_type_invariant(&*self);
        }
        let mut stage = Stage::Over;
        std::mem::swap(&mut stage, &mut self.stage);
        match (stage, event) {
            (Stage::Scanning, PassEvent::Scanned(count)) => {
                self.emitted = count;
                self.stage = Stage::Granting;
                PassAction::GrantEnrollments
            },
            (Stage::Granting, PassEvent::Granted) => {
                self.stage = Stage::ReadingChanges;
                PassAction::ReadChanges
            },
            (Stage::ReadingChanges, PassEvent::Changes(changes)) => {
                let accepted_through = find_accepted(changes.as_slice(), self.actor.as_str());
                self.changes = changes;
                self.stage = Stage::ListingUploads;
                PassAction::ListUploads { accepted_through }
            },
            (Stage::ListingUploads, PassEvent::Candidates(hashes)) => {
                let open = self.open_candidates(hashes.as_slice());
                if open.len() == 0 {
                    self.stage = Stage::Building { limit: FIRST_BATCH_LIMIT };
                    return PassAction::BuildBatch { limit: FIRST_BATCH_LIMIT };
                }
                let batch = take_first_chunks(open.as_slice());
                self.stage = Stage::PreparingUploads { more: open.len() > MAX_CHUNKS_PER_PASS };
                PassAction::PrepareUploads { hashes: batch }
            },
            (Stage::PreparingUploads { more }, PassEvent::UploadsPrepared(queue)) => {
                proof {
                    assert(views(queue@).skip(0) =~= views(queue@));
                    lemma_uploads_go_on_anywhere(before, StageView::Over, views(queue@), more);
                }
                self.go_on_with_uploads(queue, 0, more)
            },
            (Stage::Sealing { queue, at, more }, PassEvent::ChunkSealed) => {
                assert(views(queue@).skip(at as int).first() == queue@[at as int]@);
                let hash = queue[at].hash.duplicate();
                match &queue[at].url {
                    None => PassAction::Fail(PassFault::MissingUploadUrl),
                    Some(url) => {
                        let url = url.duplicate();
                        self.stage = Stage::Uploading { queue, at, more };
                        PassAction::Upload { hash, url }
                    },
                }
            },
            (Stage::Uploading { queue, at, more }, PassEvent::Uploaded) => {
                proof {
                    let rest = views(queue@).skip(at as int);
                    assert(rest.first() == queue@[at as int]@);
                    assert(rest.drop_first() =~= views(queue@).skip(at + 1));
                    lemma_uploads_go_on_anywhere(
                        PassView {
                            confirmed: before.confirmed.insert(rest.first().hash),
                            ..before
                        },
                        StageView::Over,
                        rest.drop_first(),
                        more,
                    );
                }
                let count: usize = queue.len();
                assert(at < count);
                let hash = queue[at].hash.duplicate();
                self.confirm(hash);
                self.go_on_with_uploads(queue, at + 1, more)
            },
            (Stage::Building { limit }, PassEvent::BatchBuilt { operations, bytes, last }) => {
                self.batch_built(limit, operations, bytes, last)
            },
            (Stage::Pushing { last }, PassEvent::Pushed(counter)) => if counter < last {
                PassAction::Fail(PassFault::NotAcknowledged)
            } else {
                self.stage = Stage::ReadingFrontier;
                PassAction::ReadFrontier
            },
            (Stage::ReadingFrontier, PassEvent::Frontier(frontier)) => if is_remote_ahead(
                self.changes.as_slice(),
                &frontier,
            ) {
                self.stage = Stage::Pulling;
                PassAction::Pull
            } else {
                self.stage = Stage::FindingMissing;
                PassAction::FindMissing
            },
            (Stage::Pulling, PassEvent::Pulled(count)) => {
                self.full_page = count >= FULL_PAGE;
                if count == 0 {
                    self.stage = Stage::FindingMissing;
                    PassAction::FindMissing
                } else {
                    self.stage = Stage::Opening { left: count };
                    PassAction::OpenBatch
                }
            },
            (Stage::Opening { left }, PassEvent::Opened(bytes)) => if bytes
                > MAX_BATCH_PLAINTEXT_BYTES {
                PassAction::Fail(PassFault::BatchTooLarge)
            } else {
                self.stage = Stage::Applying { left };
                PassAction::ApplyBatch
            },
            (Stage::Applying { left }, PassEvent::Applied(count)) => {
                self.applied = self.applied.saturating_add(count);
                if left <= 1 {
                    self.stage = Stage::FindingMissing;
                    PassAction::FindMissing
                } else {
                    self.stage = Stage::Opening { left: left - 1 };
                    PassAction::OpenBatch
                }
            },
            (Stage::FindingMissing, PassEvent::Missing(hashes)) => if hashes.len() == 0 {
                self.stage = Stage::Projecting;
                PassAction::Project
            } else {
                let batch = take_first_chunks(hashes.as_slice());
                self.stage = Stage::PreparingDownloads {
                    more: hashes.len() > MAX_CHUNKS_PER_PASS,
                };
                PassAction::PrepareDownloads { hashes: batch }
            },
            (Stage::PreparingDownloads { more }, PassEvent::DownloadsPrepared(queue)) => {
                assert(views(queue@).skip(0) =~= views(queue@));
                self.go_on_with_downloads(queue, 0, more)
            },
            (Stage::Downloading { queue, at, more }, PassEvent::Stored) => {
                proof {
                    let rest = views(queue@).skip(at as int);
                    assert(rest.first() == queue@[at as int]@);
                    assert(rest.drop_first() =~= views(queue@).skip(at + 1));
                }
                let count: usize = queue.len();
                assert(at < count);
                let hash = queue[at].hash.duplicate();
                self.confirm(hash);
                self.go_on_with_downloads(queue, at + 1, more)
            },
            (Stage::Projecting, PassEvent::Projected) => PassAction::Finish {
                has_more: self.full_page || self.may_have_more,
                refresh: self.emitted > 0 || self.applied > 0,
            },
            _ => PassAction::Fail(PassFault::Unexpected),
        }
    }
}

/// Where a chunk is on its way, there is one.
pub open spec fn queue_sound(stage: StageView) -> bool {
    match stage {
        StageView::Sealing { queue, more } => queue.len() > 0,
        StageView::Uploading { queue, more } => queue.len() > 0,
        StageView::Downloading { queue, more } => queue.len() > 0,
        _ => true,
    }
}

/// How many kinds of steps a pass has before it at most.
pub open spec fn steps_left(stage: StageView) -> int {
    match stage {
        StageView::Scanning => 15,
        StageView::Granting => 14,
        StageView::ReadingChanges => 13,
        StageView::ListingUploads => 12,
        StageView::PreparingUploads { more } => 11,
        StageView::Sealing { queue, more } => 10,
        StageView::Uploading { queue, more } => 10,
        StageView::Building { limit } => 9,
        StageView::Pushing { last } => 8,
        StageView::ReadingFrontier => 7,
        StageView::Pulling => 6,
        StageView::Opening { left } => 5,
        StageView::Applying { left } => 5,
        StageView::FindingMissing => 4,
        StageView::PreparingDownloads { more } => 3,
        StageView::Downloading { queue, more } => 2,
        StageView::Projecting => 1,
        StageView::Over => 0,
    }
}

/// How often the step that a pass is at is still to be made.
pub open spec fn repeats_left(stage: StageView) -> int {
    match stage {
        StageView::Sealing { queue, more } => 2 * queue.len() as int + 1,
        StageView::Uploading { queue, more } => 2 * queue.len() as int,
        StageView::Building { limit } => limit as int,
        StageView::Opening { left } => 2 * left + 1,
        StageView::Applying { left } => 2 * left as int,
        StageView::Downloading { queue, more } => queue.len() as int,
        _ => 0,
    }
}

proof fn lemma_uploads_shrink(state: PassView, queue: Seq<UploadView>, more: bool)
    ensures
        ({
            let next = uploads_go_on(state, queue, more).0;
            &&& next.stage matches StageView::Sealing { queue: rest, more: _ } ==> rest.len()
                <= queue.len()
            &&& queue_sound(next.stage)
            &&& steps_left(next.stage) <= 10
            &&& steps_left(next.stage) == 10 ==> next.stage is Sealing
            &&& state.confirmed.subset_of(next.confirmed)
            &&& forall|hash: Seq<char>| #[trigger]
                next.confirmed.contains(hash) ==> state.confirmed.contains(hash) || exists|i: int|
                    0 <= i < queue.len() && (#[trigger] queue[i]).hash == hash && queue[i].exists
        }),
    decreases queue.len(),
{
    if queue.len() > 0 && queue.first().exists {
        let confirmed = state.confirmed.insert(queue.first().hash);
        let rest = queue.drop_first();
        lemma_uploads_shrink(PassView { confirmed, ..state }, rest, more);
        let next = uploads_go_on(state, queue, more).0;
        assert forall|hash: Seq<char>| #[trigger]
            next.confirmed.contains(hash) implies state.confirmed.contains(hash) || exists|i: int|
                0 <= i < queue.len() && (#[trigger] queue[i]).hash == hash && queue[i].exists by {
            if !confirmed.contains(hash) {
                let i = choose|i: int|
                    0 <= i < rest.len() && (#[trigger] rest[i]).hash == hash && rest[i].exists;
                assert(queue[i + 1] == rest[i]);
            } else if !state.confirmed.contains(hash) {
                assert(queue[0].hash == hash);
            }
        }
    }
}

/// Every pass comes to an end: whatever happens, it is then over, or nearer to its end.
pub proof fn lemma_pass_ends(state: PassView, event: EventView)
    requires
        queue_sound(state.stage),
    ensures
        queue_sound(advanced(state, event).0.stage),
        ({
            let next = advanced(state, event).0;
            ||| next.stage is Over
            ||| steps_left(next.stage) < steps_left(state.stage)
            ||| steps_left(next.stage) == steps_left(state.stage) && 0 <= repeats_left(next.stage)
                < repeats_left(state.stage)
        }),
{
    match (state.stage, event) {
        (StageView::PreparingUploads { more }, EventView::UploadsPrepared(queue)) => {
            lemma_uploads_shrink(state, queue, more);
        },
        (StageView::Uploading { queue, more }, EventView::Uploaded) => {
            lemma_uploads_shrink(
                PassView { confirmed: state.confirmed.insert(queue.first().hash), ..state },
                queue.drop_first(),
                more,
            );
        },
        _ => {},
    }
}

/// What the store is known to have is never forgotten in a pass.
pub proof fn lemma_confirmed_grows(state: PassView, event: EventView)
    ensures
        state.confirmed.subset_of(advanced(state, event).0.confirmed),
{
    match (state.stage, event) {
        (StageView::PreparingUploads { more }, EventView::UploadsPrepared(queue)) => {
            lemma_uploads_shrink(state, queue, more);
        },
        (StageView::Uploading { queue, more }, EventView::Uploaded) => {
            lemma_uploads_shrink(
                PassView { confirmed: state.confirmed.insert(queue.first().hash), ..state },
                queue.drop_first(),
                more,
            );
        },
        _ => {},
    }
}

/// The batches of a pass are within the limits: at most so many operations are asked for, and
/// never none; what is sent is no larger than a batch can be.
pub proof fn lemma_batches_within_limits(state: PassView, event: EventView)
    requires
        state.stage matches StageView::Building { limit } ==> 1 <= limit <= FIRST_BATCH_LIMIT,
    ensures
        advanced(state, event).1 matches ActionView::BuildBatch { limit } ==> 1 <= limit
            <= FIRST_BATCH_LIMIT && advanced(state, event).0.stage == (StageView::Building {
            limit,
        }),
        advanced(state, event).1 is PushBatch ==> (event matches EventView::BatchBuilt {
            operations,
            bytes,
            last: _,
        } && operations > 0 && bytes <= MAX_BATCH_PLAINTEXT_BYTES),
{
    match (state.stage, event) {
        (StageView::PreparingUploads { more }, EventView::UploadsPrepared(queue)) => {
            lemma_uploads_actions(state, queue, more);
        },
        (StageView::Uploading { queue, more }, EventView::Uploaded) => {
            lemma_uploads_actions(
                PassView { confirmed: state.confirmed.insert(queue.first().hash), ..state },
                queue.drop_first(),
                more,
            );
        },
        _ => {},
    }
}

proof fn lemma_uploads_actions(state: PassView, queue: Seq<UploadView>, more: bool)
    ensures
        ({
            let (next, action) = uploads_go_on(state, queue, more);
            ||| action is SealChunk
            ||| more && action == (ActionView::Finish { has_more: true, refresh: false })
            ||| !more && action == (ActionView::BuildBatch { limit: FIRST_BATCH_LIMIT })
                && next.stage == (StageView::Building { limit: FIRST_BATCH_LIMIT })
        }),
    decreases queue.len(),
{
    if queue.len() > 0 && queue.first().exists {
        lemma_uploads_actions(
            PassView { confirmed: state.confirmed.insert(queue.first().hash), ..state },
            queue.drop_first(),
            more,
        );
    }
}

/// A pass that ends with nothing more to be done has gone all the way: it has shown attachments
/// last, it has fetched less than a full page, and no operation was left out of its batch.
pub proof fn lemma_finished_pass_is_complete(state: PassView, event: EventView)
    requires
        advanced(state, event).1 matches ActionView::Finish { has_more, refresh: _ } && !has_more,
    ensures
        state.stage is Projecting,
        !state.full_page,
        !state.may_have_more,
{
    match (state.stage, event) {
        (StageView::PreparingUploads { more }, EventView::UploadsPrepared(queue)) => {
            lemma_uploads_actions(state, queue, more);
        },
        (StageView::Uploading { queue, more }, EventView::Uploaded) => {
            lemma_uploads_actions(
                PassView { confirmed: state.confirmed.insert(queue.first().hash), ..state },
                queue.drop_first(),
                more,
            );
        },
        _ => {},
    }
}

/// No more chunks are sent or fetched in a pass than it may.
pub proof fn lemma_chunks_within_limits(state: PassView, event: EventView)
    ensures
        advanced(state, event).1 matches ActionView::PrepareUploads { hashes } ==> 0 < hashes.len()
            <= MAX_CHUNKS_PER_PASS,
        advanced(state, event).1 matches ActionView::PrepareDownloads { hashes } ==> 0
            < hashes.len() <= MAX_CHUNKS_PER_PASS,
{
    match (state.stage, event) {
        (StageView::PreparingUploads { more }, EventView::UploadsPrepared(queue)) => {
            lemma_uploads_actions(state, queue, more);
        },
        (StageView::Uploading { queue, more }, EventView::Uploaded) => {
            lemma_uploads_actions(
                PassView { confirmed: state.confirmed.insert(queue.first().hash), ..state },
                queue.drop_first(),
                more,
            );
        },
        _ => {},
    }
}

} // verus!
