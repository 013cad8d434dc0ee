//! One device's copy of a workspace: the log of operations, what it adds up to, and what is shown
//! of it.

use vstd::prelude::*;
use vstd::string::*;

use crate::bykind::ByKind;
use crate::model::{
    blank_entity, entity_apply, observe, ContentRegister, DotView, EntityKind, EntityState,
    EntityView, FieldValue, FieldView, Operation, OperationView, VersionVector, VersionView,
};
use crate::plain::{duplicate_all, duplicate_opt, opt_view, same_opt, views, Plain};
use crate::text::{text_before, text_eq, text_lt};
use crate::textmap::TextMap;

verus! {

/// Why a workspace does not take something in.
#[derive(Debug, Clone, Copy, PartialEq, Eq, Structural)]
pub enum StoreError {
    /// What was received does not follow the rules, or contradicts what is known.
    InvalidPayload,
    /// A device has used up its counter.
    CounterExhausted,
    /// What should be a manifest cannot be read as one.
    Unreadable,
    /// The bytes of a chunk are not at hand.
    MissingContent,
}

/// The name of a kind of entity.
pub open spec fn kind_text(kind: EntityKind) -> Seq<char> {
    match kind {
        EntityKind::Section => "section"@,
        EntityKind::Item => "item"@,
        EntityKind::Attachment => "attachment"@,
    }
}

/// The name of a kind of entity.
pub fn kind_name(kind: EntityKind) -> (name: &'static str)
    ensures
        name@ == kind_text(kind),
{
    match kind {
        EntityKind::Section => "section",
        EntityKind::Item => "item",
        EntityKind::Attachment => "attachment",
    }
}

/// The kind of entity of a name.
pub open spec fn kind_of(name: Seq<char>) -> Result<EntityKind, StoreError> {
    if name == "section"@ {
        Ok(EntityKind::Section)
    } else if name == "item"@ {
        Ok(EntityKind::Item)
    } else if name == "attachment"@ {
        Ok(EntityKind::Attachment)
    } else {
        Err(StoreError::InvalidPayload)
    }
}

/// The kind of entity of a name.
pub fn parse_kind(value: &str) -> (result: Result<EntityKind, StoreError>)
    ensures
        result == kind_of(value@),
{
    if text_eq(value, "section") {
        Ok(EntityKind::Section)
    } else if text_eq(value, "item") {
        Ok(EntityKind::Item)
    } else if text_eq(value, "attachment") {
        Ok(EntityKind::Attachment)
    } else {
        Err(StoreError::InvalidPayload)
    }
}

/// Reading the name of a kind gives the kind back.
pub proof fn lemma_kind_round_trip(kind: EntityKind)
    ensures
        kind_of(kind_text(kind)) == Ok::<EntityKind, StoreError>(kind),
{
    reveal_strlit("section");
    reveal_strlit("item");
    reveal_strlit("attachment");
    assert("section"@.len() == 7);
    assert("item"@.len() == 4);
    assert("attachment"@.len() == 10);
}

/// What was last told of an entity.
#[derive(Debug, Clone, PartialEq)]
pub struct Shadow {
    pub fields: TextMap<FieldValue>,
    pub content: Option<String>,
}

/// What a shadow says.
pub struct ShadowView {
    pub fields: Map<Seq<char>, FieldView>,
    pub content: Option<Seq<char>>,
}

impl View for Shadow {
    type V = ShadowView;

    open spec fn view(&self) -> ShadowView {
        ShadowView { fields: self.fields@, content: opt_view(self.content) }
    }
}

impl Plain for Shadow {
    fn duplicate(&self) -> (copy: Self) {
        Shadow { fields: self.fields.copied(), content: duplicate_opt(&self.content) }
    }

    fn same(&self, other: &Self) -> (equal: bool) {
        self.fields.equals(&other.fields) && same_opt(&self.content, &other.content)
    }
}

/// What an entity looks like now.
#[derive(Debug, Clone, PartialEq)]
pub struct SnapshotRecord {
    pub kind: EntityKind,
    pub sync_id: String,
    pub shadow: Shadow,
}

/// What a record says.
pub struct RecordView {
    pub kind: EntityKind,
    pub id: Seq<char>,
    pub shadow: ShadowView,
}

impl View for SnapshotRecord {
    type V = RecordView;

    open spec fn view(&self) -> RecordView {
        RecordView { kind: self.kind, id: self.sync_id@, shadow: self.shadow@ }
    }
}

/// An operation and when it arrived.
#[derive(Debug, Clone, PartialEq)]
pub struct LoggedOperation {
    pub operation: Operation,
    pub received_at: i64,
}

/// What an entry of the log says.
pub struct LoggedView {
    pub operation: OperationView,
    pub received_at: i64,
}

impl View for LoggedOperation {
    type V = LoggedView;

    open spec fn view(&self) -> LoggedView {
        LoggedView { operation: self.operation@, received_at: self.received_at }
    }
}

impl Plain for LoggedOperation {
    fn duplicate(&self) -> (copy: Self) {
        LoggedOperation {
            operation: self.operation.duplicate(),
            received_at: self.received_at,
        }
    }

    fn same(&self, other: &Self) -> (equal: bool) {
        self.operation.same(&other.operation) && self.received_at == other.received_at
    }
}

/// The order of the log: by arrival, then by actor, then by counter.
pub open spec fn logged_before(a: LoggedView, b: LoggedView) -> bool {
    ||| a.received_at < b.received_at
    ||| a.received_at == b.received_at && text_before(
        a.operation.dot.actor,
        b.operation.dot.actor,
    )
    ||| a.received_at == b.received_at && a.operation.dot.actor == b.operation.dot.actor
        && a.operation.dot.counter < b.operation.dot.counter
}

fn comes_before(a: &LoggedOperation, b: &LoggedOperation) -> (before: bool)
    ensures
        before == logged_before(a@, b@),
{
    if a.received_at != b.received_at {
        a.received_at < b.received_at
    } else if text_eq(a.operation.dot.actor_id.as_str(), b.operation.dot.actor_id.as_str()) {
        proof {
            crate::text::lemma_text_order(
                a@.operation.dot.actor,
                b@.operation.dot.actor,
                a@.operation.dot.actor,
            );
        }
        a.operation.dot.counter < b.operation.dot.counter
    } else {
        text_lt(a.operation.dot.actor_id.as_str(), b.operation.dot.actor_id.as_str())
    }
}

/// The entry put in its place in the log.
pub open spec fn log_with(log: Seq<LoggedView>, entry: LoggedView) -> Seq<LoggedView>
    decreases log.len(),
{
    if log.len() == 0 || !logged_before(entry, log.last()) {
        log.push(entry)
    } else {
        log_with(log.drop_last(), entry).push(log.last())
    }
}

proof fn lemma_log_with_split(log: Seq<LoggedView>, entry: LoggedView, at: int)
    requires
        0 <= at <= log.len(),
        forall|i: int| at <= i < log.len() ==> logged_before(entry, #[trigger] log[i]),
        at > 0 ==> !logged_before(entry, log[at - 1]),
    ensures
        log_with(log, entry) == log.take(at).push(entry) + log.skip(at),
    decreases log.len(),
{
    if at == log.len() {
        assert(log.take(at).push(entry) + log.skip(at) =~= log.push(entry));
    } else {
        let n = log.len() as int;
        assert(logged_before(entry, log[n - 1]));
        let shorter = log.drop_last();
        assert forall|i: int| at <= i < shorter.len() implies logged_before(
            entry,
            #[trigger] shorter[i],
        ) by {
            assert(shorter[i] == log[i]);
        }
        lemma_log_with_split(shorter, entry, at);
        assert((shorter.take(at).push(entry) + shorter.skip(at)).push(log.last()) =~= log.take(
            at,
        ).push(entry) + log.skip(at));
    }
}

/// What a device has said of how far it is.
#[derive(Debug, Clone, PartialEq)]
pub struct Peer {
    pub last_seen: i64,
    pub frontier: VersionVector,
}

/// What is known of a peer.
pub struct PeerView {
    pub last_seen: i64,
    pub frontier: Map<Seq<char>, u64>,
}

impl View for Peer {
    type V = PeerView;

    open spec fn view(&self) -> PeerView {
        PeerView { last_seen: self.last_seen, frontier: self.frontier@ }
    }
}

impl Plain for Peer {
    fn duplicate(&self) -> (copy: Self) {
        Peer { last_seen: self.last_seen, frontier: self.frontier.duplicate() }
    }

    fn same(&self, other: &Self) -> (equal: bool) {
        self.last_seen == other.last_seen && self.frontier.same(&other.frontier)
    }
}

/// A section as it is shown.
#[derive(Debug, Clone, PartialEq, Eq)]
pub struct SectionRow {
    pub name: String,
    pub created_at: i64,
    pub sort_bits: u64,
}

/// What a shown section says.
pub struct SectionView {
    pub name: Seq<char>,
    pub created_at: i64,
    pub sort_bits: u64,
}

impl View for SectionRow {
    type V = SectionView;

    open spec fn view(&self) -> SectionView {
        SectionView {
            name: self.name@,
            created_at: self.created_at,
            sort_bits: self.sort_bits,
        }
    }
}

impl Plain for SectionRow {
    fn duplicate(&self) -> (copy: Self) {
        SectionRow {
            name: self.name.duplicate(),
            created_at: self.created_at,
            sort_bits: self.sort_bits,
        }
    }

    fn same(&self, other: &Self) -> (equal: bool) {
        self.name.same(&other.name) && self.created_at == other.created_at && self.sort_bits
            == other.sort_bits
    }
}

/// An item as it is shown. It stands in a section only where that section is shown.
#[derive(Debug, Clone, PartialEq, Eq)]
pub struct ItemRow {
    pub section: Option<String>,
    pub content: String,
    pub done: bool,
    pub created_at: i64,
    pub updated_at: i64,
}

/// What a shown item says.
pub struct ItemView {
    pub section: Option<Seq<char>>,
    pub content: Seq<char>,
    pub done: bool,
    pub created_at: i64,
    pub updated_at: i64,
}

impl View for ItemRow {
    type V = ItemView;

    open spec fn view(&self) -> ItemView {
        ItemView {
            section: opt_view(self.section),
            content: self.content@,
            done: self.done,
            created_at: self.created_at,
            updated_at: self.updated_at,
        }
    }
}

impl Plain for ItemRow {
    fn duplicate(&self) -> (copy: Self) {
        ItemRow {
            section: duplicate_opt(&self.section),
            content: self.content.duplicate(),
            done: self.done,
            created_at: self.created_at,
            updated_at: self.updated_at,
        }
    }

    fn same(&self, other: &Self) -> (equal: bool) {
        same_opt(&self.section, &other.section) && self.content.same(&other.content) && self.done
            == other.done && self.created_at == other.created_at && self.updated_at
            == other.updated_at
    }
}

/// An attachment as it is shown.
#[derive(Debug, Clone, PartialEq, Eq)]
pub struct AttachmentRow {
    pub item: String,
    pub name: String,
    pub stored_path: String,
    pub media_type: String,
    pub size: u64,
    pub created_at: i64,
}

/// What a shown attachment says.
pub struct AttachmentView {
    pub item: Seq<char>,
    pub name: Seq<char>,
    pub stored_path: Seq<char>,
    pub media_type: Seq<char>,
    pub size: u64,
    pub created_at: i64,
}

impl View for AttachmentRow {
    type V = AttachmentView;

    open spec fn view(&self) -> AttachmentView {
        AttachmentView {
            item: self.item@,
            name: self.name@,
            stored_path: self.stored_path@,
            media_type: self.media_type@,
            size: self.size,
            created_at: self.created_at,
        }
    }
}

impl Plain for AttachmentRow {
    fn duplicate(&self) -> (copy: Self) {
        AttachmentRow {
            item: self.item.duplicate(),
            name: self.name.duplicate(),
            stored_path: self.stored_path.duplicate(),
            media_type: self.media_type.duplicate(),
            size: self.size,
            created_at: self.created_at,
        }
    }

    fn same(&self, other: &Self) -> (equal: bool) {
        self.item.same(&other.item) && self.name.same(&other.name) && self.stored_path.same(
            &other.stored_path,
        ) && self.media_type.same(&other.media_type) && self.size == other.size && self.created_at
            == other.created_at
    }
}

/// Where the bytes of a chunk are kept.
#[derive(Debug, Clone, PartialEq, Eq)]
pub struct ChunkSource {
    pub path: String,
    pub offset: u64,
    pub size: u64,
}

/// What a source says.
pub struct SourceView {
    pub path: Seq<char>,
    pub offset: u64,
    pub size: u64,
}

impl View for ChunkSource {
    type V = SourceView;

    open spec fn view(&self) -> SourceView {
        SourceView { path: self.path@, offset: self.offset, size: self.size }
    }
}

impl Plain for ChunkSource {
    fn duplicate(&self) -> (copy: Self) {
        ChunkSource { path: self.path.duplicate(), offset: self.offset, size: self.size }
    }

    fn same(&self, other: &Self) -> (equal: bool) {
        self.path.same(&other.path) && self.offset == other.offset && self.size == other.size
    }
}

/// One device's copy of a workspace.
#[derive(Debug, Clone, PartialEq)]
pub struct Replica {
    pub workspace_id: String,
    /// Every operation that is known.
    pub log: Vec<LoggedOperation>,
    /// How far the log reaches for each device.
    pub frontier: VersionVector,
    /// The last counter that each local device has used.
    pub clocks: VersionVector,
    /// What the operations of each entity add up to.
    pub entities: ByKind<EntityState>,
    /// What was last told of each entity.
    pub shadows: ByKind<Shadow>,
    pub peers: TextMap<Peer>,
    pub sections: TextMap<SectionRow>,
    pub items: TextMap<ItemRow>,
    pub attachments: TextMap<AttachmentRow>,
    /// Where the bytes of each chunk are kept.
    pub chunks: TextMap<ChunkSource>,
    /// The contents of items whose concurrent edits wait for a resolution.
    pub conflicts: TextMap<ContentRegister>,
}

/// What a copy of a workspace says.
pub struct ReplicaView {
    pub workspace: Seq<char>,
    pub log: Seq<LoggedView>,
    pub frontier: Map<Seq<char>, u64>,
    pub clocks: Map<Seq<char>, u64>,
    pub entities: Map<(EntityKind, Seq<char>), EntityView>,
    pub shadows: Map<(EntityKind, Seq<char>), ShadowView>,
    pub peers: Map<Seq<char>, PeerView>,
    pub sections: Map<Seq<char>, SectionView>,
    pub items: Map<Seq<char>, ItemView>,
    pub attachments: Map<Seq<char>, AttachmentView>,
    pub chunks: Map<Seq<char>, SourceView>,
    pub conflicts: Map<Seq<char>, Seq<VersionView>>,
}

impl View for Replica {
    type V = ReplicaView;

    open spec fn view(&self) -> ReplicaView {
        ReplicaView {
            workspace: self.workspace_id@,
            log: views(self.log@),
            frontier: self.frontier@,
            clocks: self.clocks@,
            entities: self.entities@,
            shadows: self.shadows@,
            peers: self.peers@,
            sections: self.sections@,
            items: self.items@,
            attachments: self.attachments@,
            chunks: self.chunks@,
            conflicts: self.conflicts@,
        }
    }
}

/// A copy in which nothing has happened yet.
pub open spec fn empty_replica(workspace: Seq<char>) -> ReplicaView {
    ReplicaView {
        workspace,
        log: Seq::empty(),
        frontier: Map::empty(),
        clocks: Map::empty(),
        entities: Map::empty(),
        shadows: Map::empty(),
        peers: Map::empty(),
        sections: Map::empty(),
        items: Map::empty(),
        attachments: Map::empty(),
        chunks: Map::empty(),
        conflicts: Map::empty(),
    }
}

/// The log holds the operation of this dot.
pub open spec fn is_logged(log: Seq<LoggedView>, dot: DotView) -> bool {
    exists|i: int| 0 <= i < log.len() && (#[trigger] log[i]).operation.dot == dot
}

/// The log holds another operation under the dot of this one.
pub open spec fn contradicted(log: Seq<LoggedView>, operation: OperationView) -> bool {
    exists|i: int|
        0 <= i < log.len() && (#[trigger] log[i]).operation.dot == operation.dot && log[i].operation
            != operation
}

/// The state of an entity as far as it is known.
pub open spec fn entity_state(
    entities: Map<(EntityKind, Seq<char>), EntityView>,
    kind: EntityKind,
    id: Seq<char>,
) -> EntityView {
    if entities.contains_key((kind, id)) {
        entities[(kind, id)]
    } else {
        blank_entity()
    }
}

/// The copy after an operation that was not known.
pub open spec fn with_operation(
    state: ReplicaView,
    operation: OperationView,
    now: i64,
) -> ReplicaView {
    ReplicaView {
        log: log_with(state.log, LoggedView { operation, received_at: now }),
        frontier: observe(state.frontier, operation.dot),
        entities: state.entities.insert(
            (operation.kind, operation.entity),
            entity_apply(
                entity_state(state.entities, operation.kind, operation.entity),
                operation,
            ),
        ),
        ..state
    }
}

/// The copy after an operation arrives, and whether it was new. One that is known changes nothing;
/// one that contradicts a known one is refused.
pub open spec fn inserted(state: ReplicaView, operation: OperationView, now: i64) -> Result<
    (ReplicaView, bool),
    StoreError,
> {
    if contradicted(state.log, operation) {
        Err(StoreError::InvalidPayload)
    } else if is_logged(state.log, operation.dot) {
        Ok((state, false))
    } else {
        Ok((with_operation(state, operation, now), true))
    }
}

impl Replica {
    /// A copy in which nothing has happened yet.
    pub fn new(workspace_id: String) -> (replica: Self)
        ensures
            replica@ == empty_replica(workspace_id@),
    {
        let replica = Replica {
            workspace_id,
            log: Vec::new(),
            frontier: VersionVector::default(),
            clocks: VersionVector::default(),
            entities: ByKind::new(),
            shadows: ByKind::new(),
            peers: TextMap::new(),
            sections: TextMap::new(),
            items: TextMap::new(),
            attachments: TextMap::new(),
            chunks: TextMap::new(),
            conflicts: TextMap::new(),
        };
        assert(replica@.log =~= Seq::empty());
        replica
    }

    /// A second copy that says the same.
    pub fn copied(&self) -> (copy: Self)
        ensures
            copy@ == self@,
    {
        Replica {
            workspace_id: self.workspace_id.duplicate(),
            log: duplicate_all(self.log.as_slice()),
            frontier: self.frontier.duplicate(),
            clocks: self.clocks.duplicate(),
            entities: self.entities.copied(),
            shadows: self.shadows.copied(),
            peers: self.peers.copied(),
            sections: self.sections.copied(),
            items: self.items.copied(),
            attachments: self.attachments.copied(),
            chunks: self.chunks.copied(),
            conflicts: self.conflicts.copied(),
        }
    }

    /// Takes in an operation, and tells whether it was new. One that is known changes nothing; one
    /// that contradicts a known one is refused.
    pub fn insert_operation(&mut self, operation: &Operation, now: i64) -> (result: Result<
        bool,
        StoreError,
    >)
        ensures
            match inserted(old(self)@, operation@, now) {
                Err(error) => result == Err::<bool, StoreError>(error) && final(self)@ == old(
                    self)@,
                Ok((state, new)) => result == Ok::<bool, StoreError>(new) && final(self)@ == state,
            },
    {
        let ghost log = views(self.log@);
        let mut known = false;
        let mut i: usize = 0;
        while i < self.log.len()
            invariant
                log == views(self.log@),
                i <= self.log@.len(),
                known <==> is_logged(log.take(i as int), operation@.dot),
                !contradicted(log.take(i as int), operation@),
            decreases self.log@.len() - i,
        {
            let entry = &self.log[i];
            proof {
                assert(log[i as int] == entry@);
                lemma_log_scan(log, i as int, operation@);
            }
            if entry.operation.dot.same(&operation.dot) {
                if !entry.operation.same(operation) {
                    assert(log[i as int].operation.dot == operation@.dot);
                    return Err(StoreError::InvalidPayload);
                }
                known = true;
            }
            i = i + 1;
        }
        assert(log.take(i as int) =~= log);
        if known {
            return Ok(false);
        }
        let ghost before = self@;
        let entry = LoggedOperation { operation: operation.duplicate(), received_at: now };
        self.place_in_log(entry);
        self.frontier.observe(&operation.dot);
        let mut state = match self.entities.get(
            operation.entity_kind,
            operation.entity_id.as_str(),
        ) {
            Some(found) => found.duplicate(),
            None => EntityState::default(),
        };
        state.apply(operation);
        self.entities.insert(operation.entity_kind, operation.entity_id.duplicate(), state);
        assert(self@ == with_operation(before, operation@, now));
        Ok(true)
    }

    fn place_in_log(&mut self, entry: LoggedOperation)
        ensures
            final(self)@ == (ReplicaView { log: log_with(old(self)@.log, entry@), ..old(self)@ }),
    {
        let ghost before = *self;
        let ghost said = entry@;
        let mut at: usize = self.log.len();
        while at > 0 && comes_before(&entry, &self.log[at - 1])
            invariant
                before == *self,
                said == entry@,
                at <= self.log@.len(),
                forall|i: int|
                    at <= i < self.log@.len() ==> logged_before(said, #[trigger] views(
                        self.log@,
                    )[i]),
            decreases at,
        {
            at = at - 1;
        }
        proof {
            lemma_log_with_split(views(before.log@), said, at as int);
        }
        self.log.insert(at, entry);
        assert(views(self.log@) =~= views(before.log@).take(at as int).push(said) + views(
            before.log@,
        ).skip(at as int));
    }
}

proof fn lemma_log_scan(log: Seq<LoggedView>, n: int, operation: OperationView)
    requires
        0 <= n < log.len(),
    ensures
        is_logged(log.take(n + 1), operation.dot) <==> is_logged(log.take(n), operation.dot)
            || log[n].operation.dot == operation.dot,
        contradicted(log.take(n + 1), operation) <==> contradicted(log.take(n), operation) || (
        log[n].operation.dot == operation.dot && log[n].operation != operation),
{
    let a = log.take(n);
    let b = log.take(n + 1);
    assert(forall|i: int| 0 <= i < n ==> a[i] == b[i]);
    assert(b[n] == log[n]);
    if is_logged(a, operation.dot) {
        let i = choose|i: int| 0 <= i < a.len() && (#[trigger] a[i]).operation.dot == operation.dot;
        assert(b[i].operation.dot == operation.dot);
    }
    if is_logged(b, operation.dot) {
        let i = choose|i: int| 0 <= i < b.len() && (#[trigger] b[i]).operation.dot == operation.dot;
        if i < n {
            assert(a[i].operation.dot == operation.dot);
        }
    }
    if contradicted(a, operation) {
        let i = choose|i: int|
            0 <= i < a.len() && (#[trigger] a[i]).operation.dot == operation.dot && a[i].operation
                != operation;
        assert(b[i].operation.dot == operation.dot);
    }
    if contradicted(b, operation) {
        let i = choose|i: int|
            0 <= i < b.len() && (#[trigger] b[i]).operation.dot == operation.dot && b[i].operation
                != operation;
        if i < n {
            assert(a[i].operation.dot == operation.dot);
        }
    }
}

} // verus!
