//! The exchange between two devices: what is accepted of a payload, and what is answered.

use vstd::prelude::*;
use vstd::string::*;

use crate::files::{manifest_valid, validate_manifest};
use crate::ids::{is_uuid, uuid_text};
use crate::limits::{MAX_ATTACHMENT_BYTES, MAX_ITEM_CHARS, MAX_SECTION_CHARS};
use crate::model::{
    counter_of, observe, observes, EntityKind, EntityState, FieldValue, FieldView, Mutation,
    MutationView, Operation, OperationView, PayloadView, SyncPayload, VersionVector, WholeNumber,
    SYNC_SCHEMA_VERSION,
};
use crate::plain::{views, Plain};
use crate::projection::{items_shown, section_shown};
use crate::store::{
    inserted, LoggedOperation, LoggedView, Peer, PeerView, Replica, ReplicaView, StoreError,
};
use crate::text::text_eq;
use crate::textmap::{ordered, TextMap};

verus! {

/// The most operations in one payload.
pub const MAX_REMOTE_OPS: usize = 2_000;

/// The most devices in one context.
pub const MAX_CONTEXT_ACTORS: usize = 64;

/// The most bytes in the encoding of one operation.
pub const MAX_OPERATION_BYTES: usize = 432_768;

/// A context that may be received: of at most sixty-four devices, each an identifier with a
/// counter above zero.
pub open spec fn context_valid(context: Map<Seq<char>, u64>) -> bool {
    &&& ordered(context.dom()).len() <= MAX_CONTEXT_ACTORS
    &&& forall|actor: Seq<char>| #[trigger]
        context.contains_key(actor) ==> uuid_text(actor) && context[actor] > 0
}

/// Whether a context may be received.
fn is_context_valid(context: &VersionVector) -> (valid: bool)
    ensures
        valid == context_valid(context@),
{
    let count: usize = context.0.len();
    if count > MAX_CONTEXT_ACTORS {
        return false;
    }
    let mut i: usize = 0;
    while i < count
        invariant
            count == context.0.keys().len(),
            context.0.lists_keys(),
            i <= count,
            forall|j: int|
                0 <= j < i ==> uuid_text(#[trigger] context.0.keys()[j])
                    && context@[context.0.keys()[j]] > 0,
        decreases count - i,
    {
        let actor = context.0.key_at(i);
        if !is_uuid(actor.as_str()) || *context.0.value_at(i) == 0 {
            return false;
        }
        i = i + 1;
    }
    proof {
        assert forall|actor: Seq<char>| #[trigger] context@.contains_key(actor) implies uuid_text(
            actor,
        ) && context@[actor] > 0 by {
            let j = context.0.keys().index_of(actor);
            assert(context.0.keys()[j] == actor);
        }
    }
    true
}

/// The metadata that an entity of a kind may be given.
pub open spec fn metadata_valid(kind: EntityKind, field: Seq<char>, value: FieldView) -> bool {
    match kind {
        EntityKind::Section => {
            ||| field == "name"@ && value.text() is Some && 0 < value.text()->0.len()
                <= MAX_SECTION_CHARS
            ||| field == "sortIndex"@ && value.fraction() is Some
        },
        EntityKind::Item => {
            ||| field == "sectionId"@ && (value is Null || (value.text() is Some && uuid_text(
                value.text()->0,
            )))
            ||| field == "done"@ && value.boolean() is Some
            ||| field == "createdAt"@ && value.integer() is Some && value.integer()->0 >= 0
        },
        EntityKind::Attachment => {
            ||| field == "itemId"@ && value.text() is Some && uuid_text(value.text()->0)
            ||| (field == "name"@ || field == "mediaType"@) && value.text() is Some && 0
                < vstd::utf8::encode_utf8(value.text()->0).len() <= 1024
            ||| field == "size"@ && value.natural() is Some && value.natural()->0
                <= MAX_ATTACHMENT_BYTES
            ||| field == "manifest"@ && value.manifest() is Some && manifest_valid(
                value.manifest()->0,
            )
        },
    }
}

pub(crate) proof fn lemma_field_names()
    ensures
        "name"@ != "sortIndex"@,
        "sectionId"@ != "done"@,
        "sectionId"@ != "createdAt"@,
        "done"@ != "createdAt"@,
        "itemId"@ != "name"@,
        "itemId"@ != "mediaType"@,
        "itemId"@ != "size"@,
        "itemId"@ != "manifest"@,
        "name"@ != "mediaType"@,
        "name"@ != "size"@,
        "name"@ != "manifest"@,
        "mediaType"@ != "size"@,
        "mediaType"@ != "manifest"@,
        "size"@ != "manifest"@,
{
    reveal_strlit("name");
    reveal_strlit("sortIndex");
    reveal_strlit("sectionId");
    reveal_strlit("done");
    reveal_strlit("createdAt");
    reveal_strlit("itemId");
    reveal_strlit("mediaType");
    reveal_strlit("size");
    reveal_strlit("manifest");
    assert("name"@[0] == 'n');
    assert("size"@[0] == 's');
    assert("sectionId"@[0] == 's');
    assert("createdAt"@[0] == 'c');
    assert("itemId"@.len() == 6);
    assert("mediaType"@.len() == 9);
    assert("manifest"@.len() == 8);
}

fn is_metadata_valid(kind: EntityKind, field: &str, value: &FieldValue) -> (valid: bool)
    ensures
        valid == metadata_valid(kind, field@, value@),
{
    proof {
        lemma_field_names();
    }
    match kind {
        EntityKind::Section => {
            if text_eq(field, "name") {
                match value.as_text() {
                    Some(name) => {
                        let length: usize = name.as_str().unicode_len();
                        0 < length && length <= MAX_SECTION_CHARS
                    },
                    None => false,
                }
            } else if text_eq(field, "sortIndex") {
                value.as_fraction().is_some()
            } else {
                false
            }
        },
        EntityKind::Item => {
            if text_eq(field, "sectionId") {
                match value {
                    FieldValue::Null => true,
                    _ => match value.as_text() {
                        Some(id) => is_uuid(id.as_str()),
                        None => false,
                    },
                }
            } else if text_eq(field, "done") {
                value.as_bool().is_some()
            } else if text_eq(field, "createdAt") {
                match value.as_integer() {
                    Some(moment) => moment >= 0,
                    None => false,
                }
            } else {
                false
            }
        },
        EntityKind::Attachment => {
            if text_eq(field, "itemId") {
                match value.as_text() {
                    Some(id) => is_uuid(id.as_str()),
                    None => false,
                }
            } else if text_eq(field, "name") || text_eq(field, "mediaType") {
                match value.as_text() {
                    Some(text) => {
                        let length: usize = text.as_str().as_bytes().len();
                        0 < length && length <= 1024
                    },
                    None => false,
                }
            } else if text_eq(field, "size") {
                match value.as_natural() {
                    Some(size) => size <= MAX_ATTACHMENT_BYTES,
                    None => false,
                }
            } else if text_eq(field, "manifest") {
                match value.as_manifest() {
                    Some(manifest) => validate_manifest(manifest),
                    None => false,
                }
            } else {
                false
            }
        },
    }
}

/// What may be done to an entity of a kind. Only items have content; anything may be deleted.
pub open spec fn mutation_valid(kind: EntityKind, mutation: MutationView) -> bool {
    match mutation {
        MutationView::SetMetadata { field, value } => metadata_valid(kind, field, value),
        MutationView::SetContent { context, value } => kind == EntityKind::Item && value.len()
            <= MAX_ITEM_CHARS && context_valid(context),
        MutationView::ResolveContent { context, value } => kind == EntityKind::Item && value.len()
            <= MAX_ITEM_CHARS && context_valid(context),
        MutationView::Delete => true,
    }
}

/// An operation that may be received in a workspace, given the length of its encoding.
pub open spec fn operation_valid(
    operation: OperationView,
    workspace: Seq<char>,
    encoded: int,
) -> bool {
    &&& operation.schema_version == SYNC_SCHEMA_VERSION
    &&& operation.workspace == workspace
    &&& operation.dot.counter > 0
    &&& uuid_text(operation.dot.actor)
    &&& uuid_text(operation.entity)
    &&& mutation_valid(operation.kind, operation.mutation)
    &&& encoded <= MAX_OPERATION_BYTES
}

/// Whether an operation may be received in a workspace, given the length of its encoding.
pub fn validate_operation(
    operation: &Operation,
    workspace_id: &str,
    encoded_length: usize,
) -> (result: Result<(), StoreError>)
    ensures
        result is Ok <==> operation_valid(operation@, workspace_id@, encoded_length as int),
        result matches Err(error) ==> error == StoreError::InvalidPayload,
{
    if operation.schema_version != SYNC_SCHEMA_VERSION || !text_eq(
        operation.workspace_id.as_str(),
        workspace_id,
    ) || operation.dot.counter == 0 || !is_uuid(operation.dot.actor_id.as_str()) || !is_uuid(
        operation.entity_id.as_str(),
    ) {
        return Err(StoreError::InvalidPayload);
    }
    let valid = match &operation.mutation {
        Mutation::SetMetadata { field, value } => is_metadata_valid(
            operation.entity_kind,
            field.as_str(),
            value,
        ),
        Mutation::SetContent { context, value } | Mutation::ResolveContent { context, value } => {
            operation.entity_kind == EntityKind::Item && value.as_str().unicode_len()
                <= MAX_ITEM_CHARS && is_context_valid(context)
        },
        Mutation::Delete => true,
    };
    if !valid || encoded_length > MAX_OPERATION_BYTES {
        return Err(StoreError::InvalidPayload);
    }
    Ok(())
}

/// The operations hold one with the given counter.
pub open spec fn has_counter(operations: Seq<OperationView>, counter: int) -> bool {
    exists|i: int| 0 <= i < operations.len() && (#[trigger] operations[i]).dot.counter == counter
}

/// The operations continue what is known without a gap: each that is new either is the next one or
/// comes with its predecessor. The last counter of all is never reached.
pub open spec fn gapless(operations: Seq<OperationView>, current: u64) -> bool {
    forall|i: int|
        0 <= i < operations.len() && (#[trigger] operations[i]).dot.counter > current ==> {
            let counter = operations[i].dot.counter;
            counter < u64::MAX && (counter == current + 1 || has_counter(operations, counter - 1))
        }
}

/// A context together with the events of operations.
pub open spec fn observe_all(
    context: Map<Seq<char>, u64>,
    operations: Seq<OperationView>,
) -> Map<Seq<char>, u64>
    decreases operations.len(),
{
    if operations.len() == 0 {
        context
    } else {
        observe(observe_all(context, operations.drop_last()), operations.last().dot)
    }
}

/// What a peer claims to have seen can be had: it is no more than what is known here together with
/// what it sends.
pub open spec fn claim_covered(
    claimed: Map<Seq<char>, u64>,
    deliverable: Map<Seq<char>, u64>,
) -> bool {
    forall|actor: Seq<char>| #[trigger]
        claimed.contains_key(actor) ==> claimed[actor] <= counter_of(deliverable, actor)
}

fn contains_counter(operations: &[Operation], counter: u64) -> (found: bool)
    ensures
        found == has_counter(views(operations@), counter as int),
{
    let ghost all = views(operations@);
    let mut i: usize = 0;
    while i < operations.len()
        invariant
            all == views(operations@),
            i <= operations@.len(),
            forall|j: int| 0 <= j < i ==> (#[trigger] all[j]).dot.counter != counter,
        decreases operations@.len() - i,
    {
        assert(all[i as int] == operations@[i as int]@);
        if operations[i].dot.counter == counter {
            return true;
        }
        i = i + 1;
    }
    false
}

/// Adds the events of operations to a context.
pub(crate) fn observe_operations(context: &mut VersionVector, operations: &[Operation])
    ensures
        final(context)@ == observe_all(old(context)@, views(operations@)),
{
    let ghost before = context@;
    let ghost all = views(operations@);
    let mut i: usize = 0;
    assert(all.take(0) =~= Seq::empty());
    while i < operations.len()
        invariant
            all == views(operations@),
            i <= operations@.len(),
            context@ == observe_all(before, all.take(i as int)),
        decreases operations@.len() - i,
    {
        proof {
            assert(all[i as int] == operations@[i as int]@);
            assert(all.take(i + 1).drop_last() =~= all.take(i as int));
        }
        context.observe(&operations[i].dot);
        i = i + 1;
    }
    assert(all.take(i as int) =~= all);
}

/// Whether what a peer sends continues what is known of it, and what it claims can be had.
pub fn validate_incoming_frontier_and_sequence(
    known: &VersionVector,
    peer_actor: &str,
    claimed: &VersionVector,
    operations: &[Operation],
) -> (result: Result<(), StoreError>)
    ensures
        result is Ok <==> gapless(views(operations@), counter_of(known@, peer_actor@))
            && claim_covered(claimed@, observe_all(known@, views(operations@))),
        result matches Err(error) ==> error == StoreError::InvalidPayload,
{
    let ghost all = views(operations@);
    let current: u64 = known.counter(peer_actor);
    let mut i: usize = 0;
    while i < operations.len()
        invariant
            all == views(operations@),
            current == counter_of(known@, peer_actor@),
            i <= operations@.len(),
            forall|j: int|
                0 <= j < i && (#[trigger] all[j]).dot.counter > current ==> all[j].dot.counter
                    < u64::MAX && (all[j].dot.counter == current + 1 || has_counter(
                    all,
                    all[j].dot.counter - 1,
                )),
        decreases operations@.len() - i,
    {
        let counter: u64 = operations[i].dot.counter;
        assert(all[i as int].dot.counter == counter);
        if counter > current {
            if counter == 0xffff_ffff_ffff_ffff || !(counter - 1 == current || contains_counter(
                operations,
                counter - 1,
            )) {
                return Err(StoreError::InvalidPayload);
            }
        }
        i = i + 1;
    }
    let mut deliverable = known.duplicate();
    observe_operations(&mut deliverable, operations);
    let count: usize = claimed.0.len();
    let mut k: usize = 0;
    while k < count
        invariant
            count == claimed.0.keys().len(),
            claimed.0.lists_keys(),
            deliverable@ == observe_all(known@, views(operations@)),
            k <= count,
            forall|j: int|
                0 <= j < k ==> claimed@[#[trigger] claimed.0.keys()[j]] <= counter_of(
                    deliverable@,
                    claimed.0.keys()[j],
                ),
        decreases count - k,
    {
        let actor = claimed.0.key_at(k);
        if deliverable.counter(actor.as_str()) < *claimed.0.value_at(k) {
            return Err(StoreError::InvalidPayload);
        }
        k = k + 1;
    }
    proof {
        assert forall|actor: Seq<char>| #[trigger] claimed@.contains_key(actor) implies claimed@[actor]
            <= counter_of(deliverable@, actor) by {
            let j = claimed.0.keys().index_of(actor);
            assert(claimed.0.keys()[j] == actor);
        }
    }
    Ok(())
}

/// The operations of a log.
pub open spec fn log_operations(log: Seq<LoggedView>) -> Seq<OperationView> {
    log.map_values(|entry: LoggedView| entry.operation)
}

/// The operations of the log that a context does not include.
pub open spec fn missing(log: Seq<LoggedView>, frontier: Map<Seq<char>, u64>) -> Seq<
    OperationView,
> {
    log_operations(log).filter(|operation: OperationView| !observes(frontier, operation.dot))
}

/// One page of the operations that a context does not include: the first two thousand.
pub open spec fn delta(log: Seq<LoggedView>, frontier: Map<Seq<char>, u64>) -> Seq<
    OperationView,
> {
    let all = missing(log, frontier);
    if all.len() <= MAX_REMOTE_OPS {
        all
    } else {
        all.take(MAX_REMOTE_OPS as int)
    }
}

/// One page of the operations that a context does not include.
pub fn load_delta(log: &[LoggedOperation], frontier: &VersionVector) -> (operations: Vec<Operation>)
    ensures
        views(operations@) == delta(views(log@), frontier@),
{
    let ghost said = log_operations(views(log@));
    let ghost lacks = |operation: OperationView| !observes(frontier@, operation.dot);
    let mut operations: Vec<Operation> = Vec::new();
    let mut i: usize = 0;
    proof {
        reveal(Seq::filter);
        assert(views(operations@) =~= said.take(0).filter(lacks));
    }
    while i < log.len() && operations.len() < MAX_REMOTE_OPS
        invariant
            said == log_operations(views(log@)),
            lacks == (|operation: OperationView| !observes(frontier@, operation.dot)),
            i <= log@.len(),
            operations@.len() <= MAX_REMOTE_OPS,
            views(operations@) == said.take(i as int).filter(lacks),
        decreases log@.len() - i,
    {
        let entry = &log[i];
        proof {
            reveal(Seq::filter);
            assert(said[i as int] == entry@.operation);
            assert(said.take(i + 1).drop_last() =~= said.take(i as int));
        }
        if !frontier.observes(&entry.operation.dot) {
            let ghost held = operations@;
            let copy = entry.operation.duplicate();
            operations.push(copy);
            assert(views(operations@) =~= views(held).push(copy@));
        }
        i = i + 1;
    }
    proof {
        lemma_filter_split(said, i as int, lacks);
        let all = said.filter(lacks);
        let head = said.take(i as int).filter(lacks);
        if i == log@.len() {
            assert(said.take(i as int) =~= said);
            if all.len() == MAX_REMOTE_OPS {
                assert(all.take(MAX_REMOTE_OPS as int) =~= all);
            }
        } else {
            assert(all.take(MAX_REMOTE_OPS as int) =~= head);
            if all.len() <= MAX_REMOTE_OPS {
                assert(all =~= head);
            }
        }
    }
    operations
}

proof fn lemma_filter_split(
    all: Seq<OperationView>,
    n: int,
    keep: spec_fn(OperationView) -> bool,
)
    requires
        0 <= n <= all.len(),
    ensures
        all.filter(keep) == all.take(n).filter(keep) + all.skip(n).filter(keep),
    decreases all.len() - n,
{
    reveal(Seq::filter);
    if n == all.len() {
        assert(all.take(n) =~= all);
        assert(all.skip(n) =~= Seq::empty());
        assert(all.skip(n).filter(keep) =~= Seq::empty());
        assert(all.filter(keep) =~= all.take(n).filter(keep) + all.skip(n).filter(keep));
    } else {
        let h = all.drop_last();
        lemma_filter_split_step(all, n, keep);
    }
}

proof fn lemma_filter_split_step(
    all: Seq<OperationView>,
    n: int,
    keep: spec_fn(OperationView) -> bool,
)
    requires
        0 <= n < all.len(),
    ensures
        all.filter(keep) == all.take(n).filter(keep) + all.skip(n).filter(keep),
    decreases all.len(),
{
    reveal(Seq::filter);
    let h = all.drop_last();
    if n < h.len() {
        lemma_filter_split_step(h, n, keep);
    } else {
        assert(h.take(n) =~= h);
        assert(h.skip(n) =~= Seq::empty());
        assert(h.skip(n).filter(keep) =~= Seq::empty());
        assert(h.filter(keep) =~= h.take(n).filter(keep) + h.skip(n).filter(keep));
    }
    assert(h.take(n) =~= all.take(n));
    assert(all.skip(n).drop_last() =~= h.skip(n));
    assert(all.filter(keep) =~= all.take(n).filter(keep) + all.skip(n).filter(keep));
}

/// The entities that new operations have touched.
pub struct Touched {
    pub sections: Set<Seq<char>>,
    pub items: Set<Seq<char>>,
}

/// The entities touched, together with that of an operation. Attachments are shown once their
/// chunks are there, not here.
pub open spec fn touching(touched: Touched, operation: OperationView) -> Touched {
    match operation.kind {
        EntityKind::Section => Touched {
            sections: touched.sections.insert(operation.entity),
            ..touched
        },
        EntityKind::Item => Touched { items: touched.items.insert(operation.entity), ..touched },
        EntityKind::Attachment => touched,
    }
}

/// The copy after operations arrive, and the entities that the new ones touched.
pub open spec fn received(state: ReplicaView, operations: Seq<OperationView>, now: i64) -> Result<
    (ReplicaView, Touched),
    StoreError,
>
    decreases operations.len(),
{
    if operations.len() == 0 {
        Ok((state, Touched { sections: Set::empty(), items: Set::empty() }))
    } else {
        match received(state, operations.drop_last(), now) {
            Err(error) => Err(error),
            Ok((before, touched)) => match inserted(before, operations.last(), now) {
                Err(error) => Err(error),
                Ok((after, new)) => Ok(
                    (
                        after,
                        if new {
                            touching(touched, operations.last())
                        } else {
                            touched
                        },
                    ),
                ),
            },
        }
    }
}

/// The copy after several sections were shown, one after the other.
pub open spec fn sections_shown(
    state: ReplicaView,
    ids: Seq<Seq<char>>,
    now: WholeNumber,
) -> ReplicaView
    decreases ids.len(),
{
    if ids.len() == 0 {
        state
    } else {
        let before = sections_shown(state, ids.drop_last(), now);
        section_shown(before, ids.last(), state.entities[(EntityKind::Section, ids.last())], now)
    }
}

/// The copy after the touched entities were shown: sections before items, each in the order of
/// their identifiers.
pub open spec fn touched_shown(
    state: ReplicaView,
    touched: Touched,
    now: WholeNumber,
) -> ReplicaView {
    items_shown(
        sections_shown(state, ordered(touched.sections), now),
        ordered(touched.items),
        now,
    )
}

/// The payload follows the rules: it is for this workspace, from a device that speaks for itself
/// alone, within the limits, and each of its operations may be received.
pub open spec fn payload_valid(
    payload: PayloadView,
    workspace: Seq<char>,
    peer: Seq<char>,
    sizes: Seq<usize>,
) -> bool {
    &&& payload.schema_version == SYNC_SCHEMA_VERSION
    &&& payload.workspace == workspace
    &&& payload.operations.len() <= MAX_REMOTE_OPS
    &&& uuid_text(peer)
    &&& context_valid(payload.frontier)
    &&& forall|i: int|
        0 <= i < payload.operations.len() ==> (#[trigger] payload.operations[i]).dot.actor == peer
            && operation_valid(payload.operations[i], workspace, sizes[i] as int)
}

/// What an exchange comes to: the copy after it, and the answer. The answer's frontier says what
/// the peer has once it takes the answer in: what it had, and what is on this page. It is not all
/// that is known here; otherwise the pages behind this one would be skipped.
pub open spec fn exchanged(
    state: ReplicaView,
    peer: Seq<char>,
    payload: PayloadView,
    sizes: Seq<usize>,
    now: WholeNumber,
) -> Result<(ReplicaView, PayloadView), StoreError> {
    if !payload_valid(payload, state.workspace, peer, sizes) {
        Err(StoreError::InvalidPayload)
    } else if !gapless(payload.operations, counter_of(state.frontier, peer)) || !claim_covered(
        payload.frontier,
        observe_all(state.frontier, payload.operations),
    ) {
        Err(StoreError::InvalidPayload)
    } else {
        match received(state, payload.operations, now.value) {
            Err(error) => Err(error),
            Ok((taken, touched)) => {
                let shown = touched_shown(taken, touched, now);
                let peer_frontier = observe_all(payload.frontier, payload.operations);
                let answer = delta(shown.log, peer_frontier);
                Ok(
                    (
                        ReplicaView {
                            peers: shown.peers.insert(
                                peer,
                                PeerView { last_seen: now.value, frontier: peer_frontier },
                            ),
                            ..shown
                        },
                        PayloadView {
                            schema_version: SYNC_SCHEMA_VERSION,
                            workspace: state.workspace,
                            frontier: observe_all(peer_frontier, answer),
                            operations: answer,
                        },
                    ),
                )
            },
        }
    }
}

fn is_payload_valid(
    payload: &SyncPayload,
    workspace_id: &str,
    peer_actor: &str,
    sizes: &[usize],
) -> (valid: bool)
    requires
        sizes@.len() == payload.operations@.len(),
    ensures
        valid == payload_valid(payload@, workspace_id@, peer_actor@, sizes@),
{
    if payload.schema_version != SYNC_SCHEMA_VERSION || !text_eq(
        payload.workspace_id.as_str(),
        workspace_id,
    ) || payload.operations.len() > MAX_REMOTE_OPS || !is_uuid(peer_actor) || !is_context_valid(
        &payload.frontier,
    ) {
        return false;
    }
    let ghost all = payload@.operations;
    let mut i: usize = 0;
    while i < payload.operations.len()
        invariant
            sizes@.len() == payload.operations@.len(),
            all == payload@.operations,
            i <= payload.operations@.len(),
            forall|j: int|
                0 <= j < i ==> (#[trigger] all[j]).dot.actor == peer_actor@ && operation_valid(
                    all[j],
                    workspace_id@,
                    sizes@[j] as int,
                ),
        decreases payload.operations@.len() - i,
    {
        let operation = &payload.operations[i];
        assert(all[i as int] == operation@);
        if !text_eq(operation.dot.actor_id.as_str(), peer_actor) {
            return false;
        }
        if validate_operation(operation, workspace_id, sizes[i]).is_err() {
            return false;
        }
        i = i + 1;
    }
    true
}

proof fn lemma_received_error(
    state: ReplicaView,
    operations: Seq<OperationView>,
    n: int,
    now: i64,
    error: StoreError,
)
    requires
        0 <= n <= operations.len(),
        received(state, operations.take(n), now) == Err::<(ReplicaView, Touched), StoreError>(error),
    ensures
        received(state, operations, now) == Err::<(ReplicaView, Touched), StoreError>(error),
    decreases operations.len() - n,
{
    if n < operations.len() {
        assert(operations.take(n + 1).drop_last() =~= operations.take(n));
        lemma_received_error(state, operations, n + 1, now, error);
    } else {
        assert(operations.take(n) =~= operations);
    }
}

/// New operations add to what is known of entities and leave what is shown alone.
proof fn lemma_received_entities(state: ReplicaView, operations: Seq<OperationView>, now: i64)
    ensures
        received(state, operations, now) matches Ok((after, touched)) ==> {
            &&& forall|id: Seq<char>| #[trigger]
                touched.sections.contains(id) ==> after.entities.contains_key(
                    (EntityKind::Section, id),
                )
            &&& forall|id: Seq<char>| #[trigger]
                touched.items.contains(id) ==> after.entities.contains_key((EntityKind::Item, id))
            &&& after.workspace == state.workspace
        },
    decreases operations.len(),
{
    if operations.len() > 0 {
        lemma_received_entities(state, operations.drop_last(), now);
    }
}

impl Replica {
    /// Takes operations in, and notes which sections and items the new ones touched.
    fn receive(
        &mut self,
        operations: &[Operation],
        now: i64,
        sections: &mut TextMap<bool>,
        items: &mut TextMap<bool>,
    ) -> (result: Result<(), StoreError>)
        requires
            old(sections)@.dom() == Set::<Seq<char>>::empty(),
            old(items)@.dom() == Set::<Seq<char>>::empty(),
        ensures
            match received(old(self)@, views(operations@), now) {
                Err(error) => result == Err::<(), StoreError>(error),
                Ok((state, touched)) => result is Ok && final(self)@ == state && final(
                    sections)@.dom() == touched.sections && final(items)@.dom() == touched.items,
            },
    {
        let ghost before = self@;
        let ghost all = views(operations@);
        let mut i: usize = 0;
        assert(all.take(0) =~= Seq::empty());
        while i < operations.len()
            invariant
                before == old(self)@,
                all == views(operations@),
                i <= operations@.len(),
                received(before, all.take(i as int), now) == Ok::<
                    (ReplicaView, Touched),
                    StoreError,
                >((self@, Touched { sections: sections@.dom(), items: items@.dom() })),
            decreases operations@.len() - i,
        {
            let operation = &operations[i];
            proof {
                assert(all[i as int] == operation@);
                assert(all.take(i + 1).drop_last() =~= all.take(i as int));
            }
            let ghost held = Touched { sections: sections@.dom(), items: items@.dom() };
            match self.insert_operation(operation, now) {
                Err(error) => {
                    proof {
                        lemma_received_error(before, all, i + 1, now, error);
                    }
                    return Err(error);
                },
                Ok(new) => {
                    if new {
                        match operation.entity_kind {
                            EntityKind::Section => {
                                sections.insert(operation.entity_id.duplicate(), true);
                                assert(sections@.dom() =~= held.sections.insert(
                                    operation@.entity,
                                ));
                            },
                            EntityKind::Item => {
                                items.insert(operation.entity_id.duplicate(), true);
                                assert(items@.dom() =~= held.items.insert(operation@.entity));
                            },
                            EntityKind::Attachment => {},
                        }
                    }
                },
            }
            i = i + 1;
        }
        assert(all.take(i as int) =~= all);
        Ok(())
    }

    fn show_sections(&mut self, ids: &TextMap<bool>, now: WholeNumber)
        requires
            forall|id: Seq<char>| #[trigger]
                ids@.contains_key(id) ==> old(self)@.entities.contains_key(
                    (EntityKind::Section, id),
                ),
        ensures
            final(self)@ == sections_shown(old(self)@, ordered(ids@.dom()), now),
    {
        let ghost start = self@;
        let count: usize = ids.len();
        let ghost keys = ids.keys();
        let mut i: usize = 0;
        assert(keys.take(0) =~= Seq::empty());
        while i < count
            invariant
                start == old(self)@,
                count == ids.keys().len(),
                keys == ids.keys(),
                i <= count,
                forall|id: Seq<char>| #[trigger]
                    ids@.contains_key(id) ==> start.entities.contains_key(
                        (EntityKind::Section, id),
                    ),
                self@ == sections_shown(start, keys.take(i as int), now),
                self@.entities == start.entities,
            decreases count - i,
        {
            let id = ids.key_at(i);
            proof {
                assert(keys.take(i + 1).drop_last() =~= keys.take(i as int));
            }
            let state = match self.entities.get(EntityKind::Section, id.as_str()) {
                Some(found) => found.duplicate(),
                None => EntityState::default(),
            };
            proof {
                lemma_section_entities(self@, id@, state@, now);
            }
            self.project_section(id.as_str(), &state, now);
            i = i + 1;
        }
        assert(keys.take(count as int) =~= keys);
    }

    fn show_items(&mut self, ids: &TextMap<bool>, now: WholeNumber)
        requires
            forall|id: Seq<char>| #[trigger]
                ids@.contains_key(id) ==> old(self)@.entities.contains_key((EntityKind::Item, id)),
        ensures
            final(self)@ == items_shown(old(self)@, ordered(ids@.dom()), now),
    {
        let ghost start = self@;
        let count: usize = ids.len();
        let ghost keys = ids.keys();
        let mut i: usize = 0;
        assert(keys.take(0) =~= Seq::empty());
        while i < count
            invariant
                start == old(self)@,
                count == ids.keys().len(),
                keys == ids.keys(),
                i <= count,
                forall|id: Seq<char>| #[trigger]
                    ids@.contains_key(id) ==> start.entities.contains_key((EntityKind::Item, id)),
                self@ == items_shown(start, keys.take(i as int), now),
                self@.entities == start.entities,
            decreases count - i,
        {
            let id = ids.key_at(i);
            proof {
                assert(keys.take(i + 1).drop_last() =~= keys.take(i as int));
            }
            let state = match self.entities.get(EntityKind::Item, id.as_str()) {
                Some(found) => found.duplicate(),
                None => EntityState::default(),
            };
            self.project_item(id.as_str(), &state, now);
            i = i + 1;
        }
        assert(keys.take(count as int) =~= keys);
    }

    /// Takes in what a peer sends and answers with what it lacks. A payload that does not follow
    /// the rules, leaves a gap, claims more than can be had or contradicts what is known is refused,
    /// and then nothing changes. The sizes are the lengths of the encodings of the operations.
    pub fn exchange(
        &mut self,
        peer_actor: &str,
        incoming: &SyncPayload,
        sizes: &[usize],
        now: WholeNumber,
    ) -> (result: Result<SyncPayload, StoreError>)
        requires
            sizes@.len() == incoming.operations@.len(),
        ensures
            match exchanged(old(self)@, peer_actor@, incoming@, sizes@, now) {
                Err(error) => result == Err::<SyncPayload, StoreError>(error) && final(self)@ == old(
                    self)@,
                Ok((state, answer)) => final(self)@ == state && (result matches Ok(payload)
                    && payload@ == answer),
            },
    {
        if !is_payload_valid(incoming, self.workspace_id.as_str(), peer_actor, sizes) {
            return Err(StoreError::InvalidPayload);
        }
        if let Err(error) = validate_incoming_frontier_and_sequence(
            &self.frontier,
            peer_actor,
            &incoming.frontier,
            incoming.operations.as_slice(),
        ) {
            return Err(error);
        }
        let mut work = self.copied();
        let mut sections: TextMap<bool> = TextMap::new();
        let mut items: TextMap<bool> = TextMap::new();
        proof {
            assert(sections@.dom() =~= Set::<Seq<char>>::empty());
            assert(items@.dom() =~= Set::<Seq<char>>::empty());
            lemma_received_entities(self@, incoming@.operations, now.value);
        }
        if let Err(error) = work.receive(
            incoming.operations.as_slice(),
            now.value,
            &mut sections,
            &mut items,
        ) {
            return Err(error);
        }
        let ghost taken = work@;
        proof {
            assert forall|id: Seq<char>| #[trigger] sections@.contains_key(
                id,
            ) implies taken.entities.contains_key((EntityKind::Section, id)) by {
                assert(sections@.dom().contains(id));
            }
            assert forall|id: Seq<char>| #[trigger] items@.contains_key(
                id,
            ) implies taken.entities.contains_key((EntityKind::Item, id)) by {
                assert(items@.dom().contains(id));
            }
        }
        work.show_sections(&sections, now);
        proof {
            lemma_sections_entities(taken, ordered(sections@.dom()), now);
        }
        let ghost shown = work@;
        work.show_items(&items, now);
        proof {
            lemma_items_entities(shown, ordered(items@.dom()), now);
        }
        let mut frontier = incoming.frontier.duplicate();
        observe_operations(&mut frontier, incoming.operations.as_slice());
        work.peers.insert(
            peer_actor.to_owned(),
            Peer { last_seen: now.value, frontier: frontier.duplicate() },
        );
        let operations = load_delta(work.log.as_slice(), &frontier);
        observe_operations(&mut frontier, operations.as_slice());
        let workspace_id = work.workspace_id.duplicate();
        *self = work;
        Ok(SyncPayload { schema_version: SYNC_SCHEMA_VERSION, workspace_id, frontier, operations })
    }
}

pub(crate) proof fn lemma_items_entities(state: ReplicaView, ids: Seq<Seq<char>>, now: WholeNumber)
    ensures
        items_shown(state, ids, now).entities == state.entities,
        items_shown(state, ids, now).log == state.log,
        items_shown(state, ids, now).frontier == state.frontier,
        items_shown(state, ids, now).workspace == state.workspace,
        items_shown(state, ids, now).peers == state.peers,
        items_shown(state, ids, now).clocks == state.clocks,
    decreases ids.len(),
{
    if ids.len() > 0 {
        lemma_items_entities(state, ids.drop_last(), now);
    }
}

proof fn lemma_section_entities(
    state: ReplicaView,
    id: Seq<char>,
    entity: crate::model::EntityView,
    now: WholeNumber,
)
    ensures
        section_shown(state, id, entity, now).entities == state.entities,
        section_shown(state, id, entity, now).log == state.log,
        section_shown(state, id, entity, now).frontier == state.frontier,
        section_shown(state, id, entity, now).workspace == state.workspace,
        section_shown(state, id, entity, now).peers == state.peers,
        section_shown(state, id, entity, now).clocks == state.clocks,
{
    if let Some(name) = crate::projection::text_field(entity, "name"@) {
        let placed = crate::projection::section_placed(
            state,
            id,
            name,
            crate::projection::section_place(entity, now),
            now,
        );
        lemma_items_entities(placed, crate::projection::dependents(placed, id), now);
    }
}

pub(crate) proof fn lemma_sections_entities(state: ReplicaView, ids: Seq<Seq<char>>, now: WholeNumber)
    ensures
        sections_shown(state, ids, now).entities == state.entities,
        sections_shown(state, ids, now).log == state.log,
        sections_shown(state, ids, now).frontier == state.frontier,
        sections_shown(state, ids, now).workspace == state.workspace,
        sections_shown(state, ids, now).peers == state.peers,
        sections_shown(state, ids, now).clocks == state.clocks,
    decreases ids.len(),
{
    if ids.len() > 0 {
        lemma_sections_entities(state, ids.drop_last(), now);
        lemma_section_entities(
            sections_shown(state, ids.drop_last(), now),
            ids.last(),
            state.entities[(EntityKind::Section, ids.last())],
            now,
        );
    }
}

} // verus!
