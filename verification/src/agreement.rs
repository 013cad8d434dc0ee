//! Why copies of a workspace agree: each entity is what the logged operations on it add up to, and
//! the edits that devices make follow what they have seen.

use vstd::prelude::*;

use crate::convergence::{
    assignments, causal, entity_of, lemma_assignment_members, lemma_entities_converge,
};
use crate::exchange::{
    exchanged, lemma_items_entities, lemma_sections_entities, log_operations, received,
    sections_shown,
};
use crate::log_laws::{
    dots_distinct, lemma_emit_ready, lemma_log_with_members, logged_up_to, ready, sound,
};
use crate::model::{
    assignment, blank_entity, counter_of, covers, observes, DotView, EntityKind, MutationView,
    OperationView, PayloadView, VersionView, WholeNumber,
};
use crate::scan::{
    changed_fields, deletions_emitted, diff_emitted, emitted, fields_emitted, kind_swept,
    operation_at, records_scanned, scanned, shadow_of, vanished,
};
use crate::store::{
    empty_replica, entity_state, inserted, is_logged, log_with, LoggedView, RecordView, ReplicaView,
};
use crate::textmap::ordered;

verus! {

/// The log holds the operation.
pub open spec fn holds(log: Seq<LoggedView>, operation: OperationView) -> bool {
    exists|i: int| 0 <= i < log.len() && (#[trigger] log[i]).operation == operation
}

/// The history consists of the logged operations on an entity, in some order.
pub open spec fn entity_history(
    log: Seq<LoggedView>,
    kind: EntityKind,
    id: Seq<char>,
    history: Seq<OperationView>,
) -> bool {
    forall|operation: OperationView| #[trigger]
        history.contains(operation) <==> holds(log, operation) && operation.kind == kind
            && operation.entity == id
}

/// The entity is what the logged operations on it add up to, and is known where there are any.
pub open spec fn adds_up(state: ReplicaView, kind: EntityKind, id: Seq<char>) -> bool {
    exists|history: Seq<OperationView>| #[trigger]
        entity_history(state.log, kind, id, history) && entity_state(state.entities, kind, id)
            == entity_of(blank_entity(), history) && (state.entities.contains_key((kind, id))
            <==> history.len() > 0)
}

/// Every entity is what the logged operations on it add up to.
pub open spec fn entities_add_up(state: ReplicaView) -> bool {
    forall|kind: EntityKind, id: Seq<char>| #[trigger] adds_up(state, kind, id)
}

pub(crate) proof fn lemma_holds_grows(log: Seq<LoggedView>, entry: LoggedView)
    ensures
        forall|operation: OperationView| #[trigger]
            holds(log_with(log, entry), operation) <==> holds(log, operation)
                || operation == entry.operation,
{
    let result = log_with(log, entry);
    lemma_log_with_members(log, entry);
    assert forall|operation: OperationView| #[trigger] holds(result, operation) <==> holds(
        log,
        operation,
    ) || operation == entry.operation by {
        if holds(log, operation) {
            let i = choose|i: int| 0 <= i < log.len() && (#[trigger] log[i]).operation == operation;
            assert(log.contains(log[i]));
            assert(result.contains(log[i]));
            assert(result[result.index_of(log[i])].operation == operation);
        }
        if operation == entry.operation {
            assert(result.contains(entry));
            assert(result[result.index_of(entry)].operation == operation);
        }
        if holds(result, operation) {
            let i = choose|i: int|
                0 <= i < result.len() && (#[trigger] result[i]).operation == operation;
            assert(result.contains(result[i]));
            if result[i] != entry {
                assert(log[log.index_of(result[i])].operation == operation);
            }
        }
    }
}

/// Whatever operation arrives, every entity stays what its operations add up to.
pub proof fn lemma_arrival_adds_up(state: ReplicaView, operation: OperationView, now: i64)
    requires
        entities_add_up(state),
    ensures
        inserted(state, operation, now) matches Ok((after, new)) ==> entities_add_up(after),
{
    if let Ok((after, new)) = inserted(state, operation, now) {
        if new {
            lemma_holds_grows(state.log, LoggedView { operation, received_at: now });
            assert forall|kind: EntityKind, id: Seq<char>| #[trigger] adds_up(after, kind, id) by {
                assert(adds_up(state, kind, id));
                let history = choose|history: Seq<OperationView>| #[trigger]
                    entity_history(state.log, kind, id, history) && entity_state(
                        state.entities,
                        kind,
                        id,
                    ) == entity_of(blank_entity(), history) && (state.entities.contains_key(
                        (kind, id),
                    ) <==> history.len() > 0);
                if operation.kind == kind && operation.entity == id {
                    let longer = history.push(operation);
                    assert(longer.drop_last() =~= history);
                    assert forall|any: OperationView| #[trigger] longer.contains(any) <==> holds(
                        after.log,
                        any,
                    ) && any.kind == kind && any.entity == id by {
                        if history.contains(any) {
                            assert(longer[history.index_of(any)] == any);
                        }
                        if any == operation {
                            assert(longer[history.len() as int] == any);
                        }
                        if longer.contains(any) && any != operation {
                            assert(history[longer.index_of(any)] == any);
                            assert(history.contains(any));
                        }
                    }
                    assert(entity_history(after.log, kind, id, longer));
                } else {
                    assert forall|any: OperationView| #[trigger] history.contains(any) <==> holds(
                        after.log,
                        any,
                    ) && any.kind == kind && any.entity == id by {
                    }
                    assert(entity_history(after.log, kind, id, history));
                }
            }
        }
    }
}

proof fn lemma_received_adds_up(state: ReplicaView, operations: Seq<OperationView>, now: i64)
    requires
        entities_add_up(state),
    ensures
        received(state, operations, now) matches Ok((after, touched)) ==> entities_add_up(after),
    decreases operations.len(),
{
    if operations.len() > 0 {
        let shorter = operations.drop_last();
        let last = operations.last();
        lemma_received_adds_up(state, shorter, now);
        if let Ok((before, touched)) = received(state, shorter, now) {
            lemma_arrival_adds_up(before, last, now);
        }
    }
}

/// Nothing but what is shown differs.
spec fn only_shown(before: ReplicaView, after: ReplicaView) -> bool {
    after.log == before.log && after.entities == before.entities && after.frontier
        == before.frontier
}

proof fn lemma_exchange_takes_in(
    state: ReplicaView,
    peer: Seq<char>,
    payload: PayloadView,
    sizes: Seq<usize>,
    now: WholeNumber,
)
    ensures
        exchanged(state, peer, payload, sizes, now) matches Ok((after, answer)) ==> (received(
            state,
            payload.operations,
            now.value,
        ) matches Ok((taken, touched)) && only_shown(taken, after)),
{
    if let Ok((taken, touched)) = received(state, payload.operations, now.value) {
        let sections = sections_shown(taken, ordered(touched.sections), now);
        lemma_sections_entities(taken, ordered(touched.sections), now);
        lemma_items_entities(sections, ordered(touched.items), now);
    }
}

/// An exchange keeps every entity what its operations add up to.
pub proof fn lemma_exchange_adds_up(
    state: ReplicaView,
    peer: Seq<char>,
    payload: PayloadView,
    sizes: Seq<usize>,
    now: WholeNumber,
)
    requires
        entities_add_up(state),
    ensures
        exchanged(state, peer, payload, sizes, now) matches Ok((after, answer)) ==> entities_add_up(
            after,
        ),
{
    lemma_exchange_takes_in(state, peer, payload, sizes, now);
    lemma_received_adds_up(state, payload.operations, now.value);
    if let Ok((after, answer)) = exchanged(state, peer, payload, sizes, now) {
        let taken = received(state, payload.operations, now.value)->Ok_0.0;
        lemma_adds_up_alike(taken, after);
    }
}

proof fn lemma_adds_up_alike(before: ReplicaView, after: ReplicaView)
    requires
        entities_add_up(before),
        after.log == before.log,
        after.entities == before.entities,
    ensures
        entities_add_up(after),
{
    assert forall|kind: EntityKind, id: Seq<char>| #[trigger] adds_up(after, kind, id) by {
        assert(adds_up(before, kind, id));
    }
}

proof fn lemma_emit_adds_up(
    state: ReplicaView,
    actor: Seq<char>,
    kind: EntityKind,
    id: Seq<char>,
    mutation: MutationView,
    now: i64,
)
    requires
        entities_add_up(state),
    ensures
        emitted(state, actor, kind, id, mutation, now) matches Ok(after) ==> entities_add_up(after),
{
    let last = counter_of(state.clocks, actor);
    if last < u64::MAX {
        let counter = (last + 1) as u64;
        let ticked = ReplicaView { clocks: state.clocks.insert(actor, counter), ..state };
        lemma_adds_up_alike(state, ticked);
        lemma_arrival_adds_up(
            ticked,
            operation_at(state, actor, counter, kind, id, mutation),
            now,
        );
    }
}

proof fn lemma_fields_add_up(
    state: ReplicaView,
    actor: Seq<char>,
    record: RecordView,
    fields: Seq<Seq<char>>,
    now: i64,
)
    requires
        entities_add_up(state),
    ensures
        fields_emitted(state, actor, record, fields, now) matches Ok(after) ==> entities_add_up(
            after,
        ),
    decreases fields.len(),
{
    if fields.len() > 0 {
        lemma_fields_add_up(state, actor, record, fields.drop_last(), now);
        if let Ok(mid) = fields_emitted(state, actor, record, fields.drop_last(), now) {
            lemma_emit_adds_up(
                mid,
                actor,
                record.kind,
                record.id,
                MutationView::SetMetadata {
                    field: fields.last(),
                    value: record.shadow.fields[fields.last()],
                },
                now,
            );
        }
    }
}

proof fn lemma_records_add_up(
    state: ReplicaView,
    actor: Seq<char>,
    records: Seq<RecordView>,
    now: i64,
)
    requires
        entities_add_up(state),
    ensures
        records_scanned(state, actor, records, now) matches Ok((after, count)) ==> entities_add_up(
            after,
        ),
    decreases records.len(),
{
    if records.len() > 0 {
        lemma_records_add_up(state, actor, records.drop_last(), now);
        if let Ok((mid, count)) = records_scanned(state, actor, records.drop_last(), now) {
            let record = records.last();
            let previous = shadow_of(mid.shadows, record.kind, record.id);
            let fields = changed_fields(previous, record.shadow);
            lemma_fields_add_up(mid, actor, record, fields, now);
            if let Ok(told) = fields_emitted(mid, actor, record, fields, now) {
                lemma_emit_adds_up(
                    told,
                    actor,
                    record.kind,
                    record.id,
                    MutationView::SetContent {
                        context: told.frontier,
                        value: record.shadow.content->0,
                    },
                    now,
                );
            }
            if let Ok(told) = diff_emitted(mid, actor, previous, record, now) {
                lemma_adds_up_alike(
                    told,
                    ReplicaView {
                        shadows: told.shadows.insert((record.kind, record.id), record.shadow),
                        ..told
                    },
                );
            }
        }
    }
}

proof fn lemma_deletions_add_up(
    state: ReplicaView,
    actor: Seq<char>,
    kind: EntityKind,
    ids: Seq<Seq<char>>,
    now: i64,
)
    requires
        entities_add_up(state),
    ensures
        deletions_emitted(state, actor, kind, ids, now) matches Ok(after) ==> entities_add_up(after),
    decreases ids.len(),
{
    if ids.len() > 0 {
        lemma_deletions_add_up(state, actor, kind, ids.drop_last(), now);
        if let Ok(mid) = deletions_emitted(state, actor, kind, ids.drop_last(), now) {
            lemma_emit_adds_up(mid, actor, kind, ids.last(), MutationView::Delete, now);
            if let Ok(told) = emitted(mid, actor, kind, ids.last(), MutationView::Delete, now) {
                lemma_adds_up_alike(
                    told,
                    ReplicaView { shadows: told.shadows.remove((kind, ids.last())), ..told },
                );
            }
        }
    }
}

/// A scan keeps every entity what its operations add up to.
pub proof fn lemma_scan_adds_up(
    state: ReplicaView,
    actor: Seq<char>,
    records: Seq<RecordView>,
    now: i64,
)
    requires
        entities_add_up(state),
    ensures
        scanned(state, actor, records, now) matches Ok((after, count)) ==> entities_add_up(after),
{
    lemma_records_add_up(state, actor, records, now);
    if let Ok((looked, a)) = records_scanned(state, actor, records, now) {
        lemma_deletions_add_up(
            looked,
            actor,
            EntityKind::Attachment,
            vanished(looked.shadows, records, EntityKind::Attachment),
            now,
        );
        if let Ok((first, b)) = kind_swept(looked, actor, records, EntityKind::Attachment, now) {
            lemma_deletions_add_up(
                first,
                actor,
                EntityKind::Item,
                vanished(first.shadows, records, EntityKind::Item),
                now,
            );
            if let Ok((second, c)) = kind_swept(first, actor, records, EntityKind::Item, now) {
                lemma_deletions_add_up(
                    second,
                    actor,
                    EntityKind::Section,
                    vanished(second.shadows, records, EntityKind::Section),
                    now,
                );
            }
        }
    }
}

/// The edits that a log holds, in its order.
pub open spec fn edits(log: Seq<LoggedView>) -> Seq<VersionView> {
    assignments(log_operations(log))
}

/// What the logged edits had observed is known here.
pub open spec fn contexts_known(state: ReplicaView) -> bool {
    forall|v: VersionView| #[trigger]
        edits(state.log).contains(v) ==> covers(state.frontier, v.context)
}

/// The edits of the log follow each other as devices make them, and what they had observed is known
/// here.
pub open spec fn causal_copy(state: ReplicaView) -> bool {
    causal(edits(state.log)) && contexts_known(state)
}

/// A copy in which nothing has happened yet is in good order.
pub proof fn lemma_new_copy(workspace: Seq<char>)
    ensures
        sound(empty_replica(workspace)),
        entities_add_up(empty_replica(workspace)),
        causal_copy(empty_replica(workspace)),
{
    let state = empty_replica(workspace);
    assert forall|kind: EntityKind, id: Seq<char>| #[trigger] adds_up(state, kind, id) by {
        assert(entity_history(state.log, kind, id, Seq::empty()));
    }
    assert(edits(state.log) =~= Seq::empty());
}

/// No dot stands for different operations in the two logs.
pub open spec fn logs_agree(a: Seq<LoggedView>, b: Seq<LoggedView>) -> bool {
    forall|x: OperationView, y: OperationView|
        #![trigger holds(a, x), holds(b, y)]
        holds(a, x) && holds(b, y) && x.dot == y.dot ==> x == y
}

proof fn lemma_edits(log: Seq<LoggedView>)
    ensures
        forall|v: VersionView| #[trigger]
            edits(log).contains(v) <==> exists|operation: OperationView| #[trigger]
                holds(log, operation) && assignment(operation) == Some(v),
{
    let operations = log_operations(log);
    lemma_assignment_members(operations);
    assert forall|v: VersionView| #[trigger] edits(log).contains(v) <==> exists|
        operation: OperationView,
    | #[trigger] holds(log, operation) && assignment(operation) == Some(v) by {
        if edits(log).contains(v) {
            let i = choose|i: int|
                0 <= i < operations.len() && assignment(#[trigger] operations[i]) == Some(v);
            assert(log[i].operation == operations[i]);
            assert(holds(log, operations[i]));
        }
        if exists|operation: OperationView| #[trigger]
            holds(log, operation) && assignment(operation) == Some(v) {
            let operation = choose|operation: OperationView| #[trigger]
                holds(log, operation) && assignment(operation) == Some(v);
            let i = choose|i: int| 0 <= i < log.len() && (#[trigger] log[i]).operation == operation;
            assert(assignment(operations[i]) == Some(v));
        }
    }
}

/// The two edits follow each other as devices make them.
spec fn follows(v: VersionView, w: VersionView) -> bool {
    &&& v.dot == w.dot ==> v == w
    &&& !observes(v.context, v.dot)
    &&& observes(v.context, w.dot) ==> covers(v.context, w.context)
}

proof fn lemma_causal_pairs(history: Seq<VersionView>)
    ensures
        causal(history) <==> forall|v: VersionView, w: VersionView|
            #![trigger history.contains(v), history.contains(w)]
            history.contains(v) && history.contains(w) ==> follows(v, w),
{
    if causal(history) {
        assert forall|v: VersionView, w: VersionView|
            #![trigger history.contains(v), history.contains(w)]
            history.contains(v) && history.contains(w) implies follows(v, w) by {
            let i = history.index_of(v);
            let j = history.index_of(w);
            assert(history[i] == v && history[j] == w);
        }
    }
    if forall|v: VersionView, w: VersionView|
        #![trigger history.contains(v), history.contains(w)]
        history.contains(v) && history.contains(w) ==> follows(v, w) {
        assert forall|i: int, j: int|
            0 <= i < history.len() && 0 <= j < history.len() implies follows(
            #[trigger] history[i],
            #[trigger] history[j],
        ) by {
            assert(history.contains(history[i]) && history.contains(history[j]));
        }
        assert forall|i: int| 0 <= i < history.len() implies !observes(
            (#[trigger] history[i]).context,
            history[i].dot,
        ) by {
            assert(follows(history[i], history[i]));
        }
    }
}

/// The edit is of a logged operation.
proof fn lemma_edit_operation(log: Seq<LoggedView>, v: VersionView) -> (operation: OperationView)
    requires
        edits(log).contains(v),
    ensures
        holds(log, operation),
        assignment(operation) == Some(v),
        operation.dot == v.dot,
{
    lemma_edits(log);
    choose|operation: OperationView| #[trigger]
        holds(log, operation) && assignment(operation) == Some(v)
}

proof fn lemma_observed_is_logged(state: ReplicaView, dot: DotView) -> (operation: OperationView)
    requires
        sound(state),
        observes(state.frontier, dot),
        dot.counter > 0,
    ensures
        holds(state.log, operation),
        operation.dot == dot,
{
    let log = state.log;
    assert(logged_up_to(log, dot.actor, counter_of(state.frontier, dot.actor)));
    assert(is_logged(log, DotView { actor: dot.actor, counter: dot.counter }));
    assert(dot == (DotView { actor: dot.actor, counter: dot.counter }));
    let i = choose|i: int| 0 <= i < log.len() && (#[trigger] log[i]).operation.dot == dot;
    assert(holds(log, log[i].operation));
    log[i].operation
}

proof fn lemma_held_dot(state: ReplicaView, operation: OperationView)
    requires
        sound(state),
        holds(state.log, operation),
    ensures
        observes(state.frontier, operation.dot),
        operation.dot.counter > 0,
{
    let log = state.log;
    let i = choose|i: int| 0 <= i < log.len() && (#[trigger] log[i]).operation == operation;
    assert(observes(state.frontier, log[i].operation.dot));
}

proof fn lemma_emit_causal(
    state: ReplicaView,
    actor: Seq<char>,
    kind: EntityKind,
    id: Seq<char>,
    mutation: MutationView,
    now: i64,
)
    requires
        ready(state, actor, now),
        causal_copy(state),
        mutation matches MutationView::SetContent { context, value } ==> context == state.frontier,
        !(mutation is ResolveContent),
    ensures
        emitted(state, actor, kind, id, mutation, now) matches Ok(after) ==> causal_copy(after)
            && ready(after, actor, now),
{
    lemma_emit_ready(state, actor, kind, id, mutation, now);
    if let Ok(after) = emitted(state, actor, kind, id, mutation, now) {
        let last = counter_of(state.clocks, actor);
        let counter = (last + 1) as u64;
        let operation = operation_at(state, actor, counter, kind, id, mutation);
        let entry = LoggedView { operation, received_at: now };
        if is_logged(state.log, operation.dot) {
            let i = choose|i: int|
                0 <= i < state.log.len() && (
                #[trigger] state.log[i]).operation.dot == operation.dot;
            assert(observes(state.frontier, state.log[i].operation.dot));
        }
        lemma_holds_grows(state.log, entry);
        lemma_edits(state.log);
        lemma_edits(after.log);
        lemma_causal_pairs(edits(state.log));
        lemma_causal_pairs(edits(after.log));
        assert forall|v: VersionView| #[trigger] edits(after.log).contains(v) implies edits(
            state.log,
        ).contains(v) || assignment(operation) == Some(v) by {
            let any = lemma_edit_operation(after.log, v);
            if any != operation {
                assert(holds(state.log, any));
            }
        }
        assert forall|v: VersionView| #[trigger] edits(after.log).contains(v) implies covers(
            after.frontier,
            v.context,
        ) by {
            assert(covers(state.frontier, v.context));
            assert forall|other: Seq<char>| #[trigger] counter_of(after.frontier, other)
                >= counter_of(v.context, other) by {
                assert(counter_of(state.frontier, other) >= counter_of(v.context, other));
            }
        }
        assert forall|v: VersionView, w: VersionView|
            #![trigger edits(after.log).contains(v), edits(after.log).contains(w)]
            edits(after.log).contains(v) && edits(after.log).contains(w) implies follows(v, w) by {
            let known_v = edits(state.log).contains(v);
            let known_w = edits(state.log).contains(w);
            if known_v {
                let any = lemma_edit_operation(state.log, v);
                lemma_held_dot(state, any);
                assert(covers(state.frontier, v.context));
                assert(counter_of(state.frontier, actor) >= counter_of(v.context, actor));
            }
            if known_w {
                let any = lemma_edit_operation(state.log, w);
                lemma_held_dot(state, any);
                assert(covers(state.frontier, w.context));
            }
        }
    }
}

proof fn lemma_fields_causal(
    state: ReplicaView,
    actor: Seq<char>,
    record: RecordView,
    fields: Seq<Seq<char>>,
    now: i64,
)
    requires
        ready(state, actor, now),
        causal_copy(state),
    ensures
        fields_emitted(state, actor, record, fields, now) matches Ok(after) ==> causal_copy(after)
            && ready(after, actor, now),
    decreases fields.len(),
{
    if fields.len() > 0 {
        lemma_fields_causal(state, actor, record, fields.drop_last(), now);
        if let Ok(mid) = fields_emitted(state, actor, record, fields.drop_last(), now) {
            lemma_emit_causal(
                mid,
                actor,
                record.kind,
                record.id,
                MutationView::SetMetadata {
                    field: fields.last(),
                    value: record.shadow.fields[fields.last()],
                },
                now,
            );
        }
    }
}

proof fn lemma_records_causal(
    state: ReplicaView,
    actor: Seq<char>,
    records: Seq<RecordView>,
    now: i64,
)
    requires
        ready(state, actor, now),
        causal_copy(state),
    ensures
        records_scanned(state, actor, records, now) matches Ok((after, count)) ==> causal_copy(
            after,
        ) && ready(after, actor, now),
    decreases records.len(),
{
    if records.len() > 0 {
        lemma_records_causal(state, actor, records.drop_last(), now);
        if let Ok((mid, count)) = records_scanned(state, actor, records.drop_last(), now) {
            let record = records.last();
            let previous = shadow_of(mid.shadows, record.kind, record.id);
            let fields = changed_fields(previous, record.shadow);
            lemma_fields_causal(mid, actor, record, fields, now);
            if let Ok(told) = fields_emitted(mid, actor, record, fields, now) {
                lemma_emit_causal(
                    told,
                    actor,
                    record.kind,
                    record.id,
                    MutationView::SetContent {
                        context: told.frontier,
                        value: record.shadow.content->0,
                    },
                    now,
                );
            }
        }
    }
}

proof fn lemma_deletions_causal(
    state: ReplicaView,
    actor: Seq<char>,
    kind: EntityKind,
    ids: Seq<Seq<char>>,
    now: i64,
)
    requires
        ready(state, actor, now),
        causal_copy(state),
    ensures
        deletions_emitted(state, actor, kind, ids, now) matches Ok(after) ==> causal_copy(after)
            && ready(after, actor, now),
    decreases ids.len(),
{
    if ids.len() > 0 {
        lemma_deletions_causal(state, actor, kind, ids.drop_last(), now);
        if let Ok(mid) = deletions_emitted(state, actor, kind, ids.drop_last(), now) {
            lemma_emit_causal(mid, actor, kind, ids.last(), MutationView::Delete, now);
        }
    }
}

/// The edits that a scan makes follow those that the device has seen.
pub proof fn lemma_scan_stays_causal(
    state: ReplicaView,
    actor: Seq<char>,
    records: Seq<RecordView>,
    now: i64,
)
    requires
        ready(state, actor, now),
        causal_copy(state),
    ensures
        scanned(state, actor, records, now) matches Ok((after, count)) ==> causal_copy(after),
{
    lemma_records_causal(state, actor, records, now);
    if let Ok((looked, a)) = records_scanned(state, actor, records, now) {
        lemma_deletions_causal(
            looked,
            actor,
            EntityKind::Attachment,
            vanished(looked.shadows, records, EntityKind::Attachment),
            now,
        );
        if let Ok((first, b)) = kind_swept(looked, actor, records, EntityKind::Attachment, now) {
            lemma_deletions_causal(
                first,
                actor,
                EntityKind::Item,
                vanished(first.shadows, records, EntityKind::Item),
                now,
            );
            if let Ok((second, c)) = kind_swept(first, actor, records, EntityKind::Item, now) {
                lemma_deletions_causal(
                    second,
                    actor,
                    EntityKind::Section,
                    vanished(second.shadows, records, EntityKind::Section),
                    now,
                );
            }
        }
    }
}

/// Operations that come from a copy in good order leave the receiving one in good order, where all
/// that the edits had observed is known by then. A device sends no operations of others, so that
/// what an edit had observed may yet be on its way.
pub proof fn lemma_exchange_stays_causal(
    sender: ReplicaView,
    state: ReplicaView,
    peer: Seq<char>,
    payload: PayloadView,
    sizes: Seq<usize>,
    now: WholeNumber,
)
    requires
        sound(sender),
        causal_copy(sender),
        sound(state),
        causal_copy(state),
        logs_agree(sender.log, state.log),
        forall|operation: OperationView| #[trigger]
            payload.operations.contains(operation) ==> holds(sender.log, operation),
    ensures
        exchanged(state, peer, payload, sizes, now) matches Ok((after, answer)) ==> causal(
            edits(after.log),
        ) && (contexts_known(after) ==> causal_copy(after)),
{
    lemma_exchange_takes_in(state, peer, payload, sizes, now);
    lemma_received_holds(state, payload.operations, now.value);
    if let Ok((after, answer)) = exchanged(state, peer, payload, sizes, now) {
        lemma_edits(after.log);
        lemma_edits(state.log);
        lemma_edits(sender.log);
        lemma_causal_pairs(edits(after.log));
        lemma_causal_pairs(edits(state.log));
        lemma_causal_pairs(edits(sender.log));
        assert forall|v: VersionView, w: VersionView|
            #![trigger edits(after.log).contains(v), edits(after.log).contains(w)]
            edits(after.log).contains(v) && edits(after.log).contains(w) implies follows(v, w) by {
            let x = lemma_edit_operation(after.log, v);
            let y = lemma_edit_operation(after.log, w);
            if holds(state.log, x) && holds(state.log, y) {
                assert(edits(state.log).contains(v) && edits(state.log).contains(w));
            } else if holds(sender.log, x) && holds(sender.log, y) {
                assert(edits(sender.log).contains(v) && edits(sender.log).contains(w));
            } else if holds(sender.log, x) {
                assert(edits(sender.log).contains(v));
                lemma_meets(sender, state, v, x, w, y);
            } else {
                assert(edits(state.log).contains(v));
                lemma_logs_agree_symmetric(sender.log, state.log);
                lemma_meets(state, sender, v, x, w, y);
            }
        }
    }
}

proof fn lemma_logs_agree_symmetric(a: Seq<LoggedView>, b: Seq<LoggedView>)
    requires
        logs_agree(a, b),
    ensures
        logs_agree(b, a),
{
    assert forall|x: OperationView, y: OperationView|
        #![trigger holds(b, x), holds(a, y)]
        holds(b, x) && holds(a, y) && x.dot == y.dot implies x == y by {
        assert(holds(a, y) && holds(b, x));
    }
}

/// An edit of one copy and one of another follow each other.
proof fn lemma_meets(
    one: ReplicaView,
    other: ReplicaView,
    v: VersionView,
    x: OperationView,
    w: VersionView,
    y: OperationView,
)
    requires
        sound(one),
        causal_copy(one),
        sound(other),
        logs_agree(one.log, other.log),
        holds(one.log, x),
        holds(other.log, y),
        assignment(x) == Some(v),
        assignment(y) == Some(w),
    ensures
        follows(v, w),
{
    lemma_edits(one.log);
    assert(edits(one.log).contains(v));
    lemma_causal_pairs(edits(one.log));
    assert(follows(v, v));
    if observes(v.context, w.dot) {
        lemma_held_dot(other, y);
        assert(covers(one.frontier, v.context));
        assert(counter_of(one.frontier, w.dot.actor) >= counter_of(v.context, w.dot.actor));
        let known = lemma_observed_is_logged(one, w.dot);
        assert(known == y);
        assert(edits(one.log).contains(w));
        assert(follows(v, w));
    }
}

pub(crate) proof fn lemma_received_holds(state: ReplicaView, operations: Seq<OperationView>, now: i64)
    ensures
        received(state, operations, now) matches Ok((after, touched)) ==> forall|
            operation: OperationView,
        | #[trigger]
            holds(after.log, operation) <==> holds(state.log, operation) || operations.contains(
                operation,
            ),
    decreases operations.len(),
{
    if operations.len() > 0 {
        let shorter = operations.drop_last();
        let last = operations.last();
        lemma_received_holds(state, shorter, now);
        if let Ok((before, touched)) = received(state, shorter, now) {
            if let Ok((after, new)) = inserted(before, last, now) {
                lemma_holds_grows(before.log, LoggedView { operation: last, received_at: now });
                if !new {
                    let i = choose|i: int|
                        0 <= i < before.log.len() && (
                        #[trigger] before.log[i]).operation.dot == last.dot;
                    assert(before.log[i].operation == last);
                }
                assert forall|operation: OperationView| #[trigger] holds(
                    after.log,
                    operation,
                ) <==> holds(state.log, operation) || operations.contains(operation) by {
                    if shorter.contains(operation) {
                        assert(operations[shorter.index_of(operation)] == operation);
                    }
                    if operation == last {
                        assert(operations[operations.len() - 1] == operation);
                    }
                    if operations.contains(operation) && operation != last {
                        assert(shorter[operations.index_of(operation)] == operation);
                    }
                }
            }
        }
    }
}

/// An exchange takes in every operation that is sent, loses none, and invents none.
pub proof fn lemma_exchange_takes_all(
    state: ReplicaView,
    peer: Seq<char>,
    payload: PayloadView,
    sizes: Seq<usize>,
    now: WholeNumber,
)
    ensures
        exchanged(state, peer, payload, sizes, now) matches Ok((after, answer)) ==> forall|
            operation: OperationView,
        | #[trigger]
            holds(after.log, operation) <==> holds(state.log, operation)
                || payload.operations.contains(operation),
{
    lemma_exchange_takes_in(state, peer, payload, sizes, now);
    lemma_received_holds(state, payload.operations, now.value);
}

/// The two copies hold the same operations.
pub open spec fn same_operations(a: ReplicaView, b: ReplicaView) -> bool {
    forall|operation: OperationView|
        #![trigger holds(a.log, operation)]
        #![trigger holds(b.log, operation)]
        holds(a.log, operation) <==> holds(b.log, operation)
}

/// Two copies that are as far with every device hold the same operations.
pub proof fn lemma_same_frontier_same_operations(a: ReplicaView, b: ReplicaView)
    requires
        sound(a),
        sound(b),
        logs_agree(a.log, b.log),
        forall|actor: Seq<char>| #[trigger]
            counter_of(a.frontier, actor) == counter_of(b.frontier, actor),
    ensures
        same_operations(a, b),
{
    assert forall|operation: OperationView|
        #![trigger holds(a.log, operation)]
        #![trigger holds(b.log, operation)]
        holds(a.log, operation) <==> holds(b.log, operation) by {
        if holds(a.log, operation) {
            lemma_held_dot(a, operation);
            assert(counter_of(a.frontier, operation.dot.actor) == counter_of(
                b.frontier,
                operation.dot.actor,
            ));
            let known = lemma_observed_is_logged(b, operation.dot);
            assert(known == operation);
        }
        if holds(b.log, operation) {
            lemma_held_dot(b, operation);
            assert(counter_of(a.frontier, operation.dot.actor) == counter_of(
                b.frontier,
                operation.dot.actor,
            ));
            let known = lemma_observed_is_logged(a, operation.dot);
            assert(known == operation);
        }
    }
}

/// Two copies that hold the same operations, in whatever order these have arrived, agree: they know
/// the same entities, deleted by the same events, and those that are not deleted are the same.
pub proof fn lemma_copies_converge(
    a: ReplicaView,
    b: ReplicaView,
    kind: EntityKind,
    id: Seq<char>,
)
    requires
        entities_add_up(a),
        entities_add_up(b),
        same_operations(a, b),
        dots_distinct(a.log),
        causal(edits(a.log)),
    ensures
        a.entities.contains_key((kind, id)) <==> b.entities.contains_key((kind, id)),
        entity_state(a.entities, kind, id).deleted_at == entity_state(
            b.entities,
            kind,
            id,
        ).deleted_at,
        entity_state(a.entities, kind, id).deleted_at is None ==> entity_state(a.entities, kind, id)
            == entity_state(b.entities, kind, id),
{
    assert(adds_up(a, kind, id) && adds_up(b, kind, id));
    let x = choose|history: Seq<OperationView>| #[trigger]
        entity_history(a.log, kind, id, history) && entity_state(a.entities, kind, id)
            == entity_of(blank_entity(), history) && (a.entities.contains_key((kind, id))
            <==> history.len() > 0);
    let y = choose|history: Seq<OperationView>| #[trigger]
        entity_history(b.log, kind, id, history) && entity_state(b.entities, kind, id)
            == entity_of(blank_entity(), history) && (b.entities.contains_key((kind, id))
            <==> history.len() > 0);
    assert forall|operation: OperationView| #[trigger] x.contains(operation) <==> y.contains(
        operation,
    ) by {
        assert(holds(a.log, operation) <==> holds(b.log, operation));
    }
    if x.len() > 0 {
        assert(x.contains(x[0]));
        assert(y.contains(x[0]));
    }
    if y.len() > 0 {
        assert(y.contains(y[0]));
        assert(x.contains(y[0]));
    }
    lemma_history_causal(a.log, x);
    lemma_history_causal(a.log, y);
    assert forall|i: int, j: int|
        0 <= i < x.len() && 0 <= j < x.len() && (#[trigger] x[i]).dot == (
        #[trigger] x[j]).dot implies x[i] == x[j] by {
        assert(x.contains(x[i]) && x.contains(x[j]));
        let k = choose|k: int| 0 <= k < a.log.len() && (#[trigger] a.log[k]).operation == x[i];
        let l = choose|l: int| 0 <= l < a.log.len() && (#[trigger] a.log[l]).operation == x[j];
        if k < l {
            assert(a.log[k].operation.dot != a.log[l].operation.dot);
        } else if l < k {
            assert(a.log[l].operation.dot != a.log[k].operation.dot);
        }
    }
    lemma_entities_converge(x, y);
}

proof fn lemma_history_causal(log: Seq<LoggedView>, history: Seq<OperationView>)
    requires
        causal(edits(log)),
        forall|operation: OperationView| #[trigger]
            history.contains(operation) ==> holds(log, operation),
    ensures
        causal(assignments(history)),
{
    lemma_edits(log);
    lemma_assignment_members(history);
    lemma_causal_pairs(edits(log));
    lemma_causal_pairs(assignments(history));
    assert forall|v: VersionView| #[trigger] assignments(history).contains(v) implies edits(
        log,
    ).contains(v) by {
        let i = choose|i: int|
            0 <= i < history.len() && assignment(#[trigger] history[i]) == Some(v);
        assert(history.contains(history[i]));
        assert(holds(log, history[i]));
    }
}

} // verus!
