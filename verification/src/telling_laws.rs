//! What a device tells the others is what its notebook holds: once it has compared the notebook
//! with what it last told, its operations add up to the notebook.

use vstd::prelude::*;

use crate::convergence::lemma_resolution_replaces_all;
use crate::log_laws::{lemma_emit_ready, ready};
use crate::model::{
    counter_of, covers, entity_apply, observe, observes, EntityKind, MutationView, VersionView,
};
use crate::scan::{
    changed_fields, content_changed, deletions_emitted, diff_emitted, distinct_records, emitted,
    field_changed, fields_emitted, kind_swept, lemma_filter_members, lemma_records_shadows,
    lemma_scan_shadows,
    operation_at, records_scanned, scanned, seen, shadow_of, vanished,
};
use crate::store::{
    contradicted, empty_replica, entity_state, is_logged, RecordView, ReplicaView, ShadowView,
};
use crate::textmap::{lemma_ordered_lists, ordered};

verus! {

/// Every edit that a note holds is known here, with all that it had observed.
pub open spec fn edits_seen(state: ReplicaView) -> bool {
    forall|key: (EntityKind, Seq<char>), i: int|
        state.entities.contains_key(key) && 0 <= i < state.entities[key].content.len() ==> observes(
            state.frontier,
            (#[trigger] state.entities[key].content[i]).dot,
        ) && covers(state.frontier, state.entities[key].content[i].context)
}

/// The device has counted as far as every value that is held.
pub open spec fn stamps_behind(state: ReplicaView, actor: Seq<char>) -> bool {
    forall|key: (EntityKind, Seq<char>), field: Seq<char>|
        state.entities.contains_key(key) && #[trigger] state.entities[key].metadata.contains_key(
            field,
        ) ==> state.entities[key].metadata[field].stamp.counter <= counter_of(state.clocks, actor)
}

/// A device that can tell of its notebook: what it says next is the last word.
pub open spec fn teller(state: ReplicaView, actor: Seq<char>, now: i64) -> bool {
    ready(state, actor, now) && edits_seen(state) && stamps_behind(state, actor)
}

/// The operations on an entity add up to what a record says: each of its fields and its text.
pub open spec fn tells(
    state: ReplicaView,
    kind: EntityKind,
    id: Seq<char>,
    shadow: ShadowView,
) -> bool {
    let entity = state.entities[(kind, id)];
    &&& state.entities.contains_key((kind, id))
    &&& entity.deleted_at is None
    &&& forall|field: Seq<char>| #[trigger]
        shadow.fields.contains_key(field) ==> entity.metadata.contains_key(field)
            && entity.metadata[field].value.equals(shadow.fields[field])
    &&& shadow.content matches Some(text) ==> entity.content.len() == 1 && entity.content[0].value
        == text
}

/// What was last told of every entity is what its operations add up to.
pub open spec fn truthful(state: ReplicaView) -> bool {
    forall|kind: EntityKind, id: Seq<char>| #[trigger]
        state.shadows.contains_key((kind, id)) ==> tells(state, kind, id, state.shadows[(kind, id)])
}

/// Every entity that is known and was not deleted was told of.
pub open spec fn all_told(state: ReplicaView) -> bool {
    forall|kind: EntityKind, id: Seq<char>|
        state.entities.contains_key((kind, id)) && (#[trigger] state.entities[(
            kind,
            id,
        )]).deleted_at is None ==> state.shadows.contains_key((kind, id))
}

/// A record that says something.
pub open spec fn says_something(record: RecordView) -> bool {
    record.shadow.fields.dom().finite() && exists|field: Seq<char>| #[trigger]
        record.shadow.fields.contains_key(field)
}

/// A copy in which nothing has happened yet can tell, and has told nothing untrue.
pub proof fn lemma_new_copy_tells(workspace: Seq<char>, actor: Seq<char>, now: i64)
    ensures
        teller(empty_replica(workspace), actor, now),
        truthful(empty_replica(workspace)),
        all_told(empty_replica(workspace)),
        empty_replica(workspace).shadows.dom().finite(),
{
    crate::agreement::lemma_new_copy(workspace);
    assert(empty_replica(workspace).shadows.dom() =~= Set::empty());
}

/// The copy after one operation of the device: the entity has taken it in, and nothing else has
/// changed.
spec fn said(
    before: ReplicaView,
    after: ReplicaView,
    actor: Seq<char>,
    kind: EntityKind,
    id: Seq<char>,
    mutation: MutationView,
) -> bool {
    &&& after.shadows == before.shadows
    &&& after.entities == before.entities.insert(
        (kind, id),
        entity_apply(
            entity_state(before.entities, kind, id),
            operation_at(
                before,
                actor,
                (counter_of(before.clocks, actor) + 1) as u64,
                kind,
                id,
                mutation,
            ),
        ),
    )
}

proof fn lemma_emit_said(
    state: ReplicaView,
    actor: Seq<char>,
    kind: EntityKind,
    id: Seq<char>,
    mutation: MutationView,
    now: i64,
)
    requires
        teller(state, actor, now),
        mutation is SetMetadata || mutation is Delete || (mutation matches MutationView::SetContent {
            context,
            value,
        } && context == state.frontier),
    ensures
        emitted(state, actor, kind, id, mutation, now) matches Ok(after) ==> {
            &&& said(state, after, actor, kind, id, mutation)
            &&& teller(after, actor, now)
            &&& mutation matches MutationView::SetContent { context, value } ==> (entity_state(
                state.entities,
                kind,
                id,
            ).deleted_at is None ==> after.entities[(kind, id)].content.len() == 1
                && after.entities[(kind, id)].content[0].value == value)
            &&& mutation matches MutationView::SetMetadata { field, value } ==> (entity_state(
                state.entities,
                kind,
                id,
            ).deleted_at is None ==> after.entities[(kind, id)].metadata.contains_key(field)
                && after.entities[(kind, id)].metadata[field].value == value)
        },
{
    lemma_emit_ready(state, actor, kind, id, mutation, now);
    if let Ok(after) = emitted(state, actor, kind, id, mutation, now) {
        let last = counter_of(state.clocks, actor);
        let counter = (last + 1) as u64;
        let operation = operation_at(state, actor, counter, kind, id, mutation);
        let entity = entity_state(state.entities, kind, id);
        assert(!is_logged(state.log, operation.dot)) by {
            assert forall|i: int| 0 <= i < state.log.len() implies (
            #[trigger] state.log[i]).operation.dot != operation.dot by {
                assert(observes(state.frontier, state.log[i].operation.dot));
            }
        }
        assert(!contradicted(state.log, operation));
        assert(after.frontier == observe(state.frontier, operation.dot));
        assert(said(state, after, actor, kind, id, mutation));
        assert(covers(after.frontier, state.frontier));
        assert(counter_of(after.frontier, actor) == counter);
        let key = (kind, id);
        if let MutationView::SetContent { context, value } = mutation {
            if entity.deleted_at is None {
                let version = VersionView { dot: operation.dot, context, value };
                let versions = entity.content;
                assert forall|i: int| 0 <= i < versions.len() implies observes(
                    context,
                    (#[trigger] versions[i]).dot,
                ) && versions[i].dot != version.dot && !observes(
                    versions[i].context,
                    version.dot,
                ) by {
                    assert(state.entities[key].content[i] == versions[i]);
                    assert(observes(state.frontier, versions[i].dot));
                    assert(covers(state.frontier, versions[i].context));
                    assert(counter_of(state.frontier, actor) >= counter_of(
                        versions[i].context,
                        actor,
                    ));
                }
                lemma_resolution_replaces_all(versions, version);
                assert(after.entities[key].content == seq![version]);
            }
        }
        assert forall|any: (EntityKind, Seq<char>), i: int|
            after.entities.contains_key(any) && 0 <= i < after.entities[any].content.len() implies observes(
            after.frontier,
            (#[trigger] after.entities[any].content[i]).dot,
        ) && covers(after.frontier, after.entities[any].content[i].context) by {
            let version = after.entities[any].content[i];
            if version.dot == operation.dot && any == key && mutation is SetContent
                && entity.deleted_at is None {
                assert(version.context == state.frontier);
            } else {
                assert(state.entities[any].content[i] == version);
                assert(covers(state.frontier, version.context));
                assert(observes(state.frontier, version.dot));
                assert(counter_of(after.frontier, version.dot.actor) >= counter_of(
                    state.frontier,
                    version.dot.actor,
                ));
                assert forall|other: Seq<char>| #[trigger] counter_of(after.frontier, other)
                    >= counter_of(version.context, other) by {
                    assert(counter_of(state.frontier, other) >= counter_of(version.context, other));
                }
            }
        }
        assert forall|any: (EntityKind, Seq<char>), field: Seq<char>|
            after.entities.contains_key(any)
                && #[trigger] after.entities[any].metadata.contains_key(
                field,
            ) implies after.entities[any].metadata[field].stamp.counter <= counter_of(
            after.clocks,
            actor,
        ) by {
            if state.entities.contains_key(any) && state.entities[any].metadata.contains_key(
                field,
            ) {
                assert(state.entities[any].metadata[field].stamp.counter <= last);
            }
        }
        if let MutationView::SetMetadata { field, value } = mutation {
            if entity.deleted_at is None && entity.metadata.contains_key(field) {
                assert(state.entities[key].metadata.contains_key(field));
            }
        }
    }
}

/// Nothing is known otherwise of any entity but one.
spec fn others_same(a: ReplicaView, b: ReplicaView, key: (EntityKind, Seq<char>)) -> bool {
    forall|other: (EntityKind, Seq<char>)|
        other != key ==> #[trigger] b.entities.contains_key(other) == a.entities.contains_key(other)
            && (a.entities.contains_key(other) ==> b.entities[other] == a.entities[other])
}

proof fn lemma_fields_said(
    state: ReplicaView,
    actor: Seq<char>,
    record: RecordView,
    fields: Seq<Seq<char>>,
    now: i64,
)
    requires
        teller(state, actor, now),
        entity_state(state.entities, record.kind, record.id).deleted_at is None,
    ensures
        fields_emitted(state, actor, record, fields, now) matches Ok(after) ==> {
            let before = entity_state(state.entities, record.kind, record.id);
            let entity = entity_state(after.entities, record.kind, record.id);
            &&& teller(after, actor, now)
            &&& after.shadows == state.shadows
            &&& others_same(state, after, (record.kind, record.id))
            &&& entity.deleted_at is None
            &&& entity.content == before.content
            &&& fields.len() > 0 || state.entities.contains_key((record.kind, record.id))
                ==> after.entities.contains_key((record.kind, record.id))
            &&& forall|field: Seq<char>| #[trigger]
                fields.contains(field) ==> entity.metadata.contains_key(field)
                    && entity.metadata[field].value == record.shadow.fields[field]
            &&& forall|field: Seq<char>|
                !fields.contains(field) && before.metadata.contains_key(field)
                    ==> #[trigger] entity.metadata.contains_key(field)
                    && entity.metadata[field].value == before.metadata[field].value
        },
    decreases fields.len(),
{
    if fields.len() > 0 {
        let shorter = fields.drop_last();
        let last = fields.last();
        lemma_fields_said(state, actor, record, shorter, now);
        if let Ok(mid) = fields_emitted(state, actor, record, shorter, now) {
            let mutation = MutationView::SetMetadata {
                field: last,
                value: record.shadow.fields[last],
            };
            lemma_emit_said(mid, actor, record.kind, record.id, mutation, now);
            if let Ok(after) = emitted(mid, actor, record.kind, record.id, mutation, now) {
                let before = entity_state(state.entities, record.kind, record.id);
                let middle = entity_state(mid.entities, record.kind, record.id);
                let entity = entity_state(after.entities, record.kind, record.id);
                assert forall|field: Seq<char>| #[trigger]
                    fields.contains(field) implies entity.metadata.contains_key(field)
                    && entity.metadata[field].value == record.shadow.fields[field] by {
                    if field != last {
                        assert(shorter[fields.index_of(field)] == field);
                        assert(shorter.contains(field));
                        assert(middle.metadata.contains_key(field));
                    }
                }
                assert forall|field: Seq<char>|
                    !fields.contains(field) && before.metadata.contains_key(
                        field,
                    ) implies #[trigger] entity.metadata.contains_key(field)
                    && entity.metadata[field].value == before.metadata[field].value by {
                    assert(fields[fields.len() - 1] == last);
                    if shorter.contains(field) {
                        assert(fields[shorter.index_of(field)] == field);
                    }
                    assert(middle.metadata.contains_key(field));
                }
                assert forall|other: (EntityKind, Seq<char>)|
                    other != (record.kind, record.id) implies #[trigger] after.entities.contains_key(
                    other,
                ) == state.entities.contains_key(other) && (state.entities.contains_key(other)
                    ==> after.entities[other] == state.entities[other]) by {
                    assert(mid.entities.contains_key(other) == state.entities.contains_key(other));
                }
            }
        }
    }
}

/// Telling the difference makes the operations add up to the record.
proof fn lemma_diff_said(
    state: ReplicaView,
    actor: Seq<char>,
    previous: Option<ShadowView>,
    record: RecordView,
    now: i64,
)
    requires
        teller(state, actor, now),
        entity_state(state.entities, record.kind, record.id).deleted_at is None,
        says_something(record),
        previous matches Some(shadow) ==> tells(state, record.kind, record.id, shadow),
    ensures
        diff_emitted(state, actor, previous, record, now) matches Ok(after) ==> {
            &&& teller(after, actor, now)
            &&& after.shadows == state.shadows
            &&& others_same(state, after, (record.kind, record.id))
            &&& tells(after, record.kind, record.id, record.shadow)
        },
{
    let key = (record.kind, record.id);
    let shadow = record.shadow;
    let fields = changed_fields(previous, shadow);
    let keys = ordered(shadow.fields.dom());
    let changed = |field: Seq<char>| field_changed(previous, shadow, field);
    lemma_ordered_lists(shadow.fields.dom());
    lemma_filter_members(keys, changed);
    assert(fields == keys.filter(changed));
    lemma_fields_said(state, actor, record, fields, now);
    if let Ok(told) = fields_emitted(state, actor, record, fields, now) {
        let before = entity_state(state.entities, record.kind, record.id);
        let entity = entity_state(told.entities, record.kind, record.id);
        let some = choose|field: Seq<char>| #[trigger] shadow.fields.contains_key(field);
        assert(told.entities.contains_key(key)) by {
            if previous is None {
                assert(keys.contains(some));
                assert(changed(some));
                assert(fields.contains(some));
            }
        }
        assert forall|field: Seq<char>| #[trigger]
            shadow.fields.contains_key(field) implies entity.metadata.contains_key(field)
            && entity.metadata[field].value.equals(shadow.fields[field]) by {
            assert(keys.contains(field));
            if changed(field) {
                assert(fields.contains(field));
            } else {
                assert(!fields.contains(field));
                assert(previous->0.fields.contains_key(field));
                assert(before.metadata.contains_key(field));
                assert(entity.metadata.contains_key(field));
            }
        }
        if content_changed(previous, shadow) {
            let mutation = MutationView::SetContent {
                context: told.frontier,
                value: shadow.content->0,
            };
            lemma_emit_said(told, actor, record.kind, record.id, mutation, now);
            if let Ok(after) = emitted(told, actor, record.kind, record.id, mutation, now) {
                assert forall|other: (EntityKind, Seq<char>)|
                    other != key implies #[trigger] after.entities.contains_key(other)
                    == state.entities.contains_key(other) && (state.entities.contains_key(other)
                    ==> after.entities[other] == state.entities[other]) by {
                    assert(told.entities.contains_key(other) == state.entities.contains_key(
                        other,
                    ));
                }
            }
        }
    }
}

/// No record is that of an entity which was deleted.
pub open spec fn not_deleted(state: ReplicaView, records: Seq<RecordView>) -> bool {
    forall|i: int|
        0 <= i < records.len() ==> entity_state(
            state.entities,
            (#[trigger] records[i]).kind,
            records[i].id,
        ).deleted_at is None
}

/// The two copies know the same of an entity.
spec fn entity_same(a: ReplicaView, b: ReplicaView, key: (EntityKind, Seq<char>)) -> bool {
    &&& a.entities.contains_key(key) == b.entities.contains_key(key)
    &&& a.entities.contains_key(key) ==> a.entities[key] == b.entities[key]
}

/// The two copies know the same of every entity that has no record.
spec fn unseen_same(a: ReplicaView, b: ReplicaView, records: Seq<RecordView>) -> bool {
    forall|kind: EntityKind, id: Seq<char>|
        !seen(records, kind, id) ==> #[trigger] entity_same(a, b, (kind, id))
}

/// Looking at records leaves every told entity told truly.
proof fn lemma_records_said(
    state: ReplicaView,
    actor: Seq<char>,
    records: Seq<RecordView>,
    now: i64,
)
    requires
        teller(state, actor, now),
        truthful(state),
        not_deleted(state, records),
        distinct_records(records),
        forall|i: int| 0 <= i < records.len() ==> says_something(#[trigger] records[i]),
    ensures
        records_scanned(state, actor, records, now) matches Ok((after, count)) ==> {
            &&& teller(after, actor, now)
            &&& truthful(after)
            &&& all_told(state) ==> all_told(after)
            &&& unseen_same(state, after, records)
        },
    decreases records.len(),
{
    if records.len() > 0 {
        let shorter = records.drop_last();
        let record = records.last();
        let n = records.len() - 1;
        assert(records[n] == record);
        assert(distinct_records(shorter)) by {
            assert forall|i: int, j: int| 0 <= i < j < shorter.len() implies !((
            #[trigger] shorter[i]).kind == (#[trigger] shorter[j]).kind && shorter[i].id
                == shorter[j].id) by {
                assert(shorter[i] == records[i] && shorter[j] == records[j]);
            }
        }
        assert forall|i: int| 0 <= i < shorter.len() implies says_something(
            #[trigger] shorter[i],
        ) by {
            assert(shorter[i] == records[i]);
        }
        assert(not_deleted(state, shorter)) by {
            assert forall|i: int| 0 <= i < shorter.len() implies entity_state(
                state.entities,
                (#[trigger] shorter[i]).kind,
                shorter[i].id,
            ).deleted_at is None by {
                assert(shorter[i] == records[i]);
            }
        }
        lemma_records_said(state, actor, shorter, now);
        if let Ok((mid, count)) = records_scanned(state, actor, shorter, now) {
            assert(!seen(shorter, record.kind, record.id)) by {
                if seen(shorter, record.kind, record.id) {
                    let i = choose|i: int|
                        0 <= i < shorter.len() && (#[trigger] shorter[i]).kind == record.kind
                            && shorter[i].id == record.id;
                    assert(shorter[i] == records[i]);
                    assert(!(records[i].kind == records[n].kind && records[i].id
                        == records[n].id));
                }
            }
            assert(entity_same(state, mid, (record.kind, record.id)));
            let previous = shadow_of(mid.shadows, record.kind, record.id);
            lemma_diff_said(mid, actor, previous, record, now);
            if let Ok(told) = diff_emitted(mid, actor, previous, record, now) {
                let after = records_scanned(state, actor, records, now)->Ok_0.0;
                let key = (record.kind, record.id);
                assert(after.entities == told.entities);
                assert forall|kind: EntityKind, id: Seq<char>| #[trigger]
                    after.shadows.contains_key((kind, id)) implies tells(
                    after,
                    kind,
                    id,
                    after.shadows[(kind, id)],
                ) by {
                    if (kind, id) == key {
                        assert(tells(told, kind, id, record.shadow));
                    } else {
                        assert(mid.shadows.contains_key((kind, id)));
                        assert(tells(mid, kind, id, mid.shadows[(kind, id)]));
                        assert(told.entities.contains_key((kind, id))
                            == mid.entities.contains_key((kind, id)));
                    }
                }
                assert forall|kind: EntityKind, id: Seq<char>|
                    !seen(records, kind, id) implies #[trigger] entity_same(
                    state,
                    after,
                    (kind, id),
                ) by {
                    assert(!seen(shorter, kind, id) ==> entity_same(state, mid, (kind, id)));
                    if seen(shorter, kind, id) {
                        let i = choose|i: int|
                            0 <= i < shorter.len() && (#[trigger] shorter[i]).kind == kind
                                && shorter[i].id == id;
                        assert(records[i].kind == kind && records[i].id == id);
                    }
                    assert((kind, id) != key) by {
                        if (kind, id) == key {
                            assert(records[n].kind == kind && records[n].id == id);
                        }
                    }
                    assert(mid.entities.contains_key((kind, id)) == state.entities.contains_key(
                        (kind, id),
                    ));
                    assert(told.entities.contains_key((kind, id)) == mid.entities.contains_key(
                        (kind, id),
                    ));
                }
                if all_told(state) {
                    assert forall|kind: EntityKind, id: Seq<char>|
                        after.entities.contains_key((kind, id)) && (#[trigger] after.entities[(
                            kind,
                            id,
                        )]).deleted_at is None implies after.shadows.contains_key((kind, id)) by {
                        if (kind, id) != key {
                            assert(told.entities.contains_key((kind, id))
                                == mid.entities.contains_key((kind, id)));
                            assert(mid.entities[(kind, id)].deleted_at is None);
                        }
                    }
                }
                assert(teller(after, actor, now));
                assert(truthful(after));
                assert(all_told(state) ==> all_told(after));
            }
        }
    }
}

/// Telling that entities are gone leaves every other one told truly.
proof fn lemma_deletions_said(
    state: ReplicaView,
    actor: Seq<char>,
    kind: EntityKind,
    ids: Seq<Seq<char>>,
    now: i64,
)
    requires
        teller(state, actor, now),
        truthful(state),
    ensures
        deletions_emitted(state, actor, kind, ids, now) matches Ok(after) ==> {
            &&& teller(after, actor, now)
            &&& truthful(after)
            &&& all_told(state) ==> all_told(after)
            &&& forall|id: Seq<char>| #[trigger]
                ids.contains(id) ==> after.entities.contains_key((kind, id))
                    && after.entities[(kind, id)].deleted_at is Some
        },
    decreases ids.len(),
{
    if ids.len() > 0 {
        let shorter = ids.drop_last();
        let last = ids.last();
        lemma_deletions_said(state, actor, kind, shorter, now);
        if let Ok(mid) = deletions_emitted(state, actor, kind, shorter, now) {
            lemma_emit_said(mid, actor, kind, last, MutationView::Delete, now);
            if let Ok(told) = emitted(mid, actor, kind, last, MutationView::Delete, now) {
                let after = deletions_emitted(state, actor, kind, ids, now)->Ok_0;
                assert(after.entities == told.entities);
                assert forall|k: EntityKind, id: Seq<char>| #[trigger]
                    after.shadows.contains_key((k, id)) implies tells(
                    after,
                    k,
                    id,
                    after.shadows[(k, id)],
                ) by {
                    assert(mid.shadows.contains_key((k, id)));
                    assert(tells(mid, k, id, mid.shadows[(k, id)]));
                }
                assert forall|id: Seq<char>| #[trigger]
                    ids.contains(id) implies after.entities.contains_key((kind, id))
                    && after.entities[(kind, id)].deleted_at is Some by {
                    if id != last {
                        assert(shorter[ids.index_of(id)] == id);
                        assert(shorter.contains(id));
                    }
                }
                if all_told(state) {
                    assert forall|k: EntityKind, id: Seq<char>|
                        after.entities.contains_key((k, id)) && (#[trigger] after.entities[(
                            k,
                            id,
                        )]).deleted_at is None implies after.shadows.contains_key((k, id)) by {
                        assert((k, id) != (kind, last));
                        assert(mid.entities[(k, id)].deleted_at is None);
                    }
                }
                assert(teller(after, actor, now));
            }
        }
    }
}

/// Once a device has compared its notebook with what it last told, the operations on every entity
/// add up to the record of that entity, and an entity without a record is deleted.
pub proof fn lemma_scan_tells(
    state: ReplicaView,
    actor: Seq<char>,
    records: Seq<RecordView>,
    now: i64,
)
    requires
        teller(state, actor, now),
        truthful(state),
        not_deleted(state, records),
        distinct_records(records),
        forall|i: int| 0 <= i < records.len() ==> says_something(#[trigger] records[i]),
        state.shadows.dom().finite(),
    ensures
        scanned(state, actor, records, now) matches Ok((after, count)) ==> {
            &&& teller(after, actor, now)
            &&& truthful(after)
            &&& after.shadows.dom().finite()
            &&& forall|i: int|
                0 <= i < records.len() ==> tells(
                    after,
                    (#[trigger] records[i]).kind,
                    records[i].id,
                    records[i].shadow,
                )
            &&& all_told(state) ==> all_told(after)
            &&& all_told(state) ==> forall|kind: EntityKind, id: Seq<char>|
                after.entities.contains_key((kind, id)) && (#[trigger] after.entities[(
                    kind,
                    id,
                )]).deleted_at is None ==> seen(records, kind, id)
        },
{
    lemma_scan_shadows(state, actor, records, now);
    lemma_records_said(state, actor, records, now);
    if let Ok((looked, a)) = records_scanned(state, actor, records, now) {
        lemma_deletions_said(
            looked,
            actor,
            EntityKind::Attachment,
            vanished(looked.shadows, records, EntityKind::Attachment),
            now,
        );
        if let Ok((first, b)) = kind_swept(looked, actor, records, EntityKind::Attachment, now) {
            lemma_deletions_said(
                first,
                actor,
                EntityKind::Item,
                vanished(first.shadows, records, EntityKind::Item),
                now,
            );
            if let Ok((second, c)) = kind_swept(first, actor, records, EntityKind::Item, now) {
                lemma_deletions_said(
                    second,
                    actor,
                    EntityKind::Section,
                    vanished(second.shadows, records, EntityKind::Section),
                    now,
                );
            }
        }
    }
    if let Ok((after, count)) = scanned(state, actor, records, now) {
        assert forall|i: int| 0 <= i < records.len() implies tells(
            after,
            (#[trigger] records[i]).kind,
            records[i].id,
            records[i].shadow,
        ) by {
            let kind = records[i].kind;
            let id = records[i].id;
            assert(seen(records, kind, id));
            assert(after.shadows.contains_key((kind, id)));
        }
        if all_told(state) {
            assert forall|kind: EntityKind, id: Seq<char>|
                after.entities.contains_key((kind, id)) && (#[trigger] after.entities[(
                    kind,
                    id,
                )]).deleted_at is None implies seen(records, kind, id) by {
                assert(after.shadows.contains_key((kind, id)));
            }
        }
    }
}

/// The most operations that tell of records: one for each field, and one for each text.
pub open spec fn most_operations(records: Seq<RecordView>) -> nat
    decreases records.len(),
{
    if records.len() == 0 {
        0
    } else {
        most_operations(records.drop_last()) + ordered(records.last().shadow.fields.dom()).len() + 1
    }
}

proof fn lemma_emit_goes(
    state: ReplicaView,
    actor: Seq<char>,
    kind: EntityKind,
    id: Seq<char>,
    mutation: MutationView,
    now: i64,
)
    requires
        ready(state, actor, now),
        counter_of(state.clocks, actor) < u64::MAX,
    ensures
        emitted(state, actor, kind, id, mutation, now) matches Ok(after) && ready(after, actor, now)
            && counter_of(after.clocks, actor) == counter_of(state.clocks, actor) + 1,
{
    lemma_emit_ready(state, actor, kind, id, mutation, now);
}

proof fn lemma_fields_go(
    state: ReplicaView,
    actor: Seq<char>,
    record: RecordView,
    fields: Seq<Seq<char>>,
    now: i64,
)
    requires
        ready(state, actor, now),
        counter_of(state.clocks, actor) + fields.len() <= u64::MAX,
    ensures
        fields_emitted(state, actor, record, fields, now) matches Ok(after) && ready(
            after,
            actor,
            now,
        ) && counter_of(after.clocks, actor) == counter_of(state.clocks, actor) + fields.len(),
    decreases fields.len(),
{
    if fields.len() > 0 {
        lemma_fields_go(state, actor, record, fields.drop_last(), now);
        let mid = fields_emitted(state, actor, record, fields.drop_last(), now)->Ok_0;
        lemma_emit_goes(
            mid,
            actor,
            record.kind,
            record.id,
            MutationView::SetMetadata {
                field: fields.last(),
                value: record.shadow.fields[fields.last()],
            },
            now,
        );
    }
}

proof fn lemma_filter_shorter(keys: Seq<Seq<char>>, keep: spec_fn(Seq<char>) -> bool)
    ensures
        keys.filter(keep).len() <= keys.len(),
    decreases keys.len(),
{
    reveal(Seq::filter);
    if keys.len() > 0 {
        lemma_filter_shorter(keys.drop_last(), keep);
    }
}

proof fn lemma_records_go(
    state: ReplicaView,
    actor: Seq<char>,
    records: Seq<RecordView>,
    now: i64,
)
    requires
        ready(state, actor, now),
        counter_of(state.clocks, actor) + most_operations(records) <= u64::MAX,
    ensures
        records_scanned(state, actor, records, now) matches Ok((after, count)) && ready(
            after,
            actor,
            now,
        ) && counter_of(after.clocks, actor) <= counter_of(state.clocks, actor) + most_operations(
            records,
        ),
    decreases records.len(),
{
    if records.len() > 0 {
        let record = records.last();
        lemma_records_go(state, actor, records.drop_last(), now);
        let (mid, count) = records_scanned(state, actor, records.drop_last(), now)->Ok_0;
        let previous = shadow_of(mid.shadows, record.kind, record.id);
        let shadow = record.shadow;
        let fields = changed_fields(previous, shadow);
        lemma_filter_shorter(
            ordered(shadow.fields.dom()),
            |field: Seq<char>| field_changed(previous, shadow, field),
        );
        lemma_fields_go(mid, actor, record, fields, now);
        let told = fields_emitted(mid, actor, record, fields, now)->Ok_0;
        if content_changed(previous, shadow) {
            lemma_emit_goes(
                told,
                actor,
                record.kind,
                record.id,
                MutationView::SetContent { context: told.frontier, value: shadow.content->0 },
                now,
            );
        }
        let after = diff_emitted(mid, actor, previous, record, now)->Ok_0;
        assert(ready(
            ReplicaView {
                shadows: after.shadows.insert((record.kind, record.id), record.shadow),
                ..after
            },
            actor,
            now,
        ));
    }
}

proof fn lemma_sweep_goes(
    state: ReplicaView,
    actor: Seq<char>,
    records: Seq<RecordView>,
    kind: EntityKind,
    now: i64,
)
    requires
        state.shadows.dom().finite(),
        forall|k: EntityKind, id: Seq<char>| #[trigger]
            state.shadows.contains_key((k, id)) ==> seen(records, k, id),
    ensures
        kind_swept(state, actor, records, kind, now) == Ok::<_, crate::store::StoreError>(
            (state, 0nat),
        ),
{
    let keys = ordered(crate::scan::told_of(state.shadows, kind));
    let gone = |id: Seq<char>| !seen(records, kind, id);
    crate::scan::lemma_told_finite(state.shadows, kind);
    lemma_ordered_lists(crate::scan::told_of(state.shadows, kind));
    lemma_filter_members(keys, gone);
    let ids = vanished(state.shadows, records, kind);
    assert(ids == keys.filter(gone));
    if ids.len() > 0 {
        assert(ids.contains(ids[0]));
        assert(keys.contains(ids[0]));
        assert(crate::scan::told_of(state.shadows, kind).contains(ids[0]));
        assert(state.shadows.contains_key((kind, ids[0])));
    }
}

/// A device that has told of nothing yet can always tell of its notebook, unless that takes more
/// operations than can be counted.
pub proof fn lemma_first_scan_succeeds(
    state: ReplicaView,
    actor: Seq<char>,
    records: Seq<RecordView>,
    now: i64,
)
    requires
        ready(state, actor, now),
        state.shadows =~= Map::empty(),
        distinct_records(records),
        counter_of(state.clocks, actor) + most_operations(records) <= u64::MAX,
    ensures
        scanned(state, actor, records, now) is Ok,
{
    assert(state.shadows.dom() =~= Set::empty());
    lemma_records_go(state, actor, records, now);
    lemma_records_shadows(state, actor, records, now);
    let (looked, count) = records_scanned(state, actor, records, now)->Ok_0;
    lemma_sweep_goes(looked, actor, records, EntityKind::Attachment, now);
    lemma_sweep_goes(looked, actor, records, EntityKind::Item, now);
    lemma_sweep_goes(looked, actor, records, EntityKind::Section, now);
}

} // verus!
