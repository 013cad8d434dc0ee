//! What a device tells is what others take in: the operations that tell of a notebook within the
//! limits are never refused.

use vstd::prelude::*;

use crate::agreement::{holds, lemma_holds_grows, lemma_received_holds};
use crate::exchange::{
    context_valid, exchanged, gapless, has_counter, lemma_field_names, log_operations,
    metadata_valid, mutation_valid, observe_all, operation_valid, payload_valid, received,
    MAX_OPERATION_BYTES, MAX_REMOTE_OPS,
};
use crate::ids::uuid_text;
use crate::files::manifest_valid;
use crate::limits::{MAX_ATTACHMENT_BYTES, MAX_ITEM_CHARS, MAX_SECTION_CHARS};
use crate::log_laws::{logged_up_to, sound};
use crate::model::{
    counter_of, observes, DotView, EntityKind, MutationView, OperationView, PayloadView,
    WholeNumber, SYNC_SCHEMA_VERSION,
};
use crate::scan::{
    changed_fields, content_changed, deletions_emitted, diff_emitted, emitted, fields_emitted,
    kind_swept, lemma_filter_members, operation_at, records_scanned, scanned, shadow_of, told_of,
    vanished,
};
use crate::snapshot::{
    attachment_record, item_record, records_of, section_record, AttachmentSnapshot, ItemSnapshot,
    SectionSnapshot,
};
use crate::store::{contradicted, empty_replica, is_logged, LoggedView, RecordView, ReplicaView};
use crate::textmap::{lemma_ordered, lemma_ordered_lists, lists, ordered};

verus! {

/// A record within the limits: others take in every field of it, and its text.
pub open spec fn within_limits(record: RecordView) -> bool {
    &&& uuid_text(record.id)
    &&& record.shadow.fields.dom().finite()
    &&& forall|field: Seq<char>| #[trigger]
        record.shadow.fields.contains_key(field) ==> metadata_valid(
            record.kind,
            field,
            record.shadow.fields[field],
        )
    &&& record.shadow.content matches Some(text) ==> record.kind == EntityKind::Item && text.len()
        <= MAX_ITEM_CHARS
}

/// An operation of a device that others may take in, as far as it does not depend on its encoding.
pub open spec fn fit_to_send(
    operation: OperationView,
    workspace: Seq<char>,
    actor: Seq<char>,
) -> bool {
    &&& operation.schema_version == SYNC_SCHEMA_VERSION
    &&& operation.workspace == workspace
    &&& operation.dot.actor == actor
    &&& operation.dot.counter > 0
    &&& uuid_text(operation.entity)
    &&& mutation_valid(operation.kind, operation.mutation)
}

/// The copy of a device that has only told of its own, within the limits.
pub open spec fn own_copy(state: ReplicaView, actor: Seq<char>) -> bool {
    &&& forall|operation: OperationView| #[trigger]
        holds(state.log, operation) ==> fit_to_send(operation, state.workspace, actor)
    &&& forall|other: Seq<char>| #[trigger]
        state.frontier.contains_key(other) ==> other == actor && state.frontier[other] > 0
    &&& forall|kind: EntityKind, id: Seq<char>| #[trigger]
        state.shadows.contains_key((kind, id)) ==> uuid_text(id)
    &&& state.shadows.dom().finite()
}

proof fn lemma_own_context(context: Map<Seq<char>, u64>, actor: Seq<char>)
    requires
        uuid_text(actor),
        forall|other: Seq<char>| #[trigger]
            context.contains_key(other) ==> other == actor && context[other] > 0,
    ensures
        context_valid(context),
{
    if context.contains_key(actor) {
        let keys = seq![actor];
        assert(lists(keys, context.dom())) by {
            assert forall|key: Seq<char>| #[trigger] keys.contains(key) <==> context.dom().contains(
                key,
            ) by {
                if context.dom().contains(key) {
                    assert(context.contains_key(key));
                    assert(keys[0] == key);
                }
                if keys.contains(key) {
                    assert(keys[keys.index_of(key)] == actor);
                }
            }
        }
        lemma_ordered(keys, context.dom());
    } else {
        let keys = Seq::<Seq<char>>::empty();
        assert(lists(keys, context.dom())) by {
            assert forall|key: Seq<char>| #[trigger] keys.contains(key) <==> context.dom().contains(
                key,
            ) by {
                if context.dom().contains(key) {
                    assert(context.contains_key(key));
                }
            }
        }
        lemma_ordered(keys, context.dom());
    }
}

proof fn lemma_emit_fit(
    state: ReplicaView,
    actor: Seq<char>,
    kind: EntityKind,
    id: Seq<char>,
    mutation: MutationView,
    now: i64,
)
    requires
        own_copy(state, actor),
        uuid_text(id),
        mutation_valid(kind, mutation),
    ensures
        emitted(state, actor, kind, id, mutation, now) matches Ok(after) ==> own_copy(after, actor)
            && after.workspace == state.workspace && after.shadows == state.shadows,
{
    if let Ok(after) = emitted(state, actor, kind, id, mutation, now) {
        let last = counter_of(state.clocks, actor);
        let operation = operation_at(state, actor, (last + 1) as u64, kind, id, mutation);
        lemma_holds_grows(state.log, LoggedView { operation, received_at: now });
        assert forall|any: OperationView| #[trigger] holds(after.log, any) implies fit_to_send(
            any,
            after.workspace,
            actor,
        ) by {
            if holds(state.log, any) {
                assert(fit_to_send(any, state.workspace, actor));
            } else {
                assert(any == operation);
            }
        }
        assert forall|other: Seq<char>| #[trigger] after.frontier.contains_key(other) implies other
            == actor && after.frontier[other] > 0 by {
            if state.frontier.contains_key(other) {
                assert(other == actor);
            }
        }
    }
}

proof fn lemma_fields_fit(
    state: ReplicaView,
    actor: Seq<char>,
    record: RecordView,
    fields: Seq<Seq<char>>,
    now: i64,
)
    requires
        own_copy(state, actor),
        within_limits(record),
        forall|i: int| 0 <= i < fields.len() ==> record.shadow.fields.contains_key(
            #[trigger] fields[i],
        ),
    ensures
        fields_emitted(state, actor, record, fields, now) matches Ok(after) ==> own_copy(
            after,
            actor,
        ) && after.workspace == state.workspace && after.shadows == state.shadows,
    decreases fields.len(),
{
    if fields.len() > 0 {
        let shorter = fields.drop_last();
        assert forall|i: int| 0 <= i < shorter.len() implies record.shadow.fields.contains_key(
            #[trigger] shorter[i],
        ) by {
            assert(shorter[i] == fields[i]);
        }
        lemma_fields_fit(state, actor, record, shorter, now);
        assert(record.shadow.fields.contains_key(fields[fields.len() - 1]));
        if let Ok(mid) = fields_emitted(state, actor, record, shorter, now) {
            let mutation = MutationView::SetMetadata {
                field: fields.last(),
                value: record.shadow.fields[fields.last()],
            };
            lemma_emit_fit(mid, actor, record.kind, record.id, mutation, now);
        }
    }
}

proof fn lemma_records_fit(
    state: ReplicaView,
    actor: Seq<char>,
    records: Seq<RecordView>,
    now: i64,
)
    requires
        uuid_text(actor),
        own_copy(state, actor),
        forall|i: int| 0 <= i < records.len() ==> within_limits(#[trigger] records[i]),
    ensures
        records_scanned(state, actor, records, now) matches Ok((after, count)) ==> own_copy(
            after,
            actor,
        ) && after.workspace == state.workspace,
    decreases records.len(),
{
    if records.len() > 0 {
        let shorter = records.drop_last();
        let record = records.last();
        assert forall|i: int| 0 <= i < shorter.len() implies within_limits(
            #[trigger] shorter[i],
        ) by {
            assert(shorter[i] == records[i]);
        }
        assert(within_limits(records[records.len() - 1]));
        lemma_records_fit(state, actor, shorter, now);
        if let Ok((mid, count)) = records_scanned(state, actor, shorter, now) {
            let previous = shadow_of(mid.shadows, record.kind, record.id);
            let shadow = record.shadow;
            let fields = changed_fields(previous, shadow);
            let keys = ordered(shadow.fields.dom());
            let changed = |field: Seq<char>| crate::scan::field_changed(previous, shadow, field);
            lemma_ordered_lists(shadow.fields.dom());
            lemma_filter_members(keys, changed);
            assert(fields == keys.filter(changed));
            assert forall|i: int| 0 <= i < fields.len() implies shadow.fields.contains_key(
                #[trigger] fields[i],
            ) by {
                assert(fields.contains(fields[i]));
                assert(keys.contains(fields[i]));
            }
            lemma_fields_fit(mid, actor, record, fields, now);
            if let Ok(told) = fields_emitted(mid, actor, record, fields, now) {
                if content_changed(previous, shadow) {
                    let mutation = MutationView::SetContent {
                        context: told.frontier,
                        value: shadow.content->0,
                    };
                    lemma_own_context(told.frontier, actor);
                    lemma_emit_fit(told, actor, record.kind, record.id, mutation, now);
                }
            }
            if let Ok(told) = diff_emitted(mid, actor, previous, record, now) {
                let after = records_scanned(state, actor, records, now)->Ok_0.0;
                assert(after.shadows.dom() =~= told.shadows.dom().insert((record.kind, record.id)));
                assert forall|kind: EntityKind, id: Seq<char>| #[trigger]
                    after.shadows.contains_key((kind, id)) implies uuid_text(id) by {
                    if (kind, id) != (record.kind, record.id) {
                        assert(told.shadows.contains_key((kind, id)));
                    }
                }
            }
        }
    }
}

proof fn lemma_deletions_fit(
    state: ReplicaView,
    actor: Seq<char>,
    kind: EntityKind,
    ids: Seq<Seq<char>>,
    now: i64,
)
    requires
        own_copy(state, actor),
        forall|i: int| 0 <= i < ids.len() ==> uuid_text(#[trigger] ids[i]),
    ensures
        deletions_emitted(state, actor, kind, ids, now) matches Ok(after) ==> own_copy(after, actor)
            && after.workspace == state.workspace,
    decreases ids.len(),
{
    if ids.len() > 0 {
        let shorter = ids.drop_last();
        assert forall|i: int| 0 <= i < shorter.len() implies uuid_text(#[trigger] shorter[i]) by {
            assert(shorter[i] == ids[i]);
        }
        assert(uuid_text(ids[ids.len() - 1]));
        lemma_deletions_fit(state, actor, kind, shorter, now);
        if let Ok(mid) = deletions_emitted(state, actor, kind, shorter, now) {
            lemma_emit_fit(mid, actor, kind, ids.last(), MutationView::Delete, now);
            if let Ok(told) = emitted(mid, actor, kind, ids.last(), MutationView::Delete, now) {
                let after = deletions_emitted(state, actor, kind, ids, now)->Ok_0;
                assert forall|k: EntityKind, id: Seq<char>| #[trigger]
                    after.shadows.contains_key((k, id)) implies uuid_text(id) by {
                    assert(told.shadows.contains_key((k, id)));
                }
            }
        }
    }
}

proof fn lemma_sweep_fit(
    state: ReplicaView,
    actor: Seq<char>,
    records: Seq<RecordView>,
    kind: EntityKind,
    now: i64,
)
    requires
        own_copy(state, actor),
    ensures
        kind_swept(state, actor, records, kind, now) matches Ok((after, count)) ==> own_copy(
            after,
            actor,
        ) && after.workspace == state.workspace,
{
    let ids = vanished(state.shadows, records, kind);
    let keys = ordered(told_of(state.shadows, kind));
    let gone = |id: Seq<char>| !crate::scan::seen(records, kind, id);
    crate::scan::lemma_told_finite(state.shadows, kind);
    lemma_ordered_lists(told_of(state.shadows, kind));
    lemma_filter_members(keys, gone);
    assert(ids == keys.filter(gone));
    assert forall|i: int| 0 <= i < ids.len() implies uuid_text(#[trigger] ids[i]) by {
        assert(ids.contains(ids[i]));
        assert(keys.contains(ids[i]));
        assert(told_of(state.shadows, kind).contains(ids[i]));
        assert(state.shadows.contains_key((kind, ids[i])));
    }
    lemma_deletions_fit(state, actor, kind, ids, now);
}

/// A device that tells of a notebook within the limits makes only operations that others may take in.
pub proof fn lemma_scan_is_fit(
    state: ReplicaView,
    actor: Seq<char>,
    records: Seq<RecordView>,
    now: i64,
)
    requires
        uuid_text(actor),
        own_copy(state, actor),
        forall|i: int| 0 <= i < records.len() ==> within_limits(#[trigger] records[i]),
    ensures
        scanned(state, actor, records, now) matches Ok((after, count)) ==> own_copy(after, actor)
            && after.workspace == state.workspace,
{
    lemma_records_fit(state, actor, records, now);
    if let Ok((looked, a)) = records_scanned(state, actor, records, now) {
        lemma_sweep_fit(looked, actor, records, EntityKind::Attachment, now);
        if let Ok((first, b)) = kind_swept(looked, actor, records, EntityKind::Attachment, now) {
            lemma_sweep_fit(first, actor, records, EntityKind::Item, now);
            if let Ok((second, c)) = kind_swept(first, actor, records, EntityKind::Item, now) {
                lemma_sweep_fit(second, actor, records, EntityKind::Section, now);
            }
        }
    }
}

/// A list within the limits.
pub open spec fn section_within(section: SectionSnapshot) -> bool {
    uuid_text(section.sync_id@) && 0 < section.name@.len() <= MAX_SECTION_CHARS
}

/// A note within the limits.
pub open spec fn item_within(item: ItemSnapshot) -> bool {
    &&& uuid_text(item.sync_id@)
    &&& item.section_id matches Some(list) ==> uuid_text(list@)
    &&& item.content@.len() <= MAX_ITEM_CHARS
    &&& item.created_at.value >= 0
}

/// An attachment within the limits.
pub open spec fn attachment_within(attachment: AttachmentSnapshot) -> bool {
    &&& uuid_text(attachment.sync_id@)
    &&& uuid_text(attachment.item_id@)
    &&& 0 < vstd::utf8::encode_utf8(attachment.name@).len() <= 1024
    &&& 0 < vstd::utf8::encode_utf8(attachment.media_type@).len() <= 1024
    &&& 0 <= attachment.size.value <= MAX_ATTACHMENT_BYTES
    &&& manifest_valid(attachment.manifest@)
}

/// What is told of a notebook within the limits is within the limits.
pub proof fn lemma_notebook_within(
    sections: Seq<SectionSnapshot>,
    items: Seq<ItemSnapshot>,
    attachments: Seq<AttachmentSnapshot>,
)
    requires
        forall|i: int| 0 <= i < sections.len() ==> section_within(#[trigger] sections[i]),
        forall|i: int| 0 <= i < items.len() ==> item_within(#[trigger] items[i]),
        forall|i: int| 0 <= i < attachments.len() ==> attachment_within(#[trigger] attachments[i]),
    ensures
        forall|i: int|
            0 <= i < records_of(sections, items, attachments).len() ==> within_limits(
                #[trigger] records_of(sections, items, attachments)[i],
            ),
{
    lemma_field_names();
    let records = records_of(sections, items, attachments);
    let s = sections.len();
    let t = items.len();
    assert forall|i: int| 0 <= i < records.len() implies within_limits(#[trigger] records[i]) by {
        if i < s {
            assert(section_within(sections[i]));
            assert(records[i] == section_record(sections[i]));
        } else if i < s + t {
            assert(item_within(items[i - s]));
            assert(records[i] == item_record(items[i - s]));
        } else {
            assert(attachment_within(attachments[i - s - t]));
            assert(records[i] == attachment_record(attachments[i - s - t]));
        }
    }
}

/// Operations under different dots are taken in one after the other without a contradiction.
proof fn lemma_received_whole(state: ReplicaView, operations: Seq<OperationView>, n: int, now: i64)
    requires
        state.log.len() == 0,
        0 <= n <= operations.len(),
        forall|i: int, j: int|
            0 <= i < j < operations.len() ==> (#[trigger] operations[i]).dot != (
            #[trigger] operations[j]).dot,
    ensures
        received(state, operations.take(n), now) is Ok,
    decreases n,
{
    if n > 0 {
        let shorter = operations.take(n - 1);
        lemma_received_whole(state, operations, n - 1, now);
        assert(operations.take(n).drop_last() =~= shorter);
        let last = operations[n - 1];
        lemma_received_holds(state, shorter, now);
        let before = received(state, shorter, now)->Ok_0.0;
        assert(!contradicted(before.log, last)) by {
            if contradicted(before.log, last) {
                let i = choose|i: int|
                    0 <= i < before.log.len() && (#[trigger] before.log[i]).operation.dot
                        == last.dot && before.log[i].operation != last;
                let other = before.log[i].operation;
                assert(holds(before.log, other));
                assert(!holds(state.log, other));
                assert(shorter.contains(other));
                let k = shorter.index_of(other);
                assert(operations[k] == other);
                assert(operations[k].dot != operations[n - 1].dot);
            }
        }
    }
}

proof fn lemma_observe_reaches(
    context: Map<Seq<char>, u64>,
    operations: Seq<OperationView>,
    i: int,
)
    requires
        0 <= i < operations.len(),
    ensures
        observes(observe_all(context, operations), operations[i].dot),
    decreases operations.len(),
{
    if i < operations.len() - 1 {
        lemma_observe_reaches(context, operations.drop_last(), i);
        assert(operations.drop_last()[i] == operations[i]);
    }
}

/// A new device takes in all that another has told of its own notebook, as long as that fits into
/// one payload and the encodings are not too long.
pub proof fn lemma_told_is_taken(
    sender: ReplicaView,
    actor: Seq<char>,
    sizes: Seq<usize>,
    later: WholeNumber,
)
    requires
        uuid_text(actor),
        own_copy(sender, actor),
        sound(sender),
        counter_of(sender.frontier, actor) < u64::MAX,
        sender.log.len() <= MAX_REMOTE_OPS,
        sizes.len() == sender.log.len(),
        forall|i: int| 0 <= i < sizes.len() ==> #[trigger] sizes[i] <= MAX_OPERATION_BYTES,
    ensures
        exchanged(
            empty_replica(sender.workspace),
            actor,
            PayloadView {
                schema_version: SYNC_SCHEMA_VERSION,
                workspace: sender.workspace,
                frontier: sender.frontier,
                operations: log_operations(sender.log),
            },
            sizes,
            later,
        ) is Ok,
{
    let empty = empty_replica(sender.workspace);
    let operations = log_operations(sender.log);
    let payload = PayloadView {
        schema_version: SYNC_SCHEMA_VERSION,
        workspace: sender.workspace,
        frontier: sender.frontier,
        operations,
    };
    lemma_own_context(sender.frontier, actor);
    assert forall|i: int| 0 <= i < operations.len() implies (#[trigger] operations[i]).dot.actor
        == actor && operation_valid(operations[i], sender.workspace, sizes[i] as int) by {
        assert(sender.log[i].operation == operations[i]);
        assert(holds(sender.log, operations[i]));
        assert(sizes[i] <= MAX_OPERATION_BYTES);
    }
    assert(payload_valid(payload, empty.workspace, actor, sizes));
    assert forall|i: int|
        0 <= i < operations.len() && (#[trigger] operations[i]).dot.counter > 0 implies {
        let counter = operations[i].dot.counter;
        counter < u64::MAX && (counter == 1 || has_counter(operations, counter - 1))
    } by {
        let counter = operations[i].dot.counter;
        assert(observes(sender.frontier, sender.log[i].operation.dot));
        if counter > 1 {
            let earlier = (counter - 1) as u64;
            assert(logged_up_to(sender.log, actor, counter_of(sender.frontier, actor)));
            assert(is_logged(sender.log, DotView { actor, counter: earlier }));
            let k = choose|k: int|
                0 <= k < sender.log.len() && (#[trigger] sender.log[k]).operation.dot == (DotView {
                    actor,
                    counter: earlier,
                });
            assert(operations[k].dot.counter == earlier);
        }
    }
    assert(gapless(operations, counter_of(empty.frontier, actor)));
    assert forall|other: Seq<char>| #[trigger] payload.frontier.contains_key(other) implies payload.frontier[other]
        <= counter_of(observe_all(empty.frontier, operations), other) by {
        let last = sender.frontier[other];
        assert(other == actor && last > 0);
        assert(logged_up_to(sender.log, actor, counter_of(sender.frontier, actor)));
        assert(is_logged(sender.log, DotView { actor, counter: last }));
        let k = choose|k: int|
            0 <= k < sender.log.len() && (#[trigger] sender.log[k]).operation.dot == (DotView {
                actor,
                counter: last,
            });
        assert(operations[k].dot == sender.log[k].operation.dot);
        lemma_observe_reaches(empty.frontier, operations, k);
    }
    assert forall|i: int, j: int| 0 <= i < j < operations.len() implies (
    #[trigger] operations[i]).dot != (#[trigger] operations[j]).dot by {
        assert(sender.log[i].operation.dot != sender.log[j].operation.dot);
    }
    lemma_received_whole(empty, operations, operations.len() as int, later.value);
    assert(operations.take(operations.len() as int) =~= operations);
}

/// A copy in which nothing has happened yet is one of a device that has only told of its own.
pub proof fn lemma_new_copy_is_own(workspace: Seq<char>, actor: Seq<char>)
    ensures
        own_copy(empty_replica(workspace), actor),
{
    assert(empty_replica(workspace).shadows.dom() =~= Set::empty());
}

} // verus!
