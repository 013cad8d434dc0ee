//! A notebook travels: what one device holds is what another shows, once the operations of the one
//! have reached the other.

use vstd::prelude::*;

use crate::agreement::{
    causal_copy, entities_add_up, holds, lemma_copies_converge, lemma_exchange_adds_up,
    lemma_exchange_takes_all, lemma_new_copy, lemma_scan_adds_up, lemma_scan_stays_causal,
    same_operations,
};
use crate::exchange::{exchanged, lemma_field_names, log_operations};
use crate::log_laws::lemma_scan_keeps_sound;
use crate::model::{zero_bits, EntityKind, FieldView, OperationView, PayloadView, WholeNumber};
use crate::rows_laws::{
    item_follows, item_live, lemma_exchange_shows, lemma_new_copy_shows, rows_follow, rows_known,
    says, section_follows,
};
use crate::scan::{distinct_records, scanned, seen};
use crate::snapshot::{
    attachment_record, item_record, records_of, section_record, AttachmentSnapshot, ItemSnapshot,
    SectionSnapshot,
};
use crate::store::{empty_replica, entity_state, RecordView, ReplicaView};
use crate::telling_laws::{
    all_told, lemma_new_copy_tells, lemma_scan_tells, not_deleted, says_something, tells, teller,
    truthful,
};

verus! {

/// A list of the notebook is shown under its name and in its place.
pub open spec fn shows_section(state: ReplicaView, section: SectionSnapshot) -> bool {
    let row = state.sections[section.sync_id@];
    &&& state.sections.contains_key(section.sync_id@)
    &&& row.name == section.name@
    &&& row.sort_bits == section.sort_bits || (zero_bits(row.sort_bits) && zero_bits(
        section.sort_bits,
    ))
}

/// A note of the notebook is shown with its text, done or not as it is, and on its list where that
/// list is shown, else on none.
pub open spec fn shows_item(state: ReplicaView, item: ItemSnapshot) -> bool {
    let row = state.items[item.sync_id@];
    &&& state.items.contains_key(item.sync_id@)
    &&& row.content == item.content@
    &&& row.done <==> item.done != 0
    &&& match item.section_id {
        Some(list) => if state.sections.contains_key(list@) {
            row.section == Some(list@)
        } else {
            row.section is None
        },
        None => row.section is None,
    }
}

/// Exactly this notebook is shown.
pub open spec fn shows_notebook(
    state: ReplicaView,
    sections: Seq<SectionSnapshot>,
    items: Seq<ItemSnapshot>,
) -> bool {
    &&& forall|i: int| 0 <= i < sections.len() ==> shows_section(state, #[trigger] sections[i])
    &&& forall|i: int| 0 <= i < items.len() ==> shows_item(state, #[trigger] items[i])
    &&& forall|id: Seq<char>| #[trigger]
        state.sections.contains_key(id) ==> exists|i: int|
            0 <= i < sections.len() && (#[trigger] sections[i]).sync_id@ == id
    &&& forall|id: Seq<char>| #[trigger]
        state.items.contains_key(id) ==> exists|i: int|
            0 <= i < items.len() && (#[trigger] items[i]).sync_id@ == id
}

proof fn lemma_fields_finite(
    sections: Seq<SectionSnapshot>,
    items: Seq<ItemSnapshot>,
    attachments: Seq<AttachmentSnapshot>,
)
    ensures
        forall|i: int|
            0 <= i < records_of(sections, items, attachments).len() ==> says_something(
                #[trigger] records_of(sections, items, attachments)[i],
            ),
{
    let records = records_of(sections, items, attachments);
    assert forall|i: int| 0 <= i < records.len() implies says_something(#[trigger] records[i]) by {
        let s = sections.len();
        let t = items.len();
        if i < s {
            assert(records[i] == section_record(sections[i]));
            assert(records[i].shadow.fields.contains_key("name"@));
        } else if i < s + t {
            assert(records[i] == item_record(items[i - s]));
            assert(records[i].shadow.fields.contains_key("done"@));
        } else {
            assert(records[i] == attachment_record(attachments[i - s - t]));
            assert(records[i].shadow.fields.contains_key("name"@));
        }
    }
}

/// What is told of a list is what is shown of it.
proof fn lemma_section_shows(state: ReplicaView, section: SectionSnapshot)
    requires
        section_follows(state, section.sync_id@),
        tells(state, EntityKind::Section, section.sync_id@, section_record(section).shadow),
    ensures
        shows_section(state, section),
{
    lemma_field_names();
    let shadow = section_record(section).shadow;
    let entity = state.entities[(EntityKind::Section, section.sync_id@)];
    assert(shadow.fields.contains_key("name"@));
    assert(shadow.fields.contains_key("sortIndex"@));
    assert(says(entity, "name"@, FieldView::Text(section.name@)));
    let place = entity.metadata["sortIndex"@].value;
    match place {
        FieldView::Fraction { bits } => {
            assert(says(entity, "sortIndex"@, FieldView::Fraction { bits }));
        },
        _ => {},
    }
}

/// What is told of a note is what is shown of it.
proof fn lemma_item_shows(state: ReplicaView, item: ItemSnapshot)
    requires
        item_follows(state, item.sync_id@),
        tells(state, EntityKind::Item, item.sync_id@, item_record(item).shadow),
    ensures
        shows_item(state, item),
        item_live(state, item.sync_id@),
        item.created_at.value >= 0 ==> exists|bits: u64| #[trigger]
            says(
                state.entities[(EntityKind::Item, item.sync_id@)],
                "createdAt"@,
                FieldView::Natural { value: item.created_at.value as u64, bits },
            ),
{
    lemma_field_names();
    let shadow = item_record(item).shadow;
    let entity = state.entities[(EntityKind::Item, item.sync_id@)];
    let row = state.items[item.sync_id@];
    assert(shadow.fields.contains_key("sectionId"@));
    assert(shadow.fields.contains_key("done"@));
    assert(shadow.fields.contains_key("createdAt"@));
    assert(entity.metadata["done"@].value == FieldView::Bool(item.done != 0));
    match item.section_id {
        Some(list) => {
            assert(says(entity, "sectionId"@, FieldView::Text(list@)));
            if let Some(other) = row.section {
                let there = state.sections.contains_key(other);
                assert(says(entity, "sectionId"@, FieldView::Text(other)) && there);
            }
        },
        None => {
            assert(entity.metadata["sectionId"@].value == FieldView::Null);
            if let Some(other) = row.section {
                let there = state.sections.contains_key(other);
                assert(says(entity, "sectionId"@, FieldView::Text(other)));
            }
        },
    }
    if item.created_at.value >= 0 {
        let made = entity.metadata["createdAt"@].value;
        match made {
            FieldView::Natural { value, bits } => {
                assert(says(
                    entity,
                    "createdAt"@,
                    FieldView::Natural { value: item.created_at.value as u64, bits },
                ));
            },
            _ => {},
        }
    }
}

/// Two copies that hold the same operations tell the same of an entity.
proof fn lemma_tells_alike(a: ReplicaView, b: ReplicaView, record: RecordView)
    requires
        entities_add_up(a),
        entities_add_up(b),
        same_operations(a, b),
        crate::log_laws::dots_distinct(a.log),
        causal_copy(a),
        tells(a, record.kind, record.id, record.shadow),
    ensures
        tells(b, record.kind, record.id, record.shadow),
{
    lemma_copies_converge(a, b, record.kind, record.id);
    assert(entity_state(a.entities, record.kind, record.id) == entity_state(
        b.entities,
        record.kind,
        record.id,
    ));
}

/// Once a device has told of its notebook and its operations have reached another device, by
/// whatever way and in whatever order, the other one shows exactly that notebook: the same lists
/// under their names and in their places, and the same notes with their texts, on their lists, done
/// or not as they are; and it knows of every attachment what was told.
pub proof fn lemma_notebook_travels(
    before: ReplicaView,
    actor: Seq<char>,
    sections: Seq<SectionSnapshot>,
    items: Seq<ItemSnapshot>,
    attachments: Seq<AttachmentSnapshot>,
    now: i64,
    other: ReplicaView,
)
    requires
        teller(before, actor, now),
        truthful(before),
        all_told(before),
        before.shadows.dom().finite(),
        entities_add_up(before),
        causal_copy(before),
        not_deleted(before, records_of(sections, items, attachments)),
        distinct_records(records_of(sections, items, attachments)),
        rows_follow(other),
        rows_known(other),
        entities_add_up(other),
    ensures
        scanned(before, actor, records_of(sections, items, attachments), now) matches Ok(
            (after, count),
        ) ==> (same_operations(after, other) ==> {
            &&& shows_notebook(other, sections, items)
            &&& forall|i: int|
                0 <= i < attachments.len() ==> tells(
                    other,
                    EntityKind::Attachment,
                    (#[trigger] attachments[i]).sync_id@,
                    attachment_record(attachments[i]).shadow,
                )
        }),
{
    let records = records_of(sections, items, attachments);
    lemma_fields_finite(sections, items, attachments);
    lemma_scan_tells(before, actor, records, now);
    lemma_scan_adds_up(before, actor, records, now);
    lemma_scan_stays_causal(before, actor, records, now);
    lemma_scan_keeps_sound(before, actor, records, now);
    if let Ok((after, count)) = scanned(before, actor, records, now) {
        if same_operations(after, other) {
            let s = sections.len() as int;
            let t = items.len() as int;
            assert forall|i: int| 0 <= i < sections.len() implies shows_section(
                other,
                #[trigger] sections[i],
            ) by {
                assert(records[i] == section_record(sections[i]));
                lemma_tells_alike(after, other, records[i]);
                assert(section_follows(other, sections[i].sync_id@));
                lemma_section_shows(other, sections[i]);
            }
            assert forall|i: int| 0 <= i < items.len() implies shows_item(
                other,
                #[trigger] items[i],
            ) by {
                assert(records[s + i] == item_record(items[i]));
                lemma_tells_alike(after, other, records[s + i]);
                assert(item_follows(other, items[i].sync_id@));
                lemma_item_shows(other, items[i]);
            }
            assert forall|i: int| 0 <= i < attachments.len() implies tells(
                other,
                EntityKind::Attachment,
                (#[trigger] attachments[i]).sync_id@,
                attachment_record(attachments[i]).shadow,
            ) by {
                assert(records[s + t + i] == attachment_record(attachments[i]));
                lemma_tells_alike(after, other, records[s + t + i]);
            }
            assert forall|id: Seq<char>| #[trigger]
                other.sections.contains_key(id) implies exists|i: int|
                0 <= i < sections.len() && (#[trigger] sections[i]).sync_id@ == id by {
                assert(section_follows(other, id));
                lemma_copies_converge(after, other, EntityKind::Section, id);
                assert(after.entities[(EntityKind::Section, id)].deleted_at is None);
                assert(seen(records, EntityKind::Section, id));
                let i = choose|i: int|
                    0 <= i < records.len() && (#[trigger] records[i]).kind == EntityKind::Section
                        && records[i].id == id;
                if i >= s {
                    if i < s + t {
                        assert(records[i] == item_record(items[i - s]));
                    } else {
                        assert(records[i] == attachment_record(attachments[i - s - t]));
                    }
                }
                assert(records[i] == section_record(sections[i]));
                assert(sections[i].sync_id@ == id);
            }
            assert forall|id: Seq<char>| #[trigger]
                other.items.contains_key(id) implies exists|i: int|
                0 <= i < items.len() && (#[trigger] items[i]).sync_id@ == id by {
                assert(item_follows(other, id));
                lemma_copies_converge(after, other, EntityKind::Item, id);
                assert(after.entities[(EntityKind::Item, id)].deleted_at is None);
                assert(seen(records, EntityKind::Item, id));
                let i = choose|i: int|
                    0 <= i < records.len() && (#[trigger] records[i]).kind == EntityKind::Item
                        && records[i].id == id;
                if i < s {
                    assert(records[i] == section_record(sections[i]));
                }
                if i >= s + t {
                    assert(records[i] == attachment_record(attachments[i - s - t]));
                }
                assert(records[i] == item_record(items[i - s]));
                assert(items[i - s].sync_id@ == id);
            }
        }
    }
}

/// A new device that takes in what another has told of its notebook shows exactly that notebook,
/// with the moments at which the notes were made.
pub proof fn lemma_new_device_shows(
    workspace: Seq<char>,
    actor: Seq<char>,
    sections: Seq<SectionSnapshot>,
    items: Seq<ItemSnapshot>,
    attachments: Seq<AttachmentSnapshot>,
    now: i64,
    payload: PayloadView,
    sizes: Seq<usize>,
    later: WholeNumber,
)
    requires
        distinct_records(records_of(sections, items, attachments)),
    ensures
        scanned(
            empty_replica(workspace),
            actor,
            records_of(sections, items, attachments),
            now,
        ) matches Ok((sender, count)) ==> (exchanged(
            empty_replica(workspace),
            actor,
            payload,
            sizes,
            later,
        ) matches Ok((receiver, answer)) ==> (payload.operations == log_operations(sender.log)
            ==> {
            &&& shows_notebook(receiver, sections, items)
            &&& forall|i: int|
                0 <= i < items.len() && (#[trigger] items[i]).created_at.value >= 0
                    ==> receiver.items[items[i].sync_id@].created_at == items[i].created_at.value
        })),
{
    let empty = empty_replica(workspace);
    let records = records_of(sections, items, attachments);
    lemma_new_copy(workspace);
    lemma_new_copy_shows(workspace);
    lemma_new_copy_tells(workspace, actor, now);
    lemma_exchange_shows(empty, actor, payload, sizes, later);
    lemma_exchange_adds_up(empty, actor, payload, sizes, later);
    lemma_exchange_takes_all(empty, actor, payload, sizes, later);
    lemma_fields_finite(sections, items, attachments);
    if let Ok((sender, count)) = scanned(empty, actor, records, now) {
        if let Ok((receiver, answer)) = exchanged(empty, actor, payload, sizes, later) {
            if payload.operations == log_operations(sender.log) {
                assert forall|operation: OperationView|
                    #![trigger holds(sender.log, operation)]
                    #![trigger holds(receiver.log, operation)]
                    holds(sender.log, operation) <==> holds(receiver.log, operation) by {
                    let sent = payload.operations;
                    if holds(sender.log, operation) {
                        let i = choose|i: int|
                            0 <= i < sender.log.len() && (#[trigger] sender.log[i]).operation
                                == operation;
                        assert(sent[i] == operation);
                        assert(sent.contains(operation));
                    }
                    if holds(receiver.log, operation) {
                        assert(!holds(empty.log, operation));
                        assert(sent.contains(operation));
                        let i = sent.index_of(operation);
                        assert(sender.log[i].operation == operation);
                    }
                }
                lemma_notebook_travels(
                    empty,
                    actor,
                    sections,
                    items,
                    attachments,
                    now,
                    receiver,
                );
                lemma_scan_tells(empty, actor, records, now);
                lemma_scan_adds_up(empty, actor, records, now);
                lemma_scan_stays_causal(empty, actor, records, now);
                lemma_scan_keeps_sound(empty, actor, records, now);
                let s = sections.len() as int;
                assert forall|i: int|
                    0 <= i < items.len() && (
                    #[trigger] items[i]).created_at.value >= 0 implies receiver.items[items[i].sync_id@].created_at
                    == items[i].created_at.value by {
                    assert(records[s + i] == item_record(items[i]));
                    lemma_tells_alike(sender, receiver, records[s + i]);
                    assert(item_follows(receiver, items[i].sync_id@));
                    lemma_item_shows(receiver, items[i]);
                    let bits = choose|bits: u64| #[trigger]
                        says(
                            receiver.entities[(EntityKind::Item, items[i].sync_id@)],
                            "createdAt"@,
                            FieldView::Natural { value: items[i].created_at.value as u64, bits },
                        );
                    assert(!empty.items.contains_key(items[i].sync_id@));
                }
            }
        }
    }
}

} // verus!
