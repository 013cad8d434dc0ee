//! What a device shows is what it knows: once operations were taken in, the rows of lists and notes
//! say what the winning operations said, whatever was shown before.

use vstd::prelude::*;

use crate::exchange::{
    exchanged, received, sections_shown, touched_shown,
};
use crate::model::{
    EntityKind, EntityView, FieldView, OperationView, PayloadView, WholeNumber,
};
use crate::projection::{
    dependents, item_entity, item_shown, items_shown, known_items, section_place, section_placed,
    section_shown, text_field,
};
use crate::scan::lemma_filter_members;
use crate::store::{empty_replica, inserted, ReplicaView};
use crate::textmap::{lemma_ordered_lists, ordered};

verus! {

/// The last word on a field of an entity is the given value.
pub open spec fn says(entity: EntityView, field: Seq<char>, value: FieldView) -> bool {
    entity.metadata.contains_key(field) && entity.metadata[field].value == value
}

/// A note is known, was not deleted and has been given a text.
pub open spec fn item_live(state: ReplicaView, id: Seq<char>) -> bool {
    &&& state.entities.contains_key((EntityKind::Item, id))
    &&& state.entities[(EntityKind::Item, id)].deleted_at is None
    &&& state.entities[(EntityKind::Item, id)].content.len() > 0
}

/// A note is known and was deleted.
pub open spec fn item_dead(state: ReplicaView, id: Seq<char>) -> bool {
    &&& state.entities.contains_key((EntityKind::Item, id))
    &&& state.entities[(EntityKind::Item, id)].deleted_at is Some
}

/// The row of a note says what is known of the note: the text of its last edit, whether it is done,
/// and its list, where that list is shown. A deleted note has no row, and a note is marked exactly
/// where edits compete.
pub open spec fn item_follows(state: ReplicaView, id: Seq<char>) -> bool {
    let entity = state.entities[(EntityKind::Item, id)];
    let row = state.items[id];
    &&& item_live(state, id) ==> {
        &&& state.items.contains_key(id)
        &&& row.content == entity.content.last().value
        &&& row.done <==> says(entity, "done"@, FieldView::Bool(true))
        &&& forall|list: Seq<char>|
            #![trigger state.sections.contains_key(list)]
            #![trigger says(entity, "sectionId"@, FieldView::Text(list))]
            (row.section == Some(list) <==> says(entity, "sectionId"@, FieldView::Text(list))
                && state.sections.contains_key(list))
        &&& state.conflicts.contains_key(id) <==> entity.content.len() > 1
        &&& entity.content.len() > 1 ==> state.conflicts[id] == entity.content
    }
    &&& item_dead(state, id) ==> !state.items.contains_key(id)
}

/// The row of a list says what is known of the list: its name, and its place where that is a number.
/// A deleted list has no row.
pub open spec fn section_follows(state: ReplicaView, id: Seq<char>) -> bool {
    let entity = state.entities[(EntityKind::Section, id)];
    let row = state.sections[id];
    state.entities.contains_key((EntityKind::Section, id)) ==> {
        &&& entity.deleted_at is Some ==> !state.sections.contains_key(id)
        &&& entity.deleted_at is None ==> forall|name: Seq<char>| #[trigger]
            says(entity, "name"@, FieldView::Text(name)) ==> {
                &&& state.sections.contains_key(id)
                &&& row.name == name
                &&& forall|bits: u64| #[trigger]
                    says(entity, "sortIndex"@, FieldView::Fraction { bits }) ==> row.sort_bits
                        == bits
                &&& forall|value: u64, bits: u64| #[trigger]
                    says(entity, "sortIndex"@, FieldView::Natural { value, bits })
                        ==> row.sort_bits == bits
                &&& forall|value: i64, bits: u64| #[trigger]
                    says(entity, "sortIndex"@, FieldView::Negative { value, bits })
                        ==> row.sort_bits == bits
            }
    }
}

/// Every row says what is known of its note or list.
pub open spec fn rows_follow(state: ReplicaView) -> bool {
    &&& forall|id: Seq<char>| #[trigger] item_follows(state, id)
    &&& forall|id: Seq<char>| #[trigger] section_follows(state, id)
}

/// Every row is that of a note or list of which something is known.
pub open spec fn rows_known(state: ReplicaView) -> bool {
    &&& forall|id: Seq<char>| #[trigger]
        state.items.contains_key(id) ==> state.entities.contains_key((EntityKind::Item, id))
    &&& forall|id: Seq<char>| #[trigger]
        state.sections.contains_key(id) ==> state.entities.contains_key((EntityKind::Section, id))
}

/// The moment at which a note was made, as its row keeps it: that of the row which was there before,
/// else what was said of it.
spec fn made_follows(before: ReplicaView, after: ReplicaView, id: Seq<char>) -> bool {
    let entity = before.entities[(EntityKind::Item, id)];
    after.items.contains_key(id) && !item_dead(before, id) ==> {
        &&& before.items.contains_key(id) ==> after.items[id].created_at
            == before.items[id].created_at
        &&& !before.items.contains_key(id) ==> before.entities.contains_key((EntityKind::Item, id))
            && forall|value: u64, bits: u64| #[trigger]
            says(entity, "createdAt"@, FieldView::Natural { value, bits }) && value <= i64::MAX
                ==> after.items[id].created_at == value
    }
}

/// The two copies show the same of a note.
spec fn row_same(a: ReplicaView, b: ReplicaView, id: Seq<char>) -> bool {
    &&& a.items.contains_key(id) == b.items.contains_key(id)
    &&& a.items.contains_key(id) ==> a.items[id] == b.items[id]
    &&& a.conflicts.contains_key(id) == b.conflicts.contains_key(id)
    &&& a.conflicts.contains_key(id) ==> a.conflicts[id] == b.conflicts[id]
}

proof fn lemma_item_shown(state: ReplicaView, before: ReplicaView, id: Seq<char>, now: WholeNumber)
    requires
        state.entities.contains_key((EntityKind::Item, id)),
        before.entities == state.entities,
    ensures
        ({
            let after = item_shown(before, id, item_entity(state, id), now);
            &&& after.entities == state.entities
            &&& after.sections == before.sections
            &&& item_follows(after, id)
            &&& forall|other: Seq<char>| other != id ==> #[trigger] row_same(before, after, other)
            &&& made_follows(before, after, id)
        }),
{
    let entity = item_entity(state, id);
    let after = item_shown(before, id, entity, now);
    if item_live(state, id) {
        assert(after.items.contains_key(id));
        assert forall|list: Seq<char>|
            #![trigger after.sections.contains_key(list)]
            #![trigger says(entity, "sectionId"@, FieldView::Text(list))]
            (after.items[id].section == Some(list) <==> says(
                entity,
                "sectionId"@,
                FieldView::Text(list),
            ) && after.sections.contains_key(list)) by {
        }
    }
}

/// Showing notes makes the row of each of them follow, and leaves the others alone.
proof fn lemma_items_shown(state: ReplicaView, ids: Seq<Seq<char>>, now: WholeNumber)
    requires
        forall|i: int|
            0 <= i < ids.len() ==> state.entities.contains_key(
                (EntityKind::Item, #[trigger] ids[i]),
            ),
    ensures
        ({
            let after = items_shown(state, ids, now);
            &&& after.entities == state.entities
            &&& after.sections == state.sections
            &&& forall|id: Seq<char>| #[trigger] ids.contains(id) ==> item_follows(after, id)
            &&& forall|id: Seq<char>|
                #![trigger row_same(state, after, id)]
                !ids.contains(id) ==> row_same(state, after, id)
            &&& forall|id: Seq<char>| #[trigger] made_follows(state, after, id) || !ids.contains(id)
        }),
    decreases ids.len(),
{
    let after = items_shown(state, ids, now);
    if ids.len() > 0 {
        let shorter = ids.drop_last();
        let before = items_shown(state, shorter, now);
        let last = ids.last();
        assert forall|i: int| 0 <= i < shorter.len() implies state.entities.contains_key(
            (EntityKind::Item, #[trigger] shorter[i]),
        ) by {
            assert(shorter[i] == ids[i]);
        }
        lemma_items_shown(state, shorter, now);
        assert(ids[ids.len() - 1] == last);
        lemma_item_shown(state, before, last, now);
        assert forall|id: Seq<char>| #[trigger] ids.contains(id) implies item_follows(after, id) by {
            if id != last {
                assert(shorter[ids.index_of(id)] == id);
                assert(shorter.contains(id));
                assert(item_follows(before, id));
                assert(row_same(before, after, id));
            }
        }
        assert forall|id: Seq<char>|
            #![trigger row_same(state, after, id)]
            !ids.contains(id) implies row_same(state, after, id) by {
            assert(id != last) by {
                assert(ids[ids.len() - 1] == last);
            }
            if shorter.contains(id) {
                assert(ids[shorter.index_of(id)] == id);
            }
            assert(row_same(state, before, id));
            assert(row_same(before, after, id));
        }
        assert forall|id: Seq<char>| #[trigger] made_follows(state, after, id) || !ids.contains(
            id,
        ) by {
            if ids.contains(id) {
                if id != last {
                    assert(shorter[ids.index_of(id)] == id);
                    assert(shorter.contains(id));
                    assert(made_follows(state, before, id));
                    assert(row_same(before, after, id));
                } else {
                    if shorter.contains(id) {
                        assert(made_follows(state, before, id));
                    } else {
                        assert(row_same(state, before, id));
                    }
                }
            }
        }
    }
}

/// Every note follows but those that are yet to be shown.
spec fn others_follow(state: ReplicaView, pending: Set<Seq<char>>) -> bool {
    forall|id: Seq<char>| #[trigger] item_follows(state, id) || pending.contains(id)
}

/// The moment at which every note was made is kept or taken over.
spec fn all_made(before: ReplicaView, after: ReplicaView) -> bool {
    forall|id: Seq<char>| #[trigger] made_follows(before, after, id)
}

/// The rows that were there are there, but for those of deleted notes.
spec fn rows_stay(before: ReplicaView, after: ReplicaView) -> bool {
    forall|id: Seq<char>| #[trigger]
        before.items.contains_key(id) && !item_dead(before, id) ==> after.items.contains_key(id)
}

/// Showing a list makes its row follow, keeps every note following that did, and leaves the other
/// lists alone.
proof fn lemma_section_shown(
    state: ReplicaView,
    before: ReplicaView,
    id: Seq<char>,
    now: WholeNumber,
    pending: Set<Seq<char>>,
)
    requires
        state.entities.contains_key((EntityKind::Section, id)),
        before.entities == state.entities,
        state.entities.dom().finite(),
        others_follow(before, pending),
    ensures
        ({
            let after = section_shown(before, id, state.entities[(EntityKind::Section, id)], now);
            &&& after.entities == state.entities
            &&& section_follows(after, id)
            &&& others_follow(after, pending)
            &&& forall|other: Seq<char>|
                other != id ==> #[trigger] after.sections.contains_key(other)
                    == before.sections.contains_key(other) && after.sections[other]
                    == before.sections[other]
            &&& all_made(before, after)
            &&& rows_stay(before, after)
        }),
{
    let entity = state.entities[(EntityKind::Section, id)];
    let after = section_shown(before, id, entity, now);
    if entity.deleted_at is Some {
        assert forall|any: Seq<char>| #[trigger] item_follows(after, any) || pending.contains(
            any,
        ) by {
            assert(item_follows(before, any) || pending.contains(any));
            if item_follows(before, any) && item_live(before, any) {
                let known = before.entities[(EntityKind::Item, any)];
                assert(after.items.contains_key(any));
                assert forall|list: Seq<char>|
                    #![trigger after.sections.contains_key(list)]
                    #![trigger says(known, "sectionId"@, FieldView::Text(list))]
                    (after.items[any].section == Some(list) <==> says(
                        known,
                        "sectionId"@,
                        FieldView::Text(list),
                    ) && after.sections.contains_key(list)) by {
                    assert(before.items[any].section == Some(list) <==> says(
                        known,
                        "sectionId"@,
                        FieldView::Text(list),
                    ) && before.sections.contains_key(list));
                }
            }
        }
        assert forall|any: Seq<char>| #[trigger] made_follows(before, after, any) by {
        }
    } else if let Some(name) = text_field(entity, "name"@) {
        let placed = section_placed(before, id, name, section_place(entity, now), now);
        let ids = dependents(placed, id);
        let keys = ordered(known_items(placed));
        let stands = |any: Seq<char>|
            text_field(item_entity(placed, any), "sectionId"@) == Some(id);
        lemma_known_items_finite(placed);
        lemma_ordered_lists(known_items(placed));
        lemma_filter_members(keys, stands);
        assert(ids == keys.filter(stands));
        assert forall|i: int| 0 <= i < ids.len() implies placed.entities.contains_key(
            (EntityKind::Item, #[trigger] ids[i]),
        ) by {
            assert(ids.contains(ids[i]));
            assert(keys.contains(ids[i]));
            assert(known_items(placed).contains(ids[i]));
        }
        lemma_items_shown(placed, ids, now);
        assert(after == items_shown(placed, ids, now));
        assert forall|any: Seq<char>| #[trigger] item_follows(after, any) || pending.contains(
            any,
        ) by {
            assert(item_follows(before, any) || pending.contains(any));
            if ids.contains(any) {
            } else if item_follows(before, any) {
                assert(row_same(placed, after, any));
                if item_live(before, any) {
                    let known = before.entities[(EntityKind::Item, any)];
                    assert(known_items(placed).contains(any));
                    assert(keys.contains(any));
                    assert(!stands(any));
                    assert forall|list: Seq<char>|
                        #![trigger after.sections.contains_key(list)]
                        #![trigger says(known, "sectionId"@, FieldView::Text(list))]
                        (after.items[any].section == Some(list) <==> says(
                            known,
                            "sectionId"@,
                            FieldView::Text(list),
                        ) && after.sections.contains_key(list)) by {
                        assert(before.items[any].section == Some(list) <==> says(
                            known,
                            "sectionId"@,
                            FieldView::Text(list),
                        ) && before.sections.contains_key(list));
                    }
                }
            }
        }
        assert forall|any: Seq<char>| #[trigger] made_follows(before, after, any) by {
            assert(made_follows(placed, after, any) || !ids.contains(any));
            if !ids.contains(any) {
                assert(row_same(placed, after, any));
            }
        }
        assert forall|any: Seq<char>| #[trigger]
            before.items.contains_key(any) && !item_dead(before, any) implies after.items.contains_key(
            any,
        ) by {
            if ids.contains(any) {
                lemma_rows_stay(placed, ids, now, any);
            } else {
                assert(row_same(placed, after, any));
            }
        }
    } else {
        assert forall|any: Seq<char>| #[trigger] made_follows(before, after, any) by {
        }
    }
}

proof fn lemma_rows_stay(state: ReplicaView, ids: Seq<Seq<char>>, now: WholeNumber, id: Seq<char>)
    requires
        state.items.contains_key(id),
        !item_dead(state, id),
        forall|i: int|
            0 <= i < ids.len() ==> state.entities.contains_key(
                (EntityKind::Item, #[trigger] ids[i]),
            ),
    ensures
        items_shown(state, ids, now).items.contains_key(id),
    decreases ids.len(),
{
    if ids.len() > 0 {
        let shorter = ids.drop_last();
        assert forall|i: int| 0 <= i < shorter.len() implies state.entities.contains_key(
            (EntityKind::Item, #[trigger] shorter[i]),
        ) by {
            assert(shorter[i] == ids[i]);
        }
        assert(state.entities.contains_key((EntityKind::Item, ids[ids.len() - 1])));
        lemma_rows_stay(state, shorter, now, id);
    }
}

proof fn lemma_known_items_finite(state: ReplicaView)
    requires
        state.entities.dom().finite(),
    ensures
        known_items(state).finite(),
{
    let keys = state.entities.dom();
    let names = keys.map(|key: (EntityKind, Seq<char>)| key.1);
    keys.lemma_map_finite(|key: (EntityKind, Seq<char>)| key.1);
    assert(known_items(state).subset_of(names)) by {
        assert forall|id: Seq<char>| #[trigger] known_items(state).contains(id) implies names.contains(
            id,
        ) by {
            assert(keys.contains((EntityKind::Item, id)));
        }
    }
    vstd::set_lib::lemma_len_subset(known_items(state), names);
}

/// Showing lists makes the row of each follow, keeps every note following that did, and leaves the
/// other lists alone.
proof fn lemma_sections_shown(
    state: ReplicaView,
    ids: Seq<Seq<char>>,
    now: WholeNumber,
    pending: Set<Seq<char>>,
)
    requires
        forall|i: int|
            0 <= i < ids.len() ==> state.entities.contains_key(
                (EntityKind::Section, #[trigger] ids[i]),
            ),
        state.entities.dom().finite(),
        others_follow(state, pending),
    ensures
        ({
            let after = sections_shown(state, ids, now);
            &&& after.entities == state.entities
            &&& forall|id: Seq<char>| #[trigger] ids.contains(id) ==> section_follows(after, id)
            &&& others_follow(after, pending)
            &&& forall|id: Seq<char>|
                !ids.contains(id) ==> #[trigger] after.sections.contains_key(id)
                    == state.sections.contains_key(id) && after.sections[id] == state.sections[id]
            &&& all_made(state, after)
            &&& rows_stay(state, after)
        }),
    decreases ids.len(),
{
    let after = sections_shown(state, ids, now);
    if ids.len() > 0 {
        let shorter = ids.drop_last();
        let before = sections_shown(state, shorter, now);
        let last = ids.last();
        assert forall|i: int| 0 <= i < shorter.len() implies state.entities.contains_key(
            (EntityKind::Section, #[trigger] shorter[i]),
        ) by {
            assert(shorter[i] == ids[i]);
        }
        assert(state.entities.contains_key((EntityKind::Section, ids[ids.len() - 1])));
        lemma_sections_shown(state, shorter, now, pending);
        lemma_section_shown(state, before, last, now, pending);
        assert forall|id: Seq<char>| #[trigger] ids.contains(id) implies section_follows(
            after,
            id,
        ) by {
            if id != last {
                assert(shorter[ids.index_of(id)] == id);
                assert(shorter.contains(id));
                assert(section_follows(before, id));
                assert(after.sections.contains_key(id) == before.sections.contains_key(id));
            }
        }
        assert forall|id: Seq<char>| !ids.contains(id) implies #[trigger] after.sections.contains_key(
            id,
        ) == state.sections.contains_key(id) && after.sections[id] == state.sections[id] by {
            assert(ids[ids.len() - 1] == last);
            if shorter.contains(id) {
                assert(ids[shorter.index_of(id)] == id);
            }
            assert(before.sections.contains_key(id) == state.sections.contains_key(id));
        }
        assert forall|id: Seq<char>| #[trigger]
            state.items.contains_key(id) && !item_dead(state, id) implies after.items.contains_key(
            id,
        ) by {
            assert(before.items.contains_key(id));
        }
        assert forall|id: Seq<char>| #[trigger] made_follows(state, after, id) by {
            assert(made_follows(state, before, id));
            assert(made_follows(before, after, id));
            if state.items.contains_key(id) && !item_dead(state, id) {
                assert(before.items.contains_key(id));
            }
        }
    }
}

/// The two copies know the same of an entity.
spec fn entity_same(a: ReplicaView, b: ReplicaView, key: (EntityKind, Seq<char>)) -> bool {
    &&& a.entities.contains_key(key) == b.entities.contains_key(key)
    &&& a.entities.contains_key(key) ==> a.entities[key] == b.entities[key]
}

/// What operations that arrive touch, and what they leave alone.
proof fn lemma_received_touches(state: ReplicaView, operations: Seq<OperationView>, now: i64)
    requires
        state.entities.dom().finite(),
    ensures
        received(state, operations, now) matches Ok((after, touched)) ==> {
            &&& touched.sections.finite() && touched.items.finite()
            &&& after.entities.dom().finite()
            &&& after.items == state.items && after.sections == state.sections
            &&& after.conflicts == state.conflicts
            &&& forall|id: Seq<char>| #[trigger]
                touched.items.contains(id) ==> after.entities.contains_key((EntityKind::Item, id))
            &&& forall|id: Seq<char>| #[trigger]
                touched.sections.contains(id) ==> after.entities.contains_key(
                    (EntityKind::Section, id),
                )
            &&& forall|id: Seq<char>|
                #![trigger touched.items.contains(id)]
                touched.items.contains(id) || entity_same(state, after, (EntityKind::Item, id))
            &&& forall|id: Seq<char>|
                #![trigger touched.sections.contains(id)]
                touched.sections.contains(id) || entity_same(
                    state,
                    after,
                    (EntityKind::Section, id),
                )
            &&& forall|key: (EntityKind, Seq<char>)| #[trigger]
                state.entities.contains_key(key) ==> after.entities.contains_key(key)
        },
    decreases operations.len(),
{
    if operations.len() > 0 {
        let shorter = operations.drop_last();
        lemma_received_touches(state, shorter, now);
        if let Ok((before, touched)) = received(state, shorter, now) {
            if let Ok((after, new)) = inserted(before, operations.last(), now) {
                if new {
                    let operation = operations.last();
                    let key = (operation.kind, operation.entity);
                    assert(after.entities.dom() =~= before.entities.dom().insert(key));
                    let more = received(state, operations, now)->Ok_0.1;
                    assert forall|id: Seq<char>|
                        #![trigger more.items.contains(id)]
                        more.items.contains(id) || entity_same(
                            state,
                            after,
                            (EntityKind::Item, id),
                        ) by {
                        assert(touched.items.contains(id) || entity_same(
                            state,
                            before,
                            (EntityKind::Item, id),
                        ));
                    }
                    assert forall|id: Seq<char>|
                        #![trigger more.sections.contains(id)]
                        more.sections.contains(id) || entity_same(
                            state,
                            after,
                            (EntityKind::Section, id),
                        ) by {
                        assert(touched.sections.contains(id) || entity_same(
                            state,
                            before,
                            (EntityKind::Section, id),
                        ));
                    }
                }
            }
        }
    }
}

/// Once an exchange is over, what is shown of every note and list is what is known of it: the text
/// of its last edit, whether it is done, its list, its name, its place. A note that was shown keeps
/// the moment at which it was made, and one that was not takes over what was said of it.
pub proof fn lemma_exchange_shows(
    state: ReplicaView,
    peer: Seq<char>,
    payload: PayloadView,
    sizes: Seq<usize>,
    now: WholeNumber,
)
    requires
        rows_follow(state),
        state.entities.dom().finite(),
    ensures
        exchanged(state, peer, payload, sizes, now) matches Ok((after, answer)) ==> {
            &&& rows_follow(after)
            &&& rows_known(state) ==> rows_known(after)
            &&& after.entities.dom().finite()
            &&& forall|id: Seq<char>|
                state.items.contains_key(id) && #[trigger] after.items.contains_key(id)
                    ==> after.items[id].created_at == state.items[id].created_at
            &&& forall|id: Seq<char>, value: u64, bits: u64|
                !state.items.contains_key(id) && after.items.contains_key(id) && #[trigger] says(
                    after.entities[(EntityKind::Item, id)],
                    "createdAt"@,
                    FieldView::Natural { value, bits },
                ) && value <= i64::MAX ==> after.items[id].created_at == value
        },
{
    if let Ok((after, answer)) = exchanged(state, peer, payload, sizes, now) {
        lemma_shown_follow(state, payload.operations, now);
        let (taken, touched) = received(state, payload.operations, now.value)->Ok_0;
        let shown = touched_shown(taken, touched, now);
        lemma_rows_alike(shown, after);
        lemma_received_touches(state, payload.operations, now.value);
        assert forall|id: Seq<char>|
            state.items.contains_key(id) && #[trigger] after.items.contains_key(
                id,
            ) implies after.items[id].created_at == state.items[id].created_at by {
            assert(made_follows(taken, shown, id));
            assert(item_follows(shown, id));
        }
        assert forall|id: Seq<char>, value: u64, bits: u64|
            !state.items.contains_key(id) && after.items.contains_key(id) && #[trigger] says(
                after.entities[(EntityKind::Item, id)],
                "createdAt"@,
                FieldView::Natural { value, bits },
            ) && value <= i64::MAX implies after.items[id].created_at == value by {
            assert(made_follows(taken, shown, id));
            assert(item_follows(shown, id));
            assert(says(
                taken.entities[(EntityKind::Item, id)],
                "createdAt"@,
                FieldView::Natural { value, bits },
            ));
        }
    }
}

/// A copy in which nothing has happened yet shows what it knows.
pub proof fn lemma_new_copy_shows(workspace: Seq<char>)
    ensures
        rows_follow(empty_replica(workspace)),
        rows_known(empty_replica(workspace)),
        empty_replica(workspace).entities.dom().finite(),
{
    assert(empty_replica(workspace).entities.dom() =~= Set::empty());
}

proof fn lemma_rows_alike(a: ReplicaView, b: ReplicaView)
    requires
        a.entities == b.entities,
        a.items == b.items,
        a.sections == b.sections,
        a.conflicts == b.conflicts,
    ensures
        rows_follow(a) ==> rows_follow(b),
        rows_known(a) ==> rows_known(b),
{
    if rows_follow(a) {
        assert forall|id: Seq<char>| #[trigger] item_follows(b, id) by {
            assert(item_follows(a, id));
        }
        assert forall|id: Seq<char>| #[trigger] section_follows(b, id) by {
            assert(section_follows(a, id));
        }
    }
}

proof fn lemma_shown_follow(state: ReplicaView, operations: Seq<OperationView>, now: WholeNumber)
    requires
        rows_follow(state),
        state.entities.dom().finite(),
    ensures
        received(state, operations, now.value) matches Ok((taken, touched)) ==> {
            let after = touched_shown(taken, touched, now);
            &&& rows_follow(after)
            &&& rows_known(state) ==> rows_known(after)
            &&& after.entities.dom().finite()
            &&& after.entities == taken.entities
            &&& all_made(taken, after)
        },
{
    lemma_received_touches(state, operations, now.value);
    if let Ok((taken, touched)) = received(state, operations, now.value) {
        let lists = ordered(touched.sections);
        let notes = ordered(touched.items);
        lemma_ordered_lists(touched.sections);
        lemma_ordered_lists(touched.items);
        let placed = sections_shown(taken, lists, now);
        let after = items_shown(placed, notes, now);
        assert(after == touched_shown(taken, touched, now));
        assert(others_follow(taken, touched.items)) by {
            assert forall|id: Seq<char>| #[trigger] item_follows(taken, id)
                || touched.items.contains(id) by {
                assert(item_follows(state, id));
                assert(touched.items.contains(id) || entity_same(
                    state,
                    taken,
                    (EntityKind::Item, id),
                ));
            }
        }
        assert forall|i: int| 0 <= i < lists.len() implies taken.entities.contains_key(
            (EntityKind::Section, #[trigger] lists[i]),
        ) by {
            assert(lists.contains(lists[i]));
            assert(touched.sections.contains(lists[i]));
        }
        lemma_sections_shown(taken, lists, now, touched.items);
        assert forall|i: int| 0 <= i < notes.len() implies placed.entities.contains_key(
            (EntityKind::Item, #[trigger] notes[i]),
        ) by {
            assert(notes.contains(notes[i]));
            assert(touched.items.contains(notes[i]));
        }
        lemma_items_shown(placed, notes, now);
        assert forall|id: Seq<char>| #[trigger] item_follows(after, id) by {
            assert(item_follows(placed, id) || touched.items.contains(id));
            if touched.items.contains(id) {
                assert(notes.contains(id));
            } else {
                if notes.contains(id) {
                } else {
                    assert(row_same(placed, after, id));
                }
            }
        }
        assert forall|id: Seq<char>| #[trigger] section_follows(after, id) by {
            if lists.contains(id) {
                assert(section_follows(placed, id));
            } else {
                assert(section_follows(state, id));
                assert(!touched.sections.contains(id));
                assert(taken.entities.contains_key((EntityKind::Section, id))
                    == state.entities.contains_key((EntityKind::Section, id)));
                assert(placed.sections.contains_key(id) == taken.sections.contains_key(id));
            }
        }
        assert forall|id: Seq<char>| #[trigger] made_follows(taken, after, id) by {
            assert(made_follows(taken, placed, id));
            assert(made_follows(placed, after, id) || !notes.contains(id));
            if !notes.contains(id) {
                assert(row_same(placed, after, id));
            }
            if taken.items.contains_key(id) && !item_dead(taken, id) {
                assert(placed.items.contains_key(id));
            }
        }
        if rows_known(state) {
            assert forall|id: Seq<char>| #[trigger]
                after.items.contains_key(id) implies after.entities.contains_key(
                (EntityKind::Item, id),
            ) by {
                assert(made_follows(taken, after, id));
                if state.items.contains_key(id) {
                    assert(state.entities.contains_key((EntityKind::Item, id)));
                }
            }
            assert forall|id: Seq<char>| #[trigger]
                after.sections.contains_key(id) implies after.entities.contains_key(
                (EntityKind::Section, id),
            ) by {
                assert(placed.sections.contains_key(id));
                if lists.contains(id) {
                    assert(touched.sections.contains(id));
                } else {
                    assert(state.sections.contains_key(id));
                    assert(state.entities.contains_key((EntityKind::Section, id)));
                }
            }
        }
    }
}

} // verus!
