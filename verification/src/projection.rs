//! What is shown of a workspace: the rows of sections and items that its entities add up to.

use vstd::prelude::*;

use crate::model::{
    whole_field, EntityKind, EntityState, EntityView, FieldValue, FieldView, WholeNumber,
};
use crate::plain::Plain;
use crate::store::{
    AttachmentView, ItemRow, ItemView, Replica, ReplicaView, SectionRow, SectionView, Shadow,
    ShadowView,
};
use crate::text::{lemma_text_order, text_before, text_eq};
use crate::textmap::{ordered, TextMap};

verus! {

/// The text under a field, if there is text.
pub open spec fn text_field(entity: EntityView, field: Seq<char>) -> Option<Seq<char>> {
    match entity.value(field) {
        Some(value) => value.text(),
        None => None,
    }
}

/// The text under a field, if there is text.
pub fn field_text<'a>(entity: &'a EntityState, field: &str) -> (text: Option<&'a String>)
    ensures
        text_field(entity@, field@) == match text {
            Some(value) => Some(value@),
            None => None,
        },
{
    match entity.value(field) {
        Some(value) => value.as_text(),
        None => None,
    }
}

/// Whether an item is done; it is not where nothing is said.
pub open spec fn item_done(entity: EntityView) -> bool {
    match entity.value("done"@) {
        Some(value) => match value.boolean() {
            Some(done) => done,
            None => false,
        },
        None => false,
    }
}

/// When an item was made; now where nothing is said.
pub open spec fn item_created(entity: EntityView, now: WholeNumber) -> i64 {
    match entity.value("createdAt"@) {
        Some(value) => match value.integer() {
            Some(moment) => moment,
            None => now.value,
        },
        None => now.value,
    }
}

/// When an item was made, as a field.
pub open spec fn created_field(entity: EntityView, now: WholeNumber) -> FieldView {
    match entity.value("createdAt"@) {
        Some(value) => if value.integer() is Some {
            value
        } else {
            whole_field(now)
        },
        None => whole_field(now),
    }
}

/// The place of a section, by the bits of its sort index; now where nothing is said.
pub open spec fn section_place(entity: EntityView, now: WholeNumber) -> u64 {
    match entity.value("sortIndex"@) {
        Some(value) => match value.fraction() {
            Some(bits) => bits,
            None => now.bits,
        },
        None => now.bits,
    }
}

/// What is told of an item that is shown.
pub open spec fn item_shadow(entity: EntityView, now: WholeNumber) -> ShadowView {
    ShadowView {
        fields: Map::empty().insert(
            "sectionId"@,
            match text_field(entity, "sectionId"@) {
                Some(section) => FieldView::Text(section),
                None => FieldView::Null,
            },
        ).insert("done"@, FieldView::Bool(item_done(entity))).insert(
            "createdAt"@,
            created_field(entity, now),
        ),
        content: Some(entity.content.last().value),
    }
}

/// The row of an item that is shown. The section counts only where it is shown itself, and the
/// moment at which the item was made is kept where the row is there already.
pub open spec fn item_row(
    state: ReplicaView,
    id: Seq<char>,
    entity: EntityView,
    now: WholeNumber,
) -> ItemView {
    ItemView {
        section: match text_field(entity, "sectionId"@) {
            Some(section) => if state.sections.contains_key(section) {
                Some(section)
            } else {
                None
            },
            None => None,
        },
        content: entity.content.last().value,
        done: item_done(entity),
        created_at: if state.items.contains_key(id) {
            state.items[id].created_at
        } else {
            item_created(entity, now)
        },
        updated_at: now.value,
    }
}

/// The attachments after an item is gone: those that hung on it are gone with it.
pub open spec fn unattached(attachments: Map<Seq<char>, AttachmentView>, item: Seq<char>) -> Map<
    Seq<char>,
    AttachmentView,
> {
    Map::new(
        |id: Seq<char>| attachments.contains_key(id) && attachments[id].item != item,
        |id: Seq<char>| attachments[id],
    )
}

/// The copy after an item was shown: a deleted one is taken away with the attachments that hung on
/// it, one without content is not shown yet, and one with concurrent edits is marked.
pub open spec fn item_shown(
    state: ReplicaView,
    id: Seq<char>,
    entity: EntityView,
    now: WholeNumber,
) -> ReplicaView {
    if entity.deleted_at is Some {
        ReplicaView {
            items: state.items.remove(id),
            attachments: unattached(state.attachments, id),
            shadows: state.shadows.remove((EntityKind::Item, id)),
            ..state
        }
    } else if entity.content.len() == 0 {
        state
    } else {
        ReplicaView {
            items: state.items.insert(id, item_row(state, id, entity, now)),
            conflicts: if entity.content.len() > 1 {
                state.conflicts.insert(id, entity.content)
            } else {
                state.conflicts.remove(id)
            },
            shadows: state.shadows.insert((EntityKind::Item, id), item_shadow(entity, now)),
            ..state
        }
    }
}

/// The entity of an item.
pub open spec fn item_entity(state: ReplicaView, id: Seq<char>) -> EntityView {
    state.entities[(EntityKind::Item, id)]
}

/// The copy after several items were shown, one after the other.
pub open spec fn items_shown(state: ReplicaView, ids: Seq<Seq<char>>, now: WholeNumber) -> ReplicaView
    decreases ids.len(),
{
    if ids.len() == 0 {
        state
    } else {
        let before = items_shown(state, ids.drop_last(), now);
        item_shown(before, ids.last(), item_entity(state, ids.last()), now)
    }
}

/// The items that are known.
pub open spec fn known_items(state: ReplicaView) -> Set<Seq<char>> {
    Set::new(|id: Seq<char>| state.entities.contains_key((EntityKind::Item, id)))
}

/// The items that stand in a section, in the order of their identifiers.
pub open spec fn dependents(state: ReplicaView, section: Seq<char>) -> Seq<Seq<char>> {
    ordered(known_items(state)).filter(
        |id: Seq<char>| text_field(item_entity(state, id), "sectionId"@) == Some(section),
    )
}

/// What is told of a section that is shown.
pub open spec fn section_shadow(name: Seq<char>, bits: u64) -> ShadowView {
    ShadowView {
        fields: Map::empty().insert("name"@, FieldView::Text(name)).insert(
            "sortIndex"@,
            FieldView::Fraction { bits },
        ),
        content: None,
    }
}

/// The copy after the row of a section was set.
pub open spec fn section_placed(
    state: ReplicaView,
    id: Seq<char>,
    name: Seq<char>,
    bits: u64,
    now: WholeNumber,
) -> ReplicaView {
    ReplicaView {
        sections: state.sections.insert(
            id,
            SectionView {
                name,
                created_at: if state.sections.contains_key(id) {
                    state.sections[id].created_at
                } else {
                    now.value
                },
                sort_bits: bits,
            },
        ),
        shadows: state.shadows.insert((EntityKind::Section, id), section_shadow(name, bits)),
        ..state
    }
}

/// The items after a section is gone: those that stood in it stand in none.
pub open spec fn unplaced(items: Map<Seq<char>, ItemView>, section: Seq<char>) -> Map<
    Seq<char>,
    ItemView,
> {
    Map::new(
        |id: Seq<char>| items.contains_key(id),
        |id: Seq<char>|
            if items[id].section == Some(section) {
                ItemView { section: None, ..items[id] }
            } else {
                items[id]
            },
    )
}

/// The copy after a section was shown: a deleted one is taken away, so that its items stand in none,
/// and one without a name is not shown yet. An item may have arrived before its section, so that
/// the items of a section are shown again with it.
pub open spec fn section_shown(
    state: ReplicaView,
    id: Seq<char>,
    entity: EntityView,
    now: WholeNumber,
) -> ReplicaView {
    if entity.deleted_at is Some {
        ReplicaView {
            sections: state.sections.remove(id),
            items: unplaced(state.items, id),
            shadows: state.shadows.remove((EntityKind::Section, id)),
            ..state
        }
    } else {
        match text_field(entity, "name"@) {
            None => state,
            Some(name) => {
                let placed = section_placed(state, id, name, section_place(entity, now), now);
                items_shown(placed, dependents(placed, id), now)
            },
        }
    }
}

impl Replica {
    /// Shows an item, given what its operations add up to.
    pub fn project_item(&mut self, entity_id: &str, state: &EntityState, now: WholeNumber)
        ensures
            final(self)@ == item_shown(old(self)@, entity_id@, state@, now),
    {
        let ghost before = self@;
        if state.is_deleted() {
            self.items.remove(entity_id);
            self.detach(entity_id);
            self.shadows.remove(EntityKind::Item, entity_id);
            return;
        }
        let content = match state.content.projected_value() {
            None => {
                return;
            },
            Some(content) => content,
        };
        let section = field_text(state, "sectionId");
        let shown_section = match section {
            Some(id) => if self.sections.get(id.as_str()).is_some() {
                Some(id.duplicate())
            } else {
                None
            },
            None => None,
        };
        let done = match state.value("done") {
            Some(value) => match value.as_bool() {
                Some(done) => done,
                None => false,
            },
            None => false,
        };
        let (created_at, created) = match state.value("createdAt") {
            Some(value) => match value.as_integer() {
                Some(moment) => (moment, value.duplicate()),
                None => (now.value, now.field()),
            },
            None => (now.value, now.field()),
        };
        let kept: i64 = match self.items.get(entity_id) {
            Some(row) => row.created_at,
            None => created_at,
        };
        let row = ItemRow {
            section: shown_section,
            content: content.to_owned(),
            done,
            created_at: kept,
            updated_at: now.value,
        };
        assert(row@ == item_row(before, entity_id@, state@, now));
        self.items.insert(entity_id.to_owned(), row);
        if state.content.has_conflict() {
            self.conflicts.insert(entity_id.to_owned(), state.content.duplicate());
        } else {
            self.conflicts.remove(entity_id);
        }
        let mut fields: TextMap<FieldValue> = TextMap::new();
        let section_field = match section {
            Some(id) => FieldValue::Text(id.duplicate()),
            None => FieldValue::Null,
        };
        fields.insert("sectionId".to_owned(), section_field);
        fields.insert("done".to_owned(), FieldValue::Bool(done));
        fields.insert("createdAt".to_owned(), created);
        let shadow = Shadow { fields, content: Some(content.to_owned()) };
        assert(shadow@ == item_shadow(state@, now));
        self.shadows.insert(EntityKind::Item, entity_id.to_owned(), shadow);
    }

    /// Shows a section, given what its operations add up to, and the items that stand in it.
    pub fn project_section(&mut self, entity_id: &str, state: &EntityState, now: WholeNumber)
        ensures
            final(self)@ == section_shown(old(self)@, entity_id@, state@, now),
    {
        if state.is_deleted() {
            self.sections.remove(entity_id);
            self.unplace_items(entity_id);
            self.shadows.remove(EntityKind::Section, entity_id);
            return;
        }
        let name = match field_text(state, "name") {
            None => {
                return;
            },
            Some(name) => name,
        };
        let bits: u64 = match state.value("sortIndex") {
            Some(value) => match value.as_fraction() {
                Some(bits) => bits,
                None => now.bits,
            },
            None => now.bits,
        };
        let created_at: i64 = match self.sections.get(entity_id) {
            Some(row) => row.created_at,
            None => now.value,
        };
        let ghost before = self@;
        self.sections.insert(
            entity_id.to_owned(),
            SectionRow { name: name.duplicate(), created_at, sort_bits: bits },
        );
        let mut fields: TextMap<FieldValue> = TextMap::new();
        fields.insert("name".to_owned(), FieldValue::Text(name.duplicate()));
        fields.insert("sortIndex".to_owned(), FieldValue::Fraction { bits });
        let shadow = Shadow { fields, content: None };
        assert(shadow@ == section_shadow(name@, bits));
        self.shadows.insert(EntityKind::Section, entity_id.to_owned(), shadow);
        let ghost placed = section_placed(before, entity_id@, name@, bits, now);
        assert(self@ == placed);
        self.project_dependents(entity_id, now);
    }

    /// Takes the attachments of an item away.
    fn detach(&mut self, item: &str)
        ensures
            final(self)@ == (ReplicaView {
                attachments: unattached(old(self)@.attachments, item@),
                ..old(self)@
            }),
    {
        let ghost before = self@;
        let rows = self.attachments.copied();
        let count: usize = rows.len();
        let ghost keys = rows.keys();
        let mut i: usize = 0;
        while i < count
            invariant
                before == old(self)@,
                rows@ == before.attachments,
                count == rows.keys().len(),
                keys == rows.keys(),
                rows.lists_keys(),
                i <= count,
                self@ == (ReplicaView { attachments: self@.attachments, ..before }),
                forall|id: Seq<char>| #[trigger]
                    self@.attachments.contains_key(id) ==> before.attachments.contains_key(id)
                        && self@.attachments[id] == before.attachments[id],
                forall|j: int|
                    0 <= j < i ==> self@.attachments.contains_key(#[trigger] keys[j]) == (
                    before.attachments[keys[j]].item != item@),
                forall|j: int|
                    i <= j < count ==> self@.attachments.contains_key(#[trigger] keys[j]),
            decreases count - i,
        {
            let id = rows.key_at(i);
            let hangs = text_eq(rows.value_at(i).item.as_str(), item);
            assert(hangs == (before.attachments[id@].item == item@));
            let ghost held = self@.attachments;
            if hangs {
                self.attachments.remove(id.as_str());
            }
            assert forall|j: int| 0 <= j < count && j != i implies self@.attachments.contains_key(
                #[trigger] keys[j],
            ) == held.contains_key(keys[j]) by {
                lemma_text_order(keys[j], keys[i as int], keys[j]);
                if j < i {
                    assert(text_before(keys[j], keys[i as int]));
                } else {
                    assert(text_before(keys[i as int], keys[j]));
                }
            }
            i = i + 1;
        }
        proof {
            let wanted = unattached(before.attachments, item@);
            assert forall|id: Seq<char>| #[trigger] before.attachments.contains_key(
                id,
            ) implies self@.attachments.contains_key(id) == wanted.contains_key(id) by {
                let j = keys.index_of(id);
                assert(keys[j] == id);
            }
            assert(self@.attachments =~= wanted);
        }
    }

    /// Takes the items of a section out of it.
    fn unplace_items(&mut self, section: &str)
        ensures
            final(self)@ == (ReplicaView {
                items: unplaced(old(self)@.items, section@),
                ..old(self)@
            }),
    {
        let ghost before = self@;
        let rows = self.items.copied();
        let count: usize = rows.len();
        let ghost keys = rows.keys();
        let mut i: usize = 0;
        while i < count
            invariant
                before == old(self)@,
                rows@ == before.items,
                count == rows.keys().len(),
                keys == rows.keys(),
                rows.lists_keys(),
                i <= count,
                self@ == (ReplicaView { items: self@.items, ..before }),
                self@.items.dom() == before.items.dom(),
                forall|j: int|
                    0 <= j < i ==> self@.items[#[trigger] keys[j]] == unplaced(
                        before.items,
                        section@,
                    )[keys[j]],
                forall|j: int|
                    i <= j < count ==> self@.items[#[trigger] keys[j]] == before.items[keys[j]],
            decreases count - i,
        {
            let id = rows.key_at(i);
            let row = rows.value_at(i);
            let stands = match &row.section {
                Some(place) => text_eq(place.as_str(), section),
                None => false,
            };
            assert(stands == (before.items[id@].section == Some(section@)));
            let ghost held = self@.items;
            if stands {
                let mut moved = row.duplicate();
                moved.section = None;
                self.items.insert(id.duplicate(), moved);
                assert(self@.items.dom() =~= before.items.dom());
            }
            assert forall|j: int| 0 <= j < count && j != i implies self@.items[#[trigger] keys[j]]
                == held[keys[j]] by {
                lemma_text_order(keys[j], keys[i as int], keys[j]);
                if j < i {
                    assert(text_before(keys[j], keys[i as int]));
                } else {
                    assert(text_before(keys[i as int], keys[j]));
                }
            }
            i = i + 1;
        }
        proof {
            let wanted = unplaced(before.items, section@);
            assert forall|id: Seq<char>| #[trigger] before.items.contains_key(
                id,
            ) implies self@.items[id] == wanted[id] by {
                let j = keys.index_of(id);
                assert(keys[j] == id);
            }
            assert(self@.items =~= wanted);
        }
    }

    /// Shows the items that stand in a section.
    fn project_dependents(&mut self, section: &str, now: WholeNumber)
        ensures
            final(self)@ == items_shown(old(self)@, dependents(old(self)@, section@), now),
    {
        let ghost start = self@;
        let ghost depends = |id: Seq<char>|
            text_field(item_entity(start, id), "sectionId"@) == Some(section@);
        let states = self.entities.items.copied();
        let count: usize = states.len();
        let ghost keys = states.keys();
        proof {
            assert(states@.dom() =~= known_items(start));
            reveal(Seq::filter);
            assert(keys.take(0).filter(depends) =~= Seq::empty());
        }
        let mut i: usize = 0;
        while i < count
            invariant
                count == states.keys().len(),
                keys == states.keys(),
                keys == ordered(known_items(start)),
                forall|id: Seq<char>| #[trigger]
                    states@.contains_key(id) ==> states@[id] == item_entity(start, id),
                depends == (|id: Seq<char>|
                    text_field(item_entity(start, id), "sectionId"@) == Some(section@)),
                i <= count,
                self@ == items_shown(start, keys.take(i as int).filter(depends), now),
            decreases count - i,
        {
            let id = states.key_at(i);
            let state = states.value_at(i);
            let ghost done = keys.take(i as int).filter(depends);
            proof {
                reveal(Seq::filter);
                assert(keys.take(i + 1).drop_last() =~= keys.take(i as int));
                assert(state@ == item_entity(start, id@));
            }
            let stands = match field_text(state, "sectionId") {
                Some(other) => text_eq(other.as_str(), section),
                None => false,
            };
            assert(stands == depends(id@));
            if stands {
                assert(done.push(id@).drop_last() =~= done);
                self.project_item(id.as_str(), state, now);
            }
            i = i + 1;
        }
        assert(keys.take(count as int) =~= keys);
    }
}

/// Every item that stands in a section stands in one that is shown, and every attachment hangs on
/// an item that is shown.
pub open spec fn places_shown(state: ReplicaView) -> bool {
    &&& forall|id: Seq<char>|
        state.items.contains_key(id) && (#[trigger] state.items[id]).section is Some
            ==> state.sections.contains_key(state.items[id].section->0)
    &&& forall|id: Seq<char>| #[trigger]
        state.attachments.contains_key(id) ==> state.items.contains_key(state.attachments[id].item)
}

/// Whatever is shown or taken away, an item stands only in a section that is shown, and an
/// attachment hangs only on an item that is shown.
pub proof fn lemma_places_shown(
    state: ReplicaView,
    id: Seq<char>,
    entity: EntityView,
    now: WholeNumber,
)
    requires
        places_shown(state),
    ensures
        places_shown(item_shown(state, id, entity, now)),
        places_shown(section_shown(state, id, entity, now)),
{
    let shown = section_shown(state, id, entity, now);
    if entity.deleted_at is Some {
        assert forall|any: Seq<char>|
            shown.items.contains_key(any) && (
            #[trigger] shown.items[any]).section is Some implies shown.sections.contains_key(
            shown.items[any].section->0,
        ) by {
            assert(state.items[any].section == shown.items[any].section);
        }
    } else if let Some(name) = text_field(entity, "name"@) {
        let placed = section_placed(state, id, name, section_place(entity, now), now);
        assert forall|any: Seq<char>|
            placed.items.contains_key(any) && (
            #[trigger] placed.items[any]).section is Some implies placed.sections.contains_key(
            placed.items[any].section->0,
        ) by {
            assert(state.items[any].section == placed.items[any].section);
        }
        lemma_items_places_shown(placed, dependents(placed, id), now);
    }
    let item = item_shown(state, id, entity, now);
    assert forall|any: Seq<char>|
        item.items.contains_key(any) && (
        #[trigger] item.items[any]).section is Some implies item.sections.contains_key(
        item.items[any].section->0,
    ) by {
        if any != id {
            assert(state.items[any].section == item.items[any].section);
        }
        if state.items.contains_key(id) {
            assert(state.items[id] == state.items[id]);
        }
    }
}

pub(crate) proof fn lemma_items_places_shown(
    state: ReplicaView,
    ids: Seq<Seq<char>>,
    now: WholeNumber,
)
    requires
        places_shown(state),
    ensures
        places_shown(items_shown(state, ids, now)),
    decreases ids.len(),
{
    if ids.len() > 0 {
        let before = items_shown(state, ids.drop_last(), now);
        lemma_items_places_shown(state, ids.drop_last(), now);
        let after = items_shown(state, ids, now);
        let id = ids.last();
        assert forall|any: Seq<char>|
            after.items.contains_key(any) && (
            #[trigger] after.items[any]).section is Some implies after.sections.contains_key(
            after.items[any].section->0,
        ) by {
            if any != id {
                assert(before.items[any].section == after.items[any].section);
            }
            if before.items.contains_key(id) {
                assert(before.items[id] == before.items[id]);
            }
        }
    }
}

} // verus!
