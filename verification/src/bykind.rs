//! A table with one row for each entity.

use vstd::prelude::*;

use crate::model::EntityKind;
use crate::plain::Plain;
use crate::textmap::TextMap;

verus! {

/// A table with one row for each entity, by its kind and its identifier.
#[derive(Debug, PartialEq, Eq)]
pub struct ByKind<V> {
    pub sections: TextMap<V>,
    pub items: TextMap<V>,
    pub attachments: TextMap<V>,
}

impl<V: View> ByKind<V> {
    /// The rows of one kind.
    pub open spec fn of(self, kind: EntityKind) -> Map<Seq<char>, V::V> {
        match kind {
            EntityKind::Section => self.sections@,
            EntityKind::Item => self.items@,
            EntityKind::Attachment => self.attachments@,
        }
    }
}

impl<V: View> View for ByKind<V> {
    type V = Map<(EntityKind, Seq<char>), V::V>;

    open spec fn view(&self) -> Map<(EntityKind, Seq<char>), V::V> {
        Map::new(
            |key: (EntityKind, Seq<char>)| self.of(key.0).contains_key(key.1),
            |key: (EntityKind, Seq<char>)| self.of(key.0)[key.1],
        )
    }
}

impl<V: View> ByKind<V> {
    /// An empty table.
    pub fn new() -> (table: Self)
        ensures
            table@ == Map::<(EntityKind, Seq<char>), V::V>::empty(),
    {
        let table = ByKind {
            sections: TextMap::new(),
            items: TextMap::new(),
            attachments: TextMap::new(),
        };
        assert(table@ =~= Map::<(EntityKind, Seq<char>), V::V>::empty());
        table
    }

    /// The row of an entity.
    pub fn get(&self, kind: EntityKind, id: &str) -> (row: Option<&V>)
        ensures
            row is Some <==> self@.contains_key((kind, id@)),
            row matches Some(found) ==> found@ == self@[(kind, id@)],
    {
        match kind {
            EntityKind::Section => self.sections.get(id),
            EntityKind::Item => self.items.get(id),
            EntityKind::Attachment => self.attachments.get(id),
        }
    }

    /// Sets the row of an entity.
    pub fn insert(&mut self, kind: EntityKind, id: String, row: V)
        ensures
            final(self)@ == old(self)@.insert((kind, id@), row@),
    {
        let ghost before = *self;
        let ghost name = id@;
        let ghost stored = row@;
        match kind {
            EntityKind::Section => self.sections.insert(id, row),
            EntityKind::Item => self.items.insert(id, row),
            EntityKind::Attachment => self.attachments.insert(id, row),
        }
        assert(self@ =~= before@.insert((kind, name), stored));
    }

    /// Removes the row of an entity, if there is one.
    pub fn remove(&mut self, kind: EntityKind, id: &str)
        ensures
            final(self)@ == old(self)@.remove((kind, id@)),
    {
        let ghost before = *self;
        match kind {
            EntityKind::Section => self.sections.remove(id),
            EntityKind::Item => self.items.remove(id),
            EntityKind::Attachment => self.attachments.remove(id),
        }
        assert(self@ =~= before@.remove((kind, id@)));
    }
}

impl<V: Plain> ByKind<V> {
    /// A second table with the same rows.
    pub fn copied(&self) -> (copy: Self)
        ensures
            copy@ == self@,
            copy.of(EntityKind::Section) == self.of(EntityKind::Section),
            copy.of(EntityKind::Item) == self.of(EntityKind::Item),
            copy.of(EntityKind::Attachment) == self.of(EntityKind::Attachment),
    {
        let copy = ByKind {
            sections: self.sections.copied(),
            items: self.items.copied(),
            attachments: self.attachments.copied(),
        };
        assert(copy@ =~= self@);
        copy
    }
}

impl<V: Plain> Clone for ByKind<V> {
    fn clone(&self) -> (copy: Self)
        ensures
            copy@ == self@,
    {
        self.copied()
    }
}

} // verus!
