//! What a device has changed since it last looked: the operations that tell the others.

use vstd::prelude::*;

use crate::model::{
    counter_of, Dot, DotView, EntityKind, Mutation, MutationView, Operation, OperationView,
    SYNC_SCHEMA_VERSION,
};
use crate::plain::{opt_view, same_opt, views, Plain};
use crate::store::{
    inserted, Replica, ReplicaView, RecordView, Shadow, ShadowView, SnapshotRecord, StoreError,
};
use crate::textmap::{ordered, TextMap};

verus! {

/// The operation that a device makes with the given counter.
pub open spec fn operation_at(
    state: ReplicaView,
    actor: Seq<char>,
    counter: u64,
    kind: EntityKind,
    id: Seq<char>,
    mutation: MutationView,
) -> OperationView {
    OperationView {
        schema_version: SYNC_SCHEMA_VERSION,
        workspace: state.workspace,
        kind,
        entity: id,
        dot: DotView { actor, counter },
        mutation,
    }
}

/// The copy after a device has done something: its clock moves on by one, and the operation is
/// taken in.
pub open spec fn emitted(
    state: ReplicaView,
    actor: Seq<char>,
    kind: EntityKind,
    id: Seq<char>,
    mutation: MutationView,
    now: i64,
) -> Result<ReplicaView, StoreError> {
    let last = counter_of(state.clocks, actor);
    if last == u64::MAX {
        Err(StoreError::CounterExhausted)
    } else {
        let counter = (last + 1) as u64;
        let ticked = ReplicaView { clocks: state.clocks.insert(actor, counter), ..state };
        match inserted(
            ticked,
            operation_at(state, actor, counter, kind, id, mutation),
            now,
        ) {
            Err(error) => Err(error),
            Ok((after, new)) => Ok(after),
        }
    }
}

/// The field differs from what was last told.
pub open spec fn field_changed(
    previous: Option<ShadowView>,
    current: ShadowView,
    field: Seq<char>,
) -> bool {
    !(previous is Some && previous->0.fields.contains_key(field) && previous->0.fields[field].equals(
        current.fields[field],
    ))
}

/// The fields that differ from what was last told, in their order.
pub open spec fn changed_fields(previous: Option<ShadowView>, current: ShadowView) -> Seq<
    Seq<char>,
> {
    ordered(current.fields.dom()).filter(
        |field: Seq<char>| field_changed(previous, current, field),
    )
}

/// The content is there and differs from what was last told.
pub open spec fn content_changed(previous: Option<ShadowView>, current: ShadowView) -> bool {
    current.content is Some && !(previous is Some && previous->0.content == current.content)
}

/// The copy after a device has told the given fields of an entity.
pub open spec fn fields_emitted(
    state: ReplicaView,
    actor: Seq<char>,
    record: RecordView,
    fields: Seq<Seq<char>>,
    now: i64,
) -> Result<ReplicaView, StoreError>
    decreases fields.len(),
{
    if fields.len() == 0 {
        Ok(state)
    } else {
        match fields_emitted(state, actor, record, fields.drop_last(), now) {
            Err(error) => Err(error),
            Ok(before) => emitted(
                before,
                actor,
                record.kind,
                record.id,
                MutationView::SetMetadata {
                    field: fields.last(),
                    value: record.shadow.fields[fields.last()],
                },
                now,
            ),
        }
    }
}

/// The copy after a device has told what differs of an entity: its fields, and its content with
/// everything that the device knows as its context.
pub open spec fn diff_emitted(
    state: ReplicaView,
    actor: Seq<char>,
    previous: Option<ShadowView>,
    record: RecordView,
    now: i64,
) -> Result<ReplicaView, StoreError> {
    match fields_emitted(state, actor, record, changed_fields(previous, record.shadow), now) {
        Err(error) => Err(error),
        Ok(told) => if content_changed(previous, record.shadow) {
            emitted(
                told,
                actor,
                record.kind,
                record.id,
                MutationView::SetContent {
                    context: told.frontier,
                    value: record.shadow.content->0,
                },
                now,
            )
        } else {
            Ok(told)
        },
    }
}

/// The number of operations that tell what differs of an entity.
pub open spec fn diff_count(previous: Option<ShadowView>, current: ShadowView) -> nat {
    changed_fields(previous, current).len() + (if content_changed(previous, current) {
        1nat
    } else {
        0nat
    })
}

/// What was last told of an entity, if anything was.
pub open spec fn shadow_of(
    shadows: Map<(EntityKind, Seq<char>), ShadowView>,
    kind: EntityKind,
    id: Seq<char>,
) -> Option<ShadowView> {
    if shadows.contains_key((kind, id)) {
        Some(shadows[(kind, id)])
    } else {
        None
    }
}

/// The copy after a record was looked at, and the number of operations that this took.
pub open spec fn record_scanned(
    state: ReplicaView,
    actor: Seq<char>,
    record: RecordView,
    now: i64,
) -> Result<(ReplicaView, nat), StoreError> {
    let previous = shadow_of(state.shadows, record.kind, record.id);
    match diff_emitted(state, actor, previous, record, now) {
        Err(error) => Err(error),
        Ok(told) => Ok(
            (
                ReplicaView {
                    shadows: told.shadows.insert((record.kind, record.id), record.shadow),
                    ..told
                },
                diff_count(previous, record.shadow),
            ),
        ),
    }
}

/// The copy after all records were looked at, and the number of operations that this took.
pub open spec fn records_scanned(
    state: ReplicaView,
    actor: Seq<char>,
    records: Seq<RecordView>,
    now: i64,
) -> Result<(ReplicaView, nat), StoreError>
    decreases records.len(),
{
    if records.len() == 0 {
        Ok((state, 0))
    } else {
        match records_scanned(state, actor, records.drop_last(), now) {
            Err(error) => Err(error),
            Ok((before, count)) => match record_scanned(before, actor, records.last(), now) {
                Err(error) => Err(error),
                Ok((after, more)) => Ok((after, count + more)),
            },
        }
    }
}

/// The record of an entity is among those looked at.
pub open spec fn seen(records: Seq<RecordView>, kind: EntityKind, id: Seq<char>) -> bool {
    exists|i: int|
        0 <= i < records.len() && (#[trigger] records[i]).kind == kind && records[i].id == id
}

/// The entities of one kind of which something was told.
pub open spec fn told_of(
    shadows: Map<(EntityKind, Seq<char>), ShadowView>,
    kind: EntityKind,
) -> Set<Seq<char>> {
    Set::new(|id: Seq<char>| shadows.contains_key((kind, id)))
}

/// The entities of one kind of which something was told and that are no longer there, in the order
/// of their identifiers.
pub open spec fn vanished(
    shadows: Map<(EntityKind, Seq<char>), ShadowView>,
    records: Seq<RecordView>,
    kind: EntityKind,
) -> Seq<Seq<char>> {
    ordered(told_of(shadows, kind)).filter(|id: Seq<char>| !seen(records, kind, id))
}

/// The copy after a device has told that entities of one kind are gone.
pub open spec fn deletions_emitted(
    state: ReplicaView,
    actor: Seq<char>,
    kind: EntityKind,
    ids: Seq<Seq<char>>,
    now: i64,
) -> Result<ReplicaView, StoreError>
    decreases ids.len(),
{
    if ids.len() == 0 {
        Ok(state)
    } else {
        match deletions_emitted(state, actor, kind, ids.drop_last(), now) {
            Err(error) => Err(error),
            Ok(before) => match emitted(before, actor, kind, ids.last(), MutationView::Delete, now) {
                Err(error) => Err(error),
                Ok(told) => Ok(
                    ReplicaView { shadows: told.shadows.remove((kind, ids.last())), ..told },
                ),
            },
        }
    }
}

/// The copy after a device has told which entities of one kind are gone, and how many.
pub open spec fn kind_swept(
    state: ReplicaView,
    actor: Seq<char>,
    records: Seq<RecordView>,
    kind: EntityKind,
    now: i64,
) -> Result<(ReplicaView, nat), StoreError> {
    let ids = vanished(state.shadows, records, kind);
    match deletions_emitted(state, actor, kind, ids, now) {
        Err(error) => Err(error),
        Ok(after) => Ok((after, ids.len())),
    }
}

/// Two steps of which the second starts where the first ends, with their counts added.
pub open spec fn followed_by(
    first: Result<(ReplicaView, nat), StoreError>,
    second: spec_fn(ReplicaView) -> Result<(ReplicaView, nat), StoreError>,
) -> Result<(ReplicaView, nat), StoreError> {
    match first {
        Err(error) => Err(error),
        Ok((state, count)) => match second(state) {
            Err(error) => Err(error),
            Ok((after, more)) => Ok((after, count + more)),
        },
    }
}

/// The copy after a device has compared what is there with what it last told, and the number of
/// operations that tell the difference: first what is new or changed, in the order of the records,
/// then which attachments, items and sections are gone.
pub open spec fn scanned(
    state: ReplicaView,
    actor: Seq<char>,
    records: Seq<RecordView>,
    now: i64,
) -> Result<(ReplicaView, nat), StoreError> {
    let looked = records_scanned(state, actor, records, now);
    let attachments = followed_by(
        looked,
        |s: ReplicaView| kind_swept(s, actor, records, EntityKind::Attachment, now),
    );
    let items = followed_by(
        attachments,
        |s: ReplicaView| kind_swept(s, actor, records, EntityKind::Item, now),
    );
    followed_by(items, |s: ReplicaView| kind_swept(s, actor, records, EntityKind::Section, now))
}

/// A number as far as 64 bits hold it.
pub open spec fn clamped(count: nat) -> u64 {
    if count <= u64::MAX {
        count as u64
    } else {
        u64::MAX
    }
}

impl Replica {
    /// The next operation of a device. Its clock moves on by one.
    pub fn next_operation(
        &mut self,
        actor_id: &str,
        entity_kind: EntityKind,
        entity_id: &str,
        mutation: Mutation,
    ) -> (result: Result<Operation, StoreError>)
        ensures
            ({
                let last = counter_of(old(self)@.clocks, actor_id@);
                let counter = (last + 1) as u64;
                if last == u64::MAX {
                    result == Err::<Operation, StoreError>(StoreError::CounterExhausted) && final(
                        self)@ == old(self)@
                } else {
                    &&& final(self)@ == (ReplicaView {
                        clocks: old(self)@.clocks.insert(actor_id@, counter),
                        ..old(self)@
                    })
                    &&& result matches Ok(operation) && operation@ == operation_at(
                        old(self)@,
                        actor_id@,
                        counter,
                        entity_kind,
                        entity_id@,
                        mutation@,
                    )
                }
            }),
    {
        let last: u64 = self.clocks.counter(actor_id);
        if last == 0xffff_ffff_ffff_ffff {
            return Err(StoreError::CounterExhausted);
        }
        let counter: u64 = last + 1;
        let dot = Dot { actor_id: actor_id.to_owned(), counter };
        self.clocks.0.insert(actor_id.to_owned(), counter);
        Ok(
            Operation {
                schema_version: SYNC_SCHEMA_VERSION,
                workspace_id: self.workspace_id.duplicate(),
                entity_kind,
                entity_id: entity_id.to_owned(),
                dot,
                mutation,
            },
        )
    }

    /// Makes an operation of a device and takes it in.
    fn emit(
        &mut self,
        actor_id: &str,
        entity_kind: EntityKind,
        entity_id: &str,
        mutation: Mutation,
        now: i64,
    ) -> (result: Result<(), StoreError>)
        ensures
            match emitted(old(self)@, actor_id@, entity_kind, entity_id@, mutation@, now) {
                Err(error) => result == Err::<(), StoreError>(error),
                Ok(state) => result is Ok && final(self)@ == state,
            },
    {
        let operation = match self.next_operation(actor_id, entity_kind, entity_id, mutation) {
            Err(error) => {
                return Err(error);
            },
            Ok(operation) => operation,
        };
        match self.insert_operation(&operation, now) {
            Err(error) => Err(error),
            Ok(_) => Ok(()),
        }
    }

    /// Tells what differs of an entity, and how many operations that takes.
    fn emit_diff(
        &mut self,
        actor_id: &str,
        previous: &Option<Shadow>,
        record: &SnapshotRecord,
        now: i64,
    ) -> (result: Result<u64, StoreError>)
        ensures
            match diff_emitted(old(self)@, actor_id@, opt_view(*previous), record@, now) {
                Err(error) => result == Err::<u64, StoreError>(error),
                Ok(state) => result matches Ok(count) && count == clamped(
                    diff_count(opt_view(*previous), record@.shadow),
                ) && final(self)@ == state,
            },
    {
        let fields = &record.shadow.fields;
        let total: usize = fields.len();
        let ghost keys = fields.keys();
        let ghost last = opt_view(*previous);
        let ghost said = record@;
        let ghost change = |field: Seq<char>| field_changed(last, said.shadow, field);
        let ghost before = self@;
        let mut count: u64 = 0;
        let mut i: usize = 0;
        proof {
            reveal(Seq::filter);
            assert(keys.take(0).filter(change) =~= Seq::empty());
        }
        while i < total
            invariant
                total == fields.keys().len(),
                keys == fields.keys(),
                fields == &record.shadow.fields,
                said == record@,
                last == opt_view(*previous),
                change == (|field: Seq<char>| field_changed(last, said.shadow, field)),
                before == old(self)@,
                i <= total,
                count == keys.take(i as int).filter(change).len(),
                count <= i,
                fields_emitted(
                    before,
                    actor_id@,
                    said,
                    keys.take(i as int).filter(change),
                    now,
                ) == Ok::<ReplicaView, StoreError>(self@),
                keys == ordered(said.shadow.fields.dom()),
            decreases total - i,
        {
            let field = fields.key_at(i);
            let value = fields.value_at(i);
            let unchanged = match previous {
                Some(shadow) => match shadow.fields.get(field.as_str()) {
                    Some(told) => told.is_equal(value),
                    None => false,
                },
                None => false,
            };
            let ghost done = keys.take(i as int).filter(change);
            proof {
                reveal(Seq::filter);
                assert(keys.take(i + 1).drop_last() =~= keys.take(i as int));
                assert(change(field@) == !unchanged);
            }
            if !unchanged {
                let mutation = Mutation::SetMetadata {
                    field: field.duplicate(),
                    value: value.duplicate(),
                };
                proof {
                    assert(done.push(field@).drop_last() =~= done);
                    assert(keys.take(i + 1).filter(change) == done.push(field@));
                }
                if let Err(error) = self.emit(
                    actor_id,
                    record.kind,
                    record.sync_id.as_str(),
                    mutation,
                    now,
                ) {
                    proof {
                        lemma_fields_error(before, actor_id@, said, keys, change, i + 1, now, error);
                        assert(keys.take(keys.len() as int) =~= keys);
                    }
                    return Err(error);
                }
                count = count + 1;
            }
            i = i + 1;
        }
        assert(keys.take(total as int) =~= keys);
        if let Some(content) = &record.shadow.content {
            let unchanged = match previous {
                Some(shadow) => same_opt(&shadow.content, &record.shadow.content),
                None => false,
            };
            if !unchanged {
                let mutation = Mutation::SetContent {
                    context: self.frontier.duplicate(),
                    value: content.duplicate(),
                };
                if let Err(error) = self.emit(
                    actor_id,
                    record.kind,
                    record.sync_id.as_str(),
                    mutation,
                    now,
                ) {
                    return Err(error);
                }
                count = count.saturating_add(1);
            }
        }
        Ok(count)
    }
}

/// An error in telling some of the fields is the error of telling all of them.
proof fn lemma_fields_error(
    state: ReplicaView,
    actor: Seq<char>,
    record: RecordView,
    keys: Seq<Seq<char>>,
    change: spec_fn(Seq<char>) -> bool,
    n: int,
    now: i64,
    error: StoreError,
)
    requires
        0 <= n <= keys.len(),
        fields_emitted(state, actor, record, keys.take(n).filter(change), now) == Err::<
            ReplicaView,
            StoreError,
        >(error),
    ensures
        fields_emitted(
            state,
            actor,
            record,
            keys.take(keys.len() as int).filter(change),
            now,
        ) == Err::<ReplicaView, StoreError>(error),
    decreases keys.len() - n,
{
    if n < keys.len() {
        reveal(Seq::filter);
        assert(keys.take(n + 1).drop_last() =~= keys.take(n));
        let done = keys.take(n).filter(change);
        let next = keys.take(n + 1).filter(change);
        if change(keys[n]) {
            assert(next == done.push(keys[n]));
            assert(next.drop_last() =~= done);
        }
        lemma_fields_error(state, actor, record, keys, change, n + 1, now, error);
    }
}

/// An error in looking at some of the records is the error of looking at all of them.
proof fn lemma_records_error(
    state: ReplicaView,
    actor: Seq<char>,
    records: Seq<RecordView>,
    n: int,
    now: i64,
    error: StoreError,
)
    requires
        0 <= n <= records.len(),
        records_scanned(state, actor, records.take(n), now) == Err::<
            (ReplicaView, nat),
            StoreError,
        >(error),
    ensures
        records_scanned(state, actor, records, now) == Err::<(ReplicaView, nat), StoreError>(error),
    decreases records.len() - n,
{
    if n < records.len() {
        assert(records.take(n + 1).drop_last() =~= records.take(n));
        lemma_records_error(state, actor, records, n + 1, now, error);
    } else {
        assert(records.take(n) =~= records);
    }
}

/// An error in telling some deletions is the error of telling all of them.
proof fn lemma_deletions_error(
    state: ReplicaView,
    actor: Seq<char>,
    kind: EntityKind,
    keys: Seq<Seq<char>>,
    gone: spec_fn(Seq<char>) -> bool,
    n: int,
    now: i64,
    error: StoreError,
)
    requires
        0 <= n <= keys.len(),
        deletions_emitted(state, actor, kind, keys.take(n).filter(gone), now) == Err::<
            ReplicaView,
            StoreError,
        >(error),
    ensures
        deletions_emitted(
            state,
            actor,
            kind,
            keys.take(keys.len() as int).filter(gone),
            now,
        ) == Err::<ReplicaView, StoreError>(error),
    decreases keys.len() - n,
{
    if n < keys.len() {
        reveal(Seq::filter);
        assert(keys.take(n + 1).drop_last() =~= keys.take(n));
        let done = keys.take(n).filter(gone);
        let next = keys.take(n + 1).filter(gone);
        if gone(keys[n]) {
            assert(next == done.push(keys[n]));
            assert(next.drop_last() =~= done);
        }
        lemma_deletions_error(state, actor, kind, keys, gone, n + 1, now, error);
    }
}

fn is_seen(records: &[SnapshotRecord], kind: EntityKind, id: &str) -> (found: bool)
    ensures
        found == seen(views(records@), kind, id@),
{
    let ghost all = views(records@);
    let mut i: usize = 0;
    while i < records.len()
        invariant
            all == views(records@),
            i <= records@.len(),
            forall|j: int| 0 <= j < i ==> !((#[trigger] all[j]).kind == kind && all[j].id == id@),
        decreases records@.len() - i,
    {
        assert(all[i as int] == records@[i as int]@);
        if records[i].kind == kind && crate::text::text_eq(records[i].sync_id.as_str(), id) {
            return true;
        }
        i = i + 1;
    }
    false
}

fn keys_of<V: View>(map: &TextMap<V>) -> (keys: Vec<String>)
    ensures
        views(keys@) == ordered(map@.dom()),
{
    let count: usize = map.len();
    let mut keys: Vec<String> = Vec::new();
    let mut i: usize = 0;
    while i < count
        invariant
            count == map.keys().len(),
            i <= count,
            keys@.len() == i,
            forall|j: int| 0 <= j < i ==> (#[trigger] keys@[j])@ == map.keys()[j],
        decreases count - i,
    {
        keys.push(map.key_at(i).duplicate());
        i = i + 1;
    }
    assert(views(keys@) =~= map.keys());
    keys
}

impl Replica {
    /// Tells which entities of one kind are gone, and how many.
    fn sweep(
        &mut self,
        actor_id: &str,
        records: &[SnapshotRecord],
        kind: EntityKind,
        now: i64,
    ) -> (result: Result<u64, StoreError>)
        ensures
            match kind_swept(old(self)@, actor_id@, views(records@), kind, now) {
                Err(error) => result == Err::<u64, StoreError>(error),
                Ok((state, count)) => result == Ok::<u64, StoreError>(clamped(count)) && final(
                    self)@ == state,
            },
    {
        let ghost before = self@;
        let ghost all = views(records@);
        let ghost gone = |id: Seq<char>| !seen(all, kind, id);
        let ids = match kind {
            EntityKind::Section => keys_of(&self.shadows.sections),
            EntityKind::Item => keys_of(&self.shadows.items),
            EntityKind::Attachment => keys_of(&self.shadows.attachments),
        };
        let ghost keys = views(ids@);
        proof {
            assert(self.shadows.of(kind).dom() =~= told_of(before.shadows, kind));
            reveal(Seq::filter);
            assert(keys.take(0).filter(gone) =~= Seq::empty());
        }
        let mut count: u64 = 0;
        let mut i: usize = 0;
        while i < ids.len()
            invariant
                before == old(self)@,
                all == views(records@),
                gone == (|id: Seq<char>| !seen(all, kind, id)),
                keys == views(ids@),
                keys == ordered(told_of(before.shadows, kind)),
                i <= ids@.len(),
                count == clamped(keys.take(i as int).filter(gone).len()),
                deletions_emitted(
                    before,
                    actor_id@,
                    kind,
                    keys.take(i as int).filter(gone),
                    now,
                ) == Ok::<ReplicaView, StoreError>(self@),
            decreases ids@.len() - i,
        {
            let id = ids[i].as_str();
            let ghost done = keys.take(i as int).filter(gone);
            proof {
                reveal(Seq::filter);
                assert(keys[i as int] == id@);
                assert(keys.take(i + 1).drop_last() =~= keys.take(i as int));
            }
            if !is_seen(records, kind, id) {
                proof {
                    assert(gone(id@));
                    assert(keys.take(i + 1).filter(gone) == done.push(id@));
                    assert(done.push(id@).drop_last() =~= done);
                }
                if let Err(error) = self.emit(actor_id, kind, id, Mutation::Delete, now) {
                    proof {
                        lemma_deletions_error(
                            before,
                            actor_id@,
                            kind,
                            keys,
                            gone,
                            i + 1,
                            now,
                            error,
                        );
                        assert(keys.take(keys.len() as int) =~= keys);
                    }
                    return Err(error);
                }
                self.shadows.remove(kind, id);
                count = count.saturating_add(1);
            }
            i = i + 1;
        }
        assert(keys.take(i as int) =~= keys);
        Ok(count)
    }

    fn scan_records(&mut self, actor_id: &str, records: &[SnapshotRecord], now: i64) -> (result:
        Result<u64, StoreError>)
        ensures
            match records_scanned(old(self)@, actor_id@, views(records@), now) {
                Err(error) => result == Err::<u64, StoreError>(error),
                Ok((state, count)) => result == Ok::<u64, StoreError>(clamped(count)) && final(
                    self)@ == state,
            },
    {
        let ghost before = self@;
        let ghost all = views(records@);
        let mut count: u64 = 0;
        let mut i: usize = 0;
        let ghost mut exact: nat = 0;
        assert(all.take(0) =~= Seq::empty());
        while i < records.len()
            invariant
                before == old(self)@,
                all == views(records@),
                i <= records@.len(),
                count == clamped(exact),
                records_scanned(before, actor_id@, all.take(i as int), now) == Ok::<
                    (ReplicaView, nat),
                    StoreError,
                >((self@, exact)),
            decreases records@.len() - i,
        {
            let record = &records[i];
            let ghost held = self@;
            proof {
                assert(all[i as int] == record@);
                assert(all.take(i + 1).drop_last() =~= all.take(i as int));
            }
            let previous = match self.shadows.get(record.kind, record.sync_id.as_str()) {
                Some(shadow) => Some(shadow.duplicate()),
                None => None,
            };
            assert(opt_view(previous) == shadow_of(held.shadows, record.kind, record.sync_id@));
            match self.emit_diff(actor_id, &previous, record, now) {
                Err(error) => {
                    proof {
                        lemma_records_error(before, actor_id@, all, i + 1, now, error);
                    }
                    return Err(error);
                },
                Ok(more) => {
                    count = count.saturating_add(more);
                    proof {
                        exact = exact + diff_count(opt_view(previous), record@.shadow);
                    }
                },
            }
            self.shadows.insert(record.kind, record.sync_id.duplicate(), record.shadow.duplicate());
            i = i + 1;
        }
        assert(all.take(i as int) =~= all);
        Ok(count)
    }

    /// Compares what is there with what was last told, and makes the operations that tell the
    /// difference. If one of them cannot be made, nothing changes.
    pub fn scan_local(&mut self, actor_id: &str, records: &[SnapshotRecord], now: i64) -> (result:
        Result<u64, StoreError>)
        ensures
            match scanned(old(self)@, actor_id@, views(records@), now) {
                Err(error) => result == Err::<u64, StoreError>(error) && final(self)@ == old(self)@,
                Ok((state, count)) => result == Ok::<u64, StoreError>(clamped(count)) && final(
                    self)@ == state,
            },
    {
        let mut work = self.copied();
        let looked: u64 = match work.scan_records(actor_id, records, now) {
            Err(error) => {
                return Err(error);
            },
            Ok(count) => count,
        };
        let attachments: u64 = match work.sweep(actor_id, records, EntityKind::Attachment, now) {
            Err(error) => {
                return Err(error);
            },
            Ok(count) => count,
        };
        let items: u64 = match work.sweep(actor_id, records, EntityKind::Item, now) {
            Err(error) => {
                return Err(error);
            },
            Ok(count) => count,
        };
        let sections: u64 = match work.sweep(actor_id, records, EntityKind::Section, now) {
            Err(error) => {
                return Err(error);
            },
            Ok(count) => count,
        };
        *self = work;
        Ok(looked.saturating_add(attachments).saturating_add(items).saturating_add(sections))
    }
}

/// Each entity has one record.
pub open spec fn distinct_records(records: Seq<RecordView>) -> bool {
    forall|i: int, j: int|
        0 <= i < j < records.len() ==> !((#[trigger] records[i]).kind == (
        #[trigger] records[j]).kind && records[i].id == records[j].id)
}

proof fn lemma_apart_trans(a: ReplicaView, b: ReplicaView, c: ReplicaView, actor: Seq<char>)
    requires
        clocks_apart(a, b, actor),
        clocks_apart(b, c, actor),
    ensures
        clocks_apart(a, c, actor),
{
    assert forall|other: Seq<char>| other != actor implies #[trigger] counter_of(c.clocks, other)
        == counter_of(a.clocks, other) by {
        assert(counter_of(b.clocks, other) == counter_of(a.clocks, other));
    }
}

proof fn lemma_emitted_clock(
    state: ReplicaView,
    actor: Seq<char>,
    kind: EntityKind,
    id: Seq<char>,
    mutation: MutationView,
    now: i64,
)
    ensures
        emitted(state, actor, kind, id, mutation, now) matches Ok(after) ==> after.shadows
            == state.shadows && counter_of(after.clocks, actor) == counter_of(state.clocks, actor)
            + 1 && clocks_apart(state, after, actor),
{
}

proof fn lemma_fields_keep_shadows(
    state: ReplicaView,
    actor: Seq<char>,
    record: RecordView,
    fields: Seq<Seq<char>>,
    now: i64,
)
    ensures
        fields_emitted(state, actor, record, fields, now) matches Ok(after) ==> after.shadows
            == state.shadows && counter_of(after.clocks, actor) == counter_of(state.clocks, actor)
            + fields.len() && clocks_apart(state, after, actor),
    decreases fields.len(),
{
    if fields.len() > 0 {
        lemma_fields_keep_shadows(state, actor, record, fields.drop_last(), now);
        if let Ok(mid) = fields_emitted(state, actor, record, fields.drop_last(), now) {
            let mutation = MutationView::SetMetadata {
                field: fields.last(),
                value: record.shadow.fields[fields.last()],
            };
            lemma_emitted_clock(mid, actor, record.kind, record.id, mutation, now);
            if let Ok(after) = emitted(mid, actor, record.kind, record.id, mutation, now) {
                lemma_apart_trans(state, mid, after, actor);
            }
        }
    }
}

/// No clock but that of one device differs.
pub open spec fn clocks_apart(before: ReplicaView, after: ReplicaView, actor: Seq<char>) -> bool {
    forall|other: Seq<char>|
        other != actor ==> #[trigger] counter_of(after.clocks, other) == counter_of(
            before.clocks,
            other,
        )
}

proof fn lemma_diff_keeps_shadows(
    state: ReplicaView,
    actor: Seq<char>,
    previous: Option<ShadowView>,
    record: RecordView,
    now: i64,
)
    ensures
        diff_emitted(state, actor, previous, record, now) matches Ok(after) ==> after.shadows
            == state.shadows && counter_of(after.clocks, actor) == counter_of(state.clocks, actor)
            + diff_count(previous, record.shadow) && clocks_apart(state, after, actor),
{
    lemma_fields_keep_shadows(
        state,
        actor,
        record,
        changed_fields(previous, record.shadow),
        now,
    );
    if let Ok(told) = fields_emitted(
        state,
        actor,
        record,
        changed_fields(previous, record.shadow),
        now,
    ) {
        let mutation = MutationView::SetContent {
            context: told.frontier,
            value: record.shadow.content->0,
        };
        lemma_emitted_clock(told, actor, record.kind, record.id, mutation, now);
        if let Ok(after) = emitted(told, actor, record.kind, record.id, mutation, now) {
            lemma_apart_trans(state, told, after, actor);
        }
    }
}

pub(crate) proof fn lemma_records_shadows(
    state: ReplicaView,
    actor: Seq<char>,
    records: Seq<RecordView>,
    now: i64,
)
    requires
        distinct_records(records),
    ensures
        records_scanned(state, actor, records, now) matches Ok((after, count)) ==> {
            &&& forall|i: int|
                0 <= i < records.len() ==> after.shadows.contains_key(
                    ((#[trigger] records[i]).kind, records[i].id),
                ) && after.shadows[(records[i].kind, records[i].id)] == records[i].shadow
            &&& forall|kind: EntityKind, id: Seq<char>|
                !seen(records, kind, id) ==> (#[trigger] after.shadows.contains_key((kind, id))
                    <==> state.shadows.contains_key((kind, id)))
            &&& counter_of(after.clocks, actor) == counter_of(state.clocks, actor) + count
            &&& clocks_apart(state, after, actor)
            &&& state.shadows.dom().finite() ==> after.shadows.dom().finite()
        },
    decreases records.len(),
{
    if records.len() > 0 {
        let h = records.drop_last();
        let n = h.len() as int;
        assert forall|i: int, j: int| 0 <= i < j < h.len() implies !((#[trigger] h[i]).kind == (
        #[trigger] h[j]).kind && h[i].id == h[j].id) by {
            assert(!(records[i].kind == records[j].kind && records[i].id == records[j].id));
        }
        lemma_records_shadows(state, actor, h, now);
        let last = records.last();
        assert(records[n] == last);
        if let Ok((mid, before)) = records_scanned(state, actor, h, now) {
            let previous = shadow_of(mid.shadows, last.kind, last.id);
            lemma_diff_keeps_shadows(mid, actor, previous, last, now);
            if let Ok((after, count)) = records_scanned(state, actor, records, now) {
                lemma_apart_trans(state, mid, after, actor);
                assert forall|i: int| 0 <= i < records.len() implies after.shadows.contains_key(
                    ((#[trigger] records[i]).kind, records[i].id),
                ) && after.shadows[(records[i].kind, records[i].id)] == records[i].shadow by {
                    if i < n {
                        assert(h[i] == records[i]);
                        assert(!(records[i].kind == records[n].kind && records[i].id
                            == records[n].id));
                    }
                }
                assert forall|kind: EntityKind, id: Seq<char>|
                    !seen(records, kind, id) implies (#[trigger] after.shadows.contains_key(
                    (kind, id),
                ) <==> state.shadows.contains_key((kind, id))) by {
                    if seen(h, kind, id) {
                        let i = choose|i: int|
                            0 <= i < h.len() && (#[trigger] h[i]).kind == kind && h[i].id == id;
                        assert(records[i].kind == kind);
                    }
                    assert(!(records[n].kind == kind && records[n].id == id));
                }
            }
        }
    }
}

proof fn lemma_deletions_shadows(
    state: ReplicaView,
    actor: Seq<char>,
    kind: EntityKind,
    ids: Seq<Seq<char>>,
    now: i64,
)
    ensures
        deletions_emitted(state, actor, kind, ids, now) matches Ok(after) ==> {
            &&& forall|k: EntityKind, id: Seq<char>| #[trigger]
                after.shadows.contains_key((k, id)) <==> state.shadows.contains_key((k, id)) && !(k
                    == kind && ids.contains(id))
            &&& forall|k: EntityKind, id: Seq<char>| #[trigger]
                after.shadows.contains_key((k, id)) ==> after.shadows[(k, id)]
                    == state.shadows[(k, id)]
            &&& counter_of(after.clocks, actor) == counter_of(state.clocks, actor) + ids.len()
            &&& clocks_apart(state, after, actor)
            &&& state.shadows.dom().finite() ==> after.shadows.dom().finite()
        },
    decreases ids.len(),
{
    if ids.len() > 0 {
        let h = ids.drop_last();
        let n = h.len() as int;
        lemma_deletions_shadows(state, actor, kind, h, now);
        assert(ids[n] == ids.last());
        if let Ok(mid) = deletions_emitted(state, actor, kind, h, now) {
            lemma_emitted_clock(mid, actor, kind, ids.last(), MutationView::Delete, now);
            if let Ok(after) = deletions_emitted(state, actor, kind, ids, now) {
                lemma_apart_trans(state, mid, after, actor);
            }
        }
        assert forall|id: Seq<char>| #[trigger] ids.contains(id) <==> h.contains(id) || id
            == ids.last() by {
            if h.contains(id) {
                assert(ids[h.index_of(id)] == id);
            }
            if id == ids.last() {
                assert(ids[n] == id);
            }
            if ids.contains(id) {
                let i = ids.index_of(id);
                if i < n {
                    assert(h[i] == id);
                }
            }
        }
    }
}

pub(crate) proof fn lemma_filter_members(keys: Seq<Seq<char>>, keep: spec_fn(Seq<char>) -> bool)
    ensures
        forall|key: Seq<char>| #[trigger]
            keys.filter(keep).contains(key) <==> keys.contains(key) && keep(key),
    decreases keys.len(),
{
    reveal(Seq::filter);
    let kept = keys.filter(keep);
    if keys.len() > 0 {
        let h = keys.drop_last();
        let inner = h.filter(keep);
        let last = keys.last();
        lemma_filter_members(h, keep);
        assert(keys[keys.len() - 1] == last);
        assert forall|key: Seq<char>| #[trigger] kept.contains(key) <==> keys.contains(key) && keep(
            key,
        ) by {
            if kept.contains(key) {
                let i = kept.index_of(key);
                if i < inner.len() {
                    assert(inner[i] == key);
                    assert(inner.contains(key));
                    assert(keys[h.index_of(key)] == key);
                }
            }
            if keys.contains(key) && keep(key) {
                let i = keys.index_of(key);
                if i < h.len() {
                    assert(h[i] == key);
                    assert(h.contains(key));
                    assert(inner.contains(key));
                    assert(kept[inner.index_of(key)] == key);
                } else {
                    assert(kept[inner.len() as int] == key);
                }
            }
        }
    }
}

pub(crate) proof fn lemma_told_finite(shadows: Map<(EntityKind, Seq<char>), ShadowView>, kind: EntityKind)
    requires
        shadows.dom().finite(),
    ensures
        told_of(shadows, kind).finite(),
{
    let of_kind = shadows.dom().filter(|key: (EntityKind, Seq<char>)| key.0 == kind);
    let ids = of_kind.map(|key: (EntityKind, Seq<char>)| key.1);
    of_kind.lemma_map_finite(|key: (EntityKind, Seq<char>)| key.1);
    assert forall|id: Seq<char>| #[trigger] told_of(shadows, kind).contains(id) implies ids.contains(
        id,
    ) by {
        assert(of_kind.contains((kind, id)));
    }
    assert(told_of(shadows, kind).subset_of(ids));
    vstd::set_lib::lemma_set_subset_finite(ids, told_of(shadows, kind));
}

/// After a sweep nothing of the kind is told of that was not seen, and nothing else has changed.
proof fn lemma_sweep_shadows(
    state: ReplicaView,
    actor: Seq<char>,
    records: Seq<RecordView>,
    kind: EntityKind,
    now: i64,
)
    requires
        state.shadows.dom().finite(),
    ensures
        kind_swept(state, actor, records, kind, now) matches Ok((after, count)) ==> {
            &&& forall|k: EntityKind, id: Seq<char>| #[trigger]
                after.shadows.contains_key((k, id)) <==> state.shadows.contains_key((k, id)) && !(k
                    == kind && !seen(records, kind, id))
            &&& forall|k: EntityKind, id: Seq<char>| #[trigger]
                after.shadows.contains_key((k, id)) ==> after.shadows[(k, id)]
                    == state.shadows[(k, id)]
            &&& counter_of(after.clocks, actor) == counter_of(state.clocks, actor) + count
            &&& clocks_apart(state, after, actor)
            &&& after.shadows.dom().finite()
        },
{
    let told = told_of(state.shadows, kind);
    lemma_told_finite(state.shadows, kind);
    crate::textmap::lemma_ordered_lists(told);
    let gone = |id: Seq<char>| !seen(records, kind, id);
    let ids = vanished(state.shadows, records, kind);
    lemma_filter_members(ordered(told), gone);
    lemma_deletions_shadows(state, actor, kind, ids, now);
    if let Ok((after, count)) = kind_swept(state, actor, records, kind, now) {
        assert forall|k: EntityKind, id: Seq<char>| #[trigger]
            after.shadows.contains_key((k, id)) <==> state.shadows.contains_key((k, id)) && !(k
            == kind && !seen(records, kind, id)) by {
            if k == kind {
                assert(ids.contains(id) <==> ordered(told).contains(id) && gone(id));
                assert(ordered(told).contains(id) <==> told.contains(id));
            }
        }
    }
}

/// A device that looks again, with nothing changed in between, has nothing to tell, and its copy
/// stays as it is.
pub proof fn lemma_rescan_emits_nothing(
    state: ReplicaView,
    actor: Seq<char>,
    records: Seq<RecordView>,
    now: i64,
    later: i64,
)
    requires
        distinct_records(records),
        state.shadows.dom().finite(),
        forall|i: int|
            0 <= i < records.len() ==> (#[trigger] records[i]).shadow.fields.dom().finite(),
    ensures
        scanned(state, actor, records, now) matches Ok((after, count)) ==> scanned(
            after,
            actor,
            records,
            later,
        ) == Ok::<(ReplicaView, nat), StoreError>((after, 0)),
{
    if let Ok((after, count)) = scanned(state, actor, records, now) {
        lemma_scan_shadows(state, actor, records, now);
        lemma_records_unchanged(after, actor, records, records.len() as int, later);
        assert(records.take(records.len() as int) =~= records);
        lemma_nothing_vanished(after, records, EntityKind::Attachment);
        lemma_nothing_vanished(after, records, EntityKind::Item);
        lemma_nothing_vanished(after, records, EntityKind::Section);
    }
}

/// After a scan exactly the records are told of, each as it is; the clock of the device has moved
/// on by the number of operations, and no other clock has.
pub proof fn lemma_scan_shadows(
    state: ReplicaView,
    actor: Seq<char>,
    records: Seq<RecordView>,
    now: i64,
)
    requires
        distinct_records(records),
        state.shadows.dom().finite(),
    ensures
        scanned(state, actor, records, now) matches Ok((after, count)) ==> {
            &&& after.shadows.dom().finite()
            &&& forall|kind: EntityKind, id: Seq<char>| #[trigger]
                after.shadows.contains_key((kind, id)) <==> seen(records, kind, id)
            &&& forall|i: int|
                0 <= i < records.len() ==> after.shadows[(
                    (#[trigger] records[i]).kind,
                    records[i].id,
                )] == records[i].shadow
            &&& counter_of(after.clocks, actor) == counter_of(state.clocks, actor) + count
            &&& clocks_apart(state, after, actor)
        },
{
    lemma_records_shadows(state, actor, records, now);
    if let Ok((looked, a)) = records_scanned(state, actor, records, now) {
        lemma_sweep_shadows(looked, actor, records, EntityKind::Attachment, now);
        if let Ok((first, b)) = kind_swept(looked, actor, records, EntityKind::Attachment, now) {
            lemma_sweep_shadows(first, actor, records, EntityKind::Item, now);
            if let Ok((second, c)) = kind_swept(first, actor, records, EntityKind::Item, now) {
                lemma_sweep_shadows(second, actor, records, EntityKind::Section, now);
                if let Ok((after, d)) = kind_swept(
                    second,
                    actor,
                    records,
                    EntityKind::Section,
                    now,
                ) {
                    lemma_apart_trans(state, looked, first, actor);
                    lemma_apart_trans(state, first, second, actor);
                    lemma_apart_trans(state, second, after, actor);
                    assert forall|kind: EntityKind, id: Seq<char>| #[trigger]
                        after.shadows.contains_key((kind, id)) <==> seen(records, kind, id) by {
                        let told_second = second.shadows.contains_key((kind, id));
                        let told_first = first.shadows.contains_key((kind, id));
                        let told = looked.shadows.contains_key((kind, id));
                        if seen(records, kind, id) {
                            let i = choose|i: int|
                                0 <= i < records.len() && (#[trigger] records[i]).kind == kind
                                    && records[i].id == id;
                            assert(looked.shadows.contains_key((records[i].kind, records[i].id)));
                        }
                    }
                    assert forall|i: int| 0 <= i < records.len() implies after.shadows[(
                        (#[trigger] records[i]).kind,
                        records[i].id,
                    )] == records[i].shadow by {
                        let kind = records[i].kind;
                        let id = records[i].id;
                        assert(seen(records, kind, id));
                        assert(after.shadows.contains_key((kind, id)));
                        assert(second.shadows.contains_key((kind, id)));
                        assert(first.shadows.contains_key((kind, id)));
                        assert(looked.shadows.contains_key((kind, id)));
                    }
                }
            }
        }
    }
}

proof fn lemma_nothing_vanished(state: ReplicaView, records: Seq<RecordView>, kind: EntityKind)
    requires
        state.shadows.dom().finite(),
        forall|k: EntityKind, id: Seq<char>| #[trigger]
            state.shadows.contains_key((k, id)) <==> seen(records, k, id),
    ensures
        vanished(state.shadows, records, kind).len() == 0,
{
    let told = told_of(state.shadows, kind);
    lemma_told_finite(state.shadows, kind);
    crate::textmap::lemma_ordered_lists(told);
    let gone = |id: Seq<char>| !seen(records, kind, id);
    let ids = vanished(state.shadows, records, kind);
    lemma_filter_members(ordered(told), gone);
    if ids.len() > 0 {
        assert(ids.contains(ids[0]));
        assert(ordered(told).contains(ids[0]) && gone(ids[0]));
        assert(told.contains(ids[0]));
    }
}

proof fn lemma_records_unchanged(
    state: ReplicaView,
    actor: Seq<char>,
    records: Seq<RecordView>,
    n: int,
    now: i64,
)
    requires
        0 <= n <= records.len(),
        forall|i: int|
            0 <= i < records.len() ==> (#[trigger] records[i]).shadow.fields.dom().finite(),
        forall|i: int|
            0 <= i < records.len() ==> state.shadows.contains_key(
                ((#[trigger] records[i]).kind, records[i].id),
            ) && state.shadows[(records[i].kind, records[i].id)] == records[i].shadow,
    ensures
        records_scanned(state, actor, records.take(n), now) == Ok::<
            (ReplicaView, nat),
            StoreError,
        >((state, 0)),
    decreases n,
{
    if n > 0 {
        lemma_records_unchanged(state, actor, records, n - 1, now);
        assert(records.take(n).drop_last() =~= records.take(n - 1));
        let record = records[n - 1];
        assert(records.take(n).last() == record);
        let previous = shadow_of(state.shadows, record.kind, record.id);
        assert(previous == Some(record.shadow));
        let fields = record.shadow.fields.dom();
        crate::textmap::lemma_ordered_lists(fields);
        let change = |field: Seq<char>| field_changed(previous, record.shadow, field);
        lemma_filter_members(ordered(fields), change);
        let changed = changed_fields(previous, record.shadow);
        if changed.len() > 0 {
            assert(changed.contains(changed[0]));
            assert(ordered(fields).contains(changed[0]) && change(changed[0]));
            assert(fields.contains(changed[0]));
        }
        assert(state.shadows.insert((record.kind, record.id), record.shadow) =~= state.shadows);
    }
}

} // verus!
