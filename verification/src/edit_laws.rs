//! What edits of a note come to, and what is taken in of other devices at all.

use vstd::prelude::*;

use crate::exchange::{exchanged, observe_all};
use crate::ids::uuid_text;
use crate::model::{
    counter_of, entity_apply, observes, placed, register_apply, sorted_by_dot, unobserved,
    EntityKind, EntityView, FieldView, MutationView, OperationView, PayloadView, VersionView,
    WholeNumber,
};
use crate::store::ReplicaView;

verus! {

/// The operation gives a note a text, knowing of what its context holds.
pub open spec fn edits_to(
    operation: OperationView,
    context: Map<Seq<char>, u64>,
    value: Seq<char>,
) -> bool {
    operation.mutation == (MutationView::SetContent { context, value }) || operation.mutation == (
    MutationView::ResolveContent { context, value })
}

/// An edit that knows of all that a note holds, and of which none of that knows, is all that the note
/// then holds; so a resolution ends a conflict.
pub proof fn lemma_edit_settles(
    entity: EntityView,
    operation: OperationView,
    context: Map<Seq<char>, u64>,
    value: Seq<char>,
)
    requires
        entity.deleted_at is None,
        edits_to(operation, context, value),
        forall|i: int|
            0 <= i < entity.content.len() ==> observes(
                context,
                (#[trigger] entity.content[i]).dot,
            ) && entity.content[i].dot != operation.dot && !observes(
                entity.content[i].context,
                operation.dot,
            ),
    ensures
        ({
            let after = entity_apply(entity, operation);
            &&& after.content.len() == 1
            &&& after.content[0].value == value
            &&& after.content[0].dot == operation.dot
            &&& after.metadata == entity.metadata
            &&& after.deleted_at is None
        }),
{
    let version = VersionView { dot: operation.dot, context, value };
    crate::convergence::lemma_resolution_replaces_all(entity.content, version);
    assert(register_apply(entity.content, version) == seq![version]);
}

/// An edit that knows of nothing that a note holds, and of which none of that knows, stands beside
/// it: no text is lost.
pub proof fn lemma_concurrent_edits_stay(
    entity: EntityView,
    operation: OperationView,
    context: Map<Seq<char>, u64>,
    value: Seq<char>,
)
    requires
        entity.deleted_at is None,
        edits_to(operation, context, value),
        forall|i: int|
            0 <= i < entity.content.len() ==> !observes(
                context,
                (#[trigger] entity.content[i]).dot,
            ) && entity.content[i].dot != operation.dot && !observes(
                entity.content[i].context,
                operation.dot,
            ),
    ensures
        ({
            let after = entity_apply(entity, operation);
            &&& after.content.len() == entity.content.len() + 1
            &&& forall|i: int|
                0 <= i < entity.content.len() ==> after.content.contains(
                    #[trigger] entity.content[i],
                )
            &&& after.content.contains(
                VersionView { dot: operation.dot, context, value },
            )
        }),
{
    let version = VersionView { dot: operation.dot, context, value };
    let kept = unobserved(entity.content, context);
    let keep = |v: VersionView| !observes(context, v.dot);
    lemma_all_stay(entity.content, keep);
    assert(kept == entity.content);
    lemma_sorted_members(kept.push(version));
    let all = kept.push(version);
    assert forall|i: int| 0 <= i < entity.content.len() implies sorted_by_dot(all).contains(
        #[trigger] entity.content[i],
    ) by {
        assert(all[i] == entity.content[i]);
        assert(all.contains(all[i]));
    }
    assert(all[kept.len() as int] == version);
    assert(all.contains(version));
}

proof fn lemma_all_stay(versions: Seq<VersionView>, keep: spec_fn(VersionView) -> bool)
    requires
        forall|i: int| 0 <= i < versions.len() ==> keep(#[trigger] versions[i]),
    ensures
        versions.filter(keep) == versions,
    decreases versions.len(),
{
    reveal(Seq::filter);
    if versions.len() > 0 {
        let front = versions.drop_last();
        assert forall|i: int| 0 <= i < front.len() implies keep(#[trigger] front[i]) by {
            assert(front[i] == versions[i]);
        }
        lemma_all_stay(front, keep);
        assert(keep(versions[versions.len() - 1]));
        assert(front.push(versions.last()) =~= versions);
    } else {
        assert(versions.filter(keep) =~= versions);
    }
}

proof fn lemma_placed_members(versions: Seq<VersionView>, version: VersionView)
    ensures
        placed(versions, version).len() == versions.len() + 1,
        placed(versions, version).contains(version),
        forall|v: VersionView| #[trigger]
            versions.contains(v) ==> placed(versions, version).contains(v),
    decreases versions.len(),
{
    let all = placed(versions, version);
    if versions.len() == 0 || !crate::model::dot_before(version.dot, versions.last().dot) {
        assert(all[versions.len() as int] == version);
        assert forall|v: VersionView| #[trigger] versions.contains(v) implies all.contains(v) by {
            assert(all[versions.index_of(v)] == v);
        }
    } else {
        let front = placed(versions.drop_last(), version);
        lemma_placed_members(versions.drop_last(), version);
        assert(all[front.index_of(version)] == version);
        assert forall|v: VersionView| #[trigger] versions.contains(v) implies all.contains(v) by {
            let k = versions.index_of(v);
            if k < versions.len() - 1 {
                assert(versions.drop_last()[k] == v);
                assert(versions.drop_last().contains(v));
                assert(all[front.index_of(v)] == v);
            } else {
                assert(all[front.len() as int] == v);
            }
        }
    }
}

proof fn lemma_sorted_members(versions: Seq<VersionView>)
    ensures
        sorted_by_dot(versions).len() == versions.len(),
        forall|v: VersionView| #[trigger]
            versions.contains(v) ==> sorted_by_dot(versions).contains(v),
    decreases versions.len(),
{
    if versions.len() > 0 {
        let front = versions.drop_last();
        lemma_sorted_members(front);
        lemma_placed_members(sorted_by_dot(front), versions.last());
        assert forall|v: VersionView| #[trigger] versions.contains(v) implies sorted_by_dot(
            versions,
        ).contains(v) by {
            let k = versions.index_of(v);
            if k < front.len() {
                assert(front[k] == v);
                assert(front.contains(v));
                assert(sorted_by_dot(front).contains(v));
            }
        }
    }
}

/// The value of a field that was said last counts: of two values the one under the greater dot, by
/// its counter and then by its device. A deleted entity changes no more.
pub proof fn lemma_last_word(
    entity: EntityView,
    operation: OperationView,
    field: Seq<char>,
    value: FieldView,
)
    requires
        operation.mutation == (MutationView::SetMetadata { field, value }),
    ensures
        ({
            let after = entity_apply(entity, operation);
            &&& entity.deleted_at is Some ==> after == entity
            &&& entity.deleted_at is None && (!entity.metadata.contains_key(field)
                || entity.metadata[field].stamp.counter < operation.dot.counter)
                ==> after.metadata.contains_key(field) && after.metadata[field].value == value
            &&& entity.metadata.contains_key(field) && entity.metadata[field].stamp.counter
                > operation.dot.counter ==> after.metadata == entity.metadata || after.metadata[field]
                == entity.metadata[field]
            &&& forall|other: Seq<char>|
                other != field && #[trigger] entity.metadata.contains_key(other)
                    ==> after.metadata.contains_key(other) && after.metadata[other]
                    == entity.metadata[other]
            &&& after.content == entity.content
        }),
{
}

/// A deletion takes an entity away for good.
pub proof fn lemma_deleted_for_good(entity: EntityView, operation: OperationView)
    ensures
        operation.mutation is Delete ==> entity_apply(entity, operation).deleted_at is Some,
        entity.deleted_at is Some ==> entity_apply(entity, operation).deleted_at is Some,
        !(operation.mutation is Delete) ==> entity_apply(entity, operation).deleted_at
            == entity.deleted_at,
{
}

/// What may be said of an entity: of a list its name and its place, of a note its list, whether it is
/// done and when it was made, and its text, and of an attachment what it hangs on, its name, its type,
/// its size and its manifest.
pub open spec fn may_be_said(kind: EntityKind, mutation: MutationView) -> bool {
    match mutation {
        MutationView::Delete => true,
        MutationView::SetContent { context, value } => kind == EntityKind::Item && value.len()
            <= 100_000,
        MutationView::ResolveContent { context, value } => kind == EntityKind::Item && value.len()
            <= 100_000,
        MutationView::SetMetadata { field, value } => match kind {
            EntityKind::Section => {
                ||| field == "name"@ && (value matches FieldView::Text(name) && 0 < name.len()
                    <= 80)
                ||| field == "sortIndex"@ && (value is Natural || value is Negative
                    || value is Fraction)
            },
            EntityKind::Item => {
                ||| field == "sectionId"@ && (value is Null || (value matches FieldView::Text(list)
                    && uuid_text(list)))
                ||| field == "done"@ && value is Bool
                ||| field == "createdAt"@ && (value is Natural || value is Negative)
            },
            EntityKind::Attachment => {
                ||| field == "itemId"@ && (value matches FieldView::Text(item) && uuid_text(item))
                ||| (field == "name"@ || field == "mediaType"@) && value is Text
                ||| field == "size"@ && (value matches FieldView::Natural { value: size, bits }
                    && size <= 262_144_000)
                ||| field == "manifest"@ && (value matches FieldView::Nested { encoded, manifest }
                    && manifest is Some)
            },
        },
    }
}

/// An exchange that is not refused is one of this workspace, by a device that speaks for itself, of no
/// more than two thousand operations, each of which says something that may be said; and the device
/// claims to have seen no more than is known here or than it sends.
pub proof fn lemma_exchange_admits(
    state: ReplicaView,
    peer: Seq<char>,
    payload: PayloadView,
    sizes: Seq<usize>,
    now: WholeNumber,
)
    ensures
        exchanged(state, peer, payload, sizes, now) is Ok ==> {
            &&& payload.workspace == state.workspace
            &&& payload.operations.len() <= 2_000
            &&& uuid_text(peer)
            &&& forall|i: int|
                0 <= i < payload.operations.len() ==> {
                    let operation = #[trigger] payload.operations[i];
                    &&& operation.dot.actor == peer
                    &&& operation.dot.counter > 0
                    &&& operation.workspace == state.workspace
                    &&& uuid_text(operation.entity)
                    &&& may_be_said(operation.kind, operation.mutation)
                    &&& sizes[i] <= 432_768
                }
            &&& forall|actor: Seq<char>| #[trigger]
                payload.frontier.contains_key(actor) ==> payload.frontier[actor] <= counter_of(
                    observe_all(state.frontier, payload.operations),
                    actor,
                )
        },
{
}

} // verus!
