//! What holds of the replicated notebook whatever the order in which its events arrive.

use vstd::prelude::*;

use crate::model::{
    assignment, blank_entity, counter_of, covers, dot_before, entity_apply, latest, merge, observe,
    observes, obsolete, placed, register_apply, sorted_by_dot, unobserved, DotView, EntityView,
    LwwView, MutationView, OperationView, VersionView,
};
use crate::text::lemma_text_order;

verus! {

/// Merging a context with itself changes nothing.
pub proof fn lemma_merge_idempotent(a: Map<Seq<char>, u64>)
    ensures
        merge(a, a) == a,
{
    assert(merge(a, a) =~= a);
}

/// The order in which two contexts are merged does not matter.
pub proof fn lemma_merge_commutative(a: Map<Seq<char>, u64>, b: Map<Seq<char>, u64>)
    ensures
        merge(a, b) == merge(b, a),
{
    assert(merge(a, b) =~= merge(b, a));
}

/// The grouping in which three contexts are merged does not matter.
pub proof fn lemma_merge_associative(
    a: Map<Seq<char>, u64>,
    b: Map<Seq<char>, u64>,
    c: Map<Seq<char>, u64>,
)
    ensures
        merge(merge(a, b), c) == merge(a, merge(b, c)),
{
    assert(merge(merge(a, b), c) =~= merge(a, merge(b, c)));
}

/// A merged context includes exactly the events of either one.
pub proof fn lemma_merge_observes(a: Map<Seq<char>, u64>, b: Map<Seq<char>, u64>, dot: DotView)
    ensures
        observes(merge(a, b), dot) <==> observes(a, dot) || observes(b, dot),
        covers(merge(a, b), a),
        covers(merge(a, b), b),
{
}

/// A context includes an event once it was shown it, and everything that it included before.
pub proof fn lemma_observe_observes(context: Map<Seq<char>, u64>, dot: DotView, other: DotView)
    ensures
        observes(observe(context, dot), dot),
        observes(context, other) ==> observes(observe(context, dot), other),
        observes(context, dot) && context.contains_key(dot.actor) ==> observe(context, dot)
            == context,
{
    if observes(context, dot) && context.contains_key(dot.actor) {
        assert(observe(context, dot) =~= context);
    }
}

/// A context that includes an event includes every earlier one of the same actor.
pub proof fn lemma_observes_earlier(
    context: Map<Seq<char>, u64>,
    actor: Seq<char>,
    earlier: u64,
    later: u64,
)
    requires
        earlier <= later,
        observes(context, DotView { actor, counter: later }),
    ensures
        observes(context, DotView { actor, counter: earlier }),
{
}

/// The order of dots is a strict total order.
pub proof fn lemma_dot_order(a: DotView, b: DotView, c: DotView)
    ensures
        !dot_before(a, a),
        dot_before(a, b) ==> !dot_before(b, a) && a != b,
        dot_before(a, b) && dot_before(b, c) ==> dot_before(a, c),
        a == b || dot_before(a, b) || dot_before(b, a),
{
    lemma_text_order(a.actor, b.actor, c.actor);
}

/// The winner of two stamped values does not depend on their order, as long as one stamp is not
/// used for two values.
pub proof fn lemma_latest_commutative(a: LwwView, b: LwwView)
    requires
        a.stamp == b.stamp ==> a == b,
    ensures
        latest(a, b) == latest(b, a),
{
    lemma_dot_order(a.stamp, b.stamp, a.stamp);
}

/// The winner of three stamped values does not depend on how they are grouped.
pub proof fn lemma_latest_associative(a: LwwView, b: LwwView, c: LwwView)
    ensures
        latest(latest(a, b), c) == latest(a, latest(b, c)),
        latest(a, a) == a,
{
    lemma_dot_order(a.stamp, b.stamp, c.stamp);
    lemma_dot_order(a.stamp, c.stamp, b.stamp);
    lemma_dot_order(c.stamp, a.stamp, b.stamp);
    lemma_dot_order(b.stamp, c.stamp, a.stamp);
}

/// Assignments in strictly increasing order of their dots.
pub open spec fn ordered_by_dot(versions: Seq<VersionView>) -> bool {
    forall|i: int, j: int|
        0 <= i < j < versions.len() ==> dot_before(
            (#[trigger] versions[i]).dot,
            (#[trigger] versions[j]).dot,
        )
}

proof fn lemma_placed_members(versions: Seq<VersionView>, version: VersionView)
    ensures
        forall|v: VersionView| #[trigger]
            placed(versions, version).contains(v) <==> versions.contains(v) || v == version,
    decreases versions.len(),
{
    let result = placed(versions, version);
    if versions.len() == 0 || !dot_before(version.dot, versions.last().dot) {
        assert forall|v: VersionView| #[trigger] result.contains(v) <==> versions.contains(v) || v
            == version by {
            if versions.contains(v) {
                assert(result[versions.index_of(v)] == v);
            }
            if v == version {
                assert(result[versions.len() as int] == v);
            }
        }
    } else {
        let shorter = versions.drop_last();
        let inner = placed(shorter, version);
        lemma_placed_members(shorter, version);
        assert forall|v: VersionView| #[trigger] result.contains(v) <==> versions.contains(v) || v
            == version by {
            if result.contains(v) {
                let i = result.index_of(v);
                if i < inner.len() {
                    assert(inner[i] == v);
                    assert(inner.contains(v));
                    if shorter.contains(v) {
                        assert(versions[shorter.index_of(v)] == v);
                    }
                } else {
                    assert(versions[versions.len() - 1] == v);
                }
            }
            if versions.contains(v) {
                let i = versions.index_of(v);
                if i < shorter.len() {
                    assert(shorter[i] == v);
                    assert(inner.contains(v));
                    assert(result[inner.index_of(v)] == v);
                } else {
                    assert(result[inner.len() as int] == v);
                }
            }
            if v == version {
                assert(inner.contains(v));
                assert(result[inner.index_of(v)] == v);
            }
        }
    }
}

proof fn lemma_placed_ordered(versions: Seq<VersionView>, version: VersionView)
    requires
        ordered_by_dot(versions),
        forall|i: int| 0 <= i < versions.len() ==> (#[trigger] versions[i]).dot != version.dot,
    ensures
        ordered_by_dot(placed(versions, version)),
    decreases versions.len(),
{
    let result = placed(versions, version);
    if versions.len() == 0 || !dot_before(version.dot, versions.last().dot) {
        assert forall|i: int, j: int| 0 <= i < j < result.len() implies dot_before(
            (#[trigger] result[i]).dot,
            (#[trigger] result[j]).dot,
        ) by {
            if j == versions.len() {
                let last = versions.last();
                assert(versions[versions.len() - 1] == last);
                lemma_dot_order(last.dot, version.dot, version.dot);
                assert(dot_before(last.dot, version.dot));
                if i < versions.len() - 1 {
                    assert(dot_before(versions[i].dot, versions[versions.len() - 1].dot));
                    lemma_dot_order(versions[i].dot, last.dot, version.dot);
                }
            }
        }
    } else {
        let shorter = versions.drop_last();
        let last = versions.last();
        assert forall|i: int, j: int| 0 <= i < j < shorter.len() implies dot_before(
            (#[trigger] shorter[i]).dot,
            (#[trigger] shorter[j]).dot,
        ) by {
            assert(dot_before(versions[i].dot, versions[j].dot));
        }
        assert forall|i: int| 0 <= i < shorter.len() implies (#[trigger] shorter[i]).dot
            != version.dot by {
            assert(versions[i].dot != version.dot);
        }
        lemma_placed_ordered(shorter, version);
        lemma_placed_members(shorter, version);
        let inner = placed(shorter, version);
        assert forall|i: int, j: int| 0 <= i < j < result.len() implies dot_before(
            (#[trigger] result[i]).dot,
            (#[trigger] result[j]).dot,
        ) by {
            if j < inner.len() {
                assert(dot_before(inner[i].dot, inner[j].dot));
            } else {
                assert(inner.contains(inner[i]));
                if inner[i] != version {
                    let k = shorter.index_of(inner[i]);
                    assert(shorter.contains(inner[i]));
                    assert(versions[k] == inner[i]);
                    assert(dot_before(versions[k].dot, versions[versions.len() - 1].dot));
                }
            }
        }
    }
}

/// Assignments whose dots all differ.
pub open spec fn distinct_dots(versions: Seq<VersionView>) -> bool {
    forall|i: int, j: int|
        0 <= i < j < versions.len() ==> (#[trigger] versions[i]).dot != (#[trigger] versions[j]).dot
}

/// Sorting keeps the assignments, and orders them where their dots differ.
pub proof fn lemma_sorted_by_dot(versions: Seq<VersionView>)
    ensures
        forall|v: VersionView| #[trigger]
            sorted_by_dot(versions).contains(v) <==> versions.contains(v),
        distinct_dots(versions) ==> ordered_by_dot(sorted_by_dot(versions)),
    decreases versions.len(),
{
    if versions.len() > 0 {
        let shorter = versions.drop_last();
        let last = versions.last();
        lemma_sorted_by_dot(shorter);
        let inner = sorted_by_dot(shorter);
        lemma_placed_members(inner, last);
        assert forall|v: VersionView| #[trigger]
            sorted_by_dot(versions).contains(v) <==> versions.contains(v) by {
            if shorter.contains(v) {
                assert(versions[shorter.index_of(v)] == v);
            }
            if v == last {
                assert(versions[versions.len() - 1] == v);
            }
            if versions.contains(v) {
                let i = versions.index_of(v);
                if i < shorter.len() {
                    assert(shorter[i] == v);
                }
            }
        }
        if distinct_dots(versions) {
            assert forall|i: int, j: int| 0 <= i < j < shorter.len() implies (
            #[trigger] shorter[i]).dot != (#[trigger] shorter[j]).dot by {
                assert(versions[i].dot != versions[j].dot);
            }
            assert forall|i: int| 0 <= i < inner.len() implies (#[trigger] inner[i]).dot
                != last.dot by {
                assert(inner.contains(inner[i]));
                let k = shorter.index_of(inner[i]);
                assert(versions[k].dot != versions[versions.len() - 1].dot);
            }
            lemma_placed_ordered(inner, last);
        }
    }
}

/// Two ordered lists of the same assignments are the same list.
proof fn lemma_ordered_unique(a: Seq<VersionView>, b: Seq<VersionView>)
    requires
        ordered_by_dot(a),
        ordered_by_dot(b),
        forall|v: VersionView| #[trigger] a.contains(v) <==> b.contains(v),
    ensures
        a == b,
    decreases a.len(),
{
    if a.len() == 0 {
        if b.len() > 0 {
            assert(b.contains(b[0]));
            assert(a.contains(b[0]));
        }
        assert(a =~= b);
    } else {
        let n = a.len() as int;
        let x = a[n - 1];
        assert(a.contains(x));
        let m = b.len() as int;
        assert(b.contains(x));
        let y = b[m - 1];
        assert(b.contains(y));
        assert(a.contains(y));
        let i = a.index_of(y);
        let j = b.index_of(x);
        if i < n - 1 && j < m - 1 {
            assert(dot_before(a[i].dot, a[n - 1].dot));
            assert(dot_before(b[j].dot, b[m - 1].dot));
            lemma_dot_order(x.dot, y.dot, x.dot);
        }
        assert(x == y);
        let p = a.drop_last();
        let q = b.drop_last();
        lemma_dot_order(x.dot, x.dot, x.dot);
        assert forall|v: VersionView| #[trigger] p.contains(v) <==> q.contains(v) by {
            if p.contains(v) {
                let k = p.index_of(v);
                assert(a[k] == v);
                assert(dot_before(a[k].dot, a[n - 1].dot));
                assert(a.contains(v));
                assert(b.contains(v));
                let l = b.index_of(v);
                assert(l < m - 1);
                assert(q[l] == v);
            }
            if q.contains(v) {
                let k = q.index_of(v);
                assert(b[k] == v);
                assert(dot_before(b[k].dot, b[m - 1].dot));
                assert(b.contains(v));
                assert(a.contains(v));
                let l = a.index_of(v);
                assert(l < n - 1);
                assert(p[l] == v);
            }
        }
        assert forall|k: int, l: int| 0 <= k < l < p.len() implies dot_before(
            (#[trigger] p[k]).dot,
            (#[trigger] p[l]).dot,
        ) by {
            assert(dot_before(a[k].dot, a[l].dot));
        }
        assert forall|k: int, l: int| 0 <= k < l < q.len() implies dot_before(
            (#[trigger] q[k]).dot,
            (#[trigger] q[l]).dot,
        ) by {
            assert(dot_before(b[k].dot, b[l].dot));
        }
        lemma_ordered_unique(p, q);
        assert(a =~= p.push(x));
        assert(b =~= q.push(y));
    }
}

/// The register after a history of assignments, in the order of their arrival.
pub open spec fn register_of(history: Seq<VersionView>) -> Seq<VersionView>
    decreases history.len(),
{
    if history.len() == 0 {
        Seq::empty()
    } else {
        register_apply(register_of(history.drop_last()), history.last())
    }
}

/// A history as devices produce it: a dot is used once, an assignment has not observed itself, and
/// one that has observed another has observed all that the other had.
pub open spec fn causal(history: Seq<VersionView>) -> bool {
    &&& forall|i: int, j: int|
        0 <= i < history.len() && 0 <= j < history.len() && (#[trigger] history[i]).dot == (
        #[trigger] history[j]).dot ==> history[i] == history[j]
    &&& forall|i: int|
        0 <= i < history.len() ==> !observes((#[trigger] history[i]).context, history[i].dot)
    &&& forall|i: int, j: int|
        0 <= i < history.len() && 0 <= j < history.len() && observes(
            (#[trigger] history[i]).context,
            (#[trigger] history[j]).dot,
        ) ==> covers(history[i].context, history[j].context)
}

/// The assignment of the history that no other one has observed.
pub open spec fn standing(history: Seq<VersionView>, version: VersionView) -> bool {
    history.contains(version) && forall|i: int|
        0 <= i < history.len() ==> !observes((#[trigger] history[i]).context, version.dot)
}

/// Every assignment of a history is in the register or observed by one that is.
spec fn answered(history: Seq<VersionView>, register: Seq<VersionView>) -> bool {
    forall|i: int|
        0 <= i < history.len() ==> register.contains(#[trigger] history[i]) || exists|k: int|
            0 <= k < register.len() && observes((#[trigger] register[k]).context, history[i].dot)
}

proof fn lemma_causal_prefix(history: Seq<VersionView>)
    requires
        causal(history),
        history.len() > 0,
    ensures
        causal(history.drop_last()),
{
    let h = history.drop_last();
    assert(forall|i: int| 0 <= i < h.len() ==> h[i] == history[i]);
}

proof fn lemma_register_step(history: Seq<VersionView>)
    requires
        causal(history),
    ensures
        ordered_by_dot(register_of(history)),
        forall|k: int|
            0 <= k < register_of(history).len() ==> history.contains(
                #[trigger] register_of(history)[k],
            ),
        forall|k: int, l: int|
            0 <= k < register_of(history).len() && 0 <= l < register_of(history).len()
                ==> !observes(
                (#[trigger] register_of(history)[k]).context,
                (#[trigger] register_of(history)[l]).dot,
            ),
        answered(history, register_of(history)),
    decreases history.len(),
{
    if history.len() > 0 {
        let h = history.drop_last();
        let n = h.len() as int;
        let incoming = history.last();
        lemma_causal_prefix(history);
        lemma_register_step(h);
        let old_register = register_of(h);
        let register = register_of(history);
        assert(history[n] == incoming);
        assert forall|v: VersionView| h.contains(v) implies #[trigger] history.contains(v) by {
            assert(history[h.index_of(v)] == v);
        }
        assert forall|k: int| 0 <= k < old_register.len() implies history.contains(
            #[trigger] old_register[k],
        ) by {
            assert(h.contains(old_register[k]));
        }
        if obsolete(old_register, incoming) {
            let k = choose|k: int|
                0 <= k < old_register.len() && ((#[trigger] old_register[k]).dot == incoming.dot
                    || observes(old_register[k].context, incoming.dot));
            let held = old_register[k];
            if held.dot == incoming.dot {
                let i = history.index_of(held);
                assert(history[i].dot == history[n].dot);
                assert(old_register.contains(incoming));
            }
            assert forall|i: int| 0 <= i < history.len() implies register.contains(
                #[trigger] history[i],
            ) || exists|k: int|
                0 <= k < register.len() && observes(
                    (#[trigger] register[k]).context,
                    history[i].dot,
                ) by {
                if i < n {
                    assert(h[i] == history[i]);
                }
            }
        } else {
            lemma_register_taken(history);
        }
    }
}

proof fn lemma_register_taken(history: Seq<VersionView>)
    requires
        history.len() > 0,
        causal(history),
        !obsolete(register_of(history.drop_last()), history.last()),
        ordered_by_dot(register_of(history.drop_last())),
        forall|k: int|
            0 <= k < register_of(history.drop_last()).len() ==> history.contains(
                #[trigger] register_of(history.drop_last())[k],
            ),
        forall|k: int, l: int|
            0 <= k < register_of(history.drop_last()).len() && 0 <= l < register_of(
                history.drop_last(),
            ).len() ==> !observes(
                (#[trigger] register_of(history.drop_last())[k]).context,
                (#[trigger] register_of(history.drop_last())[l]).dot,
            ),
        answered(history.drop_last(), register_of(history.drop_last())),
    ensures
        ordered_by_dot(register_of(history)),
        forall|k: int|
            0 <= k < register_of(history).len() ==> history.contains(
                #[trigger] register_of(history)[k],
            ),
        forall|k: int, l: int|
            0 <= k < register_of(history).len() && 0 <= l < register_of(history).len()
                ==> !observes(
                (#[trigger] register_of(history)[k]).context,
                (#[trigger] register_of(history)[l]).dot,
            ),
        answered(history, register_of(history)),
{
    let h = history.drop_last();
    let n = h.len() as int;
    let incoming = history.last();
    let held = register_of(h);
    let register = register_of(history);
    let kept = unobserved(held, incoming.context);
    let keep = |version: VersionView| !observes(incoming.context, version.dot);
    let all = kept.push(incoming);
    assert(history[n] == incoming);
    lemma_kept(held, incoming.context);
    assert forall|i: int, j: int| 0 <= i < j < all.len() implies (#[trigger] all[i]).dot != (
    #[trigger] all[j]).dot by {
        if j < kept.len() {
            assert(dot_before(kept[i].dot, kept[j].dot));
            lemma_dot_order(kept[i].dot, kept[j].dot, kept[i].dot);
        } else {
            assert(kept.contains(kept[i]));
            let k = held.index_of(kept[i]);
            assert(held[k].dot != incoming.dot);
        }
    }
    lemma_sorted_by_dot(all);
    assert forall|v: VersionView| #[trigger] register.contains(v) <==> (held.contains(v)
        && !observes(incoming.context, v.dot)) || v == incoming by {
        if kept.contains(v) {
            assert(all[kept.index_of(v)] == v);
        }
        if v == incoming {
            assert(all[kept.len() as int] == v);
        }
        if all.contains(v) {
            let i = all.index_of(v);
            if i < kept.len() {
                assert(kept[i] == v);
                assert(kept.contains(v));
            }
        }
    }
    assert forall|k: int| 0 <= k < register.len() implies history.contains(
        #[trigger] register[k],
    ) by {
        assert(register.contains(register[k]));
        if register[k] != incoming {
            assert(history.contains(held[held.index_of(register[k])]));
        } else {
            assert(history.contains(history[n]));
        }
    }
    assert forall|k: int, l: int|
        0 <= k < register.len() && 0 <= l < register.len() implies !observes(
        (#[trigger] register[k]).context,
        (#[trigger] register[l]).dot,
    ) by {
        let a = register[k];
        let b = register[l];
        assert(register.contains(a));
        assert(register.contains(b));
        if a == incoming && b == incoming {
            assert(!observes(history[n].context, history[n].dot));
        } else if a == incoming {
        } else if b == incoming {
            let i = held.index_of(a);
            assert(!observes(held[i].context, incoming.dot));
        } else {
            let i = held.index_of(a);
            let j = held.index_of(b);
            assert(!observes(held[i].context, held[j].dot));
        }
    }
    assert forall|i: int| 0 <= i < history.len() implies register.contains(
        #[trigger] history[i],
    ) || exists|k: int|
        0 <= k < register.len() && observes((#[trigger] register[k]).context, history[i].dot) by {
        let v = history[i];
        if i == n {
            assert(register.contains(incoming));
        } else {
            assert(h[i] == v);
            if held.contains(v) {
                if observes(incoming.context, v.dot) {
                    assert(register.contains(incoming));
                    let k = register.index_of(incoming);
                    assert(observes(register[k].context, v.dot));
                } else {
                    assert(register.contains(v));
                }
            } else {
                let k = choose|k: int|
                    0 <= k < held.len() && observes((#[trigger] held[k]).context, v.dot);
                let w = held[k];
                if observes(incoming.context, w.dot) {
                    let m = history.index_of(w);
                    assert(history.contains(w));
                    assert(observes(history[n].context, history[m].dot));
                    assert(covers(history[n].context, history[m].context));
                    assert(counter_of(incoming.context, v.dot.actor) >= counter_of(
                        w.context,
                        v.dot.actor,
                    ));
                    assert(register.contains(incoming));
                    let q = register.index_of(incoming);
                    assert(observes(register[q].context, v.dot));
                } else {
                    assert(held.contains(w));
                    assert(register.contains(w));
                    let q = register.index_of(w);
                    assert(observes(register[q].context, v.dot));
                }
            }
        }
    }
}

proof fn lemma_kept(held: Seq<VersionView>, context: Map<Seq<char>, u64>)
    requires
        ordered_by_dot(held),
    ensures
        ordered_by_dot(unobserved(held, context)),
        forall|v: VersionView| #[trigger]
            unobserved(held, context).contains(v) <==> held.contains(v) && !observes(
                context,
                v.dot,
            ),
    decreases held.len(),
{
    reveal(Seq::filter);
    let keep = |version: VersionView| !observes(context, version.dot);
    let kept = unobserved(held, context);
    if held.len() > 0 {
        let shorter = held.drop_last();
        let last = held.last();
        assert forall|i: int, j: int| 0 <= i < j < shorter.len() implies dot_before(
            (#[trigger] shorter[i]).dot,
            (#[trigger] shorter[j]).dot,
        ) by {
            assert(dot_before(held[i].dot, held[j].dot));
        }
        lemma_kept(shorter, context);
        let inner = unobserved(shorter, context);
        assert forall|v: VersionView| #[trigger] kept.contains(v) <==> held.contains(v)
            && !observes(context, v.dot) by {
            if held.contains(v) {
                let i = held.index_of(v);
                if i < shorter.len() {
                    assert(shorter[i] == v);
                }
            }
            if shorter.contains(v) {
                assert(held[shorter.index_of(v)] == v);
            }
            if inner.contains(v) {
                assert(kept[inner.index_of(v)] == v);
            }
            if v == last {
                assert(held[held.len() - 1] == v);
                if keep(last) {
                    assert(kept[inner.len() as int] == v);
                }
            }
            if kept.contains(v) {
                let i = kept.index_of(v);
                if i < inner.len() {
                    assert(inner[i] == v);
                    assert(inner.contains(v));
                }
            }
        }
        assert forall|i: int, j: int| 0 <= i < j < kept.len() implies dot_before(
            (#[trigger] kept[i]).dot,
            (#[trigger] kept[j]).dot,
        ) by {
            if j < inner.len() {
                assert(dot_before(inner[i].dot, inner[j].dot));
            } else {
                assert(inner.contains(inner[i]));
                let k = shorter.index_of(inner[i]);
                assert(dot_before(held[k].dot, held[held.len() - 1].dot));
            }
        }
    }
}

/// None of the assignments has observed another one.
pub open spec fn concurrent(versions: Seq<VersionView>) -> bool {
    forall|k: int, l: int|
        0 <= k < versions.len() && 0 <= l < versions.len() && k != l ==> !observes(
            (#[trigger] versions[k]).context,
            (#[trigger] versions[l]).dot,
        )
}

/// Whatever arrives, a register stays in the order of its dots, and the assignments that it holds
/// stay concurrent with each other.
pub proof fn lemma_register_stays_concurrent(versions: Seq<VersionView>, incoming: VersionView)
    requires
        ordered_by_dot(versions),
        concurrent(versions),
    ensures
        ordered_by_dot(register_apply(versions, incoming)),
        concurrent(register_apply(versions, incoming)),
        forall|v: VersionView| #[trigger]
            register_apply(versions, incoming).contains(v) ==> versions.contains(v) || v
                == incoming,
{
    if !obsolete(versions, incoming) {
        let register = register_apply(versions, incoming);
        let kept = unobserved(versions, incoming.context);
        let all = kept.push(incoming);
        lemma_kept(versions, incoming.context);
        assert forall|i: int, j: int| 0 <= i < j < all.len() implies (#[trigger] all[i]).dot != (
        #[trigger] all[j]).dot by {
            if j < kept.len() {
                assert(dot_before(kept[i].dot, kept[j].dot));
                lemma_dot_order(kept[i].dot, kept[j].dot, kept[i].dot);
            } else {
                assert(kept.contains(kept[i]));
                let k = versions.index_of(kept[i]);
                assert(versions[k].dot != incoming.dot);
            }
        }
        lemma_sorted_by_dot(all);
        assert forall|v: VersionView| #[trigger] register.contains(v) implies (versions.contains(v)
            && !observes(incoming.context, v.dot)) || v == incoming by {
            let i = all.index_of(v);
            if i < kept.len() {
                assert(kept.contains(kept[i]));
            }
        }
        assert forall|k: int, l: int|
            0 <= k < register.len() && 0 <= l < register.len() && k != l implies !observes(
            (#[trigger] register[k]).context,
            (#[trigger] register[l]).dot,
        ) by {
            let a = register[k];
            let b = register[l];
            assert(register.contains(a) && register.contains(b));
            if k < l {
                assert(dot_before(a.dot, b.dot));
            } else {
                assert(dot_before(b.dot, a.dot));
            }
            lemma_dot_order(a.dot, b.dot, a.dot);
            assert(a.dot != b.dot);
            if a != incoming {
                let i = versions.index_of(a);
                if b != incoming {
                    let j = versions.index_of(b);
                    assert(!observes(versions[i].context, versions[j].dot));
                } else {
                    assert(!observes(versions[i].context, incoming.dot));
                }
            }
        }
    }
}

/// After every history, a register holds assignments of it alone, in the order of their dots and
/// concurrent with each other.
pub proof fn lemma_register_concurrent(history: Seq<VersionView>)
    ensures
        ordered_by_dot(register_of(history)),
        concurrent(register_of(history)),
        forall|v: VersionView| #[trigger]
            register_of(history).contains(v) ==> history.contains(v),
    decreases history.len(),
{
    if history.len() > 0 {
        let h = history.drop_last();
        lemma_register_concurrent(h);
        lemma_register_stays_concurrent(register_of(h), history.last());
        assert forall|v: VersionView| #[trigger] register_of(history).contains(
            v,
        ) implies history.contains(v) by {
            if register_of(h).contains(v) {
                assert(history[h.index_of(v)] == v);
            } else {
                assert(history[history.len() - 1] == v);
            }
        }
    }
}

/// The register holds exactly the assignments of its history that no other one has observed, in
/// the order of their dots. Concurrent edits are therefore all kept, and an edit that has observed
/// others replaces them.
pub proof fn lemma_register_holds_standing(history: Seq<VersionView>)
    requires
        causal(history),
    ensures
        ordered_by_dot(register_of(history)),
        forall|v: VersionView| #[trigger]
            register_of(history).contains(v) <==> standing(history, v),
{
    lemma_register_step(history);
    let register = register_of(history);
    assert forall|v: VersionView| #[trigger] register.contains(v) <==> standing(history, v) by {
        if register.contains(v) {
            let k = register.index_of(v);
            assert(history.contains(register[k]));
            assert forall|i: int| 0 <= i < history.len() implies !observes(
                (#[trigger] history[i]).context,
                v.dot,
            ) by {
                if observes(history[i].context, v.dot) {
                    if register.contains(history[i]) {
                        let l = register.index_of(history[i]);
                        assert(!observes(register[l].context, register[k].dot));
                    } else {
                        let l = choose|l: int|
                            0 <= l < register.len() && observes(
                                (#[trigger] register[l]).context,
                                history[i].dot,
                            );
                        let m = history.index_of(register[l]);
                        assert(history.contains(register[l]));
                        assert(covers(history[m].context, history[i].context));
                        assert(counter_of(history[m].context, v.dot.actor) >= counter_of(
                            history[i].context,
                            v.dot.actor,
                        ));
                        assert(!observes(register[l].context, register[k].dot));
                    }
                }
            }
        }
        if standing(history, v) {
            let i = history.index_of(v);
            if !register.contains(history[i]) {
                let l = choose|l: int|
                    0 <= l < register.len() && observes(
                        (#[trigger] register[l]).context,
                        history[i].dot,
                    );
                let m = history.index_of(register[l]);
                assert(history.contains(register[l]));
                assert(!observes(history[m].context, v.dot));
            }
        }
    }
}

/// Two devices that have seen the same assignments, in whatever order and however often, hold the
/// same register.
pub proof fn lemma_registers_converge(a: Seq<VersionView>, b: Seq<VersionView>)
    requires
        causal(a),
        causal(b),
        forall|v: VersionView| #[trigger] a.contains(v) <==> b.contains(v),
    ensures
        register_of(a) == register_of(b),
{
    lemma_register_holds_standing(a);
    lemma_register_holds_standing(b);
    assert forall|v: VersionView| #[trigger] standing(a, v) <==> standing(b, v) by {
        if standing(a, v) {
            assert forall|i: int| 0 <= i < b.len() implies !observes(
                (#[trigger] b[i]).context,
                v.dot,
            ) by {
                assert(b.contains(b[i]));
                assert(a.contains(b[i]));
                let j = a.index_of(b[i]);
                assert(!observes(a[j].context, v.dot));
            }
        }
        if standing(b, v) {
            assert forall|i: int| 0 <= i < a.len() implies !observes(
                (#[trigger] a[i]).context,
                v.dot,
            ) by {
                assert(a.contains(a[i]));
                assert(b.contains(a[i]));
                let j = b.index_of(a[i]);
                assert(!observes(b[j].context, v.dot));
            }
        }
    }
    assert forall|v: VersionView| #[trigger]
        register_of(a).contains(v) <==> register_of(b).contains(v) by {
        assert(standing(a, v) <==> standing(b, v));
    }
    lemma_ordered_unique(register_of(a), register_of(b));
}

/// An assignment that arrives twice in a row counts once.
pub proof fn lemma_register_idempotent(versions: Seq<VersionView>, incoming: VersionView)
    ensures
        register_apply(register_apply(versions, incoming), incoming) == register_apply(
            versions,
            incoming,
        ),
{
    if !obsolete(versions, incoming) {
        let all = unobserved(versions, incoming.context).push(incoming);
        lemma_sorted_by_dot(all);
        let register = register_apply(versions, incoming);
        assert(all[all.len() - 1] == incoming);
        assert(all.contains(incoming));
        assert(register.contains(incoming));
        let k = register.index_of(incoming);
        assert(register[k].dot == incoming.dot);
    }
}

/// An assignment that has observed everything in the register replaces all of it.
pub proof fn lemma_resolution_replaces_all(versions: Seq<VersionView>, resolution: VersionView)
    requires
        !obsolete(versions, resolution),
        forall|i: int|
            0 <= i < versions.len() ==> observes(
                resolution.context,
                (#[trigger] versions[i]).dot,
            ),
    ensures
        register_apply(versions, resolution) == seq![resolution],
{
    let keep = |version: VersionView| !observes(resolution.context, version.dot);
    lemma_nothing_kept(versions, resolution.context);
    let all = unobserved(versions, resolution.context).push(resolution);
    assert(all =~= seq![resolution]);
    assert(all.drop_last() =~= Seq::empty());
    assert(sorted_by_dot(all.drop_last()) =~= Seq::empty());
    assert(sorted_by_dot(all) =~= seq![resolution]);
}

proof fn lemma_nothing_kept(versions: Seq<VersionView>, context: Map<Seq<char>, u64>)
    requires
        forall|i: int|
            0 <= i < versions.len() ==> observes(context, (#[trigger] versions[i]).dot),
    ensures
        unobserved(versions, context).len() == 0,
    decreases versions.len(),
{
    reveal(Seq::filter);
    if versions.len() > 0 {
        assert(observes(context, versions[versions.len() - 1].dot));
        lemma_nothing_kept(versions.drop_last(), context);
    }
}

/// The state of an entity after a history of operations.
pub open spec fn entity_of(start: EntityView, history: Seq<OperationView>) -> EntityView
    decreases history.len(),
{
    if history.len() == 0 {
        start
    } else {
        entity_apply(entity_of(start, history.drop_last()), history.last())
    }
}

/// Whatever operations arrive, the content of an entity stays in the order of its dots, and what it
/// holds stays concurrent.
pub proof fn lemma_entity_content_concurrent(start: EntityView, history: Seq<OperationView>)
    requires
        ordered_by_dot(start.content),
        concurrent(start.content),
    ensures
        ordered_by_dot(entity_of(start, history).content),
        concurrent(entity_of(start, history).content),
    decreases history.len(),
{
    if history.len() > 0 {
        let before = entity_of(start, history.drop_last());
        lemma_entity_content_concurrent(start, history.drop_last());
        if let Some(incoming) = assignment(history.last()) {
            lemma_register_stays_concurrent(before.content, incoming);
        }
    }
}

/// The event is the greatest of those that delete: of the one that is there at first, and of those
/// of a history.
pub open spec fn greatest_deletion(
    dot: DotView,
    first: Option<DotView>,
    history: Seq<OperationView>,
) -> bool {
    &&& first == Some(dot) || exists|i: int|
        0 <= i < history.len() && (#[trigger] history[i]).mutation is Delete && history[i].dot
            == dot
    &&& first matches Some(held) ==> !dot_before(dot, held)
    &&& forall|i: int|
        0 <= i < history.len() && (#[trigger] history[i]).mutation is Delete ==> !dot_before(
            dot,
            history[i].dot,
        )
}

/// A deletion is permanent: whatever arrives later, the entity stays deleted, with the metadata and
/// the content that it had. The greatest of its deletions stands for all of them.
pub proof fn lemma_tombstone_permanent(state: EntityView, history: Seq<OperationView>)
    requires
        state.deleted_at is Some,
    ensures
        entity_of(state, history).deleted_at is Some,
        entity_of(state, history).metadata == state.metadata,
        entity_of(state, history).content == state.content,
        greatest_deletion(entity_of(state, history).deleted_at->0, state.deleted_at, history),
    decreases history.len(),
{
    lemma_greatest_deletion(state, history);
    if history.len() > 0 {
        lemma_tombstone_permanent(state, history.drop_last());
    }
}

/// What stands for the deletion of an entity is the greatest of its deletions, whatever their
/// order.
pub proof fn lemma_greatest_deletion(start: EntityView, history: Seq<OperationView>)
    ensures
        entity_of(start, history).deleted_at matches Some(dot) ==> greatest_deletion(
            dot,
            start.deleted_at,
            history,
        ),
    decreases history.len(),
{
    if history.len() == 0 {
        if let Some(dot) = start.deleted_at {
            lemma_dot_order(dot, dot, dot);
        }
    } else {
        let h = history.drop_last();
        let n = h.len() as int;
        let last = history[n];
        let before = entity_of(start, h);
        let after = entity_of(start, history);
        assert(forall|i: int| 0 <= i < n ==> h[i] == history[i]);
        lemma_greatest_deletion(start, h);
        lemma_deleted_iff_some_delete(start, h);
        if let Some(dot) = after.deleted_at {
            lemma_dot_order(dot, dot, dot);
            if dot == last.dot && last.mutation is Delete {
                assert(history[n].mutation is Delete && history[n].dot == dot);
            }
            if let Some(held) = before.deleted_at {
                if start.deleted_at != Some(held) {
                    let i = choose|i: int|
                        0 <= i < h.len() && (#[trigger] h[i]).mutation is Delete && h[i].dot
                            == held;
                    assert(history[i].mutation is Delete && history[i].dot == held);
                }
                if let Some(first) = start.deleted_at {
                    lemma_dot_order(held, dot, first);
                    lemma_dot_order(dot, first, held);
                }
                assert forall|i: int|
                    0 <= i < history.len() && (
                    #[trigger] history[i]).mutation is Delete implies !dot_before(
                    dot,
                    history[i].dot,
                ) by {
                    if i < n {
                        assert(h[i].mutation is Delete);
                        lemma_dot_order(held, dot, h[i].dot);
                        lemma_dot_order(dot, h[i].dot, held);
                    }
                }
            } else {
                assert forall|i: int|
                    0 <= i < history.len() && (
                    #[trigger] history[i]).mutation is Delete implies !dot_before(
                    dot,
                    history[i].dot,
                ) by {
                    if i < n {
                        assert(h[i].mutation is Delete);
                    }
                }
            }
        }
    }
}

/// Two devices that have taken in the same operations of an entity, in whatever order, agree on
/// whether it is deleted, and by which event.
pub proof fn lemma_tombstones_converge(a: Seq<OperationView>, b: Seq<OperationView>)
    requires
        forall|operation: OperationView| #[trigger]
            a.contains(operation) <==> b.contains(operation),
    ensures
        entity_of(blank_entity(), a).deleted_at == entity_of(blank_entity(), b).deleted_at,
{
    let x = entity_of(blank_entity(), a).deleted_at;
    let y = entity_of(blank_entity(), b).deleted_at;
    lemma_greatest_deletion(blank_entity(), a);
    lemma_greatest_deletion(blank_entity(), b);
    lemma_deleted_iff_some_delete(blank_entity(), a);
    lemma_deleted_iff_some_delete(blank_entity(), b);
    if x is Some {
        let i = choose|i: int|
            0 <= i < a.len() && (#[trigger] a[i]).mutation is Delete && a[i].dot == x->0;
        assert(a.contains(a[i]));
        assert(b.contains(a[i]));
        let k = b.index_of(a[i]);
        assert(b[k].mutation is Delete);
        assert(!dot_before(y->0, b[k].dot));
    }
    if y is Some {
        let j = choose|j: int|
            0 <= j < b.len() && (#[trigger] b[j]).mutation is Delete && b[j].dot == y->0;
        assert(b.contains(b[j]));
        assert(a.contains(b[j]));
        let l = a.index_of(b[j]);
        assert(a[l].mutation is Delete);
        assert(!dot_before(x->0, a[l].dot));
    }
    if x is Some && y is Some {
        lemma_dot_order(x->0, y->0, x->0);
    }
}

/// An entity is deleted exactly if one of its operations deletes it, whatever their order.
pub proof fn lemma_deleted_iff_some_delete(start: EntityView, history: Seq<OperationView>)
    ensures
        entity_of(start, history).deleted_at is Some <==> start.deleted_at is Some || exists|i: int|
            0 <= i < history.len() && (#[trigger] history[i]).mutation is Delete,
    decreases history.len(),
{
    if history.len() > 0 {
        let h = history.drop_last();
        lemma_deleted_iff_some_delete(start, h);
        assert(history[history.len() - 1] == history.last());
        if exists|i: int| 0 <= i < h.len() && (#[trigger] h[i]).mutation is Delete {
            let i = choose|i: int| 0 <= i < h.len() && (#[trigger] h[i]).mutation is Delete;
            assert(history[i].mutation is Delete);
        }
        if exists|i: int| 0 <= i < history.len() && (#[trigger] history[i]).mutation is Delete {
            let i = choose|i: int|
                0 <= i < history.len() && (#[trigger] history[i]).mutation is Delete;
            if i < h.len() {
                assert(h[i].mutation is Delete);
            }
        }
    }
}

/// Two operations on metadata, from different events, can arrive in either order.
pub proof fn lemma_metadata_commutes(state: EntityView, a: OperationView, b: OperationView)
    requires
        a.mutation is SetMetadata,
        b.mutation is SetMetadata,
        a.dot != b.dot,
    ensures
        entity_apply(entity_apply(state, a), b) == entity_apply(entity_apply(state, b), a),
{
    if state.deleted_at is None {
        let x = entity_apply(entity_apply(state, a), b);
        let y = entity_apply(entity_apply(state, b), a);
        let f = a.mutation->SetMetadata_field;
        let g = b.mutation->SetMetadata_field;
        let p = LwwView { stamp: a.dot, value: a.mutation->SetMetadata_value };
        let q = LwwView { stamp: b.dot, value: b.mutation->SetMetadata_value };
        if f == g {
            lemma_latest_commutative(p, q);
            if state.metadata.contains_key(f) {
                let o = state.metadata[f];
                lemma_latest_associative(o, p, q);
                lemma_latest_associative(o, q, p);
            }
        }
        assert(x.metadata =~= y.metadata);
    }
}

/// An operation on metadata and one on content can arrive in either order.
pub proof fn lemma_metadata_and_content_commute(
    state: EntityView,
    a: OperationView,
    b: OperationView,
)
    requires
        a.mutation is SetMetadata,
        b.mutation is SetContent || b.mutation is ResolveContent,
    ensures
        entity_apply(entity_apply(state, a), b) == entity_apply(entity_apply(state, b), a),
{
}

/// The content assignments of a history, in their order.
pub open spec fn assignments(history: Seq<OperationView>) -> Seq<VersionView>
    decreases history.len(),
{
    if history.len() == 0 {
        Seq::empty()
    } else {
        let earlier = assignments(history.drop_last());
        match assignment(history.last()) {
            Some(version) => earlier.push(version),
            None => earlier,
        }
    }
}

/// The history deletes nothing.
pub open spec fn deletes_nothing(history: Seq<OperationView>) -> bool {
    forall|i: int| 0 <= i < history.len() ==> !((#[trigger] history[i]).mutation is Delete)
}

/// The operation sets the field.
pub open spec fn sets_field(operation: OperationView, field: Seq<char>) -> bool {
    operation.mutation matches MutationView::SetMetadata { field: f, value } && f == field
}

/// The stamped value that an operation on metadata carries.
pub open spec fn stamped(operation: OperationView) -> LwwView {
    LwwView { stamp: operation.dot, value: operation.mutation->SetMetadata_value }
}

pub(crate) proof fn lemma_assignment_members(history: Seq<OperationView>)
    ensures
        forall|v: VersionView| #[trigger]
            assignments(history).contains(v) <==> exists|i: int|
                0 <= i < history.len() && assignment(#[trigger] history[i]) == Some(v),
    decreases history.len(),
{
    if history.len() > 0 {
        let h = history.drop_last();
        let n = h.len() as int;
        lemma_assignment_members(h);
        let all = assignments(history);
        let earlier = assignments(h);
        assert forall|v: VersionView| #[trigger] all.contains(v) <==> exists|i: int|
            0 <= i < history.len() && assignment(#[trigger] history[i]) == Some(v) by {
            if all.contains(v) {
                let k = all.index_of(v);
                if k < earlier.len() {
                    assert(earlier[k] == v);
                    assert(earlier.contains(v));
                    let i = choose|i: int|
                        0 <= i < h.len() && assignment(#[trigger] h[i]) == Some(v);
                    assert(history[i] == h[i]);
                } else {
                    assert(assignment(history[n]) == Some(v));
                }
            }
            if exists|i: int|
                0 <= i < history.len() && assignment(#[trigger] history[i]) == Some(v) {
                let i = choose|i: int|
                    0 <= i < history.len() && assignment(#[trigger] history[i]) == Some(v);
                if i < n {
                    assert(h[i] == history[i]);
                    assert(earlier.contains(v));
                    assert(all[earlier.index_of(v)] == v);
                } else {
                    assert(all[earlier.len() as int] == v);
                }
            }
        }
    }
}

proof fn lemma_entity_content(history: Seq<OperationView>)
    requires
        deletes_nothing(history),
    ensures
        entity_of(blank_entity(), history).deleted_at is None,
        entity_of(blank_entity(), history).content == register_of(assignments(history)),
    decreases history.len(),
{
    if history.len() > 0 {
        let h = history.drop_last();
        assert(forall|i: int| 0 <= i < h.len() ==> h[i] == history[i]);
        lemma_entity_content(h);
        assert(!(history[history.len() - 1].mutation is Delete));
        let earlier = assignments(h);
        match assignment(history.last()) {
            Some(version) => {
                assert(earlier.push(version).drop_last() =~= earlier);
            },
            None => {},
        }
    }
}

/// The field holds the latest of the values that the history gives it, and is there if there is
/// one.
spec fn field_latest(
    history: Seq<OperationView>,
    metadata: Map<Seq<char>, LwwView>,
    field: Seq<char>,
) -> bool {
    &&& metadata.contains_key(field) <==> exists|i: int|
        0 <= i < history.len() && sets_field(#[trigger] history[i], field)
    &&& metadata.contains_key(field) ==> exists|i: int|
        0 <= i < history.len() && sets_field(#[trigger] history[i], field) && metadata[field]
            == stamped(history[i])
    &&& forall|i: int|
        0 <= i < history.len() && sets_field(#[trigger] history[i], field) ==> !dot_before(
            metadata[field].stamp,
            history[i].dot,
        )
}

proof fn lemma_entity_metadata(history: Seq<OperationView>, field: Seq<char>)
    requires
        deletes_nothing(history),
    ensures
        field_latest(history, entity_of(blank_entity(), history).metadata, field),
    decreases history.len(),
{
    if history.len() > 0 {
        let h = history.drop_last();
        let n = h.len() as int;
        assert(forall|i: int| 0 <= i < h.len() ==> h[i] == history[i]);
        lemma_entity_metadata(h, field);
        lemma_entity_content(h);
        let before = entity_of(blank_entity(), h).metadata;
        let after = entity_of(blank_entity(), history).metadata;
        let last = history[n];
        assert(!(last.mutation is Delete));
        if sets_field(last, field) {
            let incoming = stamped(last);
            assert(after.contains_key(field));
            if before.contains_key(field) {
                let held = before[field];
                assert(after[field] == latest(held, incoming));
                let i = choose|i: int|
                    0 <= i < h.len() && sets_field(#[trigger] h[i], field) && held == stamped(h[i]);
                assert(sets_field(history[i], field));
                assert(after[field] == stamped(history[i]) || after[field] == stamped(history[n]));
                assert forall|j: int|
                    0 <= j < history.len() && sets_field(
                        #[trigger] history[j],
                        field,
                    ) implies !dot_before(after[field].stamp, history[j].dot) by {
                    lemma_dot_order(held.stamp, incoming.stamp, history[j].dot);
                    lemma_dot_order(incoming.stamp, history[j].dot, held.stamp);
                    lemma_dot_order(held.stamp, history[j].dot, held.stamp);
                    if j < n {
                        assert(sets_field(h[j], field));
                    }
                }
            } else {
                assert(after[field] == stamped(history[n]));
                lemma_dot_order(last.dot, last.dot, last.dot);
                assert forall|j: int|
                    0 <= j < history.len() && sets_field(
                        #[trigger] history[j],
                        field,
                    ) implies !dot_before(after[field].stamp, history[j].dot) by {
                    if j < n {
                        assert(sets_field(h[j], field));
                    }
                }
            }
        } else {
            assert(after.contains_key(field) <==> before.contains_key(field));
            if before.contains_key(field) {
                assert(after[field] == before[field]);
                let i = choose|i: int|
                    0 <= i < h.len() && sets_field(#[trigger] h[i], field) && before[field]
                        == stamped(h[i]);
                assert(sets_field(history[i], field));
            }
            assert forall|j: int|
                0 <= j < history.len() && sets_field(
                    #[trigger] history[j],
                    field,
                ) implies before.contains_key(field) && !dot_before(
                after[field].stamp,
                history[j].dot,
            ) by {
                assert(sets_field(h[j], field));
            }
        }
    }
}

/// Two devices that have taken in the same operations of an entity, in whatever order, hold the
/// same state of it, or hold it deleted by the same event.
pub proof fn lemma_entities_converge(a: Seq<OperationView>, b: Seq<OperationView>)
    requires
        causal(assignments(a)),
        causal(assignments(b)),
        forall|i: int, j: int|
            0 <= i < a.len() && 0 <= j < a.len() && (#[trigger] a[i]).dot == (#[trigger] a[j]).dot
                ==> a[i] == a[j],
        forall|operation: OperationView| #[trigger]
            a.contains(operation) <==> b.contains(operation),
    ensures
        entity_of(blank_entity(), a).deleted_at == entity_of(blank_entity(), b).deleted_at,
        entity_of(blank_entity(), a).deleted_at is None ==> entity_of(blank_entity(), a)
            == entity_of(blank_entity(), b),
{
    lemma_tombstones_converge(a, b);
    if entity_of(blank_entity(), a).deleted_at is None {
        lemma_deleted_iff_some_delete(blank_entity(), a);
        lemma_deleted_iff_some_delete(blank_entity(), b);
        lemma_undeleted_converge(a, b);
    }
}

proof fn lemma_undeleted_converge(a: Seq<OperationView>, b: Seq<OperationView>)
    requires
        deletes_nothing(a),
        deletes_nothing(b),
        causal(assignments(a)),
        causal(assignments(b)),
        forall|i: int, j: int|
            0 <= i < a.len() && 0 <= j < a.len() && (#[trigger] a[i]).dot == (#[trigger] a[j]).dot
                ==> a[i] == a[j],
        forall|operation: OperationView| #[trigger]
            a.contains(operation) <==> b.contains(operation),
    ensures
        entity_of(blank_entity(), a) == entity_of(blank_entity(), b),
{
    let x = entity_of(blank_entity(), a);
    let y = entity_of(blank_entity(), b);
    lemma_entity_content(a);
    lemma_entity_content(b);
    lemma_assignment_members(a);
    lemma_assignment_members(b);
    assert forall|v: VersionView| #[trigger]
        assignments(a).contains(v) <==> assignments(b).contains(v) by {
        if assignments(a).contains(v) {
            let i = choose|i: int| 0 <= i < a.len() && assignment(#[trigger] a[i]) == Some(v);
            assert(a.contains(a[i]));
            assert(b.contains(a[i]));
            assert(assignment(b[b.index_of(a[i])]) == Some(v));
        }
        if assignments(b).contains(v) {
            let i = choose|i: int| 0 <= i < b.len() && assignment(#[trigger] b[i]) == Some(v);
            assert(b.contains(b[i]));
            assert(a.contains(b[i]));
            assert(assignment(a[a.index_of(b[i])]) == Some(v));
        }
    }
    lemma_registers_converge(assignments(a), assignments(b));
    assert forall|field: Seq<char>|
        #![trigger x.metadata.contains_key(field)]
        #![trigger y.metadata.contains_key(field)]
        x.metadata.contains_key(field) == y.metadata.contains_key(field) && (
        x.metadata.contains_key(field) ==> x.metadata[field] == y.metadata[field]) by {
        lemma_entity_metadata(a, field);
        lemma_entity_metadata(b, field);
        if x.metadata.contains_key(field) {
            let i = choose|i: int|
                0 <= i < a.len() && sets_field(#[trigger] a[i], field) && x.metadata[field]
                    == stamped(a[i]);
            assert(a.contains(a[i]));
            assert(b.contains(a[i]));
            let k = b.index_of(a[i]);
            assert(sets_field(b[k], field));
            let j = choose|j: int|
                0 <= j < b.len() && sets_field(#[trigger] b[j], field) && y.metadata[field]
                    == stamped(b[j]);
            assert(b.contains(b[j]));
            assert(a.contains(b[j]));
            let l = a.index_of(b[j]);
            assert(sets_field(a[l], field));
            lemma_dot_order(a[i].dot, b[j].dot, a[i].dot);
            assert(a[i].dot == a[l].dot);
        }
        if y.metadata.contains_key(field) {
            let j = choose|j: int| 0 <= j < b.len() && sets_field(#[trigger] b[j], field);
            assert(b.contains(b[j]));
            assert(a.contains(b[j]));
            assert(sets_field(a[a.index_of(b[j])], field));
        }
    }
    assert(x.metadata.dom() =~= y.metadata.dom());
    assert(x.metadata =~= y.metadata);
}

} // verus!
