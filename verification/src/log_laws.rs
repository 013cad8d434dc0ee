//! What every copy of a workspace keeps: its log is complete and in order, and no page of an
//! exchange skips anything.

use vstd::prelude::*;

use crate::exchange::{
    delta, exchanged, gapless, has_counter, log_operations, missing, observe_all, received,
    sections_shown, touched_shown, MAX_REMOTE_OPS,
};
use crate::model::{
    counter_of, observe, observes, DotView, EntityKind, MutationView, OperationView, PayloadView,
    WholeNumber,
};
use crate::projection::{lemma_items_places_shown, lemma_places_shown, places_shown};
use crate::scan::{
    deletions_emitted, emitted, fields_emitted, kind_swept, operation_at, records_scanned, scanned,
    vanished,
};
use crate::store::{
    contradicted, inserted, is_logged, log_with, logged_before, with_operation, LoggedView,
    RecordView, ReplicaView, StoreError,
};
use crate::text::lemma_text_order;
use crate::textmap::ordered;

verus! {

/// A log in its order, with one entry for each dot.
pub open spec fn log_sorted(log: Seq<LoggedView>) -> bool {
    forall|i: int, j: int|
        0 <= i < j < log.len() ==> logged_before(#[trigger] log[i], #[trigger] log[j])
}

/// Of one device, later operations did not arrive before earlier ones.
pub open spec fn receipts_follow_counters(log: Seq<LoggedView>) -> bool {
    forall|i: int, j: int|
        0 <= i < log.len() && 0 <= j < log.len() && (#[trigger] log[i]).operation.dot.actor == (
        #[trigger] log[j]).operation.dot.actor && log[i].operation.dot.counter
            < log[j].operation.dot.counter ==> log[i].received_at <= log[j].received_at
}

/// The frontier includes every logged operation, and no counter is zero.
pub open spec fn frontier_covers(log: Seq<LoggedView>, frontier: Map<Seq<char>, u64>) -> bool {
    forall|i: int|
        0 <= i < log.len() ==> observes(frontier, (#[trigger] log[i]).operation.dot)
            && log[i].operation.dot.counter > 0
}

/// Of a device everything up to a counter is logged.
pub open spec fn logged_up_to(log: Seq<LoggedView>, actor: Seq<char>, last: u64) -> bool {
    forall|counter: u64|
        0 < counter <= last ==> #[trigger] is_logged(log, DotView { actor, counter })
}

/// The log holds everything that the frontier includes.
pub open spec fn log_complete(log: Seq<LoggedView>, frontier: Map<Seq<char>, u64>) -> bool {
    forall|actor: Seq<char>| logged_up_to(log, actor, #[trigger] counter_of(frontier, actor))
}

/// The log holds one entry for each dot.
pub open spec fn dots_distinct(log: Seq<LoggedView>) -> bool {
    forall|i: int, j: int|
        0 <= i < j < log.len() ==> (#[trigger] log[i]).operation.dot != (
        #[trigger] log[j]).operation.dot
}

/// A copy whose log is in order and complete.
pub open spec fn sound(state: ReplicaView) -> bool {
    &&& log_sorted(state.log)
    &&& dots_distinct(state.log)
    &&& receipts_follow_counters(state.log)
    &&& frontier_covers(state.log, state.frontier)
    &&& log_complete(state.log, state.frontier)
}

/// Nothing in the log arrived after the given moment.
pub open spec fn received_by(log: Seq<LoggedView>, now: i64) -> bool {
    forall|i: int| 0 <= i < log.len() ==> (#[trigger] log[i]).received_at <= now
}

/// Along the log the counters of each device increase.
pub open spec fn counters_increase(log: Seq<LoggedView>) -> bool {
    forall|i: int, j: int|
        0 <= i < j < log.len() && (#[trigger] log[i]).operation.dot.actor == (
        #[trigger] log[j]).operation.dot.actor ==> log[i].operation.dot.counter
            < log[j].operation.dot.counter
}

proof fn lemma_logged_order(a: LoggedView, b: LoggedView, c: LoggedView)
    ensures
        !logged_before(a, a),
        logged_before(a, b) ==> !logged_before(b, a),
        logged_before(a, b) && logged_before(b, c) ==> logged_before(a, c),
        a.operation.dot != b.operation.dot ==> logged_before(a, b) || logged_before(b, a),
{
    lemma_text_order(a.operation.dot.actor, b.operation.dot.actor, c.operation.dot.actor);
    lemma_text_order(b.operation.dot.actor, a.operation.dot.actor, c.operation.dot.actor);
    lemma_text_order(b.operation.dot.actor, c.operation.dot.actor, a.operation.dot.actor);
}

/// In a sound log the counters of each device increase.
pub proof fn lemma_sound_counters_increase(state: ReplicaView)
    requires
        sound(state),
    ensures
        counters_increase(state.log),
{
    let log = state.log;
    assert forall|i: int, j: int|
        0 <= i < j < log.len() && (#[trigger] log[i]).operation.dot.actor == (
        #[trigger] log[j]).operation.dot.actor implies log[i].operation.dot.counter
        < log[j].operation.dot.counter by {
        assert(logged_before(log[i], log[j]));
        assert(log[i].operation.dot != log[j].operation.dot);
        lemma_text_order(
            log[i].operation.dot.actor,
            log[j].operation.dot.actor,
            log[i].operation.dot.actor,
        );
        if log[j].operation.dot.counter < log[i].operation.dot.counter {
            assert(log[j].received_at <= log[i].received_at);
        }
    }
}

pub(crate) proof fn lemma_log_with_members(log: Seq<LoggedView>, entry: LoggedView)
    ensures
        forall|e: LoggedView| #[trigger]
            log_with(log, entry).contains(e) <==> log.contains(e) || e == entry,
        log_with(log, entry).len() == log.len() + 1,
    decreases log.len(),
{
    let result = log_with(log, entry);
    if log.len() == 0 || !logged_before(entry, log.last()) {
        assert forall|e: LoggedView| #[trigger] result.contains(e) <==> log.contains(e) || e
            == entry by {
            if log.contains(e) {
                assert(result[log.index_of(e)] == e);
            }
            if e == entry {
                assert(result[log.len() as int] == e);
            }
        }
    } else {
        let shorter = log.drop_last();
        let inner = log_with(shorter, entry);
        lemma_log_with_members(shorter, entry);
        assert forall|e: LoggedView| #[trigger] result.contains(e) <==> log.contains(e) || e
            == entry by {
            if result.contains(e) {
                let i = result.index_of(e);
                if i < inner.len() {
                    assert(inner[i] == e);
                    assert(inner.contains(e));
                    if shorter.contains(e) {
                        assert(log[shorter.index_of(e)] == e);
                    }
                } else {
                    assert(log[log.len() - 1] == e);
                }
            }
            if log.contains(e) {
                let i = log.index_of(e);
                if i < shorter.len() {
                    assert(shorter[i] == e);
                    assert(inner.contains(e));
                    assert(result[inner.index_of(e)] == e);
                } else {
                    assert(result[inner.len() as int] == e);
                }
            }
            if e == entry {
                assert(inner.contains(e));
                assert(result[inner.index_of(e)] == e);
            }
        }
    }
}

proof fn lemma_log_with_sorted(log: Seq<LoggedView>, entry: LoggedView)
    requires
        log_sorted(log),
        dots_distinct(log),
        !is_logged(log, entry.operation.dot),
    ensures
        log_sorted(log_with(log, entry)),
        dots_distinct(log_with(log, entry)),
    decreases log.len(),
{
    let result = log_with(log, entry);
    if log.len() == 0 || !logged_before(entry, log.last()) {
        assert forall|i: int, j: int| 0 <= i < j < result.len() implies logged_before(
            #[trigger] result[i],
            #[trigger] result[j],
        ) by {
            if j == log.len() {
                let last = log[log.len() - 1];
                assert(last.operation.dot != entry.operation.dot);
                lemma_logged_order(last, entry, entry);
                if i < log.len() - 1 {
                    assert(logged_before(log[i], log[log.len() - 1]));
                    lemma_logged_order(log[i], last, entry);
                }
            }
        }
        assert forall|i: int, j: int| 0 <= i < j < result.len() implies (
        #[trigger] result[i]).operation.dot != (#[trigger] result[j]).operation.dot by {
            if j == log.len() {
                assert(log[i].operation.dot != entry.operation.dot);
            } else {
                assert(log[i].operation.dot != log[j].operation.dot);
            }
        }
    } else {
        let shorter = log.drop_last();
        let last = log.last();
        let inner = log_with(shorter, entry);
        assert forall|i: int, j: int| 0 <= i < j < shorter.len() implies logged_before(
            #[trigger] shorter[i],
            #[trigger] shorter[j],
        ) by {
            assert(logged_before(log[i], log[j]));
        }
        assert forall|i: int, j: int| 0 <= i < j < shorter.len() implies (
        #[trigger] shorter[i]).operation.dot != (#[trigger] shorter[j]).operation.dot by {
            assert(log[i].operation.dot != log[j].operation.dot);
        }
        assert forall|i: int| 0 <= i < shorter.len() implies (#[trigger] shorter[i]).operation.dot
            != entry.operation.dot by {
            assert(log[i].operation.dot != entry.operation.dot);
        }
        lemma_log_with_sorted(shorter, entry);
        lemma_log_with_members(shorter, entry);
        assert(log[log.len() - 1] == last);
        assert(last.operation.dot != entry.operation.dot);
        assert forall|i: int, j: int| 0 <= i < j < result.len() implies logged_before(
            #[trigger] result[i],
            #[trigger] result[j],
        ) by {
            if j < inner.len() {
                assert(logged_before(inner[i], inner[j]));
            } else {
                assert(inner.contains(inner[i]));
                if inner[i] != entry {
                    let k = shorter.index_of(inner[i]);
                    assert(logged_before(log[k], log[log.len() - 1]));
                }
            }
        }
        assert forall|i: int, j: int| 0 <= i < j < result.len() implies (
        #[trigger] result[i]).operation.dot != (#[trigger] result[j]).operation.dot by {
            if j < inner.len() {
                assert(inner[i].operation.dot != inner[j].operation.dot);
            } else {
                assert(inner.contains(inner[i]));
                if inner[i] != entry {
                    let k = shorter.index_of(inner[i]);
                    assert(log[k].operation.dot != log[log.len() - 1].operation.dot);
                }
            }
        }
    }
}

/// What holds of a log while operations of one device arrive in any order: it is sorted, complete
/// for every other device and for this one up to where it was, and what goes beyond arrived now.
spec fn taking_in(state: ReplicaView, peer: Seq<char>, current: u64, now: i64) -> bool {
    &&& log_sorted(state.log)
    &&& dots_distinct(state.log)
    &&& receipts_follow_counters(state.log)
    &&& frontier_covers(state.log, state.frontier)
    &&& received_by(state.log, now)
    &&& logged_up_to(state.log, peer, current)
    &&& forall|actor: Seq<char>|
        actor != peer ==> logged_up_to(state.log, actor, #[trigger] counter_of(
            state.frontier,
            actor,
        ))
    &&& forall|i: int|
        0 <= i < state.log.len() && (#[trigger] state.log[i]).operation.dot.actor == peer
            && state.log[i].operation.dot.counter > current ==> state.log[i].received_at == now
}

proof fn lemma_logged_grows(log: Seq<LoggedView>, entry: LoggedView)
    ensures
        forall|dot: DotView| #[trigger]
            is_logged(log_with(log, entry), dot) <==> is_logged(log, dot) || dot
                == entry.operation.dot,
{
    lemma_log_with_members(log, entry);
    let result = log_with(log, entry);
    assert forall|dot: DotView| #[trigger] is_logged(result, dot) <==> is_logged(log, dot) || dot
        == entry.operation.dot by {
        if is_logged(log, dot) {
            let i = choose|i: int| 0 <= i < log.len() && (#[trigger] log[i]).operation.dot == dot;
            assert(log.contains(log[i]));
            assert(result.contains(log[i]));
            assert(result[result.index_of(log[i])].operation.dot == dot);
        }
        if dot == entry.operation.dot {
            assert(result.contains(entry));
            assert(result[result.index_of(entry)].operation.dot == dot);
        }
        if is_logged(result, dot) {
            let i = choose|i: int|
                0 <= i < result.len() && (#[trigger] result[i]).operation.dot == dot;
            assert(result.contains(result[i]));
            if result[i] != entry {
                assert(log[log.index_of(result[i])].operation.dot == dot);
            }
        }
    }
}

proof fn lemma_take_one(
    state: ReplicaView,
    operation: OperationView,
    peer: Seq<char>,
    current: u64,
    now: i64,
)
    requires
        taking_in(state, peer, current, now),
        operation.dot.actor == peer,
        operation.dot.counter > 0,
    ensures
        inserted(state, operation, now) matches Ok((after, new)) ==> {
            &&& taking_in(after, peer, current, now)
            &&& is_logged(after.log, operation.dot)
            &&& forall|dot: DotView| #[trigger]
                is_logged(state.log, dot) ==> is_logged(after.log, dot)
            &&& after.frontier == state.frontier || after.frontier == observe(
                state.frontier,
                operation.dot,
            )
            &&& forall|dot: DotView| #[trigger]
                observes(state.frontier, dot) ==> observes(after.frontier, dot)
        },
{
    if let Ok((after, new)) = inserted(state, operation, now) {
        if new {
            let entry = LoggedView { operation, received_at: now };
            let log = state.log;
            lemma_log_with_sorted(log, entry);
            lemma_log_with_members(log, entry);
            lemma_logged_grows(log, entry);
            assert(operation.dot.counter > current) by {
                if operation.dot.counter <= current {
                    assert(is_logged(log, DotView { actor: peer, counter: operation.dot.counter }));
                    assert(operation.dot == (DotView {
                        actor: peer,
                        counter: operation.dot.counter,
                    }));
                }
            }
            let result = after.log;
            assert forall|i: int| 0 <= i < result.len() implies #[trigger] result[i] == entry
                || log.contains(result[i]) by {
                assert(result.contains(result[i]));
            }
            assert forall|i: int, j: int|
                0 <= i < result.len() && 0 <= j < result.len() && (
                #[trigger] result[i]).operation.dot.actor == (
                #[trigger] result[j]).operation.dot.actor && result[i].operation.dot.counter
                    < result[j].operation.dot.counter implies result[i].received_at
                <= result[j].received_at by {
                if result[i] == entry && result[j] != entry {
                    let k = log.index_of(result[j]);
                    assert(log[k].received_at == now);
                } else if result[i] != entry && result[j] == entry {
                    let k = log.index_of(result[i]);
                    assert(log[k].received_at <= now);
                } else if result[i] != entry && result[j] != entry {
                    let k = log.index_of(result[i]);
                    let l = log.index_of(result[j]);
                    assert(log[k].received_at <= log[l].received_at);
                }
            }
            assert forall|i: int| 0 <= i < result.len() implies observes(
                after.frontier,
                (#[trigger] result[i]).operation.dot,
            ) && result[i].operation.dot.counter > 0 by {
                if result[i] != entry {
                    let k = log.index_of(result[i]);
                    assert(observes(state.frontier, log[k].operation.dot));
                }
            }
            assert forall|i: int| 0 <= i < result.len() implies (#[trigger] result[i]).received_at
                <= now by {
                if result[i] != entry {
                    let k = log.index_of(result[i]);
                    assert(log[k].received_at <= now);
                }
            }
            assert forall|actor: Seq<char>| actor != peer implies logged_up_to(
                result,
                actor,
                #[trigger] counter_of(after.frontier, actor),
            ) by {
                assert(counter_of(after.frontier, actor) == counter_of(state.frontier, actor));
                assert(logged_up_to(log, actor, counter_of(state.frontier, actor)));
            }
            assert forall|i: int|
                0 <= i < result.len() && (#[trigger] result[i]).operation.dot.actor == peer
                    && result[i].operation.dot.counter > current implies result[i].received_at
                == now by {
                if result[i] != entry {
                    let k = log.index_of(result[i]);
                    assert(log[k].received_at == now);
                }
            }
        }
    }
}

proof fn lemma_take_all(
    state: ReplicaView,
    operations: Seq<OperationView>,
    peer: Seq<char>,
    current: u64,
    now: i64,
)
    requires
        taking_in(state, peer, current, now),
        forall|i: int|
            0 <= i < operations.len() ==> (#[trigger] operations[i]).dot.actor == peer
                && operations[i].dot.counter > 0,
    ensures
        received(state, operations, now) matches Ok((after, touched)) ==> {
            &&& taking_in(after, peer, current, now)
            &&& forall|i: int|
                0 <= i < operations.len() ==> is_logged(after.log, (#[trigger] operations[i]).dot)
            &&& counter_of(after.frontier, peer) == counter_of(state.frontier, peer) || has_counter(
                operations,
                counter_of(after.frontier, peer) as int,
            )
        },
    decreases operations.len(),
{
    if operations.len() > 0 {
        let h = operations.drop_last();
        let n = h.len() as int;
        assert(forall|i: int| 0 <= i < n ==> h[i] == operations[i]);
        lemma_take_all(state, h, peer, current, now);
        assert(operations[n] == operations.last());
        if let Ok((before, touched)) = received(state, h, now) {
            lemma_take_one(before, operations.last(), peer, current, now);
            if let Ok((after, new)) = inserted(before, operations.last(), now) {
                assert forall|i: int| 0 <= i < operations.len() implies is_logged(
                    after.log,
                    (#[trigger] operations[i]).dot,
                ) by {
                    if i < n {
                        assert(is_logged(before.log, h[i].dot));
                    }
                }
                let m = counter_of(after.frontier, peer);
                if m == counter_of(before.frontier, peer) {
                    if has_counter(h, m as int) {
                        let i = choose|i: int|
                            0 <= i < h.len() && (#[trigger] h[i]).dot.counter == m;
                        assert(operations[i].dot.counter == m);
                    }
                } else {
                    assert(operations[n].dot.counter == m);
                }
            }
        }
    }
}

/// With no gap, everything between what is known and a counter that is sent is sent.
proof fn lemma_gapless_down(
    operations: Seq<OperationView>,
    current: u64,
    top: int,
    counter: int,
)
    requires
        gapless(operations, current),
        has_counter(operations, top),
        current < counter <= top,
    ensures
        has_counter(operations, counter),
    decreases top - counter,
{
    if counter < top {
        let i = choose|i: int|
            0 <= i < operations.len() && (#[trigger] operations[i]).dot.counter == top;
        assert(operations[i].dot.counter > current);
        lemma_gapless_down(operations, current, top - 1, counter);
    }
}

/// An exchange keeps a sound copy sound, as long as the clock has not been set back behind what
/// arrived before.
pub proof fn lemma_exchange_keeps_sound(
    state: ReplicaView,
    peer: Seq<char>,
    payload: PayloadView,
    sizes: Seq<usize>,
    now: WholeNumber,
)
    requires
        sound(state),
        received_by(state.log, now.value),
    ensures
        exchanged(state, peer, payload, sizes, now) matches Ok((after, answer)) ==> sound(after)
            && received_by(after.log, now.value),
{
    if let Ok((after, answer)) = exchanged(state, peer, payload, sizes, now) {
        let operations = payload.operations;
        let current = counter_of(state.frontier, peer);
        assert(logged_up_to(state.log, peer, current));
        assert forall|i: int|
            0 <= i < state.log.len() && (#[trigger] state.log[i]).operation.dot.actor == peer
                && state.log[i].operation.dot.counter > current implies state.log[i].received_at
            == now.value by {
            assert(observes(state.frontier, state.log[i].operation.dot));
        }
        lemma_take_all(state, operations, peer, current, now.value);
        if let Ok((taken, touched)) = received(state, operations, now.value) {
            lemma_shown_keeps_log(taken, touched, now);
            let last = counter_of(taken.frontier, peer);
            assert forall|counter: u64| 0 < counter <= last implies #[trigger] is_logged(
                taken.log,
                DotView { actor: peer, counter },
            ) by {
                if counter > current {
                    lemma_gapless_down(operations, current, last as int, counter as int);
                    let i = choose|i: int|
                        0 <= i < operations.len() && (#[trigger] operations[i]).dot.counter
                            == counter;
                    assert(is_logged(taken.log, operations[i].dot));
                    assert(operations[i].dot == (DotView { actor: peer, counter }));
                }
            }
            assert(logged_up_to(taken.log, peer, last));
            assert forall|actor: Seq<char>| logged_up_to(
                taken.log,
                actor,
                #[trigger] counter_of(taken.frontier, actor),
            ) by {
            }
        }
    }
}

proof fn lemma_shown_keeps_log(
    state: ReplicaView,
    touched: crate::exchange::Touched,
    now: WholeNumber,
)
    ensures
        touched_shown(state, touched, now).log == state.log,
        touched_shown(state, touched, now).frontier == state.frontier,
        touched_shown(state, touched, now).clocks == state.clocks,
{
    crate::exchange::lemma_sections_entities(state, ordered(touched.sections), now);
    let shown = sections_shown(state, ordered(touched.sections), now);
    crate::exchange::lemma_items_entities(shown, ordered(touched.items), now);
}

proof fn lemma_observe_all_counter(
    context: Map<Seq<char>, u64>,
    operations: Seq<OperationView>,
    actor: Seq<char>,
)
    ensures
        counter_of(observe_all(context, operations), actor) >= counter_of(context, actor),
        counter_of(observe_all(context, operations), actor) == counter_of(context, actor) || exists|
            i: int,
        |
            0 <= i < operations.len() && (#[trigger] operations[i]).dot.actor == actor
                && operations[i].dot.counter == counter_of(
                observe_all(context, operations),
                actor,
            ),
        forall|i: int|
            0 <= i < operations.len() && (#[trigger] operations[i]).dot.actor == actor
                ==> operations[i].dot.counter <= counter_of(
                observe_all(context, operations),
                actor,
            ),
    decreases operations.len(),
{
    if operations.len() > 0 {
        let h = operations.drop_last();
        let n = h.len() as int;
        assert(forall|i: int| 0 <= i < n ==> h[i] == operations[i]);
        assert(operations[n] == operations.last());
        lemma_observe_all_counter(context, h, actor);
        let before = counter_of(observe_all(context, h), actor);
        let after = counter_of(observe_all(context, operations), actor);
        if after == before && before != counter_of(context, actor) {
            let i = choose|i: int|
                0 <= i < h.len() && (#[trigger] h[i]).dot.actor == actor && h[i].dot.counter
                    == before;
            assert(operations[i].dot.counter == after);
        }
        if after != before {
            assert(operations[n].dot.actor == actor && operations[n].dot.counter == after);
        }
    }
}

proof fn lemma_filter_contains(all: Seq<OperationView>, keep: spec_fn(OperationView) -> bool)
    ensures
        forall|x: OperationView| #[trigger]
            all.filter(keep).contains(x) <==> all.contains(x) && keep(x),
    decreases all.len(),
{
    reveal(Seq::filter);
    let kept = all.filter(keep);
    if all.len() > 0 {
        let h = all.drop_last();
        let inner = h.filter(keep);
        let last = all.last();
        lemma_filter_contains(h, keep);
        assert(all[all.len() - 1] == last);
        assert forall|x: OperationView| #[trigger] kept.contains(x) <==> all.contains(x) && keep(
            x,
        ) by {
            if kept.contains(x) {
                let i = kept.index_of(x);
                if i < inner.len() {
                    assert(inner[i] == x);
                    assert(inner.contains(x));
                    assert(all[h.index_of(x)] == x);
                }
            }
            if all.contains(x) && keep(x) {
                let i = all.index_of(x);
                if i < h.len() {
                    assert(h[i] == x);
                    assert(h.contains(x));
                    assert(inner.contains(x));
                    assert(kept[inner.index_of(x)] == x);
                } else {
                    assert(kept[inner.len() as int] == x);
                }
            }
        }
    }
}

/// Filtering keeps the order along which the counters of each device increase.
proof fn lemma_filter_increases(all: Seq<OperationView>, keep: spec_fn(OperationView) -> bool)
    requires
        operations_increase(all),
    ensures
        operations_increase(all.filter(keep)),
    decreases all.len(),
{
    reveal(Seq::filter);
    if all.len() > 0 {
        let h = all.drop_last();
        let n = h.len() as int;
        assert forall|i: int, j: int|
            0 <= i < j < h.len() && (#[trigger] h[i]).dot.actor == (
            #[trigger] h[j]).dot.actor implies h[i].dot.counter < h[j].dot.counter by {
            assert(all[i].dot.counter < all[j].dot.counter);
        }
        lemma_filter_increases(h, keep);
        lemma_filter_contains(h, keep);
        let inner = h.filter(keep);
        let kept = all.filter(keep);
        assert forall|i: int, j: int|
            0 <= i < j < kept.len() && (#[trigger] kept[i]).dot.actor == (
            #[trigger] kept[j]).dot.actor implies kept[i].dot.counter < kept[j].dot.counter by {
            if j < inner.len() {
                assert(inner[i].dot.counter < inner[j].dot.counter);
            } else {
                assert(inner.contains(inner[i]));
                let k = h.index_of(inner[i]);
                assert(all[k].dot.counter < all[n].dot.counter);
            }
        }
    }
}

/// Along the operations the counters of each device increase.
pub open spec fn operations_increase(operations: Seq<OperationView>) -> bool {
    forall|i: int, j: int|
        0 <= i < j < operations.len() && (#[trigger] operations[i]).dot.actor == (
        #[trigger] operations[j]).dot.actor ==> operations[i].dot.counter
            < operations[j].dot.counter
}

/// Leaving out the first few of the kept ones leaves the rest.
proof fn lemma_filter_rest(
    all: Seq<OperationView>,
    keep: spec_fn(OperationView) -> bool,
    rest: spec_fn(OperationView) -> bool,
    page: Seq<OperationView>,
    k: int,
)
    requires
        operations_increase(all),
        0 <= k <= all.filter(keep).len(),
        page == all.filter(keep).take(k),
        forall|x: OperationView|
            all.contains(x) ==> (#[trigger] rest(x) <==> keep(x) && !page.contains(x)),
    ensures
        all.filter(rest) == all.filter(keep).skip(k),
    decreases all.len(),
{
    reveal(Seq::filter);
    if all.len() == 0 {
        assert(all.filter(rest) =~= all.filter(keep).skip(k));
    } else {
        let h = all.drop_last();
        let last = all.last();
        let n = h.len() as int;
        let kept = all.filter(keep);
        let inner = h.filter(keep);
        assert(all[n] == last);
        assert(all.contains(last));
        assert forall|i: int, j: int|
            0 <= i < j < h.len() && (#[trigger] h[i]).dot.actor == (
            #[trigger] h[j]).dot.actor implies h[i].dot.counter < h[j].dot.counter by {
            assert(all[i].dot.counter < all[j].dot.counter);
        }
        lemma_filter_contains(h, keep);
        assert(!h.contains(last)) by {
            if h.contains(last) {
                let i = h.index_of(last);
                assert(all[i].dot.counter < all[n].dot.counter);
            }
        }
        if k <= inner.len() {
            assert(kept.take(k) =~= inner.take(k));
            assert forall|x: OperationView| h.contains(x) implies (#[trigger] rest(x) <==> keep(x)
                && !page.contains(x)) by {
                assert(all[h.index_of(x)] == x);
            }
            lemma_filter_rest(h, keep, rest, page, k);
            assert(!page.contains(last)) by {
                if page.contains(last) {
                    let i = page.index_of(last);
                    assert(inner[i] == last);
                    assert(inner.contains(last));
                }
            }
            assert(all.filter(rest) =~= kept.skip(k));
        } else {
            assert(page =~= kept);
            assert(page.contains(last)) by {
                assert(page[inner.len() as int] == last);
            }
            lemma_nothing_left(h, rest, keep, page);
            assert(all.filter(rest) =~= kept.skip(k));
        }
    }
}

proof fn lemma_nothing_left(
    h: Seq<OperationView>,
    rest: spec_fn(OperationView) -> bool,
    keep: spec_fn(OperationView) -> bool,
    page: Seq<OperationView>,
)
    requires
        forall|x: OperationView| h.contains(x) && keep(x) ==> page.contains(x),
        forall|x: OperationView|
            h.contains(x) ==> (#[trigger] rest(x) ==> keep(x) && !page.contains(x)),
    ensures
        h.filter(rest).len() == 0,
{
    lemma_filter_contains(h, rest);
    let kept = h.filter(rest);
    if kept.len() > 0 {
        assert(kept.contains(kept[0]));
        assert(h.contains(kept[0]) && rest(kept[0]));
    }
}

/// No page skips anything: what a peer still lacks once it has taken a page in is exactly what
/// follows that page.
pub proof fn lemma_next_page(log: Seq<LoggedView>, frontier: Map<Seq<char>, u64>)
    requires
        counters_increase(log),
    ensures
        missing(log, observe_all(frontier, delta(log, frontier))) == missing(log, frontier).skip(
            delta(log, frontier).len() as int,
        ),
        missing(log, frontier).len() <= MAX_REMOTE_OPS ==> missing(
            log,
            observe_all(frontier, delta(log, frontier)),
        ).len() == 0,
{
    let all = log_operations(log);
    let lacks = |operation: OperationView| !observes(frontier, operation.dot);
    let lacked = missing(log, frontier);
    let page = delta(log, frontier);
    let delivered = observe_all(frontier, page);
    let still = |operation: OperationView| !observes(delivered, operation.dot);
    let k = page.len() as int;
    assert(lacked == all.filter(lacks));
    assert(page =~= lacked.take(k));
    assert forall|i: int, j: int|
        0 <= i < j < all.len() && (#[trigger] all[i]).dot.actor == (
        #[trigger] all[j]).dot.actor implies all[i].dot.counter < all[j].dot.counter by {
        assert(log[i].operation.dot.counter < log[j].operation.dot.counter);
    }
    lemma_filter_contains(all, lacks);
    lemma_filter_increases(all, lacks);
    assert forall|x: OperationView| all.contains(x) implies (#[trigger] still(x) <==> lacks(x)
        && !page.contains(x)) by {
        lemma_observe_all_counter(frontier, page, x.dot.actor);
        if page.contains(x) {
            let i = page.index_of(x);
            assert(page[i].dot.counter <= counter_of(delivered, x.dot.actor));
        }
        if lacks(x) && !page.contains(x) && !still(x) {
            let i = choose|i: int|
                0 <= i < page.len() && (#[trigger] page[i]).dot.actor == x.dot.actor
                    && page[i].dot.counter == counter_of(delivered, x.dot.actor);
            assert(lacked.contains(x));
            let j = lacked.index_of(x);
            assert(lacked[i] == page[i]);
            if j < k {
                assert(page[j] == x);
            } else {
                assert(lacked[i].dot.counter < lacked[j].dot.counter);
            }
        }
    }
    lemma_filter_rest(all, lacks, still, page, k);
    assert(missing(log, delivered) == all.filter(still));
}

/// An operation that arrives again changes nothing, whenever it does.
pub proof fn lemma_replay_changes_nothing(
    state: ReplicaView,
    operation: OperationView,
    now: i64,
    later: i64,
)
    ensures
        inserted(state, operation, now) matches Ok((after, new)) ==> inserted(
            after,
            operation,
            later,
        ) == Ok::<(ReplicaView, bool), StoreError>((after, false)),
{
    if let Ok((after, new)) = inserted(state, operation, now) {
        if new {
            let entry = LoggedView { operation, received_at: now };
            lemma_log_with_members(state.log, entry);
            lemma_logged_grows(state.log, entry);
            let log = after.log;
            if contradicted(log, operation) {
                let i = choose|i: int|
                    0 <= i < log.len() && (#[trigger] log[i]).operation.dot == operation.dot
                        && log[i].operation != operation;
                assert(log.contains(log[i]));
                assert(state.log.contains(log[i]));
                let k = state.log.index_of(log[i]);
                assert(state.log[k].operation.dot == operation.dot);
            }
            assert(is_logged(log, operation.dot));
        }
    }
}

/// A forged operation under the dot of a known one is refused.
pub proof fn lemma_forgery_refused(
    state: ReplicaView,
    known: OperationView,
    forged: OperationView,
    now: i64,
    later: i64,
)
    requires
        forged.dot == known.dot,
        forged != known,
    ensures
        inserted(state, known, now) matches Ok((after, new)) ==> inserted(after, forged, later)
            == Err::<(ReplicaView, bool), StoreError>(StoreError::InvalidPayload),
{
    if let Ok((after, new)) = inserted(state, known, now) {
        let log = after.log;
        if new {
            let entry = LoggedView { operation: known, received_at: now };
            lemma_log_with_members(state.log, entry);
            assert(log.contains(entry));
            let i = log.index_of(entry);
            assert(log[i].operation == known);
        } else {
            let i = choose|i: int|
                0 <= i < log.len() && (#[trigger] log[i]).operation.dot == known.dot;
            assert(log[i].operation == known);
        }
    }
}

/// The clock of a device is where its operations are.
pub open spec fn in_step(state: ReplicaView, actor: Seq<char>) -> bool {
    counter_of(state.clocks, actor) == counter_of(state.frontier, actor)
}

/// What a device that makes operations itself relies on.
pub open spec fn ready(state: ReplicaView, actor: Seq<char>, now: i64) -> bool {
    sound(state) && in_step(state, actor) && received_by(state.log, now)
}

pub(crate) proof fn lemma_emit_ready(
    state: ReplicaView,
    actor: Seq<char>,
    kind: EntityKind,
    id: Seq<char>,
    mutation: MutationView,
    now: i64,
)
    requires
        ready(state, actor, now),
    ensures
        match emitted(state, actor, kind, id, mutation, now) {
            Ok(after) => ready(after, actor, now),
            Err(error) => error == StoreError::CounterExhausted,
        },
{
    let last = counter_of(state.clocks, actor);
    if last < u64::MAX {
        let counter = (last + 1) as u64;
        let ticked = ReplicaView { clocks: state.clocks.insert(actor, counter), ..state };
        let operation = operation_at(state, actor, counter, kind, id, mutation);
        let log = state.log;
        assert forall|i: int| 0 <= i < log.len() implies (#[trigger] log[i]).operation.dot
            != operation.dot by {
            assert(observes(state.frontier, log[i].operation.dot));
        }
        assert(!is_logged(log, operation.dot));
        assert(logged_up_to(log, actor, last));
        assert(taking_in(ticked, actor, last, now)) by {
            assert forall|other: Seq<char>| other != actor implies logged_up_to(
                ticked.log,
                other,
                #[trigger] counter_of(ticked.frontier, other),
            ) by {
                assert(counter_of(ticked.frontier, other) == counter_of(state.frontier, other));
            }
            assert forall|i: int|
                0 <= i < log.len() && (#[trigger] log[i]).operation.dot.actor == actor
                    && log[i].operation.dot.counter > last implies log[i].received_at == now by {
                assert(observes(state.frontier, log[i].operation.dot));
            }
        }
        lemma_take_one(ticked, operation, actor, last, now);
        let after = with_operation(ticked, operation, now);
        let entry = LoggedView { operation, received_at: now };
        lemma_logged_grows(log, entry);
        assert forall|c: u64| 0 < c <= counter implies #[trigger] is_logged(
            after.log,
            DotView { actor, counter: c },
        ) by {
            if c <= last {
                assert(is_logged(log, DotView { actor, counter: c }));
            } else {
                assert(operation.dot == (DotView { actor, counter: c }));
            }
        }
        assert(counter_of(after.frontier, actor) == counter);
        assert forall|other: Seq<char>| logged_up_to(
            after.log,
            other,
            #[trigger] counter_of(after.frontier, other),
        ) by {
            if other == actor {
                assert(logged_up_to(after.log, actor, counter));
            }
        }
    }
}

proof fn lemma_fields_ready(
    state: ReplicaView,
    actor: Seq<char>,
    record: RecordView,
    fields: Seq<Seq<char>>,
    now: i64,
)
    requires
        ready(state, actor, now),
    ensures
        match fields_emitted(state, actor, record, fields, now) {
            Ok(after) => ready(after, actor, now),
            Err(error) => error == StoreError::CounterExhausted,
        },
    decreases fields.len(),
{
    if fields.len() > 0 {
        lemma_fields_ready(state, actor, record, fields.drop_last(), now);
        if let Ok(mid) = fields_emitted(state, actor, record, fields.drop_last(), now) {
            lemma_emit_ready(
                mid,
                actor,
                record.kind,
                record.id,
                MutationView::SetMetadata {
                    field: fields.last(),
                    value: record.shadow.fields[fields.last()],
                },
                now,
            );
        }
    }
}

proof fn lemma_records_ready(
    state: ReplicaView,
    actor: Seq<char>,
    records: Seq<RecordView>,
    now: i64,
)
    requires
        ready(state, actor, now),
    ensures
        match records_scanned(state, actor, records, now) {
            Ok((after, count)) => ready(after, actor, now),
            Err(error) => error == StoreError::CounterExhausted,
        },
    decreases records.len(),
{
    if records.len() > 0 {
        lemma_records_ready(state, actor, records.drop_last(), now);
        if let Ok((mid, count)) = records_scanned(state, actor, records.drop_last(), now) {
            let record = records.last();
            let previous = crate::scan::shadow_of(mid.shadows, record.kind, record.id);
            let fields = crate::scan::changed_fields(previous, record.shadow);
            lemma_fields_ready(mid, actor, record, fields, now);
            if let Ok(told) = fields_emitted(mid, actor, record, fields, now) {
                lemma_emit_ready(
                    told,
                    actor,
                    record.kind,
                    record.id,
                    MutationView::SetContent {
                        context: told.frontier,
                        value: record.shadow.content->0,
                    },
                    now,
                );
            }
        }
    }
}

proof fn lemma_deletions_ready(
    state: ReplicaView,
    actor: Seq<char>,
    kind: EntityKind,
    ids: Seq<Seq<char>>,
    now: i64,
)
    requires
        ready(state, actor, now),
    ensures
        match deletions_emitted(state, actor, kind, ids, now) {
            Ok(after) => ready(after, actor, now),
            Err(error) => error == StoreError::CounterExhausted,
        },
    decreases ids.len(),
{
    if ids.len() > 0 {
        lemma_deletions_ready(state, actor, kind, ids.drop_last(), now);
        if let Ok(mid) = deletions_emitted(state, actor, kind, ids.drop_last(), now) {
            lemma_emit_ready(mid, actor, kind, ids.last(), MutationView::Delete, now);
        }
    }
}

/// A scan of a device whose clock is where its operations are keeps its copy sound and its clock in
/// step. It fails only where the counter is used up.
pub proof fn lemma_scan_keeps_sound(
    state: ReplicaView,
    actor: Seq<char>,
    records: Seq<RecordView>,
    now: i64,
)
    requires
        ready(state, actor, now),
    ensures
        match scanned(state, actor, records, now) {
            Ok((after, count)) => ready(after, actor, now),
            Err(error) => error == StoreError::CounterExhausted,
        },
{
    lemma_records_ready(state, actor, records, now);
    if let Ok((looked, a)) = records_scanned(state, actor, records, now) {
        lemma_deletions_ready(
            looked,
            actor,
            EntityKind::Attachment,
            vanished(looked.shadows, records, EntityKind::Attachment),
            now,
        );
        if let Ok((first, b)) = kind_swept(looked, actor, records, EntityKind::Attachment, now) {
            lemma_deletions_ready(
                first,
                actor,
                EntityKind::Item,
                vanished(first.shadows, records, EntityKind::Item),
                now,
            );
            if let Ok((second, c)) = kind_swept(first, actor, records, EntityKind::Item, now) {
                lemma_deletions_ready(
                    second,
                    actor,
                    EntityKind::Section,
                    vanished(second.shadows, records, EntityKind::Section),
                    now,
                );
            }
        }
    }
}

/// An exchange keeps it so that an item stands only in a section that is shown, and an attachment
/// hangs only on an item that is shown.
pub proof fn lemma_exchange_keeps_places(
    state: ReplicaView,
    peer: Seq<char>,
    payload: PayloadView,
    sizes: Seq<usize>,
    now: WholeNumber,
)
    requires
        places_shown(state),
    ensures
        exchanged(state, peer, payload, sizes, now) matches Ok((after, answer)) ==> places_shown(
            after,
        ),
{
    lemma_received_rows(state, payload.operations, now.value);
    if let Ok((taken, touched)) = received(state, payload.operations, now.value) {
        assert(places_shown(taken));
        lemma_sections_places(taken, ordered(touched.sections), now);
        lemma_items_places_shown(
            sections_shown(taken, ordered(touched.sections), now),
            ordered(touched.items),
            now,
        );
        let shown = touched_shown(taken, touched, now);
        if let Ok((after, answer)) = exchanged(state, peer, payload, sizes, now) {
            assert(after.items == shown.items && after.sections == shown.sections
                && after.attachments == shown.attachments);
        }
    }
}

proof fn lemma_received_rows(state: ReplicaView, operations: Seq<OperationView>, now: i64)
    ensures
        received(state, operations, now) matches Ok((after, touched)) ==> after.items == state.items
            && after.sections == state.sections && after.attachments == state.attachments,
    decreases operations.len(),
{
    if operations.len() > 0 {
        lemma_received_rows(state, operations.drop_last(), now);
    }
}

proof fn lemma_sections_places(state: ReplicaView, ids: Seq<Seq<char>>, now: WholeNumber)
    requires
        places_shown(state),
    ensures
        places_shown(sections_shown(state, ids, now)),
    decreases ids.len(),
{
    if ids.len() > 0 {
        lemma_sections_places(state, ids.drop_last(), now);
        lemma_places_shown(
            sections_shown(state, ids.drop_last(), now),
            ids.last(),
            state.entities[(EntityKind::Section, ids.last())],
            now,
        );
    }
}

} // verus!
