//! Laws of the scheduler, stated over its model and proved for every
//! consistent scheduler.

use vstd::prelude::*;
use crate::calendar::Calendar;
use crate::sorter::{
    due_of, lemma_due_of_is, lemma_schedule_behind_front, lemma_schedule_entries,
    lemma_without_front_entries, precedes, without_front,
};

verus! {

/// The due tick of a registered flow never moves back, however many
/// instants pass.
pub proof fn lemma_due_moves_forward<I>(calendar: Calendar<I>, id: I, n: nat)
    requires
        calendar.wf(),
        calendar.periods.contains_key(id),
    ensures
        due_of(calendar.tick_n(n).slots, id) >= due_of(calendar.slots, id),
    decreases n,
{
    if n > 0 {
        calendar.lemma_tick_due(id);
        calendar.lemma_tick_wf();
        calendar.lemma_tick_entries();
        lemma_due_moves_forward(calendar.tick(), id, (n - 1) as nat);
    }
}

/// Period respect: a flow that has its turn at tick `t` has no further turn
/// before tick `t` plus its period, whatever happens in between.
pub proof fn lemma_period_respected<I>(calendar: Calendar<I>, id: I, n: nat)
    requires
        calendar.wf(),
        calendar.serving() == Some(id),
        n >= 1,
        calendar.tick_n(n).serving() == Some(id),
    ensures
        calendar.tick_n(n).clock >= calendar.clock + calendar.periods[id],
{
    let next = calendar.tick();
    let later = calendar.tick_n(n);
    assert(later == next.tick_n((n - 1) as nat));
    calendar.lemma_serving_is_due();
    calendar.lemma_tick_wf();
    calendar.lemma_tick_entries();
    calendar.lemma_tick_due(id);
    lemma_due_moves_forward(next, id, (n - 1) as nat);
    next.lemma_tick_n_wf((n - 1) as nat);
    later.lemma_serving_is_due();
    lemma_due_of_is(later.slots, id, later.clock);
}

/// A flow that stands behind another in one slot does not have its turn
/// at this instant, and still stands behind it one instant later unless the
/// other had its turn.
pub proof fn lemma_tick_keeps_order<I>(calendar: Calendar<I>, a: I, b: I)
    requires
        calendar.wf(),
        precedes(calendar.slots, a, b),
    ensures
        calendar.serving() != Some(b),
        calendar.serving() != Some(a) ==> precedes(calendar.tick().slots, a, b),
{
    let slots = calendar.slots;
    let (i, j, k) = choose|i: int, j: int, k: int|
        0 <= i < slots.len() && 0 <= j < k < slots[i].flows.len() && #[trigger] slots[i].flows[j]
            == a && #[trigger] slots[i].flows[k] == b;
    assert(slots[0].flows.len() > 0);
    if calendar.serving() == Some(b) {
        assert(slots[0].flows[0] == slots[i].flows[k]);
    }
    if let Some(served) = calendar.serving() {
        if served != a {
            lemma_without_front_entries(slots);
            lemma_schedule_entries(
                without_front(slots),
                served,
                calendar.clock + calendar.periods[served],
            );
        }
    }
}

/// Collision fairness: of two flows that share a slot, the one that came
/// into it first has its turn first.
pub proof fn lemma_served_in_order<I>(calendar: Calendar<I>, a: I, b: I, n: nat)
    requires
        calendar.wf(),
        precedes(calendar.slots, a, b),
        calendar.tick_n(n).serving() == Some(b),
    ensures
        exists|k: nat| k < n && (#[trigger] calendar.tick_n(k)).serving() == Some(a),
    decreases n,
{
    lemma_tick_keeps_order(calendar, a, b);
    if calendar.serving() == Some(a) {
        assert(calendar.tick_n(0).serving() == Some(a));
    } else {
        calendar.lemma_tick_wf();
        lemma_served_in_order(calendar.tick(), a, b, (n - 1) as nat);
        let k = choose|k: nat|
            k < n - 1 && (#[trigger] calendar.tick().tick_n(k)).serving() == Some(a);
        assert(calendar.tick_n(k + 1) == calendar.tick().tick_n(k));
        assert(calendar.tick_n(k + 1).serving() == Some(a));
    }
}

/// No starvation: every registered flow has its turn after finitely many
/// instants, and the clock then shows the tick at which the flow was due.
pub proof fn lemma_turn_comes<I>(calendar: Calendar<I>, id: I)
    requires
        calendar.wf(),
        calendar.periods.contains_key(id),
    ensures
        exists|n: nat|
            (#[trigger] calendar.tick_n(n)).serving() == Some(id) && calendar.tick_n(n).clock
                == due_of(calendar.slots, id),
    decreases
            due_of(calendar.slots, id) - calendar.clock,
            if calendar.serving() is Some {
                calendar.slots.first().flows.len()
            } else {
                0
            },
{
    let slots = calendar.slots;
    let due = due_of(slots, id);
    calendar.lemma_tick_due(id);
    if calendar.serving() == Some(id) {
        assert(calendar.tick_n(0).serving() == Some(id));
    } else {
        let next = calendar.tick();
        calendar.lemma_tick_wf();
        calendar.lemma_tick_entries();
        let (i, j) = choose|i: int, j: int|
            0 <= i < slots.len() && 0 <= j < slots[i].flows.len() && slots[i].due == due
                && #[trigger] slots[i].flows[j] == id;
        assert(slots[0].flows.len() > 0);
        if let Some(served) = calendar.serving() {
            calendar.lemma_serving_is_due();
            let rest = without_front(slots);
            if slots.first().flows.len() > 1 {
                lemma_schedule_behind_front(
                    rest,
                    served,
                    calendar.clock + calendar.periods[served],
                );
                assert(next.slots.first() == rest.first());
                assert(next.serving() is Some);
                assert(next.slots.first().flows.len() == slots.first().flows.len() - 1);
            } else {
                if i == 0 {
                    assert(slots[0].flows[0] == served);
                } else {
                    assert(slots[0].due < slots[i].due);
                }
                assert(due > calendar.clock);
            }
        } else {
            assert(i > 0 ==> slots[0].due < slots[i].due);
            assert(due > calendar.clock);
        }
        lemma_turn_comes(next, id);
        let n = choose|n: nat|
            (#[trigger] next.tick_n(n)).serving() == Some(id) && next.tick_n(n).clock == due_of(
                next.slots,
                id,
            );
        assert(calendar.tick_n(n + 1) == next.tick_n(n));
        assert(calendar.tick_n(n + 1).serving() == Some(id));
    }
}

} // verus!
