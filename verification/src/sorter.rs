//! The sorter as a value: an ascending list of time slots, each with the
//! flows that are due at its tick, and what scheduling does to it.

use vstd::prelude::*;

verus! {

/// One time slot of the sorter: the flows due at one tick, in arrival order.
pub struct Slot<I> {
    pub due: nat,
    pub flows: Seq<I>,
}

/// The number of leading slots that are due before `tick`: the place in the
/// sorter where a flow due at `tick` belongs.
pub open spec fn position<I>(slots: Seq<Slot<I>>, tick: nat) -> nat
    decreases slots.len(),
{
    if slots.len() == 0 || slots.first().due >= tick {
        0
    } else {
        1 + position(slots.drop_first(), tick)
    }
}

/// `position` is the one index with only earlier slots before it and a slot
/// at it, if any, that is not earlier.
pub proof fn lemma_position_is<I>(slots: Seq<Slot<I>>, tick: nat, at: int)
    requires
        0 <= at <= slots.len(),
        forall|i: int| 0 <= i < at ==> (#[trigger] slots[i]).due < tick,
        at < slots.len() ==> slots[at].due >= tick,
    ensures
        position(slots, tick) == at,
    decreases at,
{
    if at > 0 {
        let rest = slots.drop_first();
        assert(slots[0].due < tick);
        assert forall|i: int| 0 <= i < at - 1 implies (#[trigger] rest[i]).due < tick by {
            assert(rest[i] == slots[i + 1]);
        }
        lemma_position_is(rest, tick, at - 1);
    }
}

/// `position` lies within the sorter, behind every slot that is due before
/// `tick` and at a slot that is not.
pub proof fn lemma_position_bounds<I>(slots: Seq<Slot<I>>, tick: nat)
    ensures
        position(slots, tick) <= slots.len(),
        forall|i: int| 0 <= i < position(slots, tick) ==> (#[trigger] slots[i]).due < tick,
        position(slots, tick) < slots.len() ==> slots[position(slots, tick) as int].due >= tick,
    decreases slots.len(),
{
    if slots.len() == 0 || slots.first().due >= tick {
    } else {
        let rest = slots.drop_first();
        lemma_position_bounds(rest, tick);
        assert forall|i: int| 0 <= i < position(slots, tick) implies (#[trigger] slots[i]).due
            < tick by {
            if i > 0 {
                assert(rest[i - 1] == slots[i]);
            }
        }
        if position(slots, tick) < slots.len() {
            assert(rest[position(rest, tick) as int] == slots[position(slots, tick) as int]);
        }
    }
}

/// The sorter after `id` has been placed at `tick`: appended to the slot of
/// that tick where there is one, else alone in a new slot at its place.
pub open spec fn schedule<I>(slots: Seq<Slot<I>>, id: I, tick: nat) -> Seq<Slot<I>> {
    let at = position(slots, tick) as int;
    if at < slots.len() && slots[at].due == tick {
        slots.update(at, Slot { due: tick, flows: slots[at].flows.push(id) })
    } else {
        slots.insert(at, Slot { due: tick, flows: seq![id] })
    }
}

/// The sorter after the flow at its very front has left: the first slot
/// loses its first flow, and goes itself when that was its last.
pub open spec fn without_front<I>(slots: Seq<Slot<I>>) -> Seq<Slot<I>>
    recommends
        slots.len() > 0,
{
    if slots.first().flows.len() > 1 {
        slots.update(0, Slot { due: slots.first().due, flows: slots.first().flows.drop_first() })
    } else {
        slots.drop_first()
    }
}

/// `id` stands in the slot that is due at `due`.
pub open spec fn scheduled_at<I>(slots: Seq<Slot<I>>, id: I, due: nat) -> bool {
    exists|i: int, j: int|
        0 <= i < slots.len() && 0 <= j < slots[i].flows.len() && slots[i].due == due
            && #[trigger] slots[i].flows[j] == id
}

/// `id` stands in some slot.
pub open spec fn scheduled<I>(slots: Seq<Slot<I>>, id: I) -> bool {
    exists|due: nat| scheduled_at(slots, id, due)
}

/// The tick at which `id` is due, for a flow that stands in the sorter.
pub open spec fn due_of<I>(slots: Seq<Slot<I>>, id: I) -> nat {
    choose|due: nat| scheduled_at(slots, id, due)
}

/// `a` and `b` share a slot, and `a` came into it first.
pub open spec fn precedes<I>(slots: Seq<Slot<I>>, a: I, b: I) -> bool {
    exists|i: int, j: int, k: int|
        0 <= i < slots.len() && 0 <= j < k < slots[i].flows.len() && #[trigger] slots[i].flows[j]
            == a && #[trigger] slots[i].flows[k] == b
}

/// The slots come in strictly ascending order of their due ticks.
pub open spec fn ascending<I>(slots: Seq<Slot<I>>) -> bool {
    forall|i: int, j: int| 0 <= i < j < slots.len() ==> slots[i].due < slots[j].due
}

/// No slot is empty.
pub open spec fn populated<I>(slots: Seq<Slot<I>>) -> bool {
    forall|i: int| 0 <= i < slots.len() ==> (#[trigger] slots[i]).flows.len() > 0
}

/// No flow stands in the sorter twice.
pub open spec fn distinct<I>(slots: Seq<Slot<I>>) -> bool {
    forall|i: int, j: int, k: int, l: int|
        0 <= i < slots.len() && 0 <= j < slots[i].flows.len() && 0 <= k < slots.len() && 0 <= l
            < slots[k].flows.len() && #[trigger] slots[i].flows[j] == #[trigger] slots[k].flows[l]
            ==> i == k && j == l
}

/// Every slot is due at `tick` or later.
pub open spec fn not_before<I>(slots: Seq<Slot<I>>, tick: nat) -> bool {
    forall|i: int| 0 <= i < slots.len() ==> (#[trigger] slots[i]).due >= tick
}

/// A flow that stands in a sorter once stands at one tick only.
pub proof fn lemma_one_due<I>(slots: Seq<Slot<I>>, id: I, first: nat, second: nat)
    requires
        distinct(slots),
        scheduled_at(slots, id, first),
        scheduled_at(slots, id, second),
    ensures
        first == second,
{
}

/// In a sorter that holds no flow twice, `due_of` is the one tick at which
/// a flow stands.
pub proof fn lemma_due_of_is<I>(slots: Seq<Slot<I>>, id: I, due: nat)
    requires
        distinct(slots),
        scheduled_at(slots, id, due),
    ensures
        due_of(slots, id) == due,
{
    lemma_one_due(slots, id, due, due_of(slots, id));
}

/// Scheduling adds one entry, `id` at `tick`, and keeps all others where
/// they stand and in their order.
pub proof fn lemma_schedule_entries<I>(slots: Seq<Slot<I>>, id: I, tick: nat)
    ensures
        forall|x: I, due: nat| #[trigger]
            scheduled_at(schedule(slots, id, tick), x, due) <==> scheduled_at(slots, x, due) || (x
                == id && due == tick),
        forall|a: I, b: I| precedes(slots, a, b) ==> #[trigger] precedes(
            schedule(slots, id, tick),
            a,
            b,
        ),
{
    let after = schedule(slots, id, tick);
    let at = position(slots, tick) as int;
    lemma_position_bounds(slots, tick);
    let joins = at < slots.len() && slots[at].due == tick;
    assert(scheduled_at(after, id, tick)) by {
        let j = after[at].flows.len() - 1;
        assert(after[at].flows[j] == id);
    }
    assert forall|x: I, due: nat| scheduled_at(slots, x, due) implies #[trigger] scheduled_at(
        after,
        x,
        due,
    ) by {
        let (i, j) = choose|i: int, j: int|
            0 <= i < slots.len() && 0 <= j < slots[i].flows.len() && slots[i].due == due
                && #[trigger] slots[i].flows[j] == x;
        let to = if joins || i < at {
            i
        } else {
            i + 1
        };
        assert(after[to].flows[j] == x);
    }
    assert forall|x: I, due: nat| #[trigger]
        scheduled_at(after, x, due) && !(x == id && due == tick) implies scheduled_at(
        slots,
        x,
        due,
    ) by {
        let (i, j) = choose|i: int, j: int|
            0 <= i < after.len() && 0 <= j < after[i].flows.len() && after[i].due == due
                && #[trigger] after[i].flows[j] == x;
        let from = if joins || i < at {
            i
        } else {
            i - 1
        };
        assert(slots[from].flows[j] == x);
    }
    assert forall|a: I, b: I| precedes(slots, a, b) implies #[trigger] precedes(after, a, b) by {
        let (i, j, k) = choose|i: int, j: int, k: int|
            0 <= i < slots.len() && 0 <= j < k < slots[i].flows.len()
                && #[trigger] slots[i].flows[j] == a && #[trigger] slots[i].flows[k] == b;
        let to = if joins || i < at {
            i
        } else {
            i + 1
        };
        assert(after[to].flows[j] == a && after[to].flows[k] == b);
    }
}

/// A flow that is scheduled at a tick comes behind all that are due then.
pub proof fn lemma_schedule_joins_behind<I>(slots: Seq<Slot<I>>, id: I, tick: nat)
    requires
        ascending(slots),
    ensures
        forall|a: I| scheduled_at(slots, a, tick) ==> #[trigger] precedes(
            schedule(slots, id, tick),
            a,
            id,
        ),
{
    let after = schedule(slots, id, tick);
    let at = position(slots, tick) as int;
    lemma_position_bounds(slots, tick);
    assert forall|a: I| scheduled_at(slots, a, tick) implies #[trigger] precedes(after, a, id) by {
        let (i, j) = choose|i: int, j: int|
            0 <= i < slots.len() && 0 <= j < slots[i].flows.len() && slots[i].due == tick
                && #[trigger] slots[i].flows[j] == a;
        assert(i == at) by {
            if i < at {
                assert(slots[i].due < tick);
            }
            if i > at {
                assert(slots[at].due >= tick);
            }
        }
        let k = after[at].flows.len() - 1;
        assert(after[at].flows[j] == a && after[at].flows[k] == id);
    }
}


/// Scheduling at a tick behind the first slot leaves that slot as it is.
pub proof fn lemma_schedule_behind_front<I>(slots: Seq<Slot<I>>, id: I, tick: nat)
    requires
        slots.len() > 0,
        slots.first().due < tick,
    ensures
        schedule(slots, id, tick).len() > 0,
        schedule(slots, id, tick).first() == slots.first(),
{
    lemma_position_bounds(slots, tick);
    assert(position(slots, tick) == 1 + position(slots.drop_first(), tick));
}

/// Scheduling keeps the sorter in order: the slots still ascend and none is
/// empty, and no flow stands twice where `id` did not stand before.
pub proof fn lemma_schedule_keeps_order<I>(slots: Seq<Slot<I>>, id: I, tick: nat)
    requires
        ascending(slots),
        populated(slots),
    ensures
        ascending(schedule(slots, id, tick)),
        populated(schedule(slots, id, tick)),
        distinct(slots) && !scheduled(slots, id) ==> distinct(schedule(slots, id, tick)),
        forall|from: nat| not_before(slots, from) && tick >= from ==> #[trigger] not_before(
            schedule(slots, id, tick),
            from,
        ),
{
    let after = schedule(slots, id, tick);
    let at = position(slots, tick) as int;
    lemma_position_bounds(slots, tick);
    let joins = at < slots.len() && slots[at].due == tick;
    assert forall|i: int| 0 <= i < after.len() implies (#[trigger] after[i]).due == (if joins {
        slots[i].due
    } else if i < at {
        slots[i].due
    } else if i == at {
        tick
    } else {
        slots[i - 1].due
    }) by {}
    assert(ascending(after)) by {
        assert forall|i: int, j: int| 0 <= i < j < after.len() implies after[i].due
            < after[j].due by {
            if !joins {
                if i < at && j > at {
                    assert(slots[i].due < tick);
                    assert(slots[at].due > tick);
                    assert(j - 1 > at ==> slots[at].due < slots[j - 1].due);
                }
                if i == at {
                    assert(slots[at].due > tick);
                    assert(j - 1 > at ==> slots[at].due < slots[j - 1].due);
                }
            }
        }
    }
    assert(populated(after)) by {
        assert forall|i: int| 0 <= i < after.len() implies (#[trigger] after[i]).flows.len()
            > 0 by {
            if !joins && i != at {
                let from = if i < at {
                    i
                } else {
                    i - 1
                };
                assert(after[i] == slots[from]);
            } else if joins && i != at {
                assert(after[i] == slots[i]);
            }
        }
    }
    if distinct(slots) && !scheduled(slots, id) {
        assert forall|i: int, j: int, k: int, l: int|
            0 <= i < after.len() && 0 <= j < after[i].flows.len() && 0 <= k < after.len() && 0
                <= l < after[k].flows.len() && #[trigger] after[i].flows[j]
                == #[trigger] after[k].flows[l] implies i == k && j == l by {
            let fresh_i = i == at && (!joins || j == slots[at].flows.len());
            let fresh_k = k == at && (!joins || l == slots[at].flows.len());
            let from_i = if joins || i < at {
                i
            } else {
                i - 1
            };
            let from_k = if joins || k < at {
                k
            } else {
                k - 1
            };
            if !fresh_i {
                assert(slots[from_i].flows[j] == after[i].flows[j]);
                assert(scheduled_at(slots, after[i].flows[j], slots[from_i].due));
            }
            if !fresh_k {
                assert(slots[from_k].flows[l] == after[k].flows[l]);
                assert(scheduled_at(slots, after[k].flows[l], slots[from_k].due));
            }
            if fresh_i {
                assert(after[i].flows[j] == id);
            }
            if fresh_k {
                assert(after[k].flows[l] == id);
            }
        }
    }
    assert forall|from: nat| not_before(slots, from) && tick >= from implies #[trigger] not_before(
        after,
        from,
    ) by {
        assert forall|i: int| 0 <= i < after.len() implies (#[trigger] after[i]).due >= from by {
            if joins {
                assert(slots[i].due >= from);
            } else if i < at {
                assert(slots[i].due >= from);
            } else if i > at {
                assert(slots[i - 1].due >= from);
            }
        }
    }
}

/// Taking the front flow out removes that one entry and leaves the others
/// where they stand, in their order.
pub proof fn lemma_without_front_entries<I>(slots: Seq<Slot<I>>)
    requires
        slots.len() > 0,
        populated(slots),
        distinct(slots),
    ensures
        forall|x: I, due: nat| #[trigger]
            scheduled_at(without_front(slots), x, due) <==> scheduled_at(slots, x, due) && x
                != slots.first().flows.first(),
        forall|a: I, b: I|
            precedes(slots, a, b) && a != slots.first().flows.first() ==> #[trigger] precedes(
                without_front(slots),
                a,
                b,
            ),
{
    let after = without_front(slots);
    let front = slots.first().flows.first();
    let shrinks = slots.first().flows.len() > 1;
    assert(slots[0].flows.len() > 0);
    assert(slots[0].flows[0] == front);
    assert forall|x: I, due: nat|
        scheduled_at(slots, x, due) && x != front implies #[trigger] scheduled_at(
        after,
        x,
        due,
    ) by {
        let (i, j) = choose|i: int, j: int|
            0 <= i < slots.len() && 0 <= j < slots[i].flows.len() && slots[i].due == due
                && #[trigger] slots[i].flows[j] == x;
        if shrinks {
            if i == 0 {
                assert(after[0].flows[j - 1] == x);
            } else {
                assert(after[i].flows[j] == x);
            }
        } else {
            assert(after[i - 1].flows[j] == x);
        }
    }
    assert forall|x: I, due: nat| #[trigger] scheduled_at(after, x, due) implies scheduled_at(
        slots,
        x,
        due,
    ) && x != front by {
        let (i, j) = choose|i: int, j: int|
            0 <= i < after.len() && 0 <= j < after[i].flows.len() && after[i].due == due
                && #[trigger] after[i].flows[j] == x;
        if shrinks {
            if i == 0 {
                assert(slots[0].flows[j + 1] == x);
            } else {
                assert(slots[i].flows[j] == x);
            }
        } else {
            assert(slots[i + 1].flows[j] == x);
        }
    }
    assert forall|a: I, b: I| precedes(slots, a, b) && a != front implies #[trigger] precedes(
        after,
        a,
        b,
    ) by {
        let (i, j, k) = choose|i: int, j: int, k: int|
            0 <= i < slots.len() && 0 <= j < k < slots[i].flows.len()
                && #[trigger] slots[i].flows[j] == a && #[trigger] slots[i].flows[k] == b;
        if shrinks {
            if i == 0 {
                assert(after[0].flows[j - 1] == a && after[0].flows[k - 1] == b);
            } else {
                assert(after[i].flows[j] == a && after[i].flows[k] == b);
            }
        } else {
            assert(after[i - 1].flows[j] == a && after[i - 1].flows[k] == b);
        }
    }
}

/// Taking the front flow out keeps the sorter in order, and where the front
/// slot goes with it, all that is left is due later than that slot was.
pub proof fn lemma_without_front_keeps_order<I>(slots: Seq<Slot<I>>)
    requires
        slots.len() > 0,
        ascending(slots),
        populated(slots),
        distinct(slots),
    ensures
        ascending(without_front(slots)),
        populated(without_front(slots)),
        distinct(without_front(slots)),
        forall|from: nat| not_before(slots, from) ==> #[trigger] not_before(
            without_front(slots),
            from,
        ),
        slots.first().flows.len() == 1 ==> not_before(
            without_front(slots),
            slots.first().due + 1,
        ),
{
    let after = without_front(slots);
    let shrinks = slots.first().flows.len() > 1;
    assert(slots[0].flows.len() > 0);
    assert forall|i: int| 0 <= i < after.len() implies (#[trigger] after[i]).due == (if shrinks {
        slots[i].due
    } else {
        slots[i + 1].due
    }) by {}
    assert forall|i: int| 0 <= i < after.len() implies (#[trigger] after[i]).flows.len() > 0 by {
        if shrinks {
            if i > 0 {
                assert(after[i] == slots[i]);
            }
        } else {
            assert(after[i] == slots[i + 1]);
        }
    }
    assert forall|i: int, j: int, k: int, l: int|
        0 <= i < after.len() && 0 <= j < after[i].flows.len() && 0 <= k < after.len() && 0 <= l
            < after[k].flows.len() && #[trigger] after[i].flows[j]
            == #[trigger] after[k].flows[l] implies i == k && j == l by {
        if shrinks {
            let from_j = if i == 0 {
                j + 1
            } else {
                j
            };
            let from_l = if k == 0 {
                l + 1
            } else {
                l
            };
            assert(slots[i].flows[from_j] == after[i].flows[j]);
            assert(slots[k].flows[from_l] == after[k].flows[l]);
        } else {
            assert(slots[i + 1].flows[j] == after[i].flows[j]);
            assert(slots[k + 1].flows[l] == after[k].flows[l]);
        }
    }
    assert forall|from: nat| not_before(slots, from) implies #[trigger] not_before(
        after,
        from,
    ) by {
        assert forall|i: int| 0 <= i < after.len() implies (#[trigger] after[i]).due >= from by {
            if shrinks {
                assert(slots[i].due >= from);
            } else {
                assert(slots[i + 1].due >= from);
            }
        }
    }
    if !shrinks {
        assert forall|i: int| 0 <= i < after.len() implies (#[trigger] after[i]).due
            >= slots.first().due + 1 by {
            assert(slots[0].due < slots[i + 1].due);
        }
    }
}

} // verus!
