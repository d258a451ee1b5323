//! The scheduler as a value: the sorter, the logical clock and the
//! conformance period of every registered flow, and how an instant
//! changes them.

use vstd::prelude::*;
use crate::sorter::{
    Slot, ascending, distinct, due_of, lemma_due_of_is, lemma_schedule_entries,
    lemma_schedule_keeps_order, lemma_without_front_entries, lemma_without_front_keeps_order,
    not_before, populated, schedule, scheduled, scheduled_at, without_front,
};

verus! {

/// The scheduler as a value: clock, sorter and the period of every flow.
#[verifier::reject_recursive_types(I)]
pub struct Calendar<I> {
    pub clock: nat,
    pub slots: Seq<Slot<I>>,
    pub periods: Map<I, nat>,
}

impl<I> Calendar<I> {
    /// The scheduler before any flow is registered.
    pub open spec fn empty() -> Self {
        Calendar { clock: 0, slots: Seq::empty(), periods: Map::empty() }
    }

    /// What always holds of a scheduler: the slots ascend strictly, none is
    /// empty and none is due in the past; the flows in the sorter are the
    /// registered ones, each of them once; every period is positive.
    pub open spec fn wf(self) -> bool {
        &&& ascending(self.slots)
        &&& populated(self.slots)
        &&& distinct(self.slots)
        &&& not_before(self.slots, self.clock)
        &&& forall|id: I| #[trigger] self.periods.contains_key(id) <==> scheduled(self.slots, id)
        &&& forall|id: I| #[trigger] self.periods.contains_key(id) ==> self.periods[id] >= 1
    }

    /// The scheduler after the flow `id` has been registered with `period`:
    /// its first turn is due at the current tick, behind those already due.
    pub open spec fn register(self, id: I, period: nat) -> Self {
        Calendar {
            clock: self.clock,
            slots: schedule(self.slots, id, self.clock),
            periods: self.periods.insert(id, period),
        }
    }

    /// The flow whose turn it is at this instant, if a slot is due.
    pub open spec fn serving(self) -> Option<I> {
        if self.slots.len() > 0 && self.slots.first().due <= self.clock {
            Some(self.slots.first().flows.first())
        } else {
            None
        }
    }

    /// The scheduler one logical instant later. With nothing scheduled it
    /// stays as it is. With nothing due the clock moves on alone. Else the
    /// flow at the front takes its turn and is scheduled again one period
    /// after the current tick, and the clock moves on when that flow was the
    /// last one due.
    pub open spec fn tick(self) -> Self {
        match self.serving() {
            Some(id) => Calendar {
                clock: if self.slots.first().flows.len() > 1 {
                    self.clock
                } else {
                    self.clock + 1
                },
                slots: schedule(without_front(self.slots), id, self.clock + self.periods[id]),
                periods: self.periods,
            },
            None => if self.slots.len() == 0 {
                self
            } else {
                Calendar { clock: self.clock + 1, slots: self.slots, periods: self.periods }
            },
        }
    }

    /// The scheduler `n` logical instants later.
    pub open spec fn tick_n(self, n: nat) -> Self
        decreases n,
    {
        if n == 0 {
            self
        } else {
            self.tick().tick_n((n - 1) as nat)
        }
    }

    /// The largest tick that the next instant writes down: the clock's new
    /// value, or the tick at which the served flow is due again.
    pub open spec fn reach(self) -> nat {
        match self.serving() {
            Some(id) => self.clock + self.periods[id],
            None => if self.slots.len() == 0 {
                self.clock
            } else {
                self.clock + 1
            },
        }
    }

    /// The tick of the last slot, or the clock where nothing is scheduled.
    pub open spec fn horizon(self) -> nat {
        if self.slots.len() == 0 {
            self.clock
        } else {
            self.slots.last().due
        }
    }

    /// The number of ticks from the clock to the last slot: one full cycle
    /// through all that is scheduled.
    pub open spec fn span(self) -> nat {
        (self.horizon() - self.clock) as nat
    }

    /// One full cycle from here writes down no tick beyond `most`: none of
    /// its instants does, and their number stays below `most` too.
    pub open spec fn cycle_within(self, most: nat) -> bool {
        &&& self.span() < most
        &&& forall|n: nat| n <= self.span() ==> (#[trigger] self.tick_n(n)).reach() <= most
    }

    /// The last slot is due before `most`, and a flow that is served as late
    /// as that is due again by `most`.
    pub open spec fn horizon_within(self, most: nat) -> bool {
        &&& self.horizon() < most
        &&& forall|id: I| #[trigger]
            self.periods.contains_key(id) ==> self.horizon() + self.periods[id] <= most
    }

    /// `n` instants and one more are `n + 1` instants.
    pub proof fn lemma_tick_n_then_tick(self, n: nat)
        ensures
            self.tick_n(n).tick() == self.tick_n(n + 1),
        decreases n,
    {
        assert(self.tick_n(n + 1) == self.tick().tick_n(n));
        if n > 0 {
            self.tick().lemma_tick_n_then_tick((n - 1) as nat);
        } else {
            assert(self.tick().tick_n(0) == self.tick());
        }
    }

    /// Any number of instants keeps the scheduler consistent and its flows
    /// and their periods as they are, and moves the clock forward by no more
    /// than their number.
    pub proof fn lemma_tick_n_wf(self, n: nat)
        requires
            self.wf(),
        ensures
            self.tick_n(n).wf(),
            self.tick_n(n).periods == self.periods,
            self.clock <= self.tick_n(n).clock <= self.clock + n,
        decreases n,
    {
        if n > 0 {
            self.lemma_tick_wf();
            self.tick().lemma_tick_n_wf((n - 1) as nat);
        }
    }

    /// Where anything is scheduled, the flow at the front is registered.
    pub proof fn lemma_front_is_registered(self)
        requires
            self.wf(),
            self.slots.len() > 0,
        ensures
            self.periods.contains_key(self.slots.first().flows.first()),
    {
        assert(self.slots[0].flows.len() > 0);
        assert(scheduled_at(self.slots, self.slots[0].flows[0], self.slots[0].due));
        assert(scheduled(self.slots, self.slots[0].flows[0]));
    }

    /// The flow whose turn it is stands at the front, is registered, and is
    /// due at exactly the current tick.
    pub proof fn lemma_serving_is_due(self)
        requires
            self.wf(),
            self.serving() is Some,
        ensures
            self.slots.first().due == self.clock,
            scheduled_at(self.slots, self.serving().unwrap(), self.clock),
            self.periods.contains_key(self.serving().unwrap()),
    {
        let id = self.serving().unwrap();
        assert(self.slots[0].due >= self.clock);
        assert(self.slots[0].flows.len() > 0);
        assert(self.slots[0].flows[0] == id);
        assert(scheduled_at(self.slots, id, self.clock));
        assert(scheduled(self.slots, id));
    }

    /// Registering a new flow with a positive period keeps the scheduler
    /// consistent.
    pub proof fn lemma_register_wf(self, id: I, period: nat)
        requires
            self.wf(),
            !self.periods.contains_key(id),
            period >= 1,
        ensures
            self.register(id, period).wf(),
    {
        let after = self.register(id, period);
        lemma_schedule_entries(self.slots, id, self.clock);
        lemma_schedule_keeps_order(self.slots, id, self.clock);
        assert(!scheduled(self.slots, id));
        assert(not_before(after.slots, self.clock));
        assert forall|x: I| #[trigger] after.periods.contains_key(x) <==> scheduled(
            after.slots,
            x,
        ) by {
            if x == id {
                assert(scheduled_at(after.slots, id, self.clock));
            } else if self.periods.contains_key(x) {
                let due = choose|due: nat| scheduled_at(self.slots, x, due);
                assert(scheduled_at(after.slots, x, due));
            } else if scheduled(after.slots, x) {
                let due = choose|due: nat| scheduled_at(after.slots, x, due);
                assert(scheduled_at(self.slots, x, due));
                assert(scheduled(self.slots, x));
            }
        }
    }

    /// A bound on the horizon and the periods bounds one full cycle: within
    /// it the clock does not pass the horizon, so no flow is scheduled again
    /// later than one period behind the horizon.
    pub proof fn lemma_horizon_bounds_cycle(self, most: nat)
        requires
            self.wf(),
            self.horizon_within(most),
        ensures
            self.cycle_within(most),
    {
        if self.slots.len() > 0 {
            assert(self.slots[self.slots.len() - 1].due >= self.clock);
        }
        assert forall|n: nat| n <= self.span() implies (#[trigger] self.tick_n(n)).reach()
            <= most by {
            let later = self.tick_n(n);
            self.lemma_tick_n_wf(n);
            if later.serving() is Some {
                later.lemma_serving_is_due();
            } else if later.slots.len() > 0 {
                later.lemma_front_is_registered();
            }
        }
    }

    /// One instant moves only the flow that is served: it is due again one
    /// period after the current tick, and every other flow stays where it
    /// is. The registered flows and their periods stay as they are.
    pub proof fn lemma_tick_entries(self)
        requires
            self.wf(),
        ensures
            self.tick().periods == self.periods,
            self.serving() is None ==> self.tick().slots == self.slots,
            self.serving() matches Some(id) ==> forall|x: I, due: nat| #[trigger]
                scheduled_at(self.tick().slots, x, due) <==> if x == id {
                    due == self.clock + self.periods[id]
                } else {
                    scheduled_at(self.slots, x, due)
                },
    {
        if let Some(id) = self.serving() {
            let rest = without_front(self.slots);
            lemma_without_front_entries(self.slots);
            lemma_schedule_entries(rest, id, self.clock + self.periods[id]);
        }
    }

    /// One instant moves the due tick of the served flow, which was the
    /// current tick, on by that flow's period, and no other due tick.
    pub proof fn lemma_tick_due(self, id: I)
        requires
            self.wf(),
            self.periods.contains_key(id),
        ensures
            scheduled_at(self.slots, id, due_of(self.slots, id)),
            scheduled_at(self.tick().slots, id, due_of(self.tick().slots, id)),
            due_of(self.slots, id) >= self.clock,
            self.serving() == Some(id) ==> due_of(self.slots, id) == self.clock && due_of(
                self.tick().slots,
                id,
            ) == self.clock + self.periods[id],
            self.serving() != Some(id) ==> due_of(self.tick().slots, id) == due_of(self.slots, id),
    {
        let due = due_of(self.slots, id);
        assert(scheduled(self.slots, id));
        assert(due >= self.clock) by {
            let (i, j) = choose|i: int, j: int|
                0 <= i < self.slots.len() && 0 <= j < self.slots[i].flows.len()
                    && self.slots[i].due == due && #[trigger] self.slots[i].flows[j] == id;
            assert(self.slots[i].due >= self.clock);
        }
        self.lemma_tick_entries();
        if self.serving() is Some {
            self.lemma_serving_is_due();
            let served = self.serving().unwrap();
            let after = self.tick().slots;
            assert(distinct(after)) by {
                lemma_without_front_keeps_order(self.slots);
                lemma_without_front_entries(self.slots);
                let rest = without_front(self.slots);
                if scheduled(rest, served) {
                    let at = choose|at: nat| scheduled_at(rest, served, at);
                    assert(scheduled_at(self.slots, served, at) && served != served);
                }
                lemma_schedule_keeps_order(rest, served, self.clock + self.periods[served]);
            }
            if served == id {
                lemma_due_of_is(self.slots, id, self.clock);
                assert(scheduled_at(after, id, self.clock + self.periods[id]));
                lemma_due_of_is(after, id, self.clock + self.periods[id]);
            } else {
                assert(scheduled_at(after, id, due));
                lemma_due_of_is(after, id, due);
            }
        }
    }

    /// One instant keeps the scheduler consistent.
    pub proof fn lemma_tick_wf(self)
        requires
            self.wf(),
        ensures
            self.tick().wf(),
    {
        let after = self.tick();
        if let Some(id) = self.serving() {
            let rest = without_front(self.slots);
            let due = self.clock + self.periods[id];
            self.lemma_serving_is_due();
            self.lemma_tick_entries();
            lemma_without_front_entries(self.slots);
            lemma_without_front_keeps_order(self.slots);
            assert(!scheduled(rest, id)) by {
                if scheduled(rest, id) {
                    let at = choose|at: nat| scheduled_at(rest, id, at);
                    assert(scheduled_at(self.slots, id, at) && id != id);
                }
            }
            lemma_schedule_keeps_order(rest, id, due);
            assert(not_before(rest, after.clock));
            assert(not_before(after.slots, after.clock));
            assert forall|x: I| #[trigger] after.periods.contains_key(x) <==> scheduled(
                after.slots,
                x,
            ) by {
                if x == id {
                    assert(scheduled_at(after.slots, id, due));
                } else if self.periods.contains_key(x) {
                    let at = choose|at: nat| scheduled_at(self.slots, x, at);
                    assert(scheduled_at(after.slots, x, at));
                } else if scheduled(after.slots, x) {
                    let at = choose|at: nat| scheduled_at(after.slots, x, at);
                    assert(scheduled_at(self.slots, x, at));
                    assert(scheduled(self.slots, x));
                }
            }
        } else if self.slots.len() > 0 {
            assert forall|i: int| 0 <= i < self.slots.len() implies (#[trigger] self.slots[i]).due
                >= self.clock + 1 by {
                assert(i > 0 ==> self.slots[0].due < self.slots[i].due);
            }
        }
    }
}

} // verus!
