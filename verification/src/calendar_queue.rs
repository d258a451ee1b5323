//! The scheduler: flow table, sorter and logical clock.

use vstd::prelude::*;
use std::collections::{HashMap, VecDeque};
use std::hash::Hash;
use std::fmt::Debug;
use std::sync::mpsc::{Receiver, Sender};
use vstd::std_specs::hash::obeys_key_model;
use crate::{ClockTick, ConformanceTicks, Error};
use crate::channel::{clone_sender, open_channel, try_receive};
use crate::calendar::Calendar;
use crate::sorter::{Slot, lemma_position_is, position, schedule, without_front};

verus! {

broadcast use vstd::std_specs::hash::group_hash_axioms;

/// A fair scheduler over many flows. Each flow has a queue of its own, fed
/// through a `Sender`, and a conformance period; `tick` and `next` hand out
/// the queued items so that no flow has two turns within one period.
#[verifier::reject_recursive_types(I)]
#[verifier::reject_recursive_types(T)]
pub struct CalendarQueue<I, T> where I: Hash + Eq + Copy + Debug {
    sorter: VecDeque<(ClockTick, VecDeque<I>)>,
    flows: HashMap<I, Receiver<T>>,
    pub senders: HashMap<I, Sender<T>>,
    conformance_times: HashMap<I, ConformanceTicks>,
    clock: ClockTick,
}

/// What the sorter should do with a flow that is to be scheduled.
enum SorterAction {
    /// Put a new slot before the slot at this index.
    Insert(usize),
    /// Append the flow to the slot at this index.
    Modify(usize),
    /// Put a new slot behind all others.
    Append,
}

/// The slots that a sorter stands for.
pub open spec fn slots_of<I>(sorter: Seq<(ClockTick, VecDeque<I>)>) -> Seq<Slot<I>> {
    Seq::new(sorter.len(), |i: int| Slot { due: sorter[i].0 as nat, flows: sorter[i].1@ })
}

/// The periods that a table of conformance times stands for.
pub open spec fn periods_of<I>(times: Map<I, ConformanceTicks>) -> Map<I, nat> {
    times.map_values(|ticks: ConformanceTicks| ticks as nat)
}

impl<I, T> View for CalendarQueue<I, T> where I: Hash + Eq + Copy + Debug {
    type V = Calendar<I>;

    closed spec fn view(&self) -> Calendar<I> {
        Calendar {
            clock: self.clock as nat,
            slots: slots_of(self.sorter@),
            periods: periods_of(self.conformance_times@),
        }
    }
}

impl<I, T> CalendarQueue<I, T> where I: Hash + Eq + Copy + Debug {
    /// The consuming end of every flow's queue.
    pub closed spec fn receivers(&self) -> Map<I, Receiver<T>> {
        self.flows@
    }

    /// The producing ends that the scheduler has kept.
    pub closed spec fn producers(&self) -> Map<I, Sender<T>> {
        self.senders@
    }

    /// The scheduler is consistent: its model is, the registered flows are
    /// those that have a queue, and the identifiers behave as map keys.
    pub open spec fn wf(&self) -> bool {
        &&& obeys_key_model::<I>()
        &&& self@.wf()
        &&& self.receivers().dom() == self@.periods.dom()
    }

    /// An empty scheduler, its clock at 0.
    pub fn new() -> (queue: Self)
        requires
            obeys_key_model::<I>(),
        ensures
            queue.wf(),
            queue@ == Calendar::<I>::empty(),
            queue.receivers() == Map::<I, Receiver<T>>::empty(),
            queue.producers() == Map::<I, Sender<T>>::empty(),
    {
        let queue = CalendarQueue {
            sorter: VecDeque::new(),
            flows: HashMap::new(),
            conformance_times: HashMap::new(),
            senders: HashMap::new(),
            clock: 0,
        };
        proof {
            assert(queue@.slots =~= Seq::<Slot<I>>::empty());
            assert(queue@.periods =~= Map::<I, nat>::empty());
        }
        queue
    }

    /// Registers the flow `id` with a queue of its own and hands out the
    /// producing end. The flow's first turn is due at the current tick,
    /// behind the flows already due then.
    ///
    /// A registered `id` is refused with `DuplicateFlowId`, and the
    /// scheduler stays as it was.
    pub fn create_channel(&mut self, id: I, conformance_ticks: ConformanceTicks) -> (result:
        Result<Sender<T>, Error>)
        requires
            old(self).wf(),
            conformance_ticks > 0,
        ensures
            final(self).wf(),
            result is Err <==> old(self)@.periods.contains_key(id),
            result matches Err(error) ==> error == Error::DuplicateFlowId && *final(self) == *old(
                self,
            ),
            result is Ok ==> {
                &&& final(self)@ == old(self)@.register(id, conformance_ticks as nat)
                &&& final(self).receivers().contains_key(id)
                &&& final(self).receivers().remove(id) == old(self).receivers()
                &&& final(self).producers().contains_key(id)
                &&& final(self).producers().remove(id) == old(self).producers().remove(id)
            },
    {
        if self.flows.contains_key(&id) {
            Err(Error::DuplicateFlowId)
        } else {
            let ghost before = *self;
            let (sender, receiver) = open_channel();
            self.flows.insert(id, receiver);
            self.senders.insert(id, clone_sender(&sender));
            self.conformance_times.insert(id, conformance_ticks);
            let clock_time = self.clock;
            self.schedule_flow(id, clock_time);
            proof {
                before@.lemma_register_wf(id, conformance_ticks as nat);
                assert(self@.periods =~= before@.periods.insert(id, conformance_ticks as nat));
            }
            Ok(sender)
        }
    }

    /// Registers the flow `id` with a queue that the caller has made, of
    /// which `channel` is the consuming end. The flow's first turn is due at
    /// the current tick, behind the flows already due then.
    ///
    /// A registered `id` is refused with `DuplicateFlowId`, and the
    /// scheduler stays as it was.
    pub fn add_channel(
        &mut self,
        channel: Receiver<T>,
        id: I,
        conformance_ticks: ConformanceTicks,
    ) -> (result: Result<(), Error>)
        requires
            old(self).wf(),
            conformance_ticks > 0,
        ensures
            final(self).wf(),
            result is Err <==> old(self)@.periods.contains_key(id),
            result matches Err(error) ==> error == Error::DuplicateFlowId && *final(self) == *old(
                self,
            ),
            result is Ok ==> {
                &&& final(self)@ == old(self)@.register(id, conformance_ticks as nat)
                &&& final(self).receivers() == old(self).receivers().insert(id, channel)
                &&& final(self).producers() == old(self).producers()
            },
    {
        if self.flows.contains_key(&id) {
            Err(Error::DuplicateFlowId)
        } else {
            let ghost before = *self;
            self.flows.insert(id, channel);
            self.conformance_times.insert(id, conformance_ticks);
            let clock_time = self.clock;
            self.schedule_flow(id, clock_time);
            proof {
                before@.lemma_register_wf(id, conformance_ticks as nat);
                assert(self@.periods =~= before@.periods.insert(id, conformance_ticks as nat));
            }
            Ok(())
        }
    }

    /// Looks for the place of a flow that is due at `target_tick`: the first
    /// slot that is not due earlier decides.
    fn find_action(&self, target_tick: ClockTick) -> (action: SorterAction)
        ensures
            match action {
                SorterAction::Insert(index) => index == position(self@.slots, target_tick as nat)
                    && index < self@.slots.len() && self@.slots[index as int].due
                    > target_tick,
                SorterAction::Modify(index) => index == position(self@.slots, target_tick as nat)
                    && index < self@.slots.len() && self@.slots[index as int].due
                    == target_tick,
                SorterAction::Append => position(self@.slots, target_tick as nat)
                    == self@.slots.len(),
            },
    {
        let mut index: usize = 0;
        while index < self.sorter.len() && self.sorter[index].0 < target_tick
            invariant
                index <= self.sorter@.len(),
                forall|i: int| 0 <= i < index ==> (#[trigger] self.sorter@[i]).0 < target_tick,
            decreases self.sorter@.len() - index,
        {
            index += 1;
        }
        proof {
            let slots = self@.slots;
            assert forall|i: int| 0 <= i < index implies (#[trigger] slots[i]).due
                < target_tick as nat by {
                assert(self.sorter@[i].0 < target_tick);
            }
            lemma_position_is(slots, target_tick as nat, index as int);
        }
        if index < self.sorter.len() {
            if self.sorter[index].0 > target_tick {
                SorterAction::Insert(index)
            } else {
                SorterAction::Modify(index)
            }
        } else {
            SorterAction::Append
        }
    }

    /// Places `id` in the slot of `target_tick`, behind the flows that are
    /// already due then, and makes that slot where there is none.
    fn schedule_flow(&mut self, id: I, target_tick: ClockTick)
        ensures
            final(self)@.slots == schedule(old(self)@.slots, id, target_tick as nat),
            final(self)@.clock == old(self)@.clock,
            final(self)@.periods == old(self)@.periods,
            final(self).flows == old(self).flows,
            final(self).senders == old(self).senders,
            final(self).conformance_times == old(self).conformance_times,
    {
        let action = self.find_action(target_tick);
        let ghost before = self.sorter@;
        match action {
            SorterAction::Insert(index) => {
                let mut slots = VecDeque::new();
                slots.push_back(id);
                self.sorter.insert(index, (target_tick, slots));
                assert(slots_of(self.sorter@) =~= slots_of(before).insert(
                    index as int,
                    Slot { due: target_tick as nat, flows: seq![id] },
                ));
            },
            SorterAction::Modify(index) => {
                let found = self.sorter.remove(index);
                let (tick, mut slots) = found.unwrap();
                slots.push_back(id);
                self.sorter.insert(index, (tick, slots));
                assert(slots_of(self.sorter@) =~= slots_of(before).update(
                    index as int,
                    Slot { due: target_tick as nat, flows: before[index as int].1@.push(id) },
                ));
            },
            SorterAction::Append => {
                let mut slots = VecDeque::new();
                slots.push_back(id);
                self.sorter.push_back((target_tick, slots));
                assert(slots_of(self.sorter@) =~= slots_of(before).insert(
                    before.len() as int,
                    Slot { due: target_tick as nat, flows: seq![id] },
                ));
            },
        }
    }

    /// Decides one logical instant and says whose turn it was.
    ///
    /// With nothing scheduled nothing changes. With nothing due the clock
    /// moves on by one. Else the flow at the front of the earliest slot has
    /// its turn: it leaves that slot and is scheduled again one period
    /// later, and the clock moves on when the slot has emptied.
    pub fn turn(&mut self) -> (flow: Option<I>)
        requires
            old(self).wf(),
            old(self)@.reach() <= u64::MAX,
        ensures
            final(self).wf(),
            flow == old(self)@.serving(),
            final(self)@ == old(self)@.tick(),
            final(self)@.periods == old(self)@.periods,
            flow is None ==> final(self)@.slots == old(self)@.slots,
            final(self).receivers() == old(self).receivers(),
            final(self).producers() == old(self).producers(),
    {
        let ghost before = self@;
        let ghost sorter = self.sorter@;
        proof {
            before.lemma_tick_wf();
            if before.serving() is Some {
                before.lemma_serving_is_due();
            }
        }
        let maybe = self.sorter.pop_front();
        match maybe {
            Some((clock, mut slots)) => {
                if clock > self.clock {
                    // Not due yet: the slot goes back untouched.
                    self.sorter.push_front((clock, slots));
                    self.clock += 1;
                    assert(self.sorter@ =~= sorter);
                    None
                } else {
                    // Due now: the first flow of the slot has its turn.
                    let id = slots.pop_front().unwrap();
                    if slots.len() > 0 {
                        self.sorter.push_front((clock, slots));
                    } else {
                        self.clock += 1;
                    }
                    assert(slots_of(self.sorter@) =~= without_front(before.slots));
                    let next_time = *self.conformance_times.get(&id).unwrap();
                    self.schedule_flow(id, clock + next_time);
                    Some(id)
                }
            },
            None => None,
        }
    }

    /// Takes the oldest item that waits in the queue of `id`, if one waits.
    /// Never blocks.
    fn try_take(&self, id: I) -> (item: Option<T>)
        requires
            self.wf(),
            self@.periods.contains_key(id),
    {
        try_receive(self.flows.get(&id).unwrap())
    }

    /// Lets one logical instant pass and returns the item that it gave.
    ///
    /// The flow whose turn it is (see `turn`) is scheduled again whether or
    /// not its queue held an item: an idle flow uses up its turn. Without a
    /// flow that is due there is no item.
    pub fn tick(&mut self) -> (item: Option<T>)
        requires
            old(self).wf(),
            old(self)@.reach() <= u64::MAX,
        ensures
            final(self).wf(),
            final(self)@ == old(self)@.tick(),
            final(self)@.periods == old(self)@.periods,
            final(self).receivers() == old(self).receivers(),
            final(self).producers() == old(self).producers(),
            old(self)@.serving() is None ==> {
                &&& item is None
                &&& final(self)@.slots == old(self)@.slots
                &&& final(self)@.clock == old(self)@.clock + if old(self)@.slots.len() > 0 {
                    1nat
                } else {
                    0nat
                }
            },
    {
        match self.turn() {
            Some(id) => {
                proof {
                    old(self)@.lemma_serving_is_due();
                }
                self.try_take(id)
            },
            None => None,
        }
    }

    /// Lets instants pass until one gives an item, for at most one full
    /// cycle: as many instants as there are ticks from the clock to the last
    /// slot when the call begins, and one more.
    ///
    /// If none of these instants gives an item the result is `None`. That is
    /// not final: a later call starts a new cycle where this one stopped.
    pub fn next(&mut self) -> (item: Option<T>)
        requires
            old(self).wf(),
            old(self)@.cycle_within(u64::MAX as nat),
        ensures
            final(self).wf(),
            final(self).receivers() == old(self).receivers(),
            final(self).producers() == old(self).producers(),
            item is None ==> final(self)@ == old(self)@.tick_n(old(self)@.span() + 1),
            item is Some ==> exists|n: nat|
                n <= old(self)@.span() && (#[trigger] old(self)@.tick_n(n)).serving() is Some
                    && final(self)@ == old(self)@.tick_n(n).tick(),
            final(self)@.clock <= old(self)@.clock + old(self)@.span() + 1,
            final(self)@.periods == old(self)@.periods,
    {
        let ghost before = self@;
        let mut ticks: u64 = 0;
        let length = self.sorter.len();
        let horizon = if length > 0 {
            self.sorter[length - 1].0
        } else {
            self.clock
        };
        proof {
            if length > 0 {
                assert(before.slots[length - 1].due >= before.clock);
            }
        }
        let limit = horizon - self.clock;
        loop
            invariant
                self.wf(),
                before == old(self)@,
                before.wf(),
                before.cycle_within(u64::MAX as nat),
                limit == before.span(),
                ticks <= limit,
                self@ == before.tick_n(ticks as nat),
                self.receivers() == old(self).receivers(),
                self.producers() == old(self).producers(),
            decreases limit - ticks,
        {
            proof {
                before.lemma_tick_n_then_tick(ticks as nat);
                assert(before.tick_n(ticks as nat).reach() <= u64::MAX);
            }
            match self.tick() {
                Some(item) => {
                    proof {
                        before.lemma_tick_n_wf((ticks + 1) as nat);
                    }
                    return Some(item);
                },
                None => ticks += 1,
            }
            if ticks > limit {
                proof {
                    before.lemma_tick_n_wf(ticks as nat);
                }
                return None;
            }
        }
    }
}

} // verus!
