use calendar_queue::{CalendarQueue, Error};
use std::sync::mpsc::channel;

fn turns(queue: &mut CalendarQueue<u64, String>, count: usize) -> Vec<Option<u64>> {
    let mut seen = Vec::new();
    for _ in 0..count {
        seen.push(queue.turn());
    }
    seen
}

#[test]
fn empty_scheduler_gives_nothing() {
    let mut queue = CalendarQueue::<u64, String>::new();
    assert_eq!(queue.turn(), None);
    assert_eq!(queue.tick(), None);
    assert_eq!(queue.next(), None);
    // A flow that registers afterwards is still due at once: the clock stood still.
    let flow = queue.create_channel(7, 2).unwrap();
    flow.send("late".into()).unwrap();
    assert_eq!(queue.tick(), Some("late".into()));
}

#[test]
fn single_flow_period_one() {
    let mut queue = CalendarQueue::<u64, String>::new();
    let flow = queue.create_channel(1, 1).unwrap();
    flow.send("Foo".into()).unwrap();
    assert_eq!(queue.tick(), Some("Foo".into()));
    assert_eq!(queue.tick(), None);
    flow.send("Foo".into()).unwrap();
    assert_eq!(queue.tick(), Some("Foo".into()));
}

#[test]
fn two_flows_share_the_first_tick() {
    let mut queue = CalendarQueue::<u64, String>::new();
    let flow_1 = queue.create_channel(1, 1).unwrap();
    let flow_2 = queue.create_channel(2, 1).unwrap();
    flow_1.send("Foo".into()).unwrap();
    flow_2.send("Bar".into()).unwrap();
    assert_eq!(queue.tick(), Some("Foo".into()));
    assert_eq!(queue.tick(), Some("Bar".into()));
}

#[test]
fn short_period_gets_more_turns() {
    let mut queue = CalendarQueue::<u64, String>::new();
    let flow_1 = queue.create_channel(1, 4).unwrap();
    let flow_2 = queue.create_channel(2, 10).unwrap();
    flow_1.send("Foo".into()).unwrap();
    flow_1.send("Bar".into()).unwrap();
    flow_1.send("Baz".into()).unwrap();
    flow_2.send("X".into()).unwrap();
    assert_eq!(queue.next(), Some("Foo".into()));
    assert_eq!(queue.next(), Some("X".into()));
    assert_eq!(queue.next(), Some("Bar".into()));
    assert_eq!(queue.next(), Some("Baz".into()));
}

#[test]
fn period_three_leaves_two_idle_ticks() {
    let mut queue = CalendarQueue::<u64, String>::new();
    let (sender, receiver) = channel();
    queue.add_channel(receiver, 1, 3).unwrap();
    sender.send("Foo".into()).unwrap();
    sender.send("Bar".into()).unwrap();
    assert_eq!(queue.tick(), Some("Foo".into()));
    assert_eq!(queue.tick(), None);
    assert_eq!(queue.tick(), None);
    assert_eq!(queue.tick(), Some("Bar".into()));
    assert_eq!(queue.tick(), None);
    assert_eq!(queue.tick(), None);
    assert_eq!(queue.tick(), None);
}

#[test]
fn idle_flow_keeps_its_place() {
    let mut queue = CalendarQueue::<u64, String>::new();
    let flow = queue.create_channel(1, 2).unwrap();
    // Its turn comes with nothing queued: the turn is used up.
    assert_eq!(queue.tick(), None);
    flow.send("Foo".into()).unwrap();
    // Tick 1 has nothing due, although an item waits by now.
    assert_eq!(queue.tick(), None);
    // Tick 2 is the flow's next turn.
    assert_eq!(queue.tick(), Some("Foo".into()));
}

#[test]
fn duplicate_id_changes_nothing() {
    let mut queue = CalendarQueue::<u64, String>::new();
    let flow = queue.create_channel(1, 3).unwrap();
    let (_other, receiver) = channel::<String>();
    assert_eq!(queue.add_channel(receiver, 1, 1), Err(Error::DuplicateFlowId));
    assert!(matches!(queue.create_channel(1, 1), Err(Error::DuplicateFlowId)));
    assert_eq!(queue.senders.len(), 1);
    flow.send("Foo".into()).unwrap();
    flow.send("Bar".into()).unwrap();
    // Still one flow, still with period 3.
    assert_eq!(queue.tick(), Some("Foo".into()));
    assert_eq!(turns(&mut queue, 3), vec![None, None, Some(1)]);
}

#[test]
fn added_channel_keeps_no_sender() {
    let mut queue = CalendarQueue::<u64, String>::new();
    let (_sender, receiver) = channel();
    queue.add_channel(receiver, 4, 1).unwrap();
    assert!(queue.senders.is_empty());
    let _made = queue.create_channel(5, 1).unwrap();
    assert!(queue.senders.contains_key(&5));
    assert_eq!(queue.senders.len(), 1);
}

#[test]
fn kept_sender_feeds_the_flow() {
    let mut queue = CalendarQueue::<u64, String>::new();
    let flow = queue.create_channel(1, 1).unwrap();
    queue.senders[&1].send("kept".into()).unwrap();
    flow.send("own".into()).unwrap();
    assert_eq!(queue.tick(), Some("kept".into()));
    assert_eq!(queue.tick(), Some("own".into()));
}

#[test]
fn no_turn_before_the_period_is_over() {
    let mut queue = CalendarQueue::<u64, String>::new();
    let _flow = queue.create_channel(9, 5).unwrap();
    assert_eq!(
        turns(&mut queue, 12),
        vec![
            Some(9), None, None, None, None,
            Some(9), None, None, None, None,
            Some(9), None,
        ]
    );
}

#[test]
fn colliding_flows_are_served_in_arrival_order() {
    let mut queue = CalendarQueue::<u64, String>::new();
    let _a = queue.create_channel(30, 2).unwrap();
    let _b = queue.create_channel(10, 2).unwrap();
    let _c = queue.create_channel(20, 2).unwrap();
    // All three are due at tick 0, then again at tick 2, in the order of registration.
    assert_eq!(
        turns(&mut queue, 8),
        vec![Some(30), Some(10), Some(20), None, Some(30), Some(10), Some(20), None]
    );
}

#[test]
fn later_arrival_joins_behind_in_the_slot() {
    let mut queue = CalendarQueue::<u64, String>::new();
    let _a = queue.create_channel(1, 3).unwrap();
    assert_eq!(turns(&mut queue, 2), vec![Some(1), None]);
    // Clock is at 2. Flow 2 has its first turn now and its second at tick 3,
    // where flow 1 already waits: flow 1 goes first.
    let _b = queue.create_channel(2, 1).unwrap();
    assert_eq!(turns(&mut queue, 3), vec![Some(2), Some(1), Some(2)]);
}

#[test]
fn new_slot_is_put_between_two_others() {
    let mut queue = CalendarQueue::<u64, String>::new();
    let _a = queue.create_channel(1, 2).unwrap();
    let _b = queue.create_channel(2, 6).unwrap();
    let _c = queue.create_channel(3, 4).unwrap();
    // Slots after the first three turns: tick 2 (flow 1), tick 4 (flow 3), tick 6 (flow 2).
    assert_eq!(
        turns(&mut queue, 9),
        vec![Some(1), Some(2), Some(3), None, Some(1), None, Some(3), Some(1), None]
    );
    // Tick 6 holds flow 2, which came first, then flow 1.
    assert_eq!(turns(&mut queue, 3), vec![Some(2), Some(1), None]);
}

#[test]
fn idle_ticks_leave_the_schedule_alone() {
    let mut idle = CalendarQueue::<u64, String>::new();
    let mut busy = CalendarQueue::<u64, String>::new();
    let _a = idle.create_channel(1, 4).unwrap();
    let _b = busy.create_channel(1, 4).unwrap();
    assert_eq!(idle.turn(), Some(1));
    assert_eq!(busy.turn(), Some(1));
    // Three idle instants by `tick` on one scheduler, by `turn` on the other.
    for _ in 0..3 {
        assert_eq!(idle.tick(), None);
        assert_eq!(busy.turn(), None);
    }
    assert_eq!(idle.turn(), Some(1));
    assert_eq!(busy.turn(), Some(1));
}

#[test]
fn items_of_one_flow_come_out_in_order() {
    let mut queue = CalendarQueue::<u64, String>::new();
    let flow = queue.create_channel(1, 2).unwrap();
    let _other = queue.create_channel(2, 3).unwrap();
    for word in ["a", "b", "c", "d"] {
        flow.send(word.into()).unwrap();
    }
    // Three cycles give an item each. The fourth runs out at tick 6 on the
    // idle flow 2, one instant before flow 1, which shares that slot.
    assert_eq!(queue.next(), Some("a".into()));
    assert_eq!(queue.next(), Some("b".into()));
    assert_eq!(queue.next(), Some("c".into()));
    assert_eq!(queue.next(), None);
    assert_eq!(queue.next(), Some("d".into()));
    assert_eq!(queue.next(), None);
}

#[test]
fn next_gives_up_after_one_cycle() {
    let mut queue = CalendarQueue::<u64, String>::new();
    let flow_1 = queue.create_channel(1, 3).unwrap();
    let _flow_2 = queue.create_channel(2, 5).unwrap();
    assert_eq!(turns(&mut queue, 2), vec![Some(1), Some(2)]);
    // Clock 1, slots at 3 and 5: the cycle is 4 ticks long, and `next` lets
    // 5 instants pass: ticks 1 and 2 idle, flow 1 at 3, tick 4 idle, flow 2 at 5.
    assert_eq!(queue.next(), None);
    // Flow 1 is due at 6 now, flow 2 at 10, and the clock is at 6.
    assert_eq!(turns(&mut queue, 5), vec![Some(1), None, None, Some(1), Some(2)]);
    // Exhaustion is not permanent.
    flow_1.send("Foo".into()).unwrap();
    assert_eq!(queue.next(), Some("Foo".into()));
}

#[test]
fn next_on_a_single_idle_flow_moves_one_tick() {
    let mut queue = CalendarQueue::<u64, String>::new();
    let _flow = queue.create_channel(1, 2).unwrap();
    // The only slot is due now: one instant, which serves the flow.
    assert_eq!(queue.next(), None);
    // Clock 1, flow due at 2: two instants.
    assert_eq!(turns(&mut queue, 2), vec![None, Some(1)]);
}

#[test]
fn closed_queue_reads_as_empty() {
    let mut queue = CalendarQueue::<u64, String>::new();
    let (sender, receiver) = channel();
    queue.add_channel(receiver, 1, 1).unwrap();
    sender.send("last".into()).unwrap();
    drop(sender);
    assert_eq!(queue.tick(), Some("last".into()));
    assert_eq!(queue.tick(), None);
    assert_eq!(queue.turn(), Some(1));
}

#[test]
fn readme_walkthrough() {
    let mut queue = CalendarQueue::<u64, String>::new();
    let (sender_1, receiver_1) = channel();
    queue.add_channel(receiver_1, 1, 3).unwrap();
    let sender_2 = queue.create_channel(2, 5).unwrap();
    for _ in 0..3 {
        sender_1.send("Foo".into()).unwrap();
    }
    for _ in 0..5 {
        sender_2.send("Bar".into()).unwrap();
    }
    assert_eq!(queue.tick(), Some("Foo".into()));
    assert_eq!(queue.tick(), Some("Bar".into()));
    assert_eq!(queue.tick(), None);
    assert_eq!(queue.tick(), None);
    assert_eq!(queue.tick(), Some("Foo".into()));
    assert_eq!(queue.next(), Some("Bar".into()));
    assert_eq!(queue.tick(), Some("Foo".into()));
}

#[test]
fn error_compares_equal_to_itself() {
    assert_eq!(Error::DuplicateFlowId, Error::DuplicateFlowId);
}
