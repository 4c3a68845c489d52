use dex_core::ipc::queue::is_power_of_two;
use dex_core::ipc::slot::{slot_index, slot_state, stable_version, writing_version, SlotState};
use dex_core::ipc::{LapPolicy, PollResult, Queue};

#[test]
fn halt_is_sticky() {
    let (mut q, mut prod) = Queue::<u64>::new(4);
    let mut cons = q.subscribe(LapPolicy::Halt);
    for i in 0..6u64 {
        prod.publish(&mut q, i); // 6 > capacity 4 → laps consumer at seq 0
    }

    assert_eq!(cons.poll(&q), PollResult::Halted { last_safe_seq: 0, slots_lost: 6 });
    assert_eq!(cons.poll(&q), PollResult::Halted { last_safe_seq: 0, slots_lost: 6 }); // sticky
    assert!(cons.is_halted());
}

#[test]
fn skip_to_latest_resyncs_then_resumes() {
    let (mut q, mut prod) = Queue::<u64>::new(4);
    let mut cons = q.subscribe(LapPolicy::SkipToLatest);
    for i in 0..6u64 {
        prod.publish(&mut q, i);
    }

    assert_eq!(cons.poll(&q), PollResult::Skipped { slots_lost: 6, new_seq: 6 });
    assert_eq!(cons.poll(&q), PollResult::Empty); // resynced to live edge (seq 6), nothing there
    prod.publish(&mut q, 999);
    assert_eq!(cons.poll(&q), PollResult::Ready(999)); // resumes normally
}

#[test]
fn publish_then_poll_roundtrip() {
    let (mut q, mut prod) = Queue::<u64>::new(8);
    let mut cons = q.subscribe(LapPolicy::SkipToLatest);

    for i in 0..5u64 {
        prod.publish(&mut q, i * 10);
    }
    for i in 0..5u64 {
        assert_eq!(cons.poll(&q), PollResult::Ready(i * 10));
    }
    assert_eq!(cons.poll(&q), PollResult::Empty);
}

#[test]
fn subscribe_after_publish_sees_no_history() {
    let (mut q, mut prod) = Queue::<u64>::new(8);
    for i in 0..5u64 {
        prod.publish(&mut q, i);
    }
    let mut late = q.subscribe(LapPolicy::SkipToLatest);
    assert_eq!(late.poll(&q), PollResult::Empty); // history not replayed
}

#[test]
fn spsc_handoff() {
    // every interleaving of the two publishes with three polls
    for first in 0..=3 {
        for second in first..=3 {
            let (mut q, mut prod) = Queue::<u64>::new(2);
            let mut cons = q.subscribe(LapPolicy::SkipToLatest);
            let mut got = Vec::new();
            for poll in 0..3 {
                if poll == first {
                    prod.publish(&mut q, 10);
                }
                if poll == second {
                    prod.publish(&mut q, 20);
                }
                if let PollResult::Ready(v) = cons.poll(&q) {
                    got.push(v);
                }
            }
            match got.as_slice() {
                [] | [10] | [10, 20] => {}
                other => panic!("unexpected response: {:?}", other),
            }
        }
    }
}

#[test]
fn publish_numbers_values_from_zero() {
    let (mut q, mut prod) = Queue::<u8>::new(1);
    assert_eq!(q.capacity(), 1);
    for i in 0..5u64 {
        assert_eq!(q.published(), i);
        assert_eq!(prod.publish(&mut q, 7), i);
    }
    assert_eq!(q.published(), 5);
}

#[test]
fn a_full_ring_behind_is_not_lapped() {
    let (mut q, mut prod) = Queue::<u64>::new(4);
    let mut cons = q.subscribe(LapPolicy::Panic);
    assert!(cons.panics_when_lapped());
    for i in 0..4u64 {
        prod.publish(&mut q, i);
    }
    for i in 0..4u64 {
        assert_eq!(cons.poll(&q), PollResult::Ready(i));
    }
    assert_eq!(cons.cursor(), 4);
    assert!(!cons.is_halted());
}

#[test]
fn skip_and_alert_skips() {
    let (mut q, mut prod) = Queue::<u64>::new(2);
    let mut cons = q.subscribe(LapPolicy::SkipAndAlert);
    for i in 0..3u64 {
        prod.publish(&mut q, i);
    }
    assert_eq!(cons.poll(&q), PollResult::Skipped { slots_lost: 3, new_seq: 3 });
}

#[test]
fn consumers_are_independent() {
    let (mut q, mut prod) = Queue::<u64>::new(4);
    let mut a = q.subscribe(LapPolicy::SkipToLatest);
    let mut b = q.subscribe(LapPolicy::Halt);
    prod.publish(&mut q, 1);
    assert_eq!(a.poll(&q), PollResult::Ready(1));
    assert_eq!(a.poll(&q), PollResult::Empty);
    assert_eq!(b.poll(&q), PollResult::Ready(1));
}

#[test]
fn versions_tell_laps_apart() {
    // ring of 4: seq 5 is slot 1 in lap 1
    assert_eq!(slot_index(5, 3, 2), 1);
    assert_eq!(writing_version(5, 2), 3);
    assert_eq!(stable_version(5, 2), 4);
    assert!(matches!(slot_state(4, 5, 2), SlotState::Stable));
    assert!(matches!(slot_state(2, 5, 2), SlotState::Pending));
    assert!(matches!(slot_state(3, 5, 2), SlotState::Pending));
    assert!(matches!(slot_state(5, 5, 2), SlotState::Lapped));
    assert!(matches!(slot_state(6, 5, 2), SlotState::Lapped));
}

#[test]
fn the_ring_holds_the_newest_values() {
    let (mut q, mut prod) = Queue::<u64>::new(4);
    for i in 0..10u64 {
        let mut late = q.subscribe(LapPolicy::SkipToLatest);
        // a consumer that is a whole ring behind still reads every value
        for k in 0..4 {
            prod.publish(&mut q, 100 * i + k);
        }
        for k in 0..4 {
            assert_eq!(late.poll(&q), PollResult::Ready(100 * i + k));
        }
        assert_eq!(late.poll(&q), PollResult::Empty);
    }
}

#[test]
fn ring_capacities_are_powers_of_two() {
    assert!(!is_power_of_two(0));
    for k in 0..32 {
        assert!(is_power_of_two(1 << k));
    }
    for n in [3, 5, 6, 7, 9, 12, u32::MAX] {
        assert!(!is_power_of_two(n));
    }
}
