use dex_core::arena::{Arena, ArenaIdx};
use dex_core::types::{IntentHash, Order, OrderId, OrderType, Side, TimeInForce};
use std::cell::Cell;
use std::rc::Rc;

// ----- Round-trip and basic operations --------------------------------

#[test]
fn round_trip_alloc_get_remove() {
    let mut arena = Arena::<u64>::new(4);
    let idx = arena.allocate(42).unwrap();
    assert!(idx.is_valid());
    assert_eq!(arena.get(idx), Some(&42));
    assert_eq!(arena.remove(idx), Some(42));
    assert_eq!(arena.get(idx), None);
}

#[test]
fn get_mut_allows_mutation() {
    let mut arena = Arena::<u64>::new(4);
    let idx = arena.allocate(100).unwrap();
    *arena.get_mut(idx).unwrap() = 200;
    assert_eq!(arena.get(idx), Some(&200));
}

#[test]
fn initial_alloc_handle_is_valid() {
    // Regression guard: slots must initialize with generation >= 1 so the
    // first alloc cannot return a handle that equals the sentinel.
    let mut arena = Arena::<u64>::new(1);
    let idx = arena.allocate(42).unwrap();
    assert!(idx.is_valid(), "initial alloc must not equal SENTINEL");
    assert_ne!(idx.generation, 0, "generation 0 is reserved for SENTINEL");
}

// ----- Use-after-free detection ---------------------------------------

#[test]
fn get_after_remove_returns_none() {
    let mut arena = Arena::<u64>::new(4);
    let idx = arena.allocate(7).unwrap();
    arena.remove(idx);
    assert_eq!(arena.get(idx), None);
    assert_eq!(arena.get_mut(idx), None);
}

#[test]
fn double_remove_returns_none() {
    let mut arena = Arena::<u64>::new(4);
    let idx = arena.allocate(7).unwrap();
    assert_eq!(arena.remove(idx), Some(7));
    assert_eq!(arena.remove(idx), None);
}

#[test]
fn stale_handle_after_slot_reuse_returns_none() {
    let mut arena = Arena::<u64>::new(4);
    let a = arena.allocate(1).unwrap();
    arena.remove(a);
    let b = arena.allocate(2).unwrap();
    if a.slot == b.slot {
        assert_ne!(a.generation, b.generation, "generation must bump on reuse");
    }
    assert_eq!(arena.get(a), None, "old handle must not see new value");
    assert_eq!(arena.get(b), Some(&2));
}

// ----- Capacity exhaustion --------------------------------------------

#[test]
fn alloc_returns_none_when_full() {
    let mut arena = Arena::<u64>::new(2);
    let _a = arena.allocate(1).unwrap();
    let _b = arena.allocate(2).unwrap();
    assert!(arena.allocate(3).is_none(), "alloc on full arena must return None");
}

#[test]
fn remove_makes_capacity_available_again() {
    let mut arena = Arena::<u64>::new(2);
    let a = arena.allocate(1).unwrap();
    let _b = arena.allocate(2).unwrap();
    assert!(arena.allocate(3).is_none(), "arena should be full");
    arena.remove(a);
    let c = arena.allocate(3).unwrap();
    assert_eq!(arena.get(c), Some(&3));
}

// ----- Free-list LIFO ordering ----------------------------------------

#[test]
fn free_list_is_lifo() {
    let mut arena = Arena::<u64>::new(4);
    let a = arena.allocate(1).unwrap();
    let b = arena.allocate(2).unwrap();
    let c = arena.allocate(3).unwrap();
    arena.remove(a);
    arena.remove(b);
    arena.remove(c);
    // most-recently-freed should pop first
    let x = arena.allocate(10).unwrap();
    let y = arena.allocate(20).unwrap();
    let z = arena.allocate(30).unwrap();
    assert_eq!(x.slot, c.slot, "expected LIFO: c popped first");
    assert_eq!(y.slot, b.slot, "expected LIFO: b popped second");
    assert_eq!(z.slot, a.slot, "expected LIFO: a popped third");
}

// ----- Generation skip-0 wraparound -----------------------------------

#[test]
fn generation_wraps_to_1_skipping_0() {
    // Forcing 2^32 removes is infeasible; poke the generation directly.
    let mut arena = Arena::<u64>::new(1);
    let idx = arena.allocate(42).unwrap();
    let slot_idx = idx.slot as usize;

    arena.slots[slot_idx].generation = u32::MAX;

    // Forge a handle whose generation matches the poked slot.
    let forged = ArenaIdx::new(idx.slot, u32::MAX);
    assert_eq!(arena.remove(forged), Some(42));

    // After remove, generation should have stepped u32::MAX -> 0 -> 1.
    assert_eq!(
        arena.slots[slot_idx].generation, 1,
        "generation must skip 0 on wraparound"
    );

    let new_idx = arena.allocate(99).unwrap();
    assert!(new_idx.is_valid(), "post-wraparound handle must not equal SENTINEL");
    assert_eq!(new_idx.generation, 1);
}

// ----- Drop runs on remaining occupants --------------------------------------

struct Tracker {
    drops: Rc<Cell<u32>>,
}

impl Drop for Tracker {
    fn drop(&mut self) {
        self.drops.set(self.drops.get() + 1);
    }
}

#[test]
fn drop_runs_on_remaining_occupants() {
    let drops = Rc::new(Cell::new(0u32));
    {
        let mut arena = Arena::<Tracker>::new(4);
        let _ = arena.allocate(Tracker { drops: drops.clone() }).unwrap();
        let b = arena.allocate(Tracker { drops: drops.clone() }).unwrap();
        let _ = arena.allocate(Tracker { drops: drops.clone() }).unwrap();
        arena.remove(b); // drops the second as the returned Option<T> dies
    } // arena drops here; expect 2 more drops

    assert_eq!(drops.get(), 3, "Drop did not run on all live occupants");
}

// ----- Generic instantiation ------------------------------------------

#[test]
fn instantiates_with_u64() {
    let mut a = Arena::<u64>::new(2);
    let i = a.allocate(1).unwrap();
    assert_eq!(a.remove(i), Some(1));
}

#[test]
fn instantiates_with_u32() {
    let mut a = Arena::<u32>::new(2);
    let i = a.allocate(1u32).unwrap();
    assert_eq!(a.remove(i), Some(1u32));
}

#[test]
fn instantiates_with_tuple() {
    let mut a = Arena::<(u32, u32)>::new(2); // size 8, align 4
    let i = a.allocate((1, 2)).unwrap();
    assert_eq!(a.remove(i), Some((1, 2)));
}

#[test]
fn instantiates_with_order() {
    let mut a = Arena::<Order>::new(2);
    let order = Order {
        order_id: OrderId(1),
        price: 100,
        quantity: 1,
        origin_ts: 0,
        instrument_id: 0,
        side: Side::Ask,
        order_type: OrderType::Limit,
        tif: TimeInForce::IOC,
        _padding: 0,
        intent_hash: IntentHash::zeroed()
    };
    let i = a.allocate(order).unwrap();
    assert!(a.get(i).is_some(), "Arena<Order> alloc/get round-trip failed");
}

// ----- Extras: free-list integrity guards -----------------------------------

#[test]
fn double_free_does_not_corrupt_list() {
    let mut arena = Arena::<u64>::new(4);
    let idx = arena.allocate(42).unwrap();
    assert_eq!(arena.remove(idx), Some(42));
    assert_eq!(arena.remove(idx), None);
    let a = arena.allocate(1).unwrap();
    let b = arena.allocate(2).unwrap();
    assert_ne!(a.slot, b.slot, "free list corrupted by double-free");
    assert_eq!(arena.get(a), Some(&1));
    assert_eq!(arena.get(b), Some(&2));
}

#[test]
fn stale_remove_does_not_decrement_len() {
    let mut arena = Arena::<u64>::new(2);
    let idx = arena.allocate(7).unwrap();
    assert_eq!(arena.len, 1);
    arena.remove(idx);
    assert_eq!(arena.len, 0);
    arena.remove(idx); // stale; must NOT decrement
    assert_eq!(arena.len, 0, "len underflowed on stale remove");
}

// ----- Handles ---------------------------------------------------------------

#[test]
fn sentinel_is_never_valid() {
    assert!(!ArenaIdx::sentinel().is_valid());
    assert!(ArenaIdx::new(0, 1).is_valid());
    let arena = Arena::<u64>::new(1);
    assert_eq!(arena.get(ArenaIdx::sentinel()), None);
}

#[test]
fn first_slots_come_out_in_ascending_order() {
    let mut arena = Arena::<u64>::new(3);
    for slot in 0..3 {
        let idx = arena.allocate(slot as u64).unwrap();
        assert_eq!((idx.slot, idx.generation), (slot, 1));
    }
}

#[test]
fn handles_outside_the_arena_read_as_absent() {
    let mut arena = Arena::<u64>::new(2);
    arena.allocate(5).unwrap();
    assert_eq!(arena.get(ArenaIdx::new(2, 1)), None);
    assert_eq!(arena.get_mut(ArenaIdx::new(u32::MAX, 1)), None);
    assert_eq!(arena.remove(ArenaIdx::new(7, 1)), None);
    assert_eq!(arena.len, 1);
}

#[test]
fn alloc_then_remove_restores_all_but_the_generation() {
    let mut arena = Arena::<u64>::new(2);
    let a = arena.allocate(1).unwrap();
    let b = arena.allocate(2).unwrap();
    assert_eq!(arena.remove(b), Some(2));
    assert_eq!(arena.len, 1);
    assert_eq!(arena.get(a), Some(&1));
    let again = arena.allocate(3).unwrap();
    assert_eq!((again.slot, again.generation), (b.slot, b.generation + 1));
}

#[test]
fn live_handles_stay_apart() {
    let mut arena = Arena::<u64>::new(8);
    let mut live = Vec::new();
    for round in 0..20u64 {
        live.push((arena.allocate(round).unwrap(), round));
        if round % 3 == 0 || live.len() == 8 {
            let (idx, value) = live.remove((round as usize) % live.len());
            assert_eq!(arena.remove(idx), Some(value));
            assert_eq!(arena.get(idx), None);
        }
        for (idx, value) in &live {
            assert_eq!(arena.get(*idx), Some(value));
        }
        if live.len() > 6 {
            let (idx, value) = live.remove(0);
            assert_eq!(arena.remove(idx), Some(value));
        }
    }
}

#[test]
fn handles_name_slots_of_the_arena_until_it_is_full() {
    let mut arena = Arena::<u64>::new(3);
    for n in 0..3 {
        let idx = arena.allocate(n).unwrap();
        assert!(idx.slot < 3);
        assert_ne!(idx, ArenaIdx::sentinel());
    }
    assert_eq!(arena.allocate(3), None);
}
