//! Generational arena for stable slot-based storage.
//!
//! [`Arena<T>`] owns a fixed number of slots. Allocation returns an
//! [`ArenaIdx`] that pairs `(slot, generation)`. The generation of a slot moves
//! on whenever its value is removed, so a stale handle to a reused slot reads
//! as absent instead of aliasing the new value.
//!
//! The abstract state of an arena is an [`ArenaModel`]: which handles are live
//! and what they hold, and the stack of handles that the next allocations will
//! hand out.
use vstd::prelude::*;

verus! {

/// A handle to an arena slot, tagged with the generation it was issued under.
#[derive(Copy, Clone, PartialEq, Eq, Structural, Hash, Debug)]
pub struct ArenaIdx {
    pub slot: u32,
    pub generation: u32,
}

impl ArenaIdx {
    /// A handle that no allocation ever returns.
    #[verifier::allow_in_spec]
    pub fn sentinel() -> ArenaIdx
        returns
            (ArenaIdx { slot: 0, generation: 0 }),
    {
        ArenaIdx { slot: 0, generation: 0 }
    }

    /// False for the sentinel, true for every other handle.
    pub fn is_valid(self) -> (valid: bool)
        ensures
            valid == (self != ArenaIdx::sentinel()),
    {
        self != ArenaIdx::sentinel()
    }

    pub fn new(slot: u32, generation: u32) -> (idx: ArenaIdx)
        ensures
            idx.slot == slot,
            idx.generation == generation,
    {
        ArenaIdx { slot, generation }
    }

    /// The handle that the same slot is issued under once this handle's value
    /// has been removed. Generation zero is skipped on wraparound.
    pub open spec fn bumped(self) -> ArenaIdx {
        ArenaIdx { slot: self.slot, generation: next_generation(self.generation) }
    }
}

/// The generation that follows `generation`: one more, and 1 after `u32::MAX`.
pub open spec fn next_generation(generation: u32) -> u32 {
    if generation == u32::MAX {
        1
    } else {
        (generation + 1) as u32
    }
}

/// The abstract state of an arena.
#[verifier::ext_equal]
pub struct ArenaModel<T> {
    /// The live handles and their values.
    pub live: Map<ArenaIdx, T>,
    /// The handles that are free to be issued; the last one goes out next.
    pub spare: Seq<ArenaIdx>,
}

impl<T> ArenaModel<T> {
    /// Every handle has a nonzero generation and no two handles share a slot.
    pub open spec fn wf(self) -> bool {
        &&& forall|h: ArenaIdx| #[trigger] self.live.contains_key(h) ==> h.generation != 0
        &&& forall|g: ArenaIdx, h: ArenaIdx|
            #![trigger self.live.contains_key(g), self.live.contains_key(h)]
            self.live.contains_key(g) && self.live.contains_key(h) && g.slot == h.slot ==> g == h
        &&& forall|i: int| 0 <= i < self.spare.len() ==> (#[trigger] self.spare[i]).generation != 0
        &&& forall|i: int, j: int|
            0 <= i < j < self.spare.len() ==> (#[trigger] self.spare[i]).slot != (
            #[trigger] self.spare[j]).slot
        &&& forall|i: int, h: ArenaIdx|
            #![trigger self.spare[i], self.live.contains_key(h)]
            0 <= i < self.spare.len() && self.live.contains_key(h) ==> self.spare[i].slot != h.slot
    }

    /// The state after the next spare handle is issued for `value`.
    pub open spec fn allocated(self, value: T) -> ArenaModel<T>
        recommends
            self.spare.len() > 0,
    {
        ArenaModel {
            live: self.live.insert(self.spare.last(), value),
            spare: self.spare.drop_last(),
        }
    }

    /// The state after the value of the live handle `idx` is removed.
    pub open spec fn removed(self, idx: ArenaIdx) -> ArenaModel<T>
        recommends
            self.live.contains_key(idx),
    {
        ArenaModel { live: self.live.remove(idx), spare: self.spare.push(idx.bumped()) }
    }

    /// The state after the value of the live handle `idx` becomes `value`.
    pub open spec fn updated(self, idx: ArenaIdx, value: T) -> ArenaModel<T> {
        ArenaModel { live: self.live.insert(idx, value), spare: self.spare }
    }
}

/// One arena slot. A vacant slot links to the next vacant one.
pub struct Slot<T> {
    pub generation: u32,
    pub value: Option<T>,
    pub next_free: u32,
}

impl<T> Slot<T> {
    fn insert(&mut self, value: T)
        requires
            old(self).value is None,
        ensures
            *final(self) == (Slot { value: Some(value), ..*old(self) }),
    {
        self.value = Some(value);
    }

    fn get(&self, generation: u32) -> (r: Option<&T>)
        ensures
            match r {
                Some(v) => self.generation == generation && self.value == Some(*v),
                None => self.generation != generation || self.value is None,
            },
    {
        if generation == self.generation {
            self.value.as_ref()
        } else {
            None
        }
    }

    fn get_mut(&mut self, generation: u32) -> (r: Option<&mut T>)
        ensures
            match r {
                Some(v) => {
                    &&& old(self).generation == generation
                    &&& old(self).value == Some(*v)
                    &&& *final(self) == (Slot { value: Some(*final(v)), ..*old(self) })
                },
                None => {
                    &&& old(self).generation != generation || old(self).value is None
                    &&& *final(self) == *old(self)
                },
            },
    {
        if generation == self.generation {
            self.value.as_mut()
        } else {
            None
        }
    }

    fn remove(&mut self, generation: u32) -> (r: Option<T>)
        ensures
            match r {
                Some(v) => {
                    &&& old(self).generation == generation
                    &&& old(self).value == Some(v)
                    &&& *final(self) == (Slot::<T> {
                        generation: next_generation(generation),
                        value: None,
                        next_free: old(self).next_free,
                    })
                },
                None => {
                    &&& old(self).generation != generation || old(self).value is None
                    &&& *final(self) == *old(self)
                },
            },
    {
        if self.generation != generation || self.value.is_none() {
            return None;
        }
        self.generation = if generation == u32::MAX {
            1
        } else {
            generation + 1
        };
        self.value.take()
    }
}

/// A fixed-capacity generational arena.
pub struct Arena<T> {
    pub slots: Vec<Slot<T>>,
    pub free_head: u32,
    pub len: usize,
    /// The vacant slots, in the order of the free list; the head comes last.
    pub free: Ghost<Seq<u32>>,
}

impl<T> View for Arena<T> {
    type V = ArenaModel<T>;

    closed spec fn view(&self) -> ArenaModel<T> {
        ArenaModel {
            live: Map::new(
                |h: ArenaIdx|
                    h.slot < self.slots.len() && self.slots[h.slot as int].generation
                        == h.generation && self.slots[h.slot as int].value is Some,
                |h: ArenaIdx| self.slots[h.slot as int].value->0,
            ),
            spare: Seq::new(self.free@.len(), |i: int| self.handle_of(self.free@[i] as int)),
        }
    }
}

impl<T> Arena<T> {
    /// The handle that slot `i` is, or would next be, issued under.
    closed spec fn handle_of(self, i: int) -> ArenaIdx {
        ArenaIdx { slot: i as u32, generation: self.slots[i].generation }
    }

    /// Number of slots.
    pub closed spec fn capacity(self) -> nat {
        self.slots.len() as nat
    }

    /// The free list threads exactly the vacant slots, and no slot is ever at
    /// generation zero.
    pub closed spec fn wf(self) -> bool {
        &&& self.slots.len() < u32::MAX
        &&& self.len + self.free@.len() == self.slots.len()
        &&& self.free_head == self.free_link(self.free@.len() as int)
        &&& forall|i: int| 0 <= i < self.slots.len() ==> (#[trigger] self.slots[i]).generation != 0
        &&& forall|i: int| #[trigger] self.vacant(i) ==> self.free@.contains(i as u32)
        &&& forall|k: int|
            0 <= k < self.free@.len() ==> {
                &&& (#[trigger] self.free@[k]) < self.slots.len()
                &&& self.slots[self.free@[k] as int].value is None
                &&& self.slots[self.free@[k] as int].next_free == self.free_link(k)
            }
        &&& self.free@.no_duplicates()
    }

    closed spec fn vacant(self, i: int) -> bool {
        0 <= i < self.slots.len() && self.slots[i].value is None
    }

    /// The link that points at the first `k` entries of the free list.
    closed spec fn free_link(self, k: int) -> u32 {
        if k == 0 {
            u32::MAX
        } else {
            self.free@[k - 1]
        }
    }

    /// The two arenas differ at most in what their occupied slots hold.
    closed spec fn same_shape(self, other: Arena<T>) -> bool {
        &&& other.free == self.free
        &&& other.free_head == self.free_head
        &&& other.len == self.len
        &&& other.slots.len() == self.slots.len()
        &&& forall|i: int|
            0 <= i < self.slots.len() ==> {
                &&& (#[trigger] other.slots[i]).generation == self.slots[i].generation
                &&& other.slots[i].next_free == self.slots[i].next_free
                &&& other.slots[i].value is None == self.slots[i].value is None
            }
    }

    /// Changing only what occupied slots hold keeps the free list intact.
    proof fn lemma_wf_frame(self)
        requires
            self.wf(),
        ensures
            forall|other: Arena<T>| self.same_shape(other) ==> #[trigger] other.wf(),
            forall|other: Arena<T>| self.same_shape(other) ==> #[trigger] other@.spare == self@.spare,
    {
        assert forall|other: Arena<T>| self.same_shape(other) implies #[trigger] other.wf() by {
            assert forall|i: int| #[trigger] other.vacant(i) implies other.free@.contains(
                i as u32,
            ) by {
                assert(self.vacant(i));
            }
        }
        assert forall|other: Arena<T>| self.same_shape(other) implies #[trigger] other@.spare
            == self@.spare by {
            assert(other@.spare =~= self@.spare);
        }
    }

    /// An occupied slot leaves the free list shorter than the arena.
    proof fn lemma_occupied_is_counted(self, i: int)
        requires
            self.wf(),
            0 <= i < self.slots.len(),
            self.slots[i].value is Some,
        ensures
            self.len > 0,
    {
        let n = self.slots.len() as int;
        let vacant = self.free@.map_values(|k: u32| k as int);
        assert(vacant.no_duplicates());
        vacant.unique_seq_to_set();
        vstd::set_lib::lemma_int_range(0, n);
        let others = vstd::set_lib::set_int_range(0, n).remove(i);
        assert forall|k: int| vacant.to_set().contains(k) implies others.contains(k) by {
            let j = choose|j: int| 0 <= j < vacant.len() && vacant[j] == k;
            assert(self.free@[j] as int == k);
        }
        vstd::set_lib::lemma_len_subset(vacant.to_set(), others);
    }

    /// Filling the slot at the head of the free list.
    #[verifier::spinoff_prover]
    #[verifier::rlimit(40)]
    proof fn lemma_slot_filled(before: Arena<T>, after: Arena<T>, value: T)
        requires
            before.wf(),
            before.free@.len() > 0,
            after.free@ == before.free@.drop_last(),
            after.free_head == before.slots[before.free_head as int].next_free,
            after.len == before.len + 1,
            after.slots@ == before.slots@.update(
                before.free_head as int,
                Slot { value: Some(value), ..before.slots[before.free_head as int] },
            ),
        ensures
            after.wf(),
            after@ == before@.allocated(value),
    {
        let free = before.free@;
        let head = free.last();
        assert(before.free_head == head);
        assert(before.slots[head as int].next_free == before.free_link(free.len() - 1));
        assert forall|i: int| #[trigger] after.vacant(i) implies after.free@.contains(i as u32) by {
            assert(i != head);
            assert(before.vacant(i));
            let k = choose|k: int| 0 <= k < free.len() && free[k] == i as u32;
            assert(after.free@[k] == i as u32);
        }
        assert forall|k: int| 0 <= k < after.free@.len() implies {
            &&& (#[trigger] after.free@[k]) < after.slots.len()
            &&& after.slots[after.free@[k] as int].value is None
            &&& after.slots[after.free@[k] as int].next_free == after.free_link(k)
        } by {
            assert(after.free@[k] == free[k]);
            assert(free[k] != head);
            assert(after.free_link(k) == before.free_link(k));
        }
        assert(after.wf());
        Self::lemma_filled_view(before, after, value);
    }

    /// What filling the slot at the head of the free list does to the view.
    proof fn lemma_filled_view(before: Arena<T>, after: Arena<T>, value: T)
        requires
            before.wf(),
            before.free@.len() > 0,
            after.free@ == before.free@.drop_last(),
            after.slots@ == before.slots@.update(
                before.free_head as int,
                Slot { value: Some(value), ..before.slots[before.free_head as int] },
            ),
        ensures
            after@ == before@.allocated(value),
    {
        let head = before.free@.last();
        assert(before.slots[head as int].value is None);
        assert(before@.spare.last() == before.handle_of(head as int));
        assert(after@.live =~= before@.live.insert(before@.spare.last(), value));
        assert forall|k: int| 0 <= k < after.free@.len() implies #[trigger] after@.spare[k]
            == before@.spare[k] by {
            assert(after.free@[k] == before.free@[k]);
        }
        assert(after@.spare =~= before@.spare.drop_last());
    }

    /// Vacating a slot at the head of the free list.
    proof fn lemma_slot_freed(before: Arena<T>, after: Arena<T>, idx: ArenaIdx)
        requires
            before.wf(),
            before@.live.contains_key(idx),
            after.free@ == before.free@.push(idx.slot),
            after.free_head == idx.slot,
            after.len == before.len - 1,
            after.slots@ == before.slots@.update(
                idx.slot as int,
                Slot {
                    generation: next_generation(idx.generation),
                    value: None,
                    next_free: before.free_head,
                },
            ),
        ensures
            after.wf(),
            after@ == before@.removed(idx),
    {
        let free = before.free@;
        assert forall|i: int| #[trigger] after.vacant(i) implies after.free@.contains(i as u32) by {
            if i == idx.slot {
                assert(after.free@.last() == idx.slot);
            } else {
                assert(before.vacant(i));
                let k = free.index_of(i as u32);
                assert(after.free@[k] == i as u32);
            }
        }
        assert forall|k: int| 0 <= k < after.free@.len() implies {
            &&& (#[trigger] after.free@[k]) < after.slots.len()
            &&& after.slots[after.free@[k] as int].value is None
            &&& after.slots[after.free@[k] as int].next_free == after.free_link(k)
        } by {
            if k < free.len() {
                assert(after.free@[k] == free[k]);
                assert(free[k] != idx.slot);
                assert(after.free_link(k) == before.free_link(k));
            }
        }
        assert(after.free@.no_duplicates()) by {
            assert forall|k: int| 0 <= k < free.len() implies #[trigger] free[k] != idx.slot by {}
        }
        assert(after@.live =~= before@.live.remove(idx));
        assert(after@.spare =~= before@.spare.push(idx.bumped()));
    }

    /// The handle that the slot of `i` carries, as a map on slot numbers.
    closed spec fn handles(self) -> spec_fn(int) -> ArenaIdx {
        |i: int| self.handle_of(i)
    }

    /// What a well-formed arena promises of its abstract state: handles never
    /// share a slot, every slot is either live or spare, no handle lies outside of
    /// the arena, and `len` counts the live ones.
    pub proof fn lemma_model(self)
        requires
            self.wf(),
        ensures
            self@.wf(),
            self@.live.dom().finite(),
            self.len == self@.live.dom().len(),
            self.len + self@.spare.len() == self.capacity(),
            self.capacity() < u32::MAX,
            forall|h: ArenaIdx| #[trigger] self@.live.contains_key(h) ==> h.slot < self.capacity(),
            forall|i: int|
                0 <= i < self@.spare.len() ==> (#[trigger] self@.spare[i]).slot < self.capacity(),
    {
        let n = self.slots.len() as int;
        let slots = vstd::set_lib::set_int_range(0, n);
        vstd::set_lib::lemma_int_range(0, n);
        let f = self.handles();
        let all = slots.map(f);
        assert(vstd::relations::injective_on(f, slots));
        vstd::set_lib::lemma_map_size(slots, all, f);
        let live = self@.live.dom();
        let spare = self@.spare;
        assert(spare.no_duplicates());
        spare.unique_seq_to_set();
        assert(live.disjoint(spare.to_set())) by {
            assert forall|h: ArenaIdx| live.contains(h) implies !spare.to_set().contains(h) by {
                if spare.to_set().contains(h) {
                    let k = spare.index_of(h);
                    assert(self.free@[k] == h.slot);
                }
            }
        }
        assert(live + spare.to_set() =~= all) by {
            assert forall|h: ArenaIdx| live.contains(h) implies all.contains(h) by {
                assert(slots.contains(h.slot as int));
                assert(f(h.slot as int) == h);
            }
            assert forall|h: ArenaIdx| spare.to_set().contains(h) implies all.contains(h) by {
                let k = spare.index_of(h);
                assert(slots.contains(self.free@[k] as int));
                assert(f(self.free@[k] as int) == h);
            }
            assert forall|h: ArenaIdx| all.contains(h) implies (live + spare.to_set()).contains(
                h,
            ) by {
                let i = choose|i: int| slots.contains(i) && f(i) == h;
                if self.slots[i].value is None {
                    assert(self.vacant(i));
                    let k = self.free@.index_of(i as u32);
                    assert(spare[k] == h);
                }
            }
        }
        vstd::set_lib::lemma_set_subset_finite(all, live);
        vstd::set_lib::lemma_set_disjoint_lens(live, spare.to_set());
    }

    /// The arena is full exactly when as many handles are live as it has slots; until
    /// then the next handle is valid, lies within the arena and shares its slot with
    /// no live handle.
    pub proof fn law_full_when_all_slots_live(self)
        requires
            self.wf(),
        ensures
            self@.spare.len() == 0 <==> self@.live.dom().len() == self.capacity(),
            self@.spare.len() > 0 ==> {
                let next = self@.spare.last();
                &&& next.generation != 0
                &&& next.slot < self.capacity()
                &&& forall|h: ArenaIdx| #[trigger] self@.live.contains_key(h) ==> h.slot != next.slot
            },
    {
        self.lemma_model();
        if self@.spare.len() > 0 {
            let next = self@.spare[self@.spare.len() - 1];
            assert(next == self@.spare.last());
        }
    }

    /// An empty arena of `capacity` slots. The first allocation gets slot 0,
    /// the next one slot 1 and so on, each at generation 1.
    pub fn new(capacity: u32) -> (arena: Arena<T>)
        requires
            0 < capacity < u32::MAX,
        ensures
            arena.wf(),
            arena.capacity() == capacity,
            arena@.live == Map::<ArenaIdx, T>::empty(),
            arena@.spare == Seq::new(
                capacity as nat,
                |i: int| ArenaIdx { slot: (capacity - 1 - i) as u32, generation: 1 },
            ),
    {
        let mut slots: Vec<Slot<T>> = Vec::with_capacity(capacity as usize);
        let mut i: u32 = 0;
        while i < capacity
            invariant
                0 < capacity < u32::MAX,
                i <= capacity,
                slots.len() == i,
                forall|j: int|
                    0 <= j < i ==> (#[trigger] slots[j]).generation == 1 && slots[j].value is None
                        && slots[j].next_free == (if j + 1 < capacity {
                        (j + 1) as u32
                    } else {
                        u32::MAX
                    }),
            decreases capacity - i,
        {
            let next_free: u32 = if i + 1 < capacity {
                i + 1
            } else {
                u32::MAX
            };
            slots.push(Slot { generation: 1, value: None, next_free });
            i += 1;
        }
        let ghost free = Seq::new(capacity as nat, |i: int| (capacity - 1 - i) as u32);
        let arena = Arena { slots, free_head: 0, len: 0, free: Ghost(free) };
        proof {
            assert forall|i: int| #[trigger] arena.vacant(i) implies free.contains(i as u32) by {
                assert(free[capacity - 1 - i] == i as u32);
            }
            assert(arena@.live =~= Map::empty());
        }
        arena
    }

    /// The value behind a live handle.
    pub fn get(&self, idx: ArenaIdx) -> (r: Option<&T>)
        requires
            self.wf(),
        ensures
            match r {
                Some(v) => self@.live.contains_key(idx) && self@.live[idx] == *v,
                None => !self@.live.contains_key(idx),
            },
    {
        if !idx.is_valid() {
            return None;
        }
        if (idx.slot as usize) < self.slots.len() {
            self.slots[idx.slot as usize].get(idx.generation)
        } else {
            None
        }
    }

    /// Mutable access to the value behind a live handle.
    pub fn get_mut(&mut self, idx: ArenaIdx) -> (r: Option<&mut T>)
        requires
            old(self).wf(),
        ensures
            final(self).wf(),
            final(self).capacity() == old(self).capacity(),
            match r {
                Some(v) => {
                    &&& old(self)@.live.contains_key(idx)
                    &&& old(self)@.live[idx] == *v
                    &&& final(self)@ == old(self)@.updated(idx, *final(v))
                },
                None => !old(self)@.live.contains_key(idx) && final(self)@ == old(self)@,
            },
    {
        if !idx.is_valid() {
            return None;
        }
        if (idx.slot as usize) < self.slots.len() {
            proof {
                old(self).lemma_wf_frame();
            }
            self.slots[idx.slot as usize].get_mut(idx.generation)
        } else {
            None
        }
    }

    /// Store `value` under the next spare handle; `None` when no slot is free.
    pub fn allocate(&mut self, value: T) -> (r: Option<ArenaIdx>)
        requires
            old(self).wf(),
        ensures
            final(self).wf(),
            final(self).capacity() == old(self).capacity(),
            match r {
                Some(idx) => {
                    &&& old(self)@.spare.len() > 0
                    &&& idx == old(self)@.spare.last()
                    &&& idx.slot < old(self).capacity()
                    &&& idx != ArenaIdx::sentinel()
                    &&& final(self)@ == old(self)@.allocated(value)
                },
                None => old(self)@.spare.len() == 0 && final(self)@ == old(self)@,
            },
    {
        if self.free_head == u32::MAX {
            return None;
        }
        let slot_idx: u32 = self.free_head;
        let generation: u32 = self.slots[slot_idx as usize].generation;
        self.free_head = self.slots[slot_idx as usize].next_free;
        self.slots[slot_idx as usize].insert(value);
        self.len += 1;
        proof {
            self.free@ = self.free@.drop_last();
            assert(self.slots@ =~= old(self).slots@.update(
                slot_idx as int,
                Slot { value: Some(value), ..old(self).slots[slot_idx as int] },
            ));
            Self::lemma_slot_filled(*old(self), *self, value);
        }
        Some(ArenaIdx { slot: slot_idx, generation })
    }

    /// Take the value behind a live handle and retire the handle.
    pub fn remove(&mut self, idx: ArenaIdx) -> (r: Option<T>)
        requires
            old(self).wf(),
        ensures
            final(self).wf(),
            final(self).capacity() == old(self).capacity(),
            match r {
                Some(v) => {
                    &&& old(self)@.live.contains_key(idx)
                    &&& old(self)@.live[idx] == v
                    &&& final(self)@ == old(self)@.removed(idx)
                },
                None => !old(self)@.live.contains_key(idx) && final(self)@ == old(self)@,
            },
    {
        if idx.slot as usize >= self.slots.len() {
            return None;
        }
        let taken = self.slots[idx.slot as usize].remove(idx.generation);
        if taken.is_none() {
            proof {
                old(self).lemma_wf_frame();
                assert(old(self).same_shape(*self));
                assert(self@.live =~= old(self)@.live);
            }
            return None;
        }
        proof {
            old(self).lemma_occupied_is_counted(idx.slot as int);
        }
        self.slots[idx.slot as usize].next_free = self.free_head;
        self.len -= 1;
        self.free_head = idx.slot;
        proof {
            self.free@ = self.free@.push(idx.slot);
            assert(self.slots@ =~= old(self).slots@.update(
                idx.slot as int,
                Slot {
                    generation: next_generation(idx.generation),
                    value: None,
                    next_free: old(self).free_head,
                },
            ));
            Self::lemma_slot_freed(*old(self), *self, idx);
        }
        taken
    }
}

/// A removed handle stays dead, whatever is stored in its slot next: the slot
/// is reissued first, and under a handle of another generation.
pub proof fn law_stale_handle_reads_as_absent<T>(m: ArenaModel<T>, idx: ArenaIdx, value: T)
    requires
        m.wf(),
        m.live.contains_key(idx),
    ensures
        !m.removed(idx).live.contains_key(idx),
        m.removed(idx).spare.last().slot == idx.slot,
        m.removed(idx).spare.last() != idx,
        !m.removed(idx).allocated(value).live.contains_key(idx),
{
}

/// Handles that are removed one after the other are reissued in the opposite
/// order.
pub proof fn law_free_list_is_lifo<T>(
    m: ArenaModel<T>,
    first: ArenaIdx,
    second: ArenaIdx,
    value: T,
)
    requires
        m.wf(),
        m.live.contains_key(first),
        m.live.contains_key(second),
        first != second,
    ensures
        m.removed(first).removed(second).spare.last() == second.bumped(),
        m.removed(first).removed(second).allocated(value).spare.last() == first.bumped(),
{
    let freed = m.removed(first).removed(second);
    assert(freed.spare.drop_last() =~= m.removed(first).spare);
}

/// Storing a value and removing it again puts every other handle back as it
/// was and leaves the slot first in line, one generation on.
pub proof fn law_alloc_then_remove<T>(m: ArenaModel<T>, value: T)
    requires
        m.wf(),
        m.spare.len() > 0,
    ensures
        ({
            let idx = m.spare.last();
            let round = m.allocated(value).removed(idx);
            &&& m.allocated(value).live[idx] == value
            &&& round.live == m.live
            &&& round.spare == m.spare.drop_last().push(idx.bumped())
        }),
{
    let idx = m.spare.last();
    assert(!m.live.contains_key(idx));
    assert(m.allocated(value).removed(idx).live =~= m.live);
}

/// Every operation keeps handles valid and slots unshared.
pub proof fn law_operations_keep_handles_apart<T>(m: ArenaModel<T>, idx: ArenaIdx, value: T)
    requires
        m.wf(),
    ensures
        m.spare.len() > 0 ==> m.allocated(value).wf() && m.spare.last() != ArenaIdx::sentinel(),
        m.live.contains_key(idx) ==> m.removed(idx).wf() && m.updated(idx, value).wf(),
{
    if m.spare.len() > 0 {
        let next = m.allocated(value);
        assert forall|i: int, h: ArenaIdx|
            #![trigger next.spare[i], next.live.contains_key(h)]
            0 <= i < next.spare.len() && next.live.contains_key(
                h,
            ) implies next.spare[i].slot != h.slot by {
            assert(next.spare[i] == m.spare[i]);
        }
    }
}

/// The handle that a slot carries after `n` removals, starting from `idx`.
pub open spec fn bumped_times(idx: ArenaIdx, n: nat) -> ArenaIdx
    decreases n,
{
    if n == 0 {
        idx
    } else {
        bumped_times(idx, (n - 1) as nat).bumped()
    }
}

/// A handle comes round again only once its slot has been through all the
/// other generations: fewer than `u32::MAX` removals never bring it back, and
/// none of them produces generation zero.
pub proof fn law_generations_do_not_repeat(idx: ArenaIdx, n: nat)
    requires
        idx.generation != 0,
    ensures
        bumped_times(idx, n).generation != 0,
        bumped_times(idx, n).slot == idx.slot,
        0 < n < u32::MAX ==> bumped_times(idx, n) != idx,
        bumped_times(idx, u32::MAX as nat) == idx,
{
    lemma_generation_after(idx, n);
    lemma_generation_after(idx, u32::MAX as nat);
    let g = idx.generation as int - 1;
    let period = u32::MAX as int;
    assert(period > 0);
    assert((g + period) % period == g) by (nonlinear_arith)
        requires
            0 <= g < period,
    ;
    if 0 < n < u32::MAX {
        assert((g + n) % period != g) by (nonlinear_arith)
            requires
                0 <= g < period,
                0 < n < period,
        ;
    }
}

proof fn lemma_generation_after(idx: ArenaIdx, n: nat)
    requires
        idx.generation != 0,
    ensures
        bumped_times(idx, n).slot == idx.slot,
        bumped_times(idx, n).generation == (idx.generation - 1 + n) % (u32::MAX as int) + 1,
    decreases n,
{
    let period = u32::MAX as int;
    if n == 0 {
        assert((idx.generation - 1) % period == idx.generation - 1);
    } else {
        lemma_generation_after(idx, (n - 1) as nat);
        let x = idx.generation - 1 + n - 1;
        assert((x + 1) % period == if x % period == period - 1 {
            0
        } else {
            x % period + 1
        });
    }
}

/// Storing, removing and changing a value touches one handle: every other live
/// handle keeps its value. What is stored is read back, what is removed is gone, and
/// its slot moves on by exactly one generation, from the last one to the first.
pub proof fn law_operations_touch_one_handle<T>(
    m: ArenaModel<T>,
    idx: ArenaIdx,
    value: T,
    other: ArenaIdx,
)
    requires
        m.wf(),
    ensures
        m.spare.len() > 0 ==> {
            let new = m.spare[m.spare.len() - 1];
            let after = m.allocated(value);
            &&& !m.live.contains_key(new)
            &&& after.live.contains_key(new) && after.live[new] == value
            &&& other != new ==> after.live.contains_key(other) == m.live.contains_key(other)
                && after.live[other] == m.live[other]
            &&& after.spare.len() == m.spare.len() - 1
            &&& forall|k: int|
                0 <= k < after.spare.len() ==> #[trigger] after.spare[k] == m.spare[k]
        },
        m.live.contains_key(idx) ==> {
            let after = m.removed(idx);
            let freed = after.spare[m.spare.len() as int];
            &&& !after.live.contains_key(idx)
            &&& other != idx ==> after.live.contains_key(other) == m.live.contains_key(other)
                && after.live[other] == m.live[other]
            &&& after.spare.len() == m.spare.len() + 1
            &&& forall|k: int| 0 <= k < m.spare.len() ==> #[trigger] after.spare[k] == m.spare[k]
            &&& freed.slot == idx.slot
            &&& freed.generation == if idx.generation == 0xffff_ffff {
                1
            } else {
                idx.generation + 1
            }
        },
        m.live.contains_key(idx) ==> {
            let after = m.updated(idx, value);
            &&& after.live.contains_key(idx) && after.live[idx] == value
            &&& other != idx ==> after.live.contains_key(other) == m.live.contains_key(other)
                && after.live[other] == m.live[other]
            &&& after.spare == m.spare
        },
{
    if m.spare.len() > 0 {
        assert(m.spare[m.spare.len() - 1] == m.spare.last());
    }
}

} // verus!
