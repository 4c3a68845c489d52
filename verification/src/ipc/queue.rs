//! The ring and its two ends.
use super::policy::{LapPolicy, PollResult};
use super::slot;
use super::slot::{slot_index, slot_state, stable_version, SlotState};
use vstd::prelude::*;

verus! {

/// One slot of the ring. A slot that was never written has version 0.
pub struct Slot<T> {
    pub version: u64,
    pub data: Option<T>,
}

/// A ring of a power of two of slots.
pub struct Queue<T> {
    slots: Vec<Slot<T>>,
    capacity: u32,
    mask: u32,
    log2_cap: u8,
    /// How many values were published.
    published: u64,
    /// The values published, oldest first.
    history: Ghost<Seq<T>>,
}

/// The writing end: exactly one per queue.
pub struct Producer {
    cursor: u64,
    mask: u32,
    log2_cap: u8,
}

/// A reading end, with a position and a lap policy of its own.
pub struct Consumer {
    cursor: u64,
    mask: u32,
    log2_cap: u8,
    policy: LapPolicy,
    halted: bool,
}

/// A capacity that a ring can have.
pub open spec fn is_ring_capacity(capacity: u32) -> bool {
    exists|log2: nat| log2 < 32 && capacity == #[trigger] slot::ring_size(log2)
}

impl<T> View for Queue<T> {
    type V = Seq<T>;

    /// The values published so far, oldest first.
    closed spec fn view(&self) -> Seq<T> {
        self.history@
    }
}

impl<T> Queue<T> {
    /// The number of slots.
    pub closed spec fn size(self) -> nat {
        self.capacity as nat
    }

    pub closed spec fn log2(self) -> nat {
        self.log2_cap as nat
    }

    /// The version of the `i`-th slot.
    pub closed spec fn version_at(self, i: int) -> u64 {
        self.slots[i].version
    }

    /// The value in the `i`-th slot, if it was ever written.
    pub closed spec fn value_at(self, i: int) -> Option<T> {
        self.slots[i].data
    }

    /// The slot of `s` holds the value of `s`.
    closed spec fn slot_holds(self, s: int) -> bool {
        let k = slot::place(s as nat, self.log2_cap as nat) as int;
        &&& self.slots[k].version == slot::stable(s as nat, self.log2_cap as nat)
        &&& self.slots[k].data == Some(self.history@[s])
    }

    /// The slots hold the newest values, as many as there are slots.
    pub closed spec fn wf(self) -> bool {
        &&& self.log2_cap < 32
        &&& self.capacity == slot::ring_size(self.log2_cap as nat)
        &&& self.mask + 1 == self.capacity
        &&& self.slots.len() == self.capacity
        &&& self.published == self.history@.len()
        &&& forall|s: int|
            0 <= s && self.published - self.capacity <= s < self.published
                ==> #[trigger] self.slot_holds(s)
        &&& forall|i: int|
            self.published <= i < self.capacity ==> (#[trigger] self.slots[i]).version == 0
    }

    /// What `wf` says of the published count.
    pub proof fn lemma_model(self)
        requires
            self.wf(),
        ensures
            self@.len() <= u64::MAX,
            self.log2() < 32,
            self.size() == slot::ring_size(self.log2()),
            self.size() > 0,
    {
    }

    /// The ring holds the newest values, as many as it has slots: each lies in the
    /// slot of its sequence number modulo the size, under the stable version of its
    /// lap. A slot that nothing was published to has version 0.
    pub proof fn law_ring_holds_newest(self)
        requires
            self.wf(),
        ensures
            forall|s: int|
                0 <= s && self@.len() - self.size() <= s < self@.len() ==> {
                    let i = s % self.size() as int;
                    &&& #[trigger] self@[s] == self.value_at(i)->0
                    &&& self.value_at(i) is Some
                    &&& self.version_at(i) == 2 * (s / self.size() as int) + 2
                },
            forall|i: int| self@.len() <= i < self.size() ==> #[trigger] self.version_at(i) == 0,
    {
        assert forall|s: int| 0 <= s && self@.len() - self.size() <= s < self@.len() implies {
            let i = s % self.size() as int;
            &&& #[trigger] self@[s] == self.value_at(i)->0
            &&& self.value_at(i) is Some
            &&& self.version_at(i) == 2 * (s / self.size() as int) + 2
        } by {
            assert(self.slot_holds(s));
        }
    }
}

impl<T: Copy> Queue<T> {
    /// An empty ring and its producer.
    pub fn new(capacity: u32) -> (r: (Queue<T>, Producer))
        requires
            is_ring_capacity(capacity),
        ensures
            r.0.wf(),
            r.0.size() == capacity,
            r.0@ == Seq::<T>::empty(),
            r.1.tied(r.0),
    {
        let ghost k = choose|log2: nat| log2 < 32 && capacity == #[trigger] slot::ring_size(log2);
        proof {
            vstd::arithmetic::power2::lemma_pow2_pos(k);
            vstd::bits::lemma_u32_pow2_no_overflow(k);
        }
        let tz: u32 = capacity.trailing_zeros();
        proof {
            lemma_trailing_zeros(capacity, k, tz);
        }
        let log2_cap: u8 = tz as u8;
        let mask: u32 = capacity - 1;
        let mut slots: Vec<Slot<T>> = Vec::with_capacity(capacity as usize);
        let mut i: u32 = 0;
        while i < capacity
            invariant
                i <= capacity,
                slots.len() == i,
                forall|j: int| 0 <= j < i ==> (#[trigger] slots[j]).version == 0,
            decreases capacity - i,
        {
            slots.push(Slot { version: 0, data: None });
            i = i + 1;
        }
        proof {
            vstd::arithmetic::div_mod::lemma_small_mod(0, capacity as nat);
            vstd::arithmetic::div_mod::lemma_basic_div(0, capacity as int);
        }
        let queue = Queue {
            slots,
            capacity,
            mask,
            log2_cap,
            published: 0,
            history: Ghost(Seq::empty()),
        };
        (queue, Producer { cursor: 0, mask, log2_cap })
    }

    /// The number of slots.
    pub fn capacity(&self) -> (n: u32)
        ensures
            n == self.size(),
    {
        self.capacity
    }

    /// How many values were published.
    pub fn published(&self) -> (n: u64)
        requires
            self.wf(),
        ensures
            n == self@.len(),
    {
        self.published
    }

    /// A new consumer, which starts behind everything published so far.
    pub fn subscribe(&self, policy: LapPolicy) -> (c: Consumer)
        requires
            self.wf(),
        ensures
            c.tied(*self),
            c.position() == self@.len(),
            c.policy() == policy,
            !c.halted(),
    {
        Consumer {
            cursor: self.published,
            mask: self.mask,
            log2_cap: self.log2_cap,
            policy,
            halted: false,
        }
    }
}

/// Whether a ring can have this capacity.
pub fn is_power_of_two(capacity: u32) -> (r: bool)
    ensures
        r == is_ring_capacity(capacity),
{
    proof {
        if is_ring_capacity(capacity) {
            lemma_power_has_one_bit(capacity);
        } else if capacity > 0 && capacity & ((capacity - 1) as u32) == 0 {
            lemma_single_bit(capacity);
        }
    }
    capacity > 0 && capacity & (capacity - 1) == 0
}

/// A number with a single bit is a power of two.
proof fn lemma_single_bit(capacity: u32)
    requires
        capacity > 0,
        capacity & ((capacity - 1) as u32) == 0,
    ensures
        is_ring_capacity(capacity),
{
    broadcast use vstd::std_specs::bits::axiom_u32_trailing_zeros;

    let tz = vstd::std_specs::bits::u32_trailing_zeros(capacity);
    assert(tz < 32);
    assert((capacity >> tz) & 1u32 == 1u32);
    assert(capacity == 1u32 << tz) by (bit_vector)
        requires
            tz < 32,
            capacity & ((capacity - 1) as u32) == 0,
            capacity > 0,
            (capacity >> tz) & 1u32 == 1u32,
    ;
    vstd::bits::lemma_u32_pow2_no_overflow(tz as nat);
    vstd::bits::lemma_u32_shl_is_mul(1, tz);
    assert(capacity == slot::ring_size(tz as nat));
}

/// The trailing zeros of a power of two are its exponent.
proof fn lemma_trailing_zeros(capacity: u32, k: nat, tz: u32)
    requires
        k < 32,
        capacity == vstd::arithmetic::power2::pow2(k),
        tz == vstd::std_specs::bits::u32_trailing_zeros(capacity),
    ensures
        tz == k,
{
    broadcast use vstd::std_specs::bits::axiom_u32_trailing_zeros;

    vstd::arithmetic::power2::lemma_pow2_pos(k);
    let n: u32 = k as u32;
    vstd::bits::lemma_u32_shl_is_mul(1, n);
    assert(capacity == 1u32 << n);
    assert(tz < 32);
    assert((capacity >> tz) & 1u32 == 1u32);
    assert(tz == n) by (bit_vector)
        requires
            n < 32,
            tz < 32,
            capacity == 1u32 << n,
            (capacity >> tz) & 1u32 == 1u32,
    ;
}

impl Producer {
    /// The producer stands at the end of what `queue` has published.
    pub closed spec fn tied<T>(self, queue: Queue<T>) -> bool {
        &&& self.cursor == queue.published
        &&& self.mask == queue.mask
        &&& self.log2_cap == queue.log2_cap
    }

    /// Append `value`, overwriting the oldest one if the ring is full; gives
    /// back its sequence number.
    pub fn publish<T: Copy>(&mut self, queue: &mut Queue<T>, value: T) -> (seq: u64)
        requires
            old(queue).wf(),
            old(self).tied(*old(queue)),
            old(queue)@.len() < u64::MAX,
            2 * (old(queue)@.len() / old(queue).size()) + 2 <= u64::MAX,
        ensures
            final(queue).wf(),
            final(self).tied(*final(queue)),
            final(queue).size() == old(queue).size(),
            final(queue).log2() == old(queue).log2(),
            final(queue)@ == old(queue)@.push(value),
            seq == old(queue)@.len(),
            ({
                let n = old(queue)@.len();
                let c = old(queue).size();
                &&& final(queue).version_at((n % c) as int) == 2 * (n / c) + 2
                &&& final(queue).value_at((n % c) as int) == Some(value)
                &&& forall|i: int|
                    0 <= i < c && i != n % c ==> {
                        &&& #[trigger] final(queue).version_at(i) == old(queue).version_at(i)
                        &&& final(queue).value_at(i) == old(queue).value_at(i)
                    }
            }),
    {
        let seq: u64 = self.cursor;
        let i: usize = slot_index(seq, self.mask, self.log2_cap);
        let version: u64 = stable_version(seq, self.log2_cap);
        queue.slots.set(i, Slot { version, data: Some(value) });
        queue.history = Ghost(queue.history@.push(value));
        self.cursor = seq + 1;
        queue.published = self.cursor;
        proof {
            let log2 = queue.log2_cap as nat;
            let n = queue.capacity as int;
            assert forall|s: int|
                0 <= s && queue.published - queue.capacity <= s
                    < queue.published implies #[trigger] queue.slot_holds(s) by {
                if s < seq {
                    assert(old(queue).slot_holds(s));
                    if slot::place(s as nat, log2) == slot::place(seq as nat, log2) {
                        slot::law_one_lap_apart(s as nat, seq as nat, log2);
                    }
                    vstd::arithmetic::div_mod::lemma_mod_bound(s, n);
                }
            }
            assert forall|j: int| queue.published <= j < queue.capacity implies (
            #[trigger] queue.slots[j]).version == 0 by {
                vstd::arithmetic::div_mod::lemma_small_mod(seq as nat, n as nat);
                assert(old(queue).slots[j].version == 0);
            }
        }
        seq
    }
}

/// What a poll answers a consumer at `at` once `history` has been published to a
/// ring of `size` slots, where the consumer is then, and whether it has halted.
pub open spec fn polled<T>(
    history: Seq<T>,
    size: nat,
    at: nat,
    policy: LapPolicy,
    halted: bool,
) -> (PollResult<T>, nat, bool) {
    let lost = (history.len() - at) as u64;
    if halted {
        (PollResult::Halted { last_safe_seq: at as u64, slots_lost: lost }, at, true)
    } else if at == history.len() {
        (PollResult::Empty, at, false)
    } else if history.len() - at <= size {
        (PollResult::Ready(history[at as int]), at + 1, false)
    } else if policy == LapPolicy::Halt {
        (PollResult::Halted { last_safe_seq: at as u64, slots_lost: lost }, at, true)
    } else {
        (
            PollResult::Skipped { slots_lost: lost, new_seq: history.len() as u64 },
            history.len(),
            false,
        )
    }
}

/// The answers of `n` polls in a row.
pub open spec fn answers<T>(
    history: Seq<T>,
    size: nat,
    at: nat,
    policy: LapPolicy,
    halted: bool,
    n: nat,
) -> Seq<PollResult<T>>
    decreases n,
{
    if n == 0 {
        Seq::empty()
    } else {
        let p = polled(history, size, at, policy, halted);
        seq![p.0] + answers(history, size, p.1, policy, p.2, (n - 1) as nat)
    }
}

/// A consumer that is at most a ring's length behind reads what was published, in
/// order, each value once.
pub proof fn law_values_arrive_in_order<T>(
    history: Seq<T>,
    size: nat,
    at: nat,
    policy: LapPolicy,
    n: nat,
)
    requires
        at + n <= history.len() <= at + size,
    ensures
        answers(history, size, at, policy, false, n) == Seq::new(
            n,
            |i: int| PollResult::Ready(history[at + i]),
        ),
    decreases n,
{
    if n > 0 {
        law_values_arrive_in_order(history, size, at + 1, policy, (n - 1) as nat);
        assert(answers(history, size, at, policy, false, n) =~= Seq::new(
            n,
            |i: int| PollResult::Ready(history[at + i]),
        ));
    }
}

/// A consumer that has halted stays halted, and stays where it is, whatever is
/// published.
pub proof fn law_halt_is_sticky<T>(
    history: Seq<T>,
    later: Seq<T>,
    size: nat,
    at: nat,
    policy: LapPolicy,
    halted: bool,
)
    requires
        polled(history, size, at, policy, halted).0 is Halted,
    ensures
        ({
            let first = polled(history, size, at, policy, halted);
            let next = polled(history + later, size, first.1, policy, first.2);
            &&& first.1 == at && first.2
            &&& next.0 is Halted && next.1 == at && next.2
        }),
{
}

/// A consumer that skips ahead is up to date: it has nothing to read until
/// something new is published, and then reads that.
pub proof fn law_skip_resynchronises<T>(
    history: Seq<T>,
    value: T,
    size: nat,
    at: nat,
    policy: LapPolicy,
)
    requires
        size > 0,
        polled(history, size, at, policy, false).0 is Skipped,
    ensures
        ({
            let now = polled(history, size, at, policy, false).1;
            &&& polled(history, size, now, policy, false).0 is Empty
            &&& polled(history.push(value), size, now, policy, false).0 == PollResult::Ready(value)
        }),
{
}

impl Consumer {
    /// The sequence number of the next value to read.
    pub closed spec fn position(self) -> nat {
        self.cursor as nat
    }

    pub closed spec fn policy(self) -> LapPolicy {
        self.policy
    }

    pub closed spec fn halted(self) -> bool {
        self.halted
    }

    /// One less than the size of the ring that the consumer reads.
    pub closed spec fn mask(self) -> nat {
        self.mask as nat
    }

    /// The binary logarithm of the size of the ring that the consumer reads.
    pub closed spec fn log2(self) -> nat {
        self.log2_cap as nat
    }

    /// The consumer reads a ring of the size of `queue` and is not ahead of it.
    pub open spec fn tied<T>(self, queue: Queue<T>) -> bool {
        &&& self.position() <= queue@.len()
        &&& self.mask() + 1 == queue.size()
        &&& self.log2() == queue.log2()
    }

    /// A consumer at `cursor`, for a ring of `mask + 1` slots.
    pub fn at(cursor: u64, mask: u32, log2_cap: u8, policy: LapPolicy) -> (c: Consumer)
        ensures
            c.position() == cursor,
            c.mask() == mask,
            c.log2() == log2_cap,
            c.policy() == policy,
            !c.halted(),
    {
        Consumer { cursor, mask, log2_cap, policy, halted: false }
    }

    /// The sequence number of the next value to read.
    pub fn cursor(&self) -> (seq: u64)
        ensures
            seq == self.position(),
    {
        self.cursor
    }

    /// Whether the consumer has stopped for good.
    pub fn is_halted(&self) -> (halted: bool)
        ensures
            halted == self.halted(),
    {
        self.halted
    }

    /// Whether the policy forbids being overtaken.
    pub fn panics_when_lapped(&self) -> (r: bool)
        ensures
            r == (self.policy() == LapPolicy::Panic),
    {
        self.policy == LapPolicy::Panic
    }

    /// Step past a value that was read.
    pub fn advance<T>(&mut self, value: T) -> (r: PollResult<T>)
        requires
            old(self).position() < u64::MAX,
        ensures
            r == PollResult::Ready(value),
            final(self).position() == old(self).position() + 1,
            final(self).policy() == old(self).policy(),
            final(self).halted() == old(self).halted(),
            final(self).mask() == old(self).mask(),
            final(self).log2() == old(self).log2(),
    {
        self.cursor = self.cursor + 1;
        PollResult::Ready(value)
    }

    /// The answer of a consumer that has halted.
    pub fn halted_result<T>(&self, published: u64) -> (r: PollResult<T>)
        requires
            self.position() <= published,
        ensures
            r == (PollResult::<T>::Halted {
                last_safe_seq: self.position() as u64,
                slots_lost: (published - self.position()) as u64,
            }),
    {
        PollResult::Halted { last_safe_seq: self.cursor, slots_lost: published - self.cursor }
    }

    /// Resolve having been overtaken: halt where the consumer stands, or skip
    /// to what has been published.
    pub fn resolve_lap<T>(&mut self, published: u64) -> (r: PollResult<T>)
        requires
            old(self).position() <= published,
            old(self).policy() != LapPolicy::Panic,
        ensures
            final(self).policy() == old(self).policy(),
            if old(self).policy() == LapPolicy::Halt {
                &&& r == (PollResult::<T>::Halted {
                    last_safe_seq: old(self).position() as u64,
                    slots_lost: (published - old(self).position()) as u64,
                })
                &&& final(self).position() == old(self).position()
                &&& final(self).halted()
            } else {
                &&& r == (PollResult::<T>::Skipped {
                    slots_lost: (published - old(self).position()) as u64,
                    new_seq: published,
                })
                &&& final(self).position() == published
                &&& final(self).halted() == old(self).halted()
            },
            final(self).mask() == old(self).mask(),
            final(self).log2() == old(self).log2(),
    {
        let lost: u64 = published - self.cursor;
        match self.policy {
            LapPolicy::Halt => {
                self.halted = true;
                PollResult::Halted { last_safe_seq: self.cursor, slots_lost: lost }
            },
            _ => {
                self.cursor = published;
                PollResult::Skipped { slots_lost: lost, new_seq: published }
            },
        }
    }

    /// The next value, if there is one. A consumer that is more than a ring's
    /// length behind has lost values and goes by its policy.
    pub fn poll<T: Copy>(&mut self, queue: &Queue<T>) -> (r: PollResult<T>)
        requires
            queue.wf(),
            old(self).tied(*queue),
            old(self).policy() == LapPolicy::Panic && !old(self).halted() ==> queue@.len()
                - old(self).position() <= queue.size(),
        ensures
            final(self).tied(*queue),
            final(self).policy() == old(self).policy(),
            ({
                let p = polled(
                    queue@,
                    queue.size(),
                    old(self).position(),
                    old(self).policy(),
                    old(self).halted(),
                );
                &&& r == p.0
                &&& final(self).position() == p.1
                &&& final(self).halted() == p.2
            }),
    {
        if self.halted {
            return self.halted_result(queue.published);
        }
        let seq: u64 = self.cursor;
        proof {
            queue.lemma_slot_of(seq);
        }
        proof {
            vstd::bits::lemma_u64_shr_is_div(seq, self.log2_cap as u64);
        }
        if seq >> self.log2_cap >= u64::MAX / 2 {
            // No slot can have the version of this lap.
            return PollResult::Empty;
        }
        let i: usize = slot_index(seq, self.mask, self.log2_cap);
        let slot = &queue.slots[i];
        match slot_state(slot.version, seq, self.log2_cap) {
            SlotState::Pending => PollResult::Empty,
            SlotState::Stable => match slot.data {
                Some(value) => self.advance(value),
                None => PollResult::Empty,
            },
            SlotState::Lapped => self.resolve_lap(queue.published),
        }
    }
}

impl<T> Queue<T> {
    /// What the slot of `seq` holds, by how far the queue has moved on.
    proof fn lemma_slot_of(self, seq: u64)
        requires
            self.wf(),
            seq <= self.published,
        ensures
            ({
                let log2 = self.log2_cap as nat;
                let k = slot::place(seq as nat, log2) as int;
                let expected = slot::stable(seq as nat, log2);
                &&& 0 <= k < self.slots.len()
                &&& seq < self.published ==> expected <= u64::MAX
                &&& seq == self.published ==> self.slots[k].version < expected
                &&& seq < self.published && self.published - seq <= self.capacity
                    ==> self.slot_holds(seq as int)
                &&& self.published - seq > self.capacity ==> self.slots[k].version > expected
            }),
    {
        let log2 = self.log2_cap as nat;
        let n = self.capacity as int;
        let p = self.published as int;
        let s = seq as int;
        let k = slot::place(seq as nat, log2) as int;
        vstd::arithmetic::power2::lemma_pow2_pos(log2);
        vstd::arithmetic::div_mod::lemma_mod_bound(s, n);
        if s < p {
            assert(self.slot_holds(p - 1));
            vstd::arithmetic::div_mod::lemma_div_is_ordered(s, p - 1, n);
        }
        if s == p {
            if p < n {
                vstd::arithmetic::div_mod::lemma_small_mod(seq as nat, n as nat);
                assert(self.slots[k].version == 0);
            } else {
                let t = p - n;
                vstd::arithmetic::div_mod::lemma_mod_sub_multiples_vanish(p, n);
                assert(self.slot_holds(t));
                slot::law_versions_order_laps(t as nat, seq as nat, log2);
            }
        } else if p - s <= n {
            assert(self.slot_holds(s));
        } else {
            let m = (p - 1 - s) / n;
            let t = s + m * n;
            vstd::arithmetic::div_mod::lemma_fundamental_div_mod(p - 1 - s, n);
            vstd::arithmetic::div_mod::lemma_mod_bound(p - 1 - s, n);
            assert(n * m == m * n) by (nonlinear_arith);
            assert(m * n > 0);
            vstd::arithmetic::div_mod::lemma_mod_multiples_vanish(m, s, n);
            assert(self.slot_holds(t));
            slot::law_versions_order_laps(seq as nat, t as nat, log2);
        }
    }
}

/// A consumer that is not halted and has read everything has nothing to read; one
/// that is behind by no more than the ring holds gets the next value, whatever its
/// policy, and steps on by one.
pub proof fn law_consumer_within_the_ring_reads_on<T>(
    history: Seq<T>,
    size: nat,
    at: nat,
    policy: LapPolicy,
)
    requires
        at <= history.len() <= at + size,
    ensures
        ({
            let p = polled(history, size, at, policy, false);
            &&& !p.2
            &&& at == history.len() ==> p.0 is Empty && p.1 == at
            &&& at < history.len() ==> p.0 == PollResult::Ready(history[at as int]) && p.1 == at + 1
        }),
{
}

/// A consumer that is behind by more than the ring holds has lost values, by however
/// much. Under `Halt` it stops for good where it is; under a skip policy it goes on
/// from the producer's position. Either way it is told how many values it was behind.
pub proof fn law_lapped_consumer_goes_by_its_policy<T>(
    history: Seq<T>,
    size: nat,
    at: nat,
    policy: LapPolicy,
)
    requires
        at + size < history.len() <= u64::MAX,
    ensures
        ({
            let p = polled(history, size, at, policy, false);
            &&& policy == LapPolicy::Halt ==> {
                &&& p.0 matches PollResult::Halted { last_safe_seq, slots_lost } && last_safe_seq == at
                    && slots_lost == history.len() - at
                &&& p.1 == at
                &&& p.2
            }
            &&& policy == LapPolicy::SkipToLatest || policy == LapPolicy::SkipAndAlert ==> {
                &&& p.0 matches PollResult::Skipped { slots_lost, new_seq } && slots_lost
                    == history.len() - at && new_seq == history.len()
                &&& p.1 == history.len()
                &&& !p.2
            }
        }),
{
}

/// No other state gives these answers: only a consumer under `Halt` halts, only one
/// under a skip policy skips, both only when lapped, and a value is read only if it
/// is the one at the consumer's position.
pub proof fn law_answers_tell_the_state<T>(
    history: Seq<T>,
    size: nat,
    at: nat,
    policy: LapPolicy,
    halted: bool,
)
    requires
        at <= history.len() <= u64::MAX,
    ensures
        match polled(history, size, at, policy, halted).0 {
            PollResult::Ready(value) => !halted && at < history.len() <= at + size && value
                == history[at as int],
            PollResult::Empty => !halted && at == history.len(),
            PollResult::Halted { last_safe_seq, slots_lost } => {
                &&& last_safe_seq == at && slots_lost == history.len() - at
                &&& halted || (policy == LapPolicy::Halt && at + size < history.len())
            },
            PollResult::Skipped { slots_lost, new_seq } => {
                &&& new_seq == history.len() && slots_lost == history.len() - at
                &&& !halted && policy != LapPolicy::Halt && at + size < history.len()
            },
        },
        halted ==> polled(history, size, at, policy, halted).1 == at && polled(
            history,
            size,
            at,
            policy,
            halted,
        ).2,
{
}

/// A ring can have exactly the sizes with a single bit.
pub proof fn law_ring_sizes_have_one_bit(capacity: u32)
    ensures
        is_ring_capacity(capacity) <==> capacity > 0 && capacity & ((capacity - 1) as u32) == 0,
{
    if is_ring_capacity(capacity) {
        lemma_power_has_one_bit(capacity);
    } else if capacity > 0 && capacity & ((capacity - 1) as u32) == 0 {
        lemma_single_bit(capacity);
    }
}

proof fn lemma_power_has_one_bit(capacity: u32)
    requires
        is_ring_capacity(capacity),
    ensures
        capacity > 0,
        capacity & ((capacity - 1) as u32) == 0,
{
    let k = choose|log2: nat| log2 < 32 && capacity == #[trigger] slot::ring_size(log2);
    vstd::arithmetic::power2::lemma_pow2_pos(k);
    let n: u32 = k as u32;
    vstd::bits::lemma_u32_pow2_no_overflow(k);
    vstd::bits::lemma_u32_shl_is_mul(1, n);
    assert(capacity & ((capacity - 1) as u32) == 0) by (bit_vector)
        requires
            n < 32,
            capacity == 1u32 << n,
    ;
}

} // verus!
