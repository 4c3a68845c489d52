//! Slot versions.
use vstd::prelude::*;

verus! {

/// The ring has `1 << log2` slots.
pub open spec fn ring_size(log2: nat) -> nat {
    vstd::arithmetic::power2::pow2(log2)
}

/// How often the ring has been gone round before sequence number `seq`.
pub open spec fn lap(seq: nat, log2: nat) -> nat {
    seq / ring_size(log2)
}

/// The slot of sequence number `seq`.
pub open spec fn place(seq: nat, log2: nat) -> nat {
    seq % ring_size(log2)
}

/// The version of a slot that holds the value of `seq`.
pub open spec fn stable(seq: nat, log2: nat) -> nat {
    2 * lap(seq, log2) + 2
}

/// What a slot's version says about the value of a sequence number.
#[derive(Copy, Clone, Debug, PartialEq, Eq, Structural)]
pub enum SlotState {
    /// The value has not been written yet, or is being written.
    Pending,
    /// The slot holds the value.
    Stable,
    /// The slot has been written, or is being written, for a later lap.
    Lapped,
}

/// The slot index of `seq` in a ring of `mask + 1` slots.
pub fn slot_index(seq: u64, mask: u32, log2_cap: u8) -> (i: usize)
    requires
        log2_cap < 32,
        mask + 1 == ring_size(log2_cap as nat),
    ensures
        i == place(seq as nat, log2_cap as nat),
        i <= mask,
{
    proof {
        vstd::bits::lemma_u64_low_bits_mask_is_mod(seq, log2_cap as nat);
        vstd::bits::lemma_u64_pow2_no_overflow(log2_cap as nat);
        assert(vstd::bits::low_bits_mask(log2_cap as nat) == mask);
        assert(seq & (mask as u64) <= mask as u64) by (bit_vector);
    }
    (seq & (mask as u64)) as usize
}

/// The version of a slot while the value of `seq` is being written.
pub fn writing_version(seq: u64, log2_cap: u8) -> (v: u64)
    requires
        log2_cap < 32,
        stable(seq as nat, log2_cap as nat) <= u64::MAX,
    ensures
        v == stable(seq as nat, log2_cap as nat) - 1,
{
    proof {
        vstd::bits::lemma_u64_shr_is_div(seq, log2_cap as u64);
    }
    2 * (seq >> log2_cap) + 1
}

/// The version of a slot that holds the value of `seq`.
pub fn stable_version(seq: u64, log2_cap: u8) -> (v: u64)
    requires
        log2_cap < 32,
        stable(seq as nat, log2_cap as nat) <= u64::MAX,
    ensures
        v == stable(seq as nat, log2_cap as nat),
{
    proof {
        vstd::bits::lemma_u64_shr_is_div(seq, log2_cap as u64);
    }
    2 * (seq >> log2_cap) + 2
}

/// What the version of a slot says about the value of `seq`.
pub fn slot_state(version: u64, seq: u64, log2_cap: u8) -> (r: SlotState)
    requires
        log2_cap < 32,
        stable(seq as nat, log2_cap as nat) <= u64::MAX,
    ensures
        r == if version < stable(seq as nat, log2_cap as nat) {
            SlotState::Pending
        } else if version == stable(seq as nat, log2_cap as nat) {
            SlotState::Stable
        } else {
            SlotState::Lapped
        },
{
    let expected: u64 = stable_version(seq, log2_cap);
    if version < expected {
        SlotState::Pending
    } else if version == expected {
        SlotState::Stable
    } else {
        SlotState::Lapped
    }
}

/// Of two sequence numbers that share a slot, the later one has the higher
/// version, even before its write is complete. So a version tells exactly which
/// of the values of its slot is there.
pub proof fn law_versions_order_laps(a: nat, b: nat, log2: nat)
    requires
        place(a, log2) == place(b, log2),
    ensures
        a < b <==> stable(a, log2) < stable(b, log2) - 1,
        a == b <==> stable(a, log2) == stable(b, log2),
{
    let n = ring_size(log2) as int;
    vstd::arithmetic::power2::lemma_pow2_pos(log2);
    vstd::arithmetic::div_mod::lemma_fundamental_div_mod(a as int, n);
    vstd::arithmetic::div_mod::lemma_fundamental_div_mod(b as int, n);
    let i = lap(a, log2) as int;
    let j = lap(b, log2) as int;
    assert(i < j ==> n * i < n * j) by (nonlinear_arith)
        requires
            n > 0,
    ;
    assert(j < i ==> n * j < n * i) by (nonlinear_arith)
        requires
            n > 0,
    ;
}

/// The sequence numbers that share a slot lie whole laps apart: within one lap
/// no two share one.
pub proof fn law_one_lap_apart(a: nat, b: nat, log2: nat)
    requires
        a < b,
        place(a, log2) == place(b, log2),
    ensures
        b - a >= ring_size(log2),
{
    let n = ring_size(log2) as int;
    vstd::arithmetic::power2::lemma_pow2_pos(log2);
    vstd::arithmetic::div_mod::lemma_fundamental_div_mod(a as int, n);
    vstd::arithmetic::div_mod::lemma_fundamental_div_mod(b as int, n);
    let i = lap(a, log2) as int;
    let j = lap(b, log2) as int;
    assert(n * j - n * i >= n) by (nonlinear_arith)
        requires
            n > 0,
            n * j > n * i,
    ;
}

/// The version of a slot after `t` steps of its writer. For every lap the writer
/// marks the slot as being written, writes `words` words one by one, and marks
/// the slot as stable.
pub open spec fn version_after(t: nat, words: nat) -> nat {
    2 * (t / (words + 2)) + if t % (words + 2) == 0 {
        0
    } else {
        1nat
    }
}

/// The lap whose value word `w` of a slot is part of after `t` steps of its
/// writer; -1 before the first.
pub open spec fn word_after(t: nat, words: nat, w: nat) -> int {
    if t % (words + 2) >= w + 2 {
        (t / (words + 2)) as int
    } else {
        t / (words + 2) - 1
    }
}

/// The writer stores the version of a value being written before the value and
/// its stable version after it.
pub proof fn law_versions_bracket_the_write(seq: nat, log2: nat, words: nat)
    ensures
        version_after(lap(seq, log2) * (words + 2) + 1, words) == stable(seq, log2) - 1,
        version_after((lap(seq, log2) + 1) * (words + 2), words) == stable(seq, log2),
{
    let n = (words + 2) as int;
    let l = lap(seq, log2) as int;
    vstd::arithmetic::div_mod::lemma_fundamental_div_mod_converse(l * n + 1, n, l, 1);
    vstd::arithmetic::div_mod::lemma_fundamental_div_mod_converse((l + 1) * n, n, l + 1, 0);
}

/// No torn read: if a slot has the stable version of a value both before and
/// after its words are read, every word that was read belongs to that value.
pub proof fn law_unchanged_version_means_whole_value(
    seq: nat,
    log2: nat,
    words: nat,
    w: nat,
    before: nat,
    t: nat,
    after: nat,
)
    requires
        w < words,
        before <= t <= after,
        version_after(before, words) == stable(seq, log2),
        version_after(after, words) == stable(seq, log2),
    ensures
        word_after(t, words, w) == lap(seq, log2),
{
    let n = (words + 2) as int;
    vstd::arithmetic::div_mod::lemma_fundamental_div_mod(before as int, n);
    vstd::arithmetic::div_mod::lemma_fundamental_div_mod(after as int, n);
    assert(before % (words + 2) == 0 && after % (words + 2) == 0);
    assert(before / (words + 2) == after / (words + 2));
    assert(t == before);
}

} // verus!
