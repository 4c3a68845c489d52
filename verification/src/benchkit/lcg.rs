//! A deterministic generator for reproducible workloads.
use vstd::prelude::*;

verus! {

/// `<[T]>::swap`: exchange two items.
#[verifier::external_body]
fn swap_items<T>(slice: &mut [T], i: usize, j: usize)
    requires
        i < old(slice)@.len(),
        j < old(slice)@.len(),
    ensures
        final(slice)@ == swapped(old(slice)@, i as int, j as int),
{
    slice.swap(i, j)
}

/// `s` with the items at `i` and `j` exchanged.
pub open spec fn swapped<T>(s: Seq<T>, i: int, j: int) -> Seq<T> {
    s.update(i, s[j]).update(j, s[i])
}

/// The number that follows `x` in the sequence of the generator.
pub open spec fn next_after(x: u64) -> u64 {
    x.wrapping_mul(6364136223846793005).wrapping_add(1442695040888963407)
}

/// The state after `n` draws from the state `x`.
pub open spec fn after_draws(x: u64, n: nat) -> u64
    decreases n,
{
    if n == 0 {
        x
    } else {
        next_after(after_draws(x, (n - 1) as nat))
    }
}

/// The shuffle of the first `n` items of `s` by a generator in state `x`: the
/// last of them changes places with one drawn from among them all, and then the
/// rest is shuffled.
pub open spec fn shuffled<T>(x: u64, s: Seq<T>, n: nat) -> Seq<T>
    decreases n,
{
    if n < 2 {
        s
    } else {
        let next = next_after(x);
        let j = (next >> 33) as int % n as int;
        shuffled(next, swapped(s, n - 1, j), (n - 1) as nat)
    }
}

/// A linear congruential generator.
pub struct Lcg(u64);

impl Clone for Lcg {
    fn clone(&self) -> (lcg: Lcg)
        ensures
            lcg@ == self@,
    {
        Lcg(self.0)
    }
}

impl View for Lcg {
    type V = u64;

    /// The number drawn last, or the seed.
    closed spec fn view(&self) -> u64 {
        self.0
    }
}

impl Lcg {
    pub fn new(seed: u64) -> (lcg: Lcg)
        ensures
            lcg@ == seed,
    {
        Lcg(seed)
    }

    /// Draw the next number.
    pub fn next_u64(&mut self) -> (x: u64)
        ensures
            x == next_after(old(self)@),
            final(self)@ == x,
    {
        self.0 = self.0.wrapping_mul(6364136223846793005).wrapping_add(1442695040888963407);
        self.0
    }

    /// A number below `n`, or 0 if `n` is 0, in which case nothing is drawn.
    pub fn below(&mut self, n: u64) -> (x: u64)
        ensures
            if n == 0 {
                &&& x == 0
                &&& final(self)@ == old(self)@
            } else {
                &&& x == (next_after(old(self)@) / 2) % n
                &&& x < n
                &&& final(self)@ == next_after(old(self)@)
            },
    {
        if n == 0 {
            0
        } else {
            let drawn: u64 = self.next_u64();
            assert(drawn >> 1 == drawn / 2) by (bit_vector);
            (drawn >> 1) % n
        }
    }

    /// Put the items of `slice` into a pseudo-random order.
    pub fn shuffle<T>(&mut self, slice: &mut [T])
        ensures
            final(slice)@ == shuffled(old(self)@, old(slice)@, old(slice)@.len()),
            final(self)@ == after_draws(
                old(self)@,
                if old(slice)@.len() == 0 {
                    0
                } else {
                    (old(slice)@.len() - 1) as nat
                },
            ),
            final(slice)@.to_multiset() == old(slice)@.to_multiset(),
    {
        let ghost seed = self@;
        let ghost whole = shuffled(seed, slice@, slice@.len());
        let n: usize = slice.len();
        let mut left: usize = n;
        while left > 1
            invariant
                n == old(slice)@.len(),
                slice@.len() == n,
                left <= n,
                n > 0 ==> left > 0,
                whole == shuffled(self@, slice@, left as nat),
                self@ == after_draws(seed, (n - left) as nat),
                slice@.to_multiset() == old(slice)@.to_multiset(),
            decreases left,
        {
            let drawn: u64 = self.next_u64();
            assert(drawn >> 33 <= 0x7fff_ffff) by (bit_vector);
            let j: usize = (drawn >> 33) as usize % left;
            proof {
                lemma_swap_keeps_items(slice@, left - 1, j as int);
            }
            swap_items(slice, left - 1, j);
            left = left - 1;
        }
        assert(whole == slice@);
    }
}

/// Exchanging two items keeps the items.
proof fn lemma_swap_keeps_items<T>(s: Seq<T>, i: int, j: int)
    requires
        0 <= i < s.len(),
        0 <= j < s.len(),
    ensures
        swapped(s, i, j).to_multiset() == s.to_multiset(),
{
    broadcast use vstd::seq_lib::group_to_multiset_ensures;

    if i == j {
        assert(swapped(s, i, j) =~= s);
    } else {
        vstd::seq_lib::to_multiset_update(s, i, s[j]);
        vstd::seq_lib::to_multiset_update(s.update(i, s[j]), j, s[i]);
        assert(s.to_multiset().count(s[j]) > 0) by {
            assert(s.contains(s[j]));
        }
        assert(swapped(s, i, j).to_multiset() =~= s.to_multiset());
    }
}

/// A generator can be resumed: drawing on from where `m` draws have left it goes on
/// with the numbers of its seed.
pub proof fn law_draws_go_on_from_state(seed: u64, m: nat, n: nat)
    ensures
        after_draws(after_draws(seed, m), n) == after_draws(seed, m + n),
    decreases n,
{
    if n > 0 {
        law_draws_go_on_from_state(seed, m, (n - 1) as nat);
    }
}

/// Where a shuffle puts the items depends on the seed and on their number alone:
/// changing every item in the same way before or after the shuffle comes to the
/// same.
pub proof fn law_shuffle_ignores_items<T, U>(seed: u64, s: Seq<T>, f: spec_fn(T) -> U, n: nat)
    requires
        n <= s.len(),
    ensures
        shuffled(seed, s.map_values(f), n) == shuffled(seed, s, n).map_values(f),
    decreases n,
{
    if n >= 2 {
        let next = next_after(seed);
        let j = (next >> 33) as int % n as int;
        let moved = swapped(s, n - 1, j);
        assert(swapped(s.map_values(f), n - 1, j) =~= moved.map_values(f));
        law_shuffle_ignores_items(next, moved, f, (n - 1) as nat);
    }
}

/// The multiplier has an inverse modulo 2^64, so multiplying loses nothing.
proof fn lemma_multiplier_inverts(x: u64)
    ensures
        (13877824140714322085int * ((x * 6364136223846793005int) % 0x1_0000_0000_0000_0000int))
            % 0x1_0000_0000_0000_0000int == x,
{
    let m: int = 0x1_0000_0000_0000_0000;
    let a: int = 6364136223846793005;
    let b: int = 13877824140714322085;
    vstd::arithmetic::div_mod::lemma_mul_mod_noop_right(b, x * a, m);
    assert(b * (x * a) == (b * a) * x) by (nonlinear_arith);
    vstd::arithmetic::div_mod::lemma_mul_mod_noop_left(b * a, x as int, m);
    assert((b * a) % m == 1);
    vstd::arithmetic::div_mod::lemma_small_mod(x as nat, m as nat);
}

/// One draw loses nothing: generators in different states never come to agree.
pub proof fn law_different_states_stay_different(x: u64, y: u64)
    requires
        x != y,
    ensures
        next_after(x) != next_after(y),
{
    lemma_multiplier_inverts(x);
    lemma_multiplier_inverts(y);
}

/// A draw multiplies, adds and keeps the low 64 bits.
pub proof fn law_draw_is_linear(x: u64)
    ensures
        next_after(x) == (x * 6364136223846793005 + 1442695040888963407)
            % 0x1_0000_0000_0000_0000int,
{
    let m: int = 0x1_0000_0000_0000_0000;
    let a = x * 6364136223846793005;
    vstd::arithmetic::div_mod::lemma_add_mod_noop(a, 1442695040888963407, m);
    vstd::arithmetic::div_mod::lemma_small_mod(1442695040888963407nat, m as nat);
}

/// A shuffle puts into each place, from the last one down, an item drawn from among
/// those that are left, and touches nothing behind them.
pub proof fn law_shuffle_draws_each_place<T>(x: u64, s: Seq<T>, n: nat)
    requires
        n <= s.len(),
    ensures
        shuffled(x, s, n).len() == s.len(),
        forall|i: int| n <= i < s.len() ==> #[trigger] shuffled(x, s, n)[i] == s[i],
        n >= 2 ==> shuffled(x, s, n)[n - 1] == s[(next_after(x) as int / 0x2_0000_0000)
            % n as int],
    decreases n,
{
    if n >= 2 {
        let next = next_after(x);
        assert(next >> 33 == next / 0x2_0000_0000) by (bit_vector);
        let j = (next >> 33) as int % n as int;
        let moved = swapped(s, n - 1, j);
        law_shuffle_draws_each_place(next, moved, (n - 1) as nat);
        assert forall|i: int| n <= i < s.len() implies #[trigger] shuffled(x, s, n)[i] == s[i] by {
            assert(moved[i] == s[i]);
        }
        assert(shuffled(x, s, n)[n - 1] == moved[n - 1]);
        assert(moved[n - 1] == s[j]);
    }
}

} // verus!
