//! Little-endian fields of a fixed-size byte record.
use vstd::prelude::*;

verus! {

/// The eight bytes of `x`, least significant first.
pub open spec fn le64(x: u64) -> Seq<u8> {
    seq![
        (x & 0xff) as u8,
        ((x >> 8) & 0xff) as u8,
        ((x >> 16) & 0xff) as u8,
        ((x >> 24) & 0xff) as u8,
        ((x >> 32) & 0xff) as u8,
        ((x >> 40) & 0xff) as u8,
        ((x >> 48) & 0xff) as u8,
        ((x >> 56) & 0xff) as u8,
    ]
}

/// The four bytes of `x`, least significant first.
pub open spec fn le32(x: u32) -> Seq<u8> {
    seq![
        (x & 0xff) as u8,
        ((x >> 8) & 0xff) as u8,
        ((x >> 16) & 0xff) as u8,
        ((x >> 24) & 0xff) as u8,
    ]
}

/// The bytes of `s` from `at` on are `field`.
pub open spec fn field_at(s: Seq<u8>, at: int, field: Seq<u8>) -> bool {
    &&& 0 <= at
    &&& at + field.len() <= s.len()
    &&& s.subrange(at, at + field.len()) == field
}

/// Only the `n` bytes of `before` from `at` on differ in `after`.
pub open spec fn same_beside(before: Seq<u8>, after: Seq<u8>, at: int, n: int) -> bool {
    &&& after.len() == before.len()
    &&& forall|k: int|
        0 <= k < before.len() && !(at <= k < at + n) ==> #[trigger] after[k] == before[k]
}

/// Different numbers have different bytes.
pub proof fn lemma_le64_injective(x: u64, y: u64)
    requires
        le64(x) == le64(y),
    ensures
        x == y,
{
    let a = le64(x);
    let b = le64(y);
    assert(a[0] == b[0] && a[1] == b[1] && a[2] == b[2] && a[3] == b[3] && a[4] == b[4] && a[5]
        == b[5] && a[6] == b[6] && a[7] == b[7]);
    assert(x == y) by (bit_vector)
        requires
            (x & 0xff) as u8 == (y & 0xff) as u8,
            ((x >> 8) & 0xff) as u8 == ((y >> 8) & 0xff) as u8,
            ((x >> 16) & 0xff) as u8 == ((y >> 16) & 0xff) as u8,
            ((x >> 24) & 0xff) as u8 == ((y >> 24) & 0xff) as u8,
            ((x >> 32) & 0xff) as u8 == ((y >> 32) & 0xff) as u8,
            ((x >> 40) & 0xff) as u8 == ((y >> 40) & 0xff) as u8,
            ((x >> 48) & 0xff) as u8 == ((y >> 48) & 0xff) as u8,
            ((x >> 56) & 0xff) as u8 == ((y >> 56) & 0xff) as u8,
    ;
}

/// Different numbers have different bytes.
pub proof fn lemma_le32_injective(x: u32, y: u32)
    requires
        le32(x) == le32(y),
    ensures
        x == y,
{
    let a = le32(x);
    let b = le32(y);
    assert(a[0] == b[0] && a[1] == b[1] && a[2] == b[2] && a[3] == b[3]);
    assert(x == y) by (bit_vector)
        requires
            (x & 0xff) as u8 == (y & 0xff) as u8,
            ((x >> 8) & 0xff) as u8 == ((y >> 8) & 0xff) as u8,
            ((x >> 16) & 0xff) as u8 == ((y >> 16) & 0xff) as u8,
            ((x >> 24) & 0xff) as u8 == ((y >> 24) & 0xff) as u8,
    ;
}

/// Write `x` at offset `at`.
pub(crate) fn put_u64(bytes: &mut [u8; 72], at: usize, x: u64)
    requires
        at + 8 <= 72,
    ensures
        field_at(final(bytes)@, at as int, le64(x)),
        same_beside(old(bytes)@, final(bytes)@, at as int, 8),
{
    bytes[at] = (x & 0xff) as u8;
    bytes[at + 1] = ((x >> 8) & 0xff) as u8;
    bytes[at + 2] = ((x >> 16) & 0xff) as u8;
    bytes[at + 3] = ((x >> 24) & 0xff) as u8;
    bytes[at + 4] = ((x >> 32) & 0xff) as u8;
    bytes[at + 5] = ((x >> 40) & 0xff) as u8;
    bytes[at + 6] = ((x >> 48) & 0xff) as u8;
    bytes[at + 7] = ((x >> 56) & 0xff) as u8;
    assert(bytes@.subrange(at as int, at + 8) =~= le64(x));
}

/// Write `x` at offset `at`.
pub(crate) fn put_u32(bytes: &mut [u8; 72], at: usize, x: u32)
    requires
        at + 4 <= 72,
    ensures
        field_at(final(bytes)@, at as int, le32(x)),
        same_beside(old(bytes)@, final(bytes)@, at as int, 4),
{
    bytes[at] = (x & 0xff) as u8;
    bytes[at + 1] = ((x >> 8) & 0xff) as u8;
    bytes[at + 2] = ((x >> 16) & 0xff) as u8;
    bytes[at + 3] = ((x >> 24) & 0xff) as u8;
    assert(bytes@.subrange(at as int, at + 4) =~= le32(x));
}

/// Write the 32 bytes of `hash` at offset `at`.
pub(crate) fn put_hash(bytes: &mut [u8; 72], at: usize, hash: &[u8; 32])
    requires
        at + 32 <= 72,
    ensures
        field_at(final(bytes)@, at as int, hash@),
        same_beside(old(bytes)@, final(bytes)@, at as int, 32),
{
    let mut i: usize = 0;
    while i < 32
        invariant
            i <= 32,
            at + 32 <= 72,
            same_beside(old(bytes)@, bytes@, at as int, 32),
            forall|k: int| at <= k < at + i ==> #[trigger] bytes@[k] == hash@[k - at],
        decreases 32 - i,
    {
        bytes[at + i] = hash[i];
        i = i + 1;
    }
    assert(bytes@.subrange(at as int, at + 32) =~= hash@);
}

/// Read the number at offset `at`.
pub(crate) fn get_u64(bytes: &[u8; 72], at: usize) -> (x: u64)
    requires
        at + 8 <= 72,
    ensures
        field_at(bytes@, at as int, le64(x)),
{
    let b0: u8 = bytes[at];
    let b1: u8 = bytes[at + 1];
    let b2: u8 = bytes[at + 2];
    let b3: u8 = bytes[at + 3];
    let b4: u8 = bytes[at + 4];
    let b5: u8 = bytes[at + 5];
    let b6: u8 = bytes[at + 6];
    let b7: u8 = bytes[at + 7];
    let x: u64 = (b0 as u64) | ((b1 as u64) << 8) | ((b2 as u64) << 16) | ((b3 as u64) << 24) | ((
    b4 as u64) << 32) | ((b5 as u64) << 40) | ((b6 as u64) << 48) | ((b7 as u64) << 56);
    proof {
        assert((x & 0xff) as u8 == b0 && ((x >> 8) & 0xff) as u8 == b1 && ((x >> 16) & 0xff) as u8
            == b2 && ((x >> 24) & 0xff) as u8 == b3 && ((x >> 32) & 0xff) as u8 == b4 && ((x >> 40)
            & 0xff) as u8 == b5 && ((x >> 48) & 0xff) as u8 == b6 && ((x >> 56) & 0xff) as u8 == b7)
            by (bit_vector)
            requires
                x == (b0 as u64) | ((b1 as u64) << 8) | ((b2 as u64) << 16) | ((b3 as u64) << 24)
                    | ((b4 as u64) << 32) | ((b5 as u64) << 40) | ((b6 as u64) << 48) | ((
                b7 as u64) << 56),
        ;
        assert(bytes@.subrange(at as int, at + 8) =~= le64(x));
    }
    x
}

/// Read the number at offset `at`.
pub(crate) fn get_u32(bytes: &[u8; 72], at: usize) -> (x: u32)
    requires
        at + 4 <= 72,
    ensures
        field_at(bytes@, at as int, le32(x)),
{
    let b0: u8 = bytes[at];
    let b1: u8 = bytes[at + 1];
    let b2: u8 = bytes[at + 2];
    let b3: u8 = bytes[at + 3];
    let x: u32 = (b0 as u32) | ((b1 as u32) << 8) | ((b2 as u32) << 16) | ((b3 as u32) << 24);
    proof {
        assert((x & 0xff) as u8 == b0 && ((x >> 8) & 0xff) as u8 == b1 && ((x >> 16) & 0xff) as u8
            == b2 && ((x >> 24) & 0xff) as u8 == b3) by (bit_vector)
            requires
                x == (b0 as u32) | ((b1 as u32) << 8) | ((b2 as u32) << 16) | ((b3 as u32) << 24),
        ;
        assert(bytes@.subrange(at as int, at + 4) =~= le32(x));
    }
    x
}

/// Read the 32 bytes at offset `at`.
pub(crate) fn get_hash(bytes: &[u8; 72], at: usize) -> (hash: [u8; 32])
    requires
        at + 32 <= 72,
    ensures
        field_at(bytes@, at as int, hash@),
{
    let mut hash: [u8; 32] = [0u8; 32];
    let mut i: usize = 0;
    while i < 32
        invariant
            i <= 32,
            at + 32 <= 72,
            forall|k: int| 0 <= k < i ==> #[trigger] hash@[k] == bytes@[at + k],
        decreases 32 - i,
    {
        hash[i] = bytes[at + i];
        i = i + 1;
    }
    assert(bytes@.subrange(at as int, at + 32) =~= hash@);
    hash
}

/// The number whose `n` bytes stand at `at`, lowest first.
pub open spec fn number_at(s: Seq<u8>, at: int, n: nat) -> int
    decreases n,
{
    if n == 0 {
        0
    } else {
        s[at] + 256 * number_at(s, at + 1, (n - 1) as nat)
    }
}

/// A field of eight bytes reads as the number that was written, lowest byte first.
pub proof fn law_u64_reads_lowest_byte_first(s: Seq<u8>, at: int, x: u64)
    requires
        field_at(s, at, le64(x)),
    ensures
        number_at(s, at, 8) == x,
{
    let f = le64(x);
    assert forall|i: int| 0 <= i < 8 implies s[at + i] == #[trigger] f[i] by {
        assert(s.subrange(at, at + 8)[i] == f[i]);
    }
    reveal_with_fuel(number_at, 9);
    assert(s[at] == f[0] && s[at + 1] == f[1] && s[at + 2] == f[2] && s[at + 3] == f[3] && s[at + 4]
        == f[4] && s[at + 5] == f[5] && s[at + 6] == f[6] && s[at + 7] == f[7]);
    assert(x == ((x & 0xff) as u8) + 256 * (((x >> 8) & 0xff) as u8) + 0x1_0000 * (((x >> 16)
        & 0xff) as u8) + 0x100_0000 * (((x >> 24) & 0xff) as u8) + 0x1_0000_0000 * (((x >> 32)
        & 0xff) as u8) + 0x100_0000_0000 * (((x >> 40) & 0xff) as u8) + 0x1_0000_0000_0000 * (((x
        >> 48) & 0xff) as u8) + 0x100_0000_0000_0000 * (((x >> 56) & 0xff) as u8))
        by (bit_vector);
}

/// A field of four bytes reads as the number that was written, lowest byte first.
pub proof fn law_u32_reads_lowest_byte_first(s: Seq<u8>, at: int, x: u32)
    requires
        field_at(s, at, le32(x)),
    ensures
        number_at(s, at, 4) == x,
{
    let f = le32(x);
    assert forall|i: int| 0 <= i < 4 implies s[at + i] == #[trigger] f[i] by {
        assert(s.subrange(at, at + 4)[i] == f[i]);
    }
    reveal_with_fuel(number_at, 5);
    assert(s[at] == f[0] && s[at + 1] == f[1] && s[at + 2] == f[2] && s[at + 3] == f[3]);
    assert(x == ((x & 0xff) as u8) + 256 * (((x >> 8) & 0xff) as u8) + 0x1_0000 * (((x >> 16)
        & 0xff) as u8) + 0x100_0000 * (((x >> 24) & 0xff) as u8)) by (bit_vector);
}

} // verus!
