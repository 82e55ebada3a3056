//! Candidate masks: nine bits, bit `v - 1` standing for the digit `v`.

use vstd::prelude::*;

verus! {

/// The mask in which every digit from 1 to 9 is still possible.
pub const ALL_CANDIDATES: u16 = 0x1FF;

/// Whether bit `i` of `mask` is set.
pub open spec fn has_bit(mask: u16, i: u16) -> bool {
    mask & (1u16 << i) != 0
}

/// The mask that holds the digit `v` alone.
pub open spec fn digit_mask(v: u8) -> u16 {
    1u16 << ((v - 1) as u16)
}

/// Whether the digit `v` is one of the candidates of `mask`.
pub open spec fn allows(mask: u16, v: u8) -> bool {
    1 <= v <= 9 && has_bit(mask, (v - 1) as u16)
}

/// One where `b` holds, zero where it does not.
pub open spec fn one_if(b: bool) -> nat {
    if b {
        1
    } else {
        0
    }
}

/// How many of the nine digits `mask` allows.
pub open spec fn count(mask: u16) -> nat {
    one_if(has_bit(mask, 0)) + one_if(has_bit(mask, 1)) + one_if(has_bit(mask, 2)) + one_if(
        has_bit(mask, 3),
    ) + one_if(has_bit(mask, 4)) + one_if(has_bit(mask, 5)) + one_if(has_bit(mask, 6)) + one_if(
        has_bit(mask, 7),
    ) + one_if(has_bit(mask, 8))
}

/// The smallest digit that `mask` allows, or 0 where it allows none.
pub open spec fn lowest_digit(mask: u16) -> u8 {
    if has_bit(mask, 0) {
        1
    } else if has_bit(mask, 1) {
        2
    } else if has_bit(mask, 2) {
        3
    } else if has_bit(mask, 3) {
        4
    } else if has_bit(mask, 4) {
        5
    } else if has_bit(mask, 5) {
        6
    } else if has_bit(mask, 6) {
        7
    } else if has_bit(mask, 7) {
        8
    } else if has_bit(mask, 8) {
        9
    } else {
        0
    }
}

/// Clearing the bits of `r` in `m`: no bit appears, the number does not grow,
/// and it shrinks as soon as one bit goes.
pub proof fn lemma_clear(m: u16, r: u16)
    by (bit_vector)
    ensures
        (m & !r) <= m,
        (m & r) != 0 ==> (m & !r) < m,
        (m & r) == 0 ==> (m & !r) == m,
        forall|i: u16| i < 16 ==> #[trigger] has_bit(m & !r, i) == (has_bit(m, i) && !has_bit(r, i)),
{
}

/// The union of two masks holds the bits of both, and stays within nine bits.
pub proof fn lemma_union(a: u16, b: u16)
    by (bit_vector)
    ensures
        a <= 0x1FF && b <= 0x1FF ==> (a | b) <= 0x1FF,
        forall|i: u16| i < 16 ==> #[trigger] has_bit(a | b, i) == (has_bit(a, i) || has_bit(b, i)),
{
}

/// A single bit below the ninth is a mask of one digit.
pub proof fn lemma_single_bit(j: u16)
    by (bit_vector)
    requires
        j < 9,
    ensures
        (1u16 << j) != 0,
        (1u16 << j) <= 0x100,
        forall|i: u16| i < 16 ==> #[trigger] has_bit(1u16 << j, i) == (i == j),
{
}

/// The empty mask holds no bit, the full one the lower nine.
pub proof fn lemma_constant_masks()
    by (bit_vector)
    ensures
        forall|i: u16| i < 16 ==> !#[trigger] has_bit(0u16, i),
        forall|i: u16| i < 16 ==> #[trigger] has_bit(0x1FFu16, i) == (i < 9),
{
}

/// A mask of nine bits is fixed by its bits: none set means zero.
pub proof fn lemma_nine_bits(m: u16)
    by (bit_vector)
    requires
        m <= 0x1FF,
    ensures
        m != 0 ==> has_bit(m, 0) || has_bit(m, 1) || has_bit(m, 2) || has_bit(m, 3) || has_bit(m, 4)
            || has_bit(m, 5) || has_bit(m, 6) || has_bit(m, 7) || has_bit(m, 8),
        forall|i: u16| 9 <= i < 16 ==> !#[trigger] has_bit(m, i),
{
}

/// Two masks of nine bits with the same bits are the same mask.
pub proof fn lemma_same_bits(m: u16, n: u16)
    by (bit_vector)
    requires
        m <= 0x1FF,
        n <= 0x1FF,
        has_bit(m, 0) == has_bit(n, 0),
        has_bit(m, 1) == has_bit(n, 1),
        has_bit(m, 2) == has_bit(n, 2),
        has_bit(m, 3) == has_bit(n, 3),
        has_bit(m, 4) == has_bit(n, 4),
        has_bit(m, 5) == has_bit(n, 5),
        has_bit(m, 6) == has_bit(n, 6),
        has_bit(m, 7) == has_bit(n, 7),
        has_bit(m, 8) == has_bit(n, 8),
    ensures
        m == n,
{
}

/// The places of a row of a region, and those of a column of a region: the masks
/// `7 << 3t` and `0x49 << t` hold the places `3t` to `3t + 2` and the places that
/// leave the remainder `t` by 3.
pub proof fn lemma_region_lines()
    by (bit_vector)
    ensures
        forall|p: u16| p < 16 ==> #[trigger] has_bit(7u16 << 0u16, p) == (p < 3),
        forall|p: u16| p < 16 ==> #[trigger] has_bit(7u16 << 3u16, p) == (3 <= p < 6),
        forall|p: u16| p < 16 ==> #[trigger] has_bit(7u16 << 6u16, p) == (6 <= p < 9),
        forall|p: u16| p < 16 ==> #[trigger] has_bit(0x49u16 << 0u16, p) == (p == 0 || p == 3 || p == 6),
        forall|p: u16| p < 16 ==> #[trigger] has_bit(0x49u16 << 1u16, p) == (p == 1 || p == 4 || p == 7),
        forall|p: u16| p < 16 ==> #[trigger] has_bit(0x49u16 << 2u16, p) == (p == 2 || p == 5 || p == 8),
{
}

/// Place `p` of a region lies in its row `t` exactly where `7 << 3t` holds it, and
/// in its column `t` exactly where `0x49 << t` holds it.
pub proof fn lemma_region_line(t: int, p: int)
    requires
        0 <= t < 3,
        0 <= p < 9,
    ensures
        has_bit(7u16 << ((3 * t) as u16), p as u16) == (p / 3 == t),
        has_bit(0x49u16 << (t as u16), p as u16) == (p % 3 == t),
{
    lemma_region_lines();
    if t == 0 {
        assert((3 * t) as u16 == 0u16 && t as u16 == 0u16);
    } else if t == 1 {
        assert((3 * t) as u16 == 3u16 && t as u16 == 1u16);
    } else {
        assert((3 * t) as u16 == 6u16 && t as u16 == 2u16);
    }
}

/// A mask that shares no bit with the complement of another lies within it.
pub proof fn lemma_within(f: u16, m: u16)
    requires
        f & !m == 0,
    ensures
        forall|p: u16| p < 16 && has_bit(f, p) ==> has_bit(m, p),
{
    lemma_clear(f, m);
    lemma_constant_masks();
    assert forall|p: u16| p < 16 && has_bit(f, p) implies has_bit(m, p) by {
        assert(has_bit(f & !m, p) == (has_bit(f, p) && !has_bit(m, p)));
    }
}

/// Adding a digit that a mask lacks makes it allow one digit more.
pub proof fn lemma_add_digit(m: u16, w: u8)
    requires
        m <= 0x1FF,
        1 <= w <= 9,
        !allows(m, w),
    ensures
        (m | digit_mask(w)) <= 0x1FF,
        count(m | digit_mask(w)) == count(m) + 1,
        forall|v: u8| allows(m | digit_mask(w), v) <==> allows(m, v) || v == w,
{
    let bit = digit_mask(w);
    lemma_single_bit((w - 1) as u16);
    lemma_union(m, bit);
    assert(bit <= 0x1FF);
    assert forall|v: u8| allows(m | bit, v) <==> allows(m, v) || v == w by {
        if 1 <= v <= 9 {
            assert(has_bit(m | bit, (v - 1) as u16) == (has_bit(m, (v - 1) as u16) || has_bit(
                bit,
                (v - 1) as u16,
            )));
            assert(has_bit(bit, (v - 1) as u16) == ((v - 1) as u16 == (w - 1) as u16));
        }
    }
    assert(forall|i: u16| i < 9 ==> has_bit(m | bit, i) == (has_bit(m, i) || i == (w - 1) as u16));
}

/// A mask within another allows no more digits; with as many, it is the same mask.
pub proof fn lemma_count_within(a: u16, b: u16)
    requires
        a <= 0x1FF,
        b <= 0x1FF,
        forall|v: u8| allows(a, v) ==> allows(b, v),
    ensures
        count(a) <= count(b),
        count(a) == count(b) ==> a == b,
{
    assert forall|i: u16| i < 9 && has_bit(a, i) implies has_bit(b, i) by {
        assert(allows(a, (i + 1) as u8));
        assert(allows(b, (i + 1) as u8));
    }
    if count(a) == count(b) {
        lemma_same_bits(a, b);
    }
}

/// A mask that allows nine digits allows every digit.
pub proof fn lemma_count_nine(m: u16)
    requires
        count(m) == 9,
    ensures
        forall|v: u8| 1 <= v <= 9 ==> allows(m, v),
{
    assert forall|v: u8| 1 <= v <= 9 implies allows(m, v) by {
        assert(has_bit(m, (v - 1) as u16));
    }
}

/// The mask of the digit `v`.
pub fn mask_of(v: u8) -> (m: u16)
    requires
        1 <= v <= 9,
    ensures
        m == digit_mask(v),
        m != 0,
        m <= ALL_CANDIDATES,
        forall|w: u8| allows(m, w) <==> w == v,
{
    let shift: u16 = (v - 1) as u16;
    proof {
        lemma_single_bit(shift);
        assert forall|w: u8| allows(1u16 << shift, w) <==> w == v by {
            if 1 <= w <= 9 {
                assert(has_bit(1u16 << shift, (w - 1) as u16) == ((w - 1) as u16 == shift));
            }
        }
    }
    1u16 << shift
}

/// Whether `mask` allows the digit `v`.
pub fn mask_allows(mask: u16, v: u8) -> (r: bool)
    requires
        1 <= v <= 9,
    ensures
        r == allows(mask, v),
{
    let bit: u16 = mask_of(v);
    (mask & bit) != 0
}

/// How many of the nine digits `mask` allows.
pub fn count_candidates(mask: u16) -> (n: u8)
    ensures
        n == count(mask),
        n <= 9,
{
    let mut n: u8 = 0;
    let mut i: u16 = 0;
    while i < 9
        invariant
            i <= 9,
            n <= i,
            n == one_if(i > 0 && has_bit(mask, 0)) + one_if(i > 1 && has_bit(mask, 1)) + one_if(
                i > 2 && has_bit(mask, 2),
            ) + one_if(i > 3 && has_bit(mask, 3)) + one_if(i > 4 && has_bit(mask, 4)) + one_if(
                i > 5 && has_bit(mask, 5),
            ) + one_if(i > 6 && has_bit(mask, 6)) + one_if(i > 7 && has_bit(mask, 7)) + one_if(
                i > 8 && has_bit(mask, 8),
            ),
        decreases 9 - i,
    {
        if mask & (1u16 << i) != 0 {
            n = n + 1;
        }
        i = i + 1;
    }
    n
}

/// The smallest digit that `mask` allows, or 0 where it allows none.
pub fn first_candidate(mask: u16) -> (v: u8)
    ensures
        v == lowest_digit(mask),
        v <= 9,
        v != 0 ==> allows(mask, v),
{
    let mut i: u16 = 0;
    while i < 9
        invariant
            i <= 9,
            forall|k: u16| k < i ==> !has_bit(mask, k),
        decreases 9 - i,
    {
        if mask & (1u16 << i) != 0 {
            return (i + 1) as u8;
        }
        i = i + 1;
    }
    0
}

} // verus!
