//! The vocabulary in which the contracts of this crate speak about words:
//! single bits, and how many of them are set.

use vstd::prelude::*;
use vstd::arithmetic::power2::pow2;

verus! {

/// Whether bit `i` of `w` is set. Bit 0 is the least significant one.
pub open spec fn bit_at(w: u64, i: u64) -> bool {
    (w >> i) & 1 == 1
}

/// Whether the bit of `w` that comes `k` places after its leading bit is
/// set: bit `63 - k`.
pub open spec fn leading_bit(w: u64, k: u64) -> bool {
    bit_at(w, (63 - k) as u64)
}

/// Whether bit `i` of the double-width word `w` is set.
pub open spec fn wide_bit_at(w: u128, i: u128) -> bool {
    (w >> i) & 1 == 1
}

/// Number of set bits of `w` among its `n` lowest positions.
pub open spec fn ones_below(w: u64, n: nat) -> nat
    decreases n,
{
    if n == 0 {
        0
    } else {
        ones_below(w, (n - 1) as nat) + if bit_at(w, (n - 1) as u64) {
            1nat
        } else {
            0nat
        }
    }
}

/// Number of set bits of the double-width word `w` among its `n` lowest
/// positions.
pub open spec fn wide_ones_below(w: u128, n: nat) -> nat
    decreases n,
{
    if n == 0 {
        0
    } else {
        wide_ones_below(w, (n - 1) as nat) + if wide_bit_at(w, (n - 1) as u128) {
            1nat
        } else {
            0nat
        }
    }
}

/// The highest position at or below `i` at which `w` has a set bit, found
/// by going down from `i` one position at a time; 0 where there is none.
pub open spec fn scan_down(w: u64, i: nat) -> nat
    decreases i,
{
    if i == 0 || bit_at(w, i as u64) {
        i
    } else {
        scan_down(w, (i - 1) as nat)
    }
}

/// The position of the most significant set bit of `w`, as a scan from
/// bit 63 downwards finds it. It has a meaning only for a word other than
/// zero.
pub open spec fn msb_of(w: u64) -> nat {
    scan_down(w, 63)
}

/// `u64::count_ones` of the standard library, documented as returning the
/// number of ones in the binary representation of the word: the count of
/// the set bits among all 64 positions.
pub assume_specification[ u64::count_ones ](w: u64) -> (n: u32)
    ensures
        n == ones_below(w, 64),
;

/// `u128::count_ones` of the standard library, documented as returning the
/// number of ones in the binary representation of the word: the count of
/// the set bits among all 128 positions.
pub assume_specification[ u128::count_ones ](w: u128) -> (n: u32)
    ensures
        n == wide_ones_below(w, 128),
;

/// A scan never ends above the position it started from.
pub proof fn lemma_scan_down_bound(w: u64, from: nat)
    ensures
        scan_down(w, from) <= from,
    decreases from,
{
    if from > 0 && !bit_at(w, from as u64) {
        lemma_scan_down_bound(w, (from - 1) as nat);
    }
}

/// The scan from `from` downwards stops at `i` if bit `i` is set and no
/// bit between `i` and `from` is.
pub proof fn lemma_scan_down_finds(w: u64, i: nat, from: nat)
    requires
        i <= from < 64,
        bit_at(w, i as u64),
        forall|j: u64| i < j < 64 ==> !bit_at(w, j),
    ensures
        scan_down(w, from) == i,
    decreases from,
{
    if from > i {
        assert(!bit_at(w, from as u64));
        lemma_scan_down_finds(w, i, (from - 1) as nat);
    }
}

/// Where no bit above `from` is set, the scan from `from` downwards ends
/// at the position that is left as the lowest once everything below it is
/// shifted out.
pub proof fn lemma_scan_down_stops(w: u64, from: u64)
    requires
        w != 0,
        from < 64,
        from < 63 ==> w >> ((from + 1) as u64) == 0,
    ensures
        scan_down(w, from as nat) <= from,
        w >> (scan_down(w, from as nat) as u64) == 1,
    decreases from,
{
    let above = (from + 1) as u64;
    if bit_at(w, from) {
        assert(w >> from == 1) by (bit_vector)
            requires
                from < 64,
                above == from + 1,
                from < 63 ==> w >> above == 0,
                bit_at(w, from),
        ;
    } else {
        assert(from > 0 && w >> from == 0) by (bit_vector)
            requires
                w != 0,
                from < 64,
                above == from + 1,
                from < 63 ==> w >> above == 0,
                !bit_at(w, from),
        ;
        lemma_scan_down_stops(w, (from - 1) as u64);
    }
}

/// Shifting out the bits below the most significant set bit of a word
/// other than zero leaves 1.
pub proof fn lemma_shifted_to_msb(w: u64)
    requires
        w != 0,
    ensures
        msb_of(w) < 64,
        w >> (msb_of(w) as u64) == 1,
{
    lemma_scan_down_stops(w, 63);
}

/// The most significant set bit of a word other than zero is a set bit,
/// and no bit above it is set.
pub proof fn lemma_msb_is_highest_set_bit(w: u64)
    requires
        w != 0,
    ensures
        msb_of(w) < 64,
        bit_at(w, msb_of(w) as u64),
        forall|j: u64| msb_of(w) < j < 64 ==> !bit_at(w, j),
{
    lemma_shifted_to_msb(w);
    let i = msb_of(w) as u64;
    assert(bit_at(w, i) && forall|j: u64| i < j < 64 ==> !bit_at(w, j)) by (bit_vector)
        requires
            i < 64,
            w >> i == 1,
    ;
}

/// A word other than zero lies between the power of two of its most
/// significant set bit and the next power of two.
pub proof fn lemma_msb_brackets(w: u64)
    requires
        w != 0,
    ensures
        pow2(msb_of(w)) <= w < 2 * pow2(msb_of(w)),
{
    lemma_shifted_to_msb(w);
    let i = msb_of(w) as u64;
    let p = pow2(i as nat) as int;
    vstd::bits::lemma_u64_shr_is_div(w, i);
    vstd::arithmetic::power2::lemma_pow2_pos(i as nat);
    assert(p <= w < 2 * p) by (nonlinear_arith)
        requires
            p > 0,
            w as int / p == 1,
    ;
}

/// A word that is 1 once its `i` low bits are shifted out has its most
/// significant set bit at position `i`.
pub proof fn lemma_msb_by_shift(w: u64, i: u64)
    requires
        i < 64,
        w >> i == 1,
    ensures
        msb_of(w) == i,
{
    assert(bit_at(w, i) && forall|j: u64| i < j < 64 ==> !bit_at(w, j)) by (bit_vector)
        requires
            i < 64,
            w >> i == 1,
    ;
    lemma_scan_down_finds(w, i as nat, 63);
}

} // verus!
