//! Word-level parallelism on single machine words: packing several small
//! integers into one word and operating on all of them with a handful of
//! arithmetic instructions.
//!
//! Every algorithm here works on 64-bit words, whatever the platform's
//! pointer width is; the types say so.
//!
//! - [`top_k_bits_of`] keeps the leading bits of a word.
//! - [`sardine_can`] holds up to seven small integers in one word and
//!   counts those at most a query with a single subtraction.
//! - [`four_russians_msb`] finds the most significant set bit of a word
//!   with the same subtraction, applied twice.
//! - [`bits`] and [`numeral`] hold what the contracts of the others speak
//!   of: single bits, their count, and binary numerals.

use vstd::prelude::*;
use crate::bits::bit_at;

pub mod bits;
pub mod four_russians_msb;
pub mod numeral;
pub mod sardine_can;

verus! {

/// Why a checked operation refused its input.
#[derive(Debug, Clone, Copy, PartialEq, Eq, Structural)]
pub enum Violation {
    /// A value does not fit the seven payload bits of a field.
    PayloadOutOfRange,
    /// The bucket already holds as many values as it has room for.
    CapacityExceeded,
    /// The result is not defined for this input: the most significant bit
    /// of zero, or the common prefix of two equal words.
    UndefinedInput,
}

/// Number of bits in the word that this crate works on.
pub const WORD_BITS: u64 = 64;

/// Keeps the `k` leading bits of `x` and clears the rest.
///
/// The mask is made at run time: a single one is moved to position `64 - k`,
/// the word is complemented, and adding one lets the carry run through the
/// low ones up to that position, so that exactly the top `k` bits stay set.
pub fn top_k_bits_of(x: u64, k: u64) -> (r: u64)
    requires
        1 <= k <= 64,
    ensures
        forall|i: u64| i < 64 ==> bit_at(r, i) == (i >= 64 - k && bit_at(x, i)),
        r == (x >> ((64 - k) as u64)) << ((64 - k) as u64),
{
    let shift: u64 = WORD_BITS - k;
    let mut mask: u64 = 1;
    mask <<= shift;
    mask = !mask;
    assert(mask < u64::MAX) by (bit_vector)
        requires
            mask == !(1u64 << shift),
            shift < 64,
    ;
    let ghost flipped: u64 = mask;
    mask += 1;
    let r: u64 = x & mask;
    assert(r == (x >> shift) << shift && forall|i: u64|
        i < 64 ==> bit_at(r, i) == (i >= shift && bit_at(x, i))) by (bit_vector)
        requires
            r == x & mask,
            flipped == !(1u64 << shift),
            flipped < 0xffff_ffff_ffff_ffffu64,
            mask == flipped + 1,
            shift < 64,
    ;
    r
}

} // verus!
