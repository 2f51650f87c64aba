//! The most significant set bit of a 64-bit word in constant time, without
//! a lookup table.
//!
//! The word is read as eight blocks of eight bits, block 0 at the least
//! significant end. A byte-sized summary holds one flag per block, raised
//! where the block is not zero. The highest raised flag names the block
//! that holds the most significant bit, and the highest set bit of that
//! block is the answer. Both searches are the same question, the highest
//! set bit of a byte, and it is answered by ranking the byte among the
//! eight powers of two with one packed subtraction.

use vstd::prelude::*;
use crate::bits::{bit_at, leading_bit, msb_of, wide_bit_at, wide_ones_below};
use crate::Violation;

verus! {

/// The double-width word with a one at the lowest bit of each of its eight
/// fields of nine bits. Multiplying a byte by it copies the byte into every
/// field.
pub const WIDE_REPLICATOR: u128 =
    0b000000001_000000001_000000001_000000001_000000001_000000001_000000001_000000001;

/// The double-width word with exactly the sentinel bit of each of its eight
/// fields of nine bits set.
pub const WIDE_SENTINELS: u128 =
    0b100000000_100000000_100000000_100000000_100000000_100000000_100000000_100000000;

/// The eight powers of two that fit a byte, one in each field of nine bits,
/// the largest in the lowest field.
pub const POWERS_OF_TWO: u128 =
    0b000000001_000000010_000000100_000001000_000010000_000100000_001000000_010000000;

/// The word with exactly the top bit of each of its eight blocks set.
pub const BLOCK_TOPS: u64 = 0x8080_8080_8080_8080;

/// The word with exactly the lowest bit of each of its eight blocks set.
pub const BLOCK_ONES: u64 = 0x0101_0101_0101_0101;

/// The multiplier that gathers the top bits of the eight blocks into
/// neighbouring positions: a one at every seventh bit.
pub const PACKER: u64 = 0x0102_0408_1020_4081;

/// Block `j` of `w`: the eight bits from position `8 * j` up.
pub open spec fn block_at(w: u64, j: u64) -> u8 {
    ((w >> (8 * j) as u64) & 0xff) as u8
}

/// Field `j` of the double-width word `w`: the nine bits from position
/// `9 * j` up.
pub open spec fn wide_field_at(w: u128, j: u128) -> u16 {
    ((w >> (9 * j) as u128) & 0x1ff) as u16
}

/// Whether the sentinel of field `j` of the double-width word `w` is raised.
pub open spec fn wide_sentinel_at(w: u128, j: u128) -> bool {
    wide_bit_at(w, (9 * j + 8) as u128)
}

/// Number of fields among the `n` lowest of `w` whose sentinel is raised.
spec fn wide_raised(w: u128, n: nat) -> nat
    decreases n,
{
    if n == 0 {
        0
    } else {
        wide_raised(w, (n - 1) as nat) + if wide_sentinel_at(w, (n - 1) as u128) {
            1nat
        } else {
            0nat
        }
    }
}

/// A word together with the summary of its blocks, from which the most
/// significant set bit of the word is read off in constant time.
#[derive(Debug)]
pub struct FourRussiansMSB {
    /// One flag per block of the word, raised where the block is not zero.
    macro_bit_array: u8,
    /// The word itself, read as eight blocks of eight bits.
    micro_arrays: u64,
}

impl View for FourRussiansMSB {
    type V = u64;

    /// The word that the structure was built from.
    closed spec fn view(&self) -> u64 {
        self.micro_arrays
    }
}

impl FourRussiansMSB {
    /// The invariant of the structure: the word is not zero, and flag `j` of
    /// the summary is raised exactly if block `j` of the word is not zero.
    pub closed spec fn wf(&self) -> bool {
        &&& self.micro_arrays != 0
        &&& forall|j: u64|
            j < 8 ==> (bit_at(self.macro_bit_array as u64, j) <==> #[trigger] block_at(
                self.micro_arrays,
                j,
            ) != 0)
    }

    /// The summary of the blocks: one flag for each.
    pub closed spec fn block_activity_map(&self) -> u8 {
        self.macro_bit_array
    }

    /// Flag `j` of the summary is raised exactly if block `j` of the word
    /// is not zero, and at least one flag is raised.
    pub proof fn lemma_activity_flags(&self)
        requires
            self.wf(),
        ensures
            self@ != 0,
            self.block_activity_map() != 0,
            forall|j: u64|
                j < 8 ==> (bit_at(self.block_activity_map() as u64, j) <==> #[trigger] block_at(
                    self@,
                    j,
                ) != 0),
    {
        lemma_summary_not_zero(self.micro_arrays, self.macro_bit_array);
    }

    /// Builds the structure for `query`.
    pub fn build(query: u64) -> (built: Self)
        requires
            query != 0,
        ensures
            built.wf(),
            built@ == query,
    {
        let macro_bit_array: u8 = Self::generate_macro_bit_array(query);
        FourRussiansMSB { macro_bit_array, micro_arrays: query }
    }

    /// The summary of `query`: flag `j` is raised exactly if block `j` is
    /// not zero.
    ///
    /// A block is not zero if its top bit is set or if its low seven bits
    /// are more than zero. The first is read off under a mask. For the
    /// second, the top bit of every block is raised and one is subtracted
    /// from every block at once: the raised bit survives where the low bits
    /// had something to give. The eight answers then sit at the top of
    /// their blocks, and one multiplication moves them next to each other.
    fn generate_macro_bit_array(query: u64) -> (summary: u8)
        ensures
            forall|j: u64|
                j < 8 ==> (bit_at(summary as u64, j) <==> #[trigger] block_at(query, j) != 0),
    {
        let is_high_bit_set: u64 = query & BLOCK_TOPS;
        let mut are_lower_bits_set: u64 = query | BLOCK_TOPS;
        assert(are_lower_bits_set >= BLOCK_ONES) by (bit_vector)
            requires
                are_lower_bits_set == query | BLOCK_TOPS,
        ;
        let ghost raised_tops: u64 = are_lower_bits_set;
        are_lower_bits_set -= BLOCK_ONES;
        are_lower_bits_set &= BLOCK_TOPS;
        let is_block_active: u64 = is_high_bit_set | are_lower_bits_set;
        assert(is_block_active & !BLOCK_TOPS == 0 && forall|j: u64|
            j < 8 ==> (bit_at(is_block_active, (8 * j + 7) as u64) <==> #[trigger] block_at(query, j)
                != 0)) by (bit_vector)
            requires
                is_high_bit_set == query & BLOCK_TOPS,
                raised_tops == query | BLOCK_TOPS,
                raised_tops >= BLOCK_ONES,
                are_lower_bits_set == ((raised_tops - BLOCK_ONES) as u64)
                    & BLOCK_TOPS,
                is_block_active == is_high_bit_set | are_lower_bits_set,
        ;
        assert(is_block_active as u128 * PACKER as u128 <= u128::MAX) by (bit_vector);
        let mut macro_bit_array: u128 = is_block_active as u128 * PACKER as u128;
        let ghost product: u128 = macro_bit_array;
        macro_bit_array >>= 49;
        let ghost gathered: u128 = macro_bit_array;
        if is_block_active >> 56 == 0 {
            macro_bit_array &= 0b0111_1111;
        } else {
            macro_bit_array |= 0b1000_0000;
            macro_bit_array &= 0b1111_1111;
        }
        assert(macro_bit_array < 256 && forall|j: u64|
            j < 8 ==> (bit_at(macro_bit_array as u64, j) <==> #[trigger] bit_at(
                is_block_active,
                (8 * j + 7) as u64,
            ))) by (bit_vector)
            requires
                is_block_active & !BLOCK_TOPS == 0,
                product == is_block_active as u128 * PACKER as u128,
                gathered == product >> 49,
                macro_bit_array == (if is_block_active >> 56 == 0 {
                    gathered & 0x7f
                } else {
                    (gathered | 0x80) & 0xff
                }),
        ;
        let summary: u8 = macro_bit_array as u8;
        assert forall|j: u64| j < 8 implies (bit_at(summary as u64, j) <==> #[trigger] block_at(
            query,
            j,
        ) != 0) by {
            assert(bit_at(is_block_active, (8 * j + 7) as u64) <==> block_at(query, j) != 0);
            assert(bit_at(macro_bit_array as u64, j) <==> bit_at(
                is_block_active,
                (8 * j + 7) as u64,
            ));
        }
        summary
    }

    /// The position of the most significant set bit of the word.
    pub fn get_msb(&self) -> (msb: u8)
        requires
            self.wf(),
        ensures
            msb == msb_of(self@),
            msb < 64,
            self@ >> msb == 1,
    {
        let summary: u8 = self.macro_bit_array;
        let word: u64 = self.micro_arrays;
        proof {
            lemma_summary_not_zero(word, summary);
        }
        let block_id: u8 = Self::msb_by_rank(summary);
        let block_start: u8 = (block_id - 1) * 8;
        let msb_block: u8 = self.get_msb_block(block_start);
        proof {
            let top = (block_id - 1) as u64;
            assert(bit_at(summary as u64, top) && forall|j: u64|
                top < j < 8 ==> !#[trigger] bit_at(summary as u64, j)) by (bit_vector)
                requires
                    top < 8,
                    summary >> top == 1,
            ;
            assert(block_at(word, top) != 0);
            assert(msb_block == block_at(word, top));
        }
        let msb: u8 = Self::msb_by_rank(msb_block);
        let in_block_location: u8 = msb - 1;
        let found: u8 = block_start + in_block_location;
        proof {
            let top = (block_id - 1) as u64;
            assert(top < 1 ==> block_at(word, 1) == 0);
            assert(top < 2 ==> block_at(word, 2) == 0);
            assert(top < 3 ==> block_at(word, 3) == 0);
            assert(top < 4 ==> block_at(word, 4) == 0);
            assert(top < 5 ==> block_at(word, 5) == 0);
            assert(top < 6 ==> block_at(word, 6) == 0);
            assert(top < 7 ==> block_at(word, 7) == 0);
            assert(word >> found == 1) by (bit_vector)
                requires
                    top < 8,
                    top < 1 ==> block_at(word, 1) == 0,
                    top < 2 ==> block_at(word, 2) == 0,
                    top < 3 ==> block_at(word, 3) == 0,
                    top < 4 ==> block_at(word, 4) == 0,
                    top < 5 ==> block_at(word, 5) == 0,
                    top < 6 ==> block_at(word, 6) == 0,
                    top < 7 ==> block_at(word, 7) == 0,
                    msb_block == block_at(word, top),
                    in_block_location < 8,
                    msb_block >> in_block_location == 1,
                    found == 8 * top + in_block_location,
            ;
            crate::bits::lemma_msb_by_shift(word, found as u64);
        }
        found
    }

    /// The block of the word that starts at bit `block_start`.
    fn get_msb_block(&self, block_start: u8) -> (block: u8)
        requires
            block_start < 64,
        ensures
            block == (self.micro_arrays >> block_start) & 0xff,
    {
        let block_mask: u64 = 0b1111_1111;
        let word: u64 = self.micro_arrays;
        let mut block: u64 = word >> block_start;
        block &= block_mask;
        assert(block < 256) by (bit_vector)
            requires
                block == (word >> block_start) & 0xff,
        ;
        block as u8
    }

    /// One more than the position of the most significant set bit of
    /// `query`, and 0 for a `query` of zero: the rank of `query` among the
    /// eight powers of two that fit a byte.
    ///
    /// The byte is copied into eight fields of nine bits with the sentinels
    /// raised, the powers of two are subtracted, one from each field, and
    /// the sentinels that are still raised are counted.
    fn msb_by_rank(query: u8) -> (rank: u8)
        ensures
            rank <= 8,
            query == 0 <==> rank == 0,
            query != 0 ==> query >> ((rank - 1) as u8) == 1,
    {
        let tiled_query: u128 = Self::parallel_tile_128(query);
        assert(tiled_query >= POWERS_OF_TWO) by (bit_vector)
            requires
                wide_field_at(tiled_query, 7) == query + 0x100,
        ;
        let mut difference: u128 = tiled_query - POWERS_OF_TWO;
        difference &= WIDE_SENTINELS;
        proof {
            assert(difference & !WIDE_SENTINELS == 0 && forall|j: u128|
                j < 8 ==> (#[trigger] wide_sentinel_at(difference, j) <==> query >> ((7 - j) as u8)
                    != 0)) by (bit_vector)
                requires
                    wide_field_at(tiled_query, 0) == query + 0x100,
                    wide_field_at(tiled_query, 1) == query + 0x100,
                    wide_field_at(tiled_query, 2) == query + 0x100,
                    wide_field_at(tiled_query, 3) == query + 0x100,
                    wide_field_at(tiled_query, 4) == query + 0x100,
                    wide_field_at(tiled_query, 5) == query + 0x100,
                    wide_field_at(tiled_query, 6) == query + 0x100,
                    wide_field_at(tiled_query, 7) == query + 0x100,
                    tiled_query >> 72 == 0,
                    tiled_query >= POWERS_OF_TWO,
                    difference == ((tiled_query - POWERS_OF_TWO) as u128)
                        & WIDE_SENTINELS,
            ;
            lemma_wide_ones_above_fields(difference, 128);
            lemma_wide_ones_are_raised(difference, 8);
            lemma_powers_at_most(difference, query);
        }
        difference.count_ones() as u8
    }

    /// Copies `query` into each of the eight fields of nine bits of a
    /// double-width word and raises every sentinel. The result takes up
    /// 72 bits.
    pub fn parallel_tile_128(query: u8) -> (tiled: u128)
        ensures
            forall|j: u128| j < 8 ==> #[trigger] wide_field_at(tiled, j) == query + 0x100,
            forall|j: u128| j < 8 ==> #[trigger] wide_sentinel_at(tiled, j),
            tiled >> 72 == 0,
    {
        let tiled_query: u128 = query as u128 * WIDE_REPLICATOR;
        let tiled: u128 = tiled_query | WIDE_SENTINELS;
        assert((forall|j: u128| j < 8 ==> #[trigger] wide_field_at(tiled, j) == query + 0x100) && (
        forall|j: u128| j < 8 ==> #[trigger] wide_sentinel_at(tiled, j)) && tiled >> 72 == 0)
            by (bit_vector)
            requires
                tiled_query == query as u128 * WIDE_REPLICATOR,
                tiled == tiled_query | WIDE_SENTINELS,
        ;
        tiled
    }
}

/// The position of the most significant set bit of `query`.
pub fn get_msb_idx_of(query: u64) -> (msb: u8)
    requires
        query != 0,
    ensures
        msb == msb_of(query),
        msb < 64,
        query >> msb == 1,
{
    FourRussiansMSB::build(query).get_msb()
}

/// The position of the most significant set bit of `query`, or the reason
/// why there is none.
pub fn try_get_msb_idx_of(query: u64) -> (msb: Result<u8, Violation>)
    ensures
        msb == (if query != 0 {
            Ok::<u8, Violation>(msb_of(query) as u8)
        } else {
            Err::<u8, Violation>(Violation::UndefinedInput)
        }),
        msb_of(query) < 64,
{
    if query == 0 {
        proof {
            crate::bits::lemma_scan_down_bound(query, 63);
        }
        Err(Violation::UndefinedInput)
    } else {
        Ok(get_msb_idx_of(query))
    }
}

/// The number of leading bits that `a` and `b` have in common.
pub fn lcp_len_of(a: u64, b: u64) -> (len: u64)
    requires
        a != b,
    ensures
        len == 63 - msb_of(a ^ b),
        len < 64,
{
    assert(a ^ b != 0) by (bit_vector)
        requires
            a != b,
    ;
    63 - get_msb_idx_of(a ^ b) as u64
}

/// The length that `lcp_len_of` returns is that of the longest run of
/// leading bits in which two different words agree: they agree in each of
/// their first `63 - msb_of(a ^ b)` leading bits and differ in the next.
pub proof fn lemma_lcp_is_shared_run(a: u64, b: u64)
    requires
        a != b,
    ensures
        msb_of(a ^ b) < 64,
        forall|k: u64| k < 63 - msb_of(a ^ b) ==> leading_bit(a, k) == leading_bit(b, k),
        leading_bit(a, (63 - msb_of(a ^ b)) as u64) != leading_bit(
            b,
            (63 - msb_of(a ^ b)) as u64,
        ),
{
    let x = a ^ b;
    assert(x != 0) by (bit_vector)
        requires
            x == a ^ b,
            a != b,
    ;
    crate::bits::lemma_shifted_to_msb(x);
    let top = msb_of(x) as u64;
    let len = (63 - top) as u64;
    assert(leading_bit(a, len) != leading_bit(b, len) && forall|k: u64|
        k < len ==> leading_bit(a, k) == leading_bit(b, k)) by (bit_vector)
        requires
            x == a ^ b,
            top < 64,
            len == 63 - top,
            x >> top == 1,
    ;
}

/// The number of leading bits that `a` and `b` have in common, or the
/// reason why it is not defined.
pub fn try_lcp_len_of(a: u64, b: u64) -> (len: Result<u64, Violation>)
    ensures
        len == (if a != b {
            Ok::<u64, Violation>((63 - msb_of(a ^ b)) as u64)
        } else {
            Err::<u64, Violation>(Violation::UndefinedInput)
        }),
{
    if a == b {
        Err(Violation::UndefinedInput)
    } else {
        Ok(lcp_len_of(a, b))
    }
}

/// The constants of the two layouts are what their names say. In the
/// double-width layout every field of the replicator holds 1, every field
/// of the sentinels holds nothing but the sentinel, and field `j` of the
/// powers of two holds the power with exponent `7 - j`. In the word, every
/// block of the tops holds nothing but its top bit and every block of the
/// ones holds 1. The packer has a one at every seventh position up to bit
/// 56 and nowhere else.
pub proof fn lemma_layout_constants()
    ensures
        forall|j: u128| j < 8 ==> #[trigger] wide_field_at(WIDE_REPLICATOR, j) == 1,
        forall|j: u128| j < 8 ==> #[trigger] wide_field_at(WIDE_SENTINELS, j) == 0x100,
        forall|j: u128| j < 8 ==> #[trigger] wide_field_at(POWERS_OF_TWO, j) == 0x80u16 >> j,
        WIDE_REPLICATOR >> 72 == 0 && WIDE_SENTINELS >> 72 == 0 && POWERS_OF_TWO >> 72 == 0,
        forall|j: u64| j < 8 ==> #[trigger] block_at(BLOCK_TOPS, j) == 0x80,
        forall|j: u64| j < 8 ==> #[trigger] block_at(BLOCK_ONES, j) == 1,
        forall|i: u64| i < 64 ==> (#[trigger] bit_at(PACKER, i) <==> i % 7 == 0 && i <= 56),
{
    assert((forall|j: u128| j < 8 ==> #[trigger] wide_field_at(WIDE_REPLICATOR, j) == 1) && (
    forall|j: u128| j < 8 ==> #[trigger] wide_field_at(WIDE_SENTINELS, j) == 0x100) && (forall|
        j: u128,
    |
        j < 8 ==> #[trigger] wide_field_at(POWERS_OF_TWO, j) == 0x80u16 >> j) && WIDE_REPLICATOR
        >> 72 == 0 && WIDE_SENTINELS >> 72 == 0 && POWERS_OF_TWO >> 72 == 0) by (bit_vector);
    assert((forall|j: u64| j < 8 ==> #[trigger] block_at(BLOCK_TOPS, j) == 0x80) && (forall|j: u64|
        j < 8 ==> #[trigger] block_at(BLOCK_ONES, j) == 1) && (forall|i: u64|
        i < 64 ==> (#[trigger] bit_at(PACKER, i) <==> i % 7 == 0 && i <= 56))) by (bit_vector);
}

/// The summary of a word other than zero has a raised flag.
proof fn lemma_summary_not_zero(word: u64, summary: u8)
    requires
        word != 0,
        forall|j: u64| j < 8 ==> (bit_at(summary as u64, j) <==> #[trigger] block_at(word, j) != 0),
    ensures
        summary != 0,
{
    assert(block_at(word, 0) != 0 || block_at(word, 1) != 0 || block_at(word, 2) != 0 || block_at(
        word,
        3,
    ) != 0 || block_at(word, 4) != 0 || block_at(word, 5) != 0 || block_at(word, 6) != 0
        || block_at(word, 7) != 0) by (bit_vector)
        requires
            word != 0,
    ;
    let wide = summary as u64;
    assert(summary != 0) by (bit_vector)
        requires
            wide == summary as u64,
            bit_at(wide, 0) || bit_at(wide, 1) || bit_at(wide, 2) || bit_at(wide, 3) || bit_at(
                wide,
                4,
            ) || bit_at(wide, 5) || bit_at(wide, 6) || bit_at(wide, 7),
    ;
}

/// The sentinels that survive the subtraction of the powers of two count
/// the powers that are at most `query`, and there is one of these for each
/// position up to the most significant set bit of `query`.
proof fn lemma_powers_at_most(difference: u128, query: u8)
    requires
        forall|j: u128|
            j < 8 ==> (#[trigger] wide_sentinel_at(difference, j) <==> query >> ((7 - j) as u8)
                != 0),
    ensures
        wide_raised(difference, 8) <= 8,
        query == 0 <==> wide_raised(difference, 8) == 0,
        query != 0 ==> query >> ((wide_raised(difference, 8) - 1) as u8) == 1,
{
    reveal_with_fuel(wide_raised, 9);
    assert(wide_sentinel_at(difference, 0) <==> query >> 7u8 != 0);
    assert(wide_sentinel_at(difference, 1) <==> query >> 6u8 != 0);
    assert(wide_sentinel_at(difference, 2) <==> query >> 5u8 != 0);
    assert(wide_sentinel_at(difference, 3) <==> query >> 4u8 != 0);
    assert(wide_sentinel_at(difference, 4) <==> query >> 3u8 != 0);
    assert(wide_sentinel_at(difference, 5) <==> query >> 2u8 != 0);
    assert(wide_sentinel_at(difference, 6) <==> query >> 1u8 != 0);
    assert(wide_sentinel_at(difference, 7) <==> query >> 0u8 != 0);
    let rank: u8 = wide_raised(difference, 8) as u8;
    assert(rank <= 8 && (query == 0 <==> rank == 0) && (query != 0 ==> query >> ((rank - 1) as u8)
        == 1)) by (bit_vector)
        requires
            rank == (if query >> 7u8 != 0 { 1u8 } else { 0u8 }) + (if query >> 6u8 != 0 {
                1u8
            } else {
                0u8
            }) + (if query >> 5u8 != 0 { 1u8 } else { 0u8 }) + (if query >> 4u8 != 0 {
                1u8
            } else {
                0u8
            }) + (if query >> 3u8 != 0 { 1u8 } else { 0u8 }) + (if query >> 2u8 != 0 {
                1u8
            } else {
                0u8
            }) + (if query >> 1u8 != 0 { 1u8 } else { 0u8 }) + (if query >> 0u8 != 0 {
                1u8
            } else {
                0u8
            }),
    ;
}

/// In a double-width word that holds nothing but sentinels, the set bits
/// among the fields are the raised sentinels.
proof fn lemma_wide_ones_are_raised(w: u128, n: nat)
    requires
        w & !WIDE_SENTINELS == 0,
        n <= 8,
    ensures
        wide_ones_below(w, 9 * n) == wide_raised(w, n),
    decreases n,
{
    if n > 0 {
        let low = (9 * (n - 1)) as nat;
        lemma_wide_ones_are_raised(w, (n - 1) as nat);
        assert(forall|i: u128| i < 72 && i % 9 != 8 ==> !wide_bit_at(w, i)) by (bit_vector)
            requires
                w & !WIDE_SENTINELS == 0,
        ;
        assert(wide_ones_below(w, low + 1) == wide_ones_below(w, low));
        assert(wide_ones_below(w, low + 2) == wide_ones_below(w, low + 1));
        assert(wide_ones_below(w, low + 3) == wide_ones_below(w, low + 2));
        assert(wide_ones_below(w, low + 4) == wide_ones_below(w, low + 3));
        assert(wide_ones_below(w, low + 5) == wide_ones_below(w, low + 4));
        assert(wide_ones_below(w, low + 6) == wide_ones_below(w, low + 5));
        assert(wide_ones_below(w, low + 7) == wide_ones_below(w, low + 6));
        assert(wide_ones_below(w, low + 8) == wide_ones_below(w, low + 7));
    }
}

/// A double-width word that holds nothing but sentinels has no set bit
/// above its eight fields.
proof fn lemma_wide_ones_above_fields(w: u128, n: nat)
    requires
        w & !WIDE_SENTINELS == 0,
        72 <= n <= 128,
    ensures
        wide_ones_below(w, n) == wide_ones_below(w, 72),
    decreases n,
{
    if n > 72 {
        lemma_wide_ones_above_fields(w, (n - 1) as nat);
        assert(forall|i: u128| 72 <= i < 128 ==> !wide_bit_at(w, i)) by (bit_vector)
            requires
                w & !WIDE_SENTINELS == 0,
        ;
    }
}

} // verus!
