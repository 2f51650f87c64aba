//! A bucket of small integers packed into one 64-bit word.
//!
//! The word is read as eight fields of eight bits. The low seven bits of a
//! field carry a value, the eighth is the field's sentinel. Comparing a query
//! with every stored value at once is then a single subtraction: the query is
//! copied into every field with the sentinel raised, the stored word is
//! subtracted, and a sentinel stays raised exactly where the stored value did
//! not exceed the query, since a borrow never leaves its field.

use vstd::prelude::*;
use crate::bits::{bit_at, ones_below};
use crate::numeral::{binary_numeral, to_binary};
use crate::Violation;

verus! {

/// Number of values that a bucket holds at most. The eighth field of the
/// word stays empty.
pub const CAPACITY: u8 = 7;

/// Largest value that fits the payload of a field.
pub const MAX_PAYLOAD: u8 = 0b0111_1111;

/// The word with a one at the lowest bit of each of its eight fields.
/// Multiplying a payload by it copies the payload into every field, and
/// multiplying a word of sentinels by it stacks their count at bit 63.
pub const REPLICATOR: u64 = 0x0101_0101_0101_0101;

/// The word with exactly the sentinel bit of each of its eight fields set.
pub const SENTINELS: u64 = 0x8080_8080_8080_8080;

/// The word with exactly the sentinel bit of each of the seven fields that
/// a bucket uses set.
pub const USABLE_SENTINELS: u64 = 0x0080_8080_8080_8080;

/// Field `j` of `w`, counted from the least significant end.
pub open spec fn field_at(w: u64, j: u64) -> u8 {
    ((w >> (8 * j) as u64) & 0xff) as u8
}

/// Whether the sentinel of field `j` of `w` is raised.
pub open spec fn sentinel_at(w: u64, j: u64) -> bool {
    bit_at(w, (8 * j + 7) as u64)
}

/// Number of values in `s` that are at most `q`.
pub open spec fn count_le(s: Seq<u8>, q: u8) -> nat {
    s.filter(|v: u8| v <= q).len()
}

/// The positions of `s` at which the value is at most `q`.
pub open spec fn positions_le(s: Seq<u8>, q: u8) -> Set<int> {
    Set::new(|i: int| 0 <= i < s.len() && s[i] <= q)
}

/// Counting the values of a sequence that are at most `q` is counting the
/// positions at which such a value stands: a value that occurs twice counts
/// twice.
pub proof fn lemma_count_le_is_cardinality(s: Seq<u8>, q: u8)
    ensures
        positions_le(s, q).finite(),
        count_le(s, q) == positions_le(s, q).len(),
    decreases s.len(),
{
    broadcast use vstd::set::group_set_axioms;

    if s.len() == 0 {
        assert(positions_le(s, q) =~= Set::<int>::empty());
    } else {
        let front = s.drop_last();
        let end = s.len() - 1;
        lemma_count_le_is_cardinality(front, q);
        reveal_with_fuel(Seq::filter, 1);
        if s.last() <= q {
            assert(positions_le(s, q) =~= positions_le(front, q).insert(end));
        } else {
            assert(positions_le(s, q) =~= positions_le(front, q));
        }
    }
}

/// Number of fields among the `n` lowest of `w` that hold a value of at
/// most `q`.
spec fn fields_le(w: u64, q: u8, n: nat) -> nat
    decreases n,
{
    if n == 0 {
        0
    } else {
        fields_le(w, q, (n - 1) as nat) + if field_at(w, (n - 1) as u64) <= q {
            1nat
        } else {
            0nat
        }
    }
}

/// Number of fields among the `n` lowest of `w` whose sentinel is raised.
pub open spec fn raised(w: u64, n: nat) -> nat
    decreases n,
{
    if n == 0 {
        0
    } else {
        raised(w, (n - 1) as nat) + if sentinel_at(w, (n - 1) as u64) {
            1nat
        } else {
            0nat
        }
    }
}

/// The number that a sequence of values makes when each value is a digit
/// to the base 256, the last value the lowest digit.
pub open spec fn packed_value(s: Seq<u8>) -> nat
    decreases s.len(),
{
    if s.len() == 0 {
        0
    } else {
        packed_value(s.drop_last()) * 256 + s.last() as nat
    }
}

/// The values that the `count` lowest fields of `w` hold, the highest of
/// these fields first.
spec fn stored(w: u64, count: nat) -> Seq<u8> {
    Seq::new(count, |i: int| field_at(w, (count - 1 - i) as u64))
}

/// A bucket of at most seven values between 0 and 127, kept in one word.
///
/// The value added last sits in the lowest field. Nothing is ever removed.
#[derive(Debug)]
pub struct SardineCan {
    /// The fields, the sentinel of each at zero.
    buckets: u64,
    /// How many of the low fields hold a value.
    count: u8,
}

impl View for SardineCan {
    type V = Seq<u8>;

    /// The values of the bucket in the order in which they were added.
    closed spec fn view(&self) -> Seq<u8> {
        stored(self.buckets, self.count as nat)
    }
}

impl Default for SardineCan {
    /// The empty bucket.
    fn default() -> (can: Self)
        ensures
            can.wf(),
            can@ == Seq::<u8>::empty(),
    {
        SardineCan::new()
    }
}

impl SardineCan {
    /// The invariant of the representation: at most seven fields are in
    /// use, every sentinel is at zero, and the fields above those in use
    /// are empty.
    pub closed spec fn wf(&self) -> bool {
        &&& self.count <= CAPACITY
        &&& self.buckets & SENTINELS == 0
        &&& self.buckets >> (8 * self.count) as u64 == 0
    }

    /// The empty bucket.
    pub fn new() -> (can: Self)
        ensures
            can.wf(),
            can@ == Seq::<u8>::empty(),
    {
        let can = SardineCan { buckets: 0, count: 0 };
        assert(0u64 & SENTINELS == 0 && 0u64 >> 0u64 == 0) by (bit_vector);
        assert(can@ =~= Seq::<u8>::empty());
        can
    }

    /// The word in which the bucket keeps its values.
    pub closed spec fn word(&self) -> u64 {
        self.buckets
    }

    /// Number of values in the bucket.
    pub fn len(&self) -> (n: u8)
        ensures
            n == self@.len(),
            self.wf() ==> n <= CAPACITY,
    {
        self.count
    }

    /// The word of the bucket as text: its binary numeral, followed by a
    /// line break.
    pub fn to_string(&self) -> (text: String)
        ensures
            text@ == binary_numeral(self.word() as nat).push('\n'),
    {
        let mut text = to_binary(self.buckets);
        text.push('\n');
        text
    }

    /// The word of a bucket is the number that its values make as digits
    /// to the base 256, the value added last the lowest digit.
    pub proof fn lemma_word_is_packed_value(&self)
        requires
            self.wf(),
        ensures
            self.word() == packed_value(self@),
    {
        lemma_fields_are_digits(self.buckets, self.count as u64);
    }

    /// Every value of a bucket fits the payload of a field, and there are
    /// at most seven of them.
    pub proof fn lemma_view_in_range(&self)
        requires
            self.wf(),
        ensures
            self@.len() <= CAPACITY,
            forall|i: int| 0 <= i < self@.len() ==> #[trigger] self@[i] <= MAX_PAYLOAD,
    {
        let b = self.buckets;
        assert(forall|j: u64| j < 8 ==> #[trigger] field_at(b, j) <= 0x7f) by (bit_vector)
            requires
                b & SENTINELS == 0,
        ;
        assert forall|i: int| 0 <= i < self@.len() implies #[trigger] self@[i] <= MAX_PAYLOAD by {
            assert(self@[i] == field_at(b, (self.count - 1 - i) as u64));
        }
    }

    /// Stores `x` in the bucket, behind the values that are already there.
    ///
    /// The word moves up by one field and `x` takes the lowest one.
    pub fn add(&mut self, mut x: u8)
        requires
            old(self).wf(),
            old(self)@.len() < CAPACITY,
            x <= MAX_PAYLOAD,
        ensures
            final(self).wf(),
            final(self)@ == old(self)@.push(x),
    {
        let ghost before: u64 = self.buckets;
        let ghost used: u64 = self.count as u64;
        let ghost given: u8 = x;
        x &= MAX_PAYLOAD;
        self.buckets <<= 8;
        self.buckets |= x as u64;
        self.count += 1;
        let ghost after: u64 = self.buckets;
        proof {
            assert(after & SENTINELS == 0 && after >> (8 * (used + 1)) as u64 == 0
                && field_at(after, 0) == given && forall|j: u64|
                j < 7 ==> #[trigger] field_at(after, (j + 1) as u64) == field_at(before, j))
                by (bit_vector)
                requires
                    before & SENTINELS == 0,
                    before >> (8 * used) as u64 == 0,
                    used < 7,
                    given <= MAX_PAYLOAD,
                    x == given & MAX_PAYLOAD,
                    after == (before << 8) | (x as u64),
            ;
            assert forall|i: int| 0 <= i < used + 1 implies #[trigger] final(self)@[i] == old(
                self,
            )@.push(given)[i] by {
                if i < used {
                    let j = (used - 1 - i) as u64;
                    assert(field_at(after, (j + 1) as u64) == field_at(before, j));
                }
            }
            assert(final(self)@ =~= old(self)@.push(given));
        }
    }

    /// Stores `x` in the bucket if it fits a field and the bucket has room;
    /// otherwise the bucket stays as it is and the reason comes back.
    pub fn try_add(&mut self, x: u8) -> (done: Result<(), Violation>)
        requires
            old(self).wf(),
        ensures
            final(self).wf(),
            x > MAX_PAYLOAD ==> done == Err::<(), Violation>(Violation::PayloadOutOfRange)
                && *final(self) == *old(self),
            x <= MAX_PAYLOAD && old(self)@.len() >= CAPACITY ==> done == Err::<(), Violation>(
                Violation::CapacityExceeded,
            ) && *final(self) == *old(self),
            x <= MAX_PAYLOAD && old(self)@.len() < CAPACITY ==> done == Ok::<(), Violation>(())
                && final(self)@ == old(self)@.push(x),
    {
        if x > MAX_PAYLOAD {
            Err(Violation::PayloadOutOfRange)
        } else if self.count >= CAPACITY {
            Err(Violation::CapacityExceeded)
        } else {
            self.add(x);
            Ok(())
        }
    }

    /// Copies `query` into each of the eight fields of a word and raises
    /// every sentinel.
    ///
    /// One multiplication does the copying: the multiplier has a one at the
    /// low end of each field, and since the payload leaves the top bit of
    /// its field free, no copy reaches into the next.
    pub fn parallel_tile_64(query: u8) -> (tiled: u64)
        requires
            query <= MAX_PAYLOAD,
        ensures
            forall|j: u64| j < 8 ==> #[trigger] field_at(tiled, j) == query + 0x80,
            forall|j: u64| j < 8 ==> #[trigger] sentinel_at(tiled, j),
    {
        let tiled_x: u64 = query as u64 * REPLICATOR;
        let tiled: u64 = tiled_x | SENTINELS;
        assert((forall|j: u64| j < 8 ==> #[trigger] field_at(tiled, j) == query + 0x80) && (forall|
            j: u64,
        |
            j < 8 ==> #[trigger] sentinel_at(tiled, j))) by (bit_vector)
            requires
                query <= MAX_PAYLOAD,
                tiled_x == query as u64 * REPLICATOR,
                tiled == tiled_x | SENTINELS,
        ;
        tiled
    }

    /// Number of values in the bucket that are at most `x`.
    ///
    /// The seven usable fields are compared with `x` at once. A field that
    /// holds no value yet holds zero and passes any comparison, so the
    /// count of the empty fields is taken off.
    pub fn parallel_rank(&self, x: u8) -> (rank: u8)
        requires
            self.wf(),
            x <= MAX_PAYLOAD,
        ensures
            rank == count_le(self@, x),
    {
        let among_usable: u8 = Self::parallel_rank_helper(self.buckets, x);
        proof {
            let b = self.buckets;
            let used = self.count as u64;
            assert(forall|j: u64| used <= j < 8 ==> #[trigger] field_at(b, j) == 0) by (bit_vector)
                requires
                    b >> (8 * used) as u64 == 0,
                    used <= 7,
            ;
            lemma_empty_fields_count(b, x, self.count as nat, 7);
            lemma_fields_le_is_count(b, x, self.count as nat);
        }
        among_usable - (CAPACITY - self.count)
    }

    /// Number of values in the bucket that are at most `x`, or the reason
    /// why `x` cannot be asked for.
    pub fn try_parallel_rank(&self, x: u8) -> (rank: Result<u8, Violation>)
        requires
            self.wf(),
        ensures
            rank == (if x <= MAX_PAYLOAD {
                Ok::<u8, Violation>(count_le(self@, x) as u8)
            } else {
                Err::<u8, Violation>(Violation::PayloadOutOfRange)
            }),
            count_le(self@, x) <= CAPACITY,
    {
        proof {
            self@.lemma_filter_len(|v: u8| v <= x);
        }
        if x > MAX_PAYLOAD {
            Err(Violation::PayloadOutOfRange)
        } else {
            Ok(self.parallel_rank(x))
        }
    }

    /// Number of fields of `packed_keys`, among the seven that a bucket
    /// uses, that hold a value of at most `query`.
    fn parallel_rank_helper(packed_keys: u64, query: u8) -> (rank: u8)
        requires
            packed_keys & SENTINELS == 0,
            query <= MAX_PAYLOAD,
        ensures
            rank == fields_le(packed_keys, query, 7),
    {
        let tiled: u64 = Self::parallel_tile_64(query);
        assert(tiled >= packed_keys) by (bit_vector)
            requires
                packed_keys & SENTINELS == 0,
                field_at(tiled, 7) == query + 0x80,
        ;
        let mut difference: u64 = tiled - packed_keys;
        difference &= USABLE_SENTINELS;
        proof {
            assert(difference & !SENTINELS == 0 && !sentinel_at(difference, 7) && forall|j: u64|
                j < 7 ==> (#[trigger] sentinel_at(difference, j) <==> field_at(packed_keys, j)
                    <= query)) by (bit_vector)
                requires
                    packed_keys & SENTINELS == 0,
                    query <= MAX_PAYLOAD,
                    field_at(tiled, 0) == query + 0x80,
                    field_at(tiled, 1) == query + 0x80,
                    field_at(tiled, 2) == query + 0x80,
                    field_at(tiled, 3) == query + 0x80,
                    field_at(tiled, 4) == query + 0x80,
                    field_at(tiled, 5) == query + 0x80,
                    field_at(tiled, 6) == query + 0x80,
                    field_at(tiled, 7) == query + 0x80,
                    tiled >= packed_keys,
                    difference == (tiled - packed_keys) as u64 & USABLE_SENTINELS,
            ;
            lemma_ones_are_raised(difference, 8);
            assert(raised(difference, 8) == raised(difference, 7));
            lemma_raised_bound(difference, 7);
            lemma_raised_is_fields_le(difference, packed_keys, query, 7);
        }
        difference.count_ones() as u8
    }

    /// Counts the raised sentinels of `difference`, a word that holds
    /// nothing but sentinels, with one multiplication in place of a
    /// population count. The count comes back in three bits, so that eight
    /// raised sentinels read as none.
    pub fn parallel_count(difference: u64) -> (count: u8)
        requires
            difference & !SENTINELS == 0,
        ensures
            count == raised(difference, 8) % 8,
            count == ones_below(difference, 64) % 8,
    {
        let stacker: u64 = REPLICATOR;
        assert(difference as u128 * stacker as u128 <= u128::MAX) by (bit_vector)
            requires
                stacker == REPLICATOR,
        ;
        let mut stacked: u128 = difference as u128 * stacker as u128;
        let ghost product: u128 = stacked;
        stacked >>= 63;
        stacked &= 0b111;
        proof {
            let d = difference;
            assert(stacked < 8 && (stacked == sentinel_sum(d) || stacked + 8 == sentinel_sum(d)))
                by (bit_vector)
                requires
                    d & !SENTINELS == 0,
                    product == d as u128 * REPLICATOR as u128,
                    stacked == (product >> 63) & 7,
            ;
            lemma_raised_is_sum(d);
            lemma_ones_are_raised(d, 8);
        }
        stacked as u8
    }
}

/// In a word that holds nothing but sentinels, the set bits are the raised
/// sentinels.
pub proof fn lemma_ones_are_raised(w: u64, n: nat)
    requires
        w & !SENTINELS == 0,
        n <= 8,
    ensures
        ones_below(w, 8 * n) == raised(w, n),
    decreases n,
{
    if n > 0 {
        let low = (8 * (n - 1)) as nat;
        lemma_ones_are_raised(w, (n - 1) as nat);
        assert(forall|i: u64| i < 64 && i % 8 != 7 ==> !bit_at(w, i)) by (bit_vector)
            requires
                w & !SENTINELS == 0,
        ;
        assert(ones_below(w, low + 1) == ones_below(w, low));
        assert(ones_below(w, low + 2) == ones_below(w, low + 1));
        assert(ones_below(w, low + 3) == ones_below(w, low + 2));
        assert(ones_below(w, low + 4) == ones_below(w, low + 3));
        assert(ones_below(w, low + 5) == ones_below(w, low + 4));
        assert(ones_below(w, low + 6) == ones_below(w, low + 5));
        assert(ones_below(w, low + 7) == ones_below(w, low + 6));
    }
}

/// Counting the fields of a word that are at most `q` is counting the
/// values at most `q` in the sequence that the fields hold.
proof fn lemma_fields_le_is_count(w: u64, q: u8, count: nat)
    ensures
        fields_le(w, q, count) == count_le(stored(w, count), q),
    decreases count,
{
    let pred = |v: u8| v <= q;
    if count == 0 {
        assert(stored(w, 0).filter(pred) =~= Seq::<u8>::empty());
    } else {
        let newest_last = stored(w, (count - 1) as nat);
        let head = seq![field_at(w, (count - 1) as u64)];
        lemma_fields_le_is_count(w, q, (count - 1) as nat);
        assert(stored(w, count) =~= head + newest_last);
        Seq::filter_distributes_over_add(head, newest_last, pred);
        assert(head.drop_last() =~= Seq::<u8>::empty());
        assert(head.drop_last().filter(pred) =~= Seq::<u8>::empty());
        assert(head.filter(pred).len() == if field_at(w, (count - 1) as u64) <= q {
            1nat
        } else {
            0nat
        }) by {
            reveal_with_fuel(Seq::filter, 2);
        }
    }
}

/// A word with nothing above its `count` lowest fields is the number that
/// those fields make as digits to the base 256.
proof fn lemma_fields_are_digits(w: u64, count: u64)
    requires
        count <= 7,
        w >> (8 * count) as u64 == 0,
    ensures
        w == packed_value(stored(w, count as nat)),
    decreases count,
{
    if count == 0 {
        assert(w == 0) by (bit_vector)
            requires
                w >> 0u64 == 0,
        ;
    } else {
        let rest: u64 = w >> 8u64;
        let fewer = (count - 1) as u64;
        assert(rest >> (8 * fewer) as u64 == 0 && w == rest * 256 + field_at(w, 0) && forall|
            j: u64,
        |
            j < 7 ==> #[trigger] field_at(rest, j) == field_at(w, (j + 1) as u64)) by (bit_vector)
            requires
                rest == w >> 8u64,
                1 <= count <= 7,
                fewer == count - 1,
                w >> (8 * count) as u64 == 0,
        ;
        lemma_fields_are_digits(rest, fewer);
        assert(stored(w, count as nat).drop_last() =~= stored(rest, fewer as nat)) by {
            assert forall|i: int| 0 <= i < fewer implies stored(w, count as nat).drop_last()[i]
                == stored(rest, fewer as nat)[i] by {
                let j = (fewer - 1 - i) as u64;
                assert(field_at(rest, j) == field_at(w, (j + 1) as u64));
            }
        }
        assert(stored(w, count as nat).last() == field_at(w, 0));
    }
}

/// Fields that hold zero are at most any query: each of them counts.
proof fn lemma_empty_fields_count(w: u64, q: u8, used: nat, n: nat)
    requires
        used <= n <= 8,
        forall|j: u64| used <= j < 8 ==> #[trigger] field_at(w, j) == 0,
    ensures
        fields_le(w, q, n) == fields_le(w, q, used) + (n - used),
    decreases n,
{
    if n > used {
        lemma_empty_fields_count(w, q, used, (n - 1) as nat);
        assert(field_at(w, (n - 1) as u64) == 0);
    }
}

/// Where the sentinel of each field of `d` is raised exactly if the same
/// field of `w` is at most `q`, the raised sentinels count those fields.
proof fn lemma_raised_is_fields_le(d: u64, w: u64, q: u8, n: nat)
    requires
        n <= 7,
        forall|j: u64| j < 7 ==> (#[trigger] sentinel_at(d, j) <==> field_at(w, j) <= q),
    ensures
        raised(d, n) == fields_le(w, q, n),
    decreases n,
{
    if n > 0 {
        lemma_raised_is_fields_le(d, w, q, (n - 1) as nat);
        let j = (n - 1) as u64;
        assert(sentinel_at(d, j) <==> field_at(w, j) <= q);
    }
}

/// No more sentinels are raised than there are fields.
proof fn lemma_raised_bound(w: u64, n: nat)
    ensures
        raised(w, n) <= n,
    decreases n,
{
    if n > 0 {
        lemma_raised_bound(w, (n - 1) as nat);
    }
}

/// The sum of the eight sentinel bits of a word, each taken as 0 or 1.
spec fn sentinel_sum(d: u64) -> int {
    ((d >> 7) & 1) + ((d >> 15) & 1) + ((d >> 23) & 1) + ((d >> 31) & 1) + ((d >> 39) & 1) + ((d
        >> 47) & 1) + ((d >> 55) & 1) + ((d >> 63) & 1)
}

/// The raised sentinels of a word are the sum of its eight sentinel bits.
proof fn lemma_raised_is_sum(d: u64)
    ensures
        raised(d, 8) == sentinel_sum(d),
{
    reveal_with_fuel(raised, 9);
    assert(forall|i: u64| i < 64 ==> (#[trigger] (d >> i) & 1) == 0 || ((d >> i) & 1) == 1)
        by (bit_vector);
    assert((d >> 7u64) & 1 == 0 || (d >> 7u64) & 1 == 1);
    assert((d >> 15u64) & 1 == 0 || (d >> 15u64) & 1 == 1);
    assert((d >> 23u64) & 1 == 0 || (d >> 23u64) & 1 == 1);
    assert((d >> 31u64) & 1 == 0 || (d >> 31u64) & 1 == 1);
    assert((d >> 39u64) & 1 == 0 || (d >> 39u64) & 1 == 1);
    assert((d >> 47u64) & 1 == 0 || (d >> 47u64) & 1 == 1);
    assert((d >> 55u64) & 1 == 0 || (d >> 55u64) & 1 == 1);
    assert((d >> 63u64) & 1 == 0 || (d >> 63u64) & 1 == 1);
}

/// The two multipliers of the layout are what their names say: the lowest
/// bit of every field in the one, the sentinel of every field in the
/// other, and nothing else.
pub proof fn lemma_layout_constants()
    ensures
        forall|j: u64| j < 8 ==> #[trigger] field_at(REPLICATOR, j) == 1,
        forall|j: u64| j < 8 ==> #[trigger] field_at(SENTINELS, j) == 0x80,
        forall|j: u64| j < 7 ==> #[trigger] field_at(USABLE_SENTINELS, j) == 0x80,
        field_at(USABLE_SENTINELS, 7) == 0,
{
    assert((forall|j: u64| j < 8 ==> #[trigger] field_at(REPLICATOR, j) == 1) && (forall|j: u64|
        j < 8 ==> #[trigger] field_at(SENTINELS, j) == 0x80) && (forall|j: u64|
        j < 7 ==> #[trigger] field_at(USABLE_SENTINELS, j) == 0x80) && field_at(
        USABLE_SENTINELS,
        7,
    ) == 0) by (bit_vector);
}

} // verus!
