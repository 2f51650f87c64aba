//! Writing a word out as a binary numeral.

use vstd::prelude::*;
use crate::four_russians_msb::get_msb_idx_of;

verus! {

/// The character for a binary digit: `'1'` for an odd number, `'0'` for an
/// even one.
pub open spec fn digit_of(n: nat) -> char {
    if n % 2 == 1 {
        '1'
    } else {
        '0'
    }
}

/// The binary numeral of `n`, most significant digit first and without
/// leading zeros; zero is written as a single `0`.
pub open spec fn binary_numeral(n: nat) -> Seq<char>
    decreases n,
{
    if n < 2 {
        seq![digit_of(n)]
    } else {
        binary_numeral(n / 2).push(digit_of(n))
    }
}

/// `String::push` of the standard library, documented as appending the
/// given character to the end of the string.
pub assume_specification[ String::push ](text: &mut String, ch: char)
    ensures
        final(text)@ == old(text)@.push(ch),
;

/// The binary numeral of `w` as text.
pub fn to_binary(w: u64) -> (text: String)
    ensures
        text@ == binary_numeral(w as nat),
{
    let mut text = String::new();
    if w == 0 {
        text.push('0');
        assert(text@ =~= binary_numeral(0));
        return text;
    }
    let top: u8 = get_msb_idx_of(w);
    text.push('1');
    assert(text@ =~= binary_numeral((w >> top) as nat));
    let mut i: u8 = top;
    while i > 0
        invariant
            i <= top < 64,
            text@ == binary_numeral((w >> i) as nat),
            w >> top == 1,
        decreases i,
    {
        let ghost above: u64 = w >> i;
        i -= 1;
        let here: u64 = w >> i;
        assert(here / 2 == above && here >= 2) by (bit_vector)
            requires
                here == w >> i,
                above == w >> ((i + 1) as u8),
                i < top < 64,
                w >> top == 1,
        ;
        if here & 1 == 1 {
            text.push('1');
        } else {
            text.push('0');
        }
        assert(here & 1 == here % 2) by (bit_vector);
    }
    assert(w >> 0u8 == w) by (bit_vector);
    text
}

} // verus!
