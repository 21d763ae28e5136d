//! Bit-range access on 64-bit words.

use bit_field::BitField;
use vstd::prelude::*;

verus! {

/// Bits `lo..hi` of `word`, moved down to bit 0.
pub open spec fn field(word: u64, lo: usize, hi: usize) -> u64 {
    ((word << ((64 - hi) as u64)) >> ((64 - hi) as u64)) >> (lo as u64)
}

/// Whether `value` has no bit set at or above bit `width`.
pub open spec fn fits(value: u64, width: usize) -> bool {
    (value << ((64 - width) as u64)) >> ((64 - width) as u64) == value
}

/// `word` with its bits `lo..hi` replaced by the low bits of `value`.
pub open spec fn with_field(word: u64, lo: usize, hi: usize, value: u64) -> u64 {
    let ones = ((!0u64) << ((64 - hi) as u64)) >> ((64 - hi) as u64);
    (word & !(ones >> (lo as u64) << (lo as u64))) | (value << (lo as u64))
}

/// Reads bits `lo..hi` of `word` with `bit_field::BitField::get_bits`. For a
/// non-empty range inside the word that method shifts the bits above `hi` out
/// to the left, back again, and then the bits below `lo` out to the right.
#[verifier::external_body]
pub(crate) fn get_bits(word: u64, lo: usize, hi: usize) -> (r: u64)
    requires
        lo < hi <= 64,
    ensures
        r == field(word, lo, hi),
{
    word.get_bits(lo..hi)
}

/// Replaces bits `lo..hi` of `word` with `bit_field::BitField::set_bits`.
/// That method panics unless `value` survives being shifted up to the top of
/// the word and back down by all but the range's width; otherwise it clears
/// the range with a mask built by shifts and ors `value`, moved up to bit
/// `lo`, into the result.
#[verifier::external_body]
pub(crate) fn set_bits(word: u64, lo: usize, hi: usize, value: u64) -> (r: u64)
    requires
        lo < hi <= 64,
        fits(value, (hi - lo) as usize),
    ensures
        r == with_field(word, lo, hi, value),
{
    let mut w = word;
    w.set_bits(lo..hi, value);
    w
}

} // verus!
