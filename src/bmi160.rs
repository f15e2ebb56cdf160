//! Sample decoding for the BMI160 motion sensor: its data registers hold
//! signed 16-bit values, low byte first.

use vstd::prelude::*;

verus! {

/// The signed value of the little-endian pair `(lo, hi)`.
pub open spec fn word_value(lo: u8, hi: u8) -> int {
    let u = hi as int * 256 + lo as int;
    if u >= 0x8000 {
        u - 0x10000
    } else {
        u
    }
}

/// The signed 16-bit value stored as `lo`, then `hi`.
pub fn sensor_word(lo: u8, hi: u8) -> (r: i16)
    ensures
        r as int == word_value(lo, hi),
{
    let u: u16 = ((hi as u16) << 8u16) | (lo as u16);
    proof {
        assert(((hi as u16) << 8u16) | (lo as u16) == (hi as u16) * 256 + (lo as u16)) by (bit_vector);
    }
    if u >= 0x8000 {
        (u as i32 - 0x10000) as i16
    } else {
        u as i16
    }
}

/// The signed words of a block of registers read in one go: word `i` is
/// made of bytes `2 * i` and `2 * i + 1`.
pub fn sensor_words(raw: &[u8]) -> (r: Vec<i16>)
    requires
        raw@.len() % 2 == 0,
    ensures
        r@.len() == raw@.len() / 2,
        forall|i: int|
            0 <= i < r@.len() ==> (#[trigger] r@[i]) as int == word_value(
                raw@[2 * i],
                raw@[2 * i + 1],
            ),
{
    let mut r: Vec<i16> = Vec::new();
    let len: usize = raw.len();
    let n: usize = len / 2;
    let mut i: usize = 0;
    while i < n
        invariant
            len == raw@.len(),
            n == raw@.len() / 2,
            raw@.len() % 2 == 0,
            i <= n,
            r@.len() == i,
            forall|k: int|
                0 <= k < i ==> (#[trigger] r@[k]) as int == word_value(raw@[2 * k], raw@[2 * k + 1]),
        decreases n - i,
    {
        assert(2 * i + 1 < len) by (nonlinear_arith)
            requires
                i < n,
                n == len / 2,
        ;
        r.push(sensor_word(raw[2 * i], raw[2 * i + 1]));
        i = i + 1;
    }
    r
}

} // verus!
