//! Classes of bytes that the path grammar distinguishes.

use vstd::prelude::*;

verus! {

/// `/`
pub const SLASH: u8 = 0x2f;

/// `.`
pub const DOT: u8 = 0x2e;

/// `%`
pub const PERCENT: u8 = 0x25;

/// `?`
pub const QUESTION: u8 = 0x3f;

/// `#`
pub const HASH: u8 = 0x23;

/// `+`
pub const PLUS: u8 = 0x2b;

/// Bitmap of the ordinary bytes, 32 per word, lowest byte in the lowest bit.
const USUAL: [u32; 8] = [
    0x0000_0000,  // control bytes
    0x7fff_37d6,  // punctuation and digits, without SP # % + . / ?
    0xffff_ffff,  // @A-Z[\]^_
    0x7fff_ffff,  // `a-z{|}~, without DEL
    0xffff_ffff,
    0xffff_ffff,
    0xffff_ffff,
    0xffff_ffff,
];

/// A byte that no request target may hold: a control byte, a space, or DEL.
pub open spec fn is_forbidden(b: u8) -> bool {
    b <= 0x20 || b == 0x7f
}

/// A byte that carries meaning of its own in a path or delimits it.
pub open spec fn is_special(b: u8) -> bool {
    b == HASH || b == PERCENT || b == PLUS || b == DOT || b == SLASH || b == QUESTION
}

/// An ordinary byte: neither forbidden nor special.
pub open spec fn is_usual(b: u8) -> bool {
    !is_forbidden(b) && !is_special(b)
}

/// Tells whether `ch` is an ordinary byte, by one lookup in the bitmap.
#[inline]
pub fn usual(ch: u8) -> (r: bool)
    ensures
        r == is_usual(ch),
        r == (ch > 0x20 && ch != 0x7f && ch != 0x23 && ch != 0x25 && ch != 0x2b && ch != 0x2e && ch
            != 0x2f && ch != 0x3f),
{
    proof {
        assert(ch >> 5 < 8) by (bit_vector);
        assert((ch & 0x1f) < 32) by (bit_vector);
        assert(ch >> 5 == 0 ==> ch <= 0x20) by (bit_vector);
        assert(0u32 & (1u32 << ((ch & 0x1f) as u32)) == 0) by (bit_vector);
        assert(ch >> 5 == 1 ==> ((0x7fff_37d6u32 & (1u32 << ((ch & 0x1f) as u32)) != 0) <==> !(
        ch == 0x20 || ch == 0x23 || ch == 0x25 || ch == 0x2b || ch == 0x2e || ch == 0x2f || ch
            == 0x3f)) && 0x20 <= ch < 0x40) by (bit_vector);
        assert(ch >> 5 == 3 ==> ((0x7fff_ffffu32 & (1u32 << ((ch & 0x1f) as u32)) != 0) <==> ch
            != 0x7f) && 0x60 <= ch < 0x80) by (bit_vector);
        assert(ch >> 5 >= 2 ==> 0x40 <= ch) by (bit_vector);
        assert(ch >> 5 != 3 ==> !(0x60 <= ch < 0x80)) by (bit_vector);
        assert(0xffff_ffffu32 & (1u32 << ((ch & 0x1f) as u32)) != 0) by (bit_vector);
    }
    USUAL[(ch >> 5) as usize] & (1u32 << (ch & 0x1f)) != 0
}

} // verus!
