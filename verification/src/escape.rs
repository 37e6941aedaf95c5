//! The bytes that nginx escapes when it writes a normalized path.

use crate::chars::{is_forbidden, HASH, PERCENT, QUESTION};
use percent_encoding::{AsciiSet, CONTROLS};
use vstd::prelude::*;

verus! {

/// `percent_encoding::AsciiSet`, a set of ASCII bytes to be escaped.
#[verifier::external_type_specification]
#[verifier::external_body]
pub struct ExAsciiSet(AsciiSet);

/// The bytes that a set holds.
pub uninterp spec fn ascii_set_bytes(set: AsciiSet) -> Set<u8>;

/// The control bytes and DEL.
pub open spec fn control_bytes() -> Set<u8> {
    Set::new(|b: u8| b < 0x20 || b == 0x7f)
}

/// `percent_encoding::CONTROLS`. Believed of it: the set holds the bytes 0x00
/// to 0x1f and 0x7f, and no other.
#[verifier::external_body]
fn controls() -> (set: &'static AsciiSet)
    ensures
        ascii_set_bytes(*set) == control_bytes(),
{
    CONTROLS
}

/// `percent_encoding::AsciiSet::add`. Believed of it: it returns a set that
/// holds `byte` besides what `set` holds. It panics on a byte that is not
/// ASCII, so such a byte is left out.
pub assume_specification[ AsciiSet::add ](set: &AsciiSet, byte: u8) -> (res: AsciiSet)
    requires
        byte < 0x80,
    ensures
        ascii_set_bytes(res) == ascii_set_bytes(*set).insert(byte),
;

/// The ASCII bytes that are escaped in a normalized path.
pub open spec fn is_escaped(b: u8) -> bool {
    ||| is_forbidden(b)
    ||| b == 0x22  // "
    ||| b == HASH
    ||| b == PERCENT
    ||| b == 0x3c  // <
    ||| b == 0x3e  // >
    ||| b == QUESTION
    ||| b == 0x5c  // \
    ||| b == 0x5e  // ^
    ||| b == 0x60  // `
    ||| b == 0x7b  // {
    ||| b == 0x7c  // |
    ||| b == 0x7d  // }
}

/// Escaped are the bytes up to 0x20, DEL, and twelve others, no letter and no
/// digit among them; of the bytes that a path may hold as they are, a slash, a
/// dot and a plus sign stay.
pub proof fn law_what_is_escaped(b: u8)
    ensures
        is_escaped(b) <==> {
            ||| b <= 0x20 || b == 0x7f
            ||| b == 0x22 || b == 0x23 || b == 0x25 || b == 0x3c || b == 0x3e || b == 0x3f
            ||| b == 0x5c || b == 0x5e || b == 0x60 || b == 0x7b || b == 0x7c || b == 0x7d
        },
{
}

/// The set of bytes to escape when a normalized path is written again, for
/// `percent_encoding::percent_encode`.
pub fn path_escape_set() -> (set: AsciiSet)
    ensures
        ascii_set_bytes(set) == Set::new(|b: u8| is_escaped(b)),
        forall|b: u8| #[trigger]
            ascii_set_bytes(set).contains(b) <==> {
                ||| b <= 0x20 || b == 0x7f
                ||| b == 0x22 || b == 0x23 || b == 0x25 || b == 0x3c || b == 0x3e || b == 0x3f
                ||| b == 0x5c || b == 0x5e || b == 0x60 || b == 0x7b || b == 0x7c || b == 0x7d
            },
{
    let set = controls().add(0x20).add(0x22).add(HASH).add(PERCENT).add(0x3c).add(0x3e).add(
        QUESTION,
    ).add(0x5c).add(0x5e).add(0x60).add(0x7b).add(0x7c).add(0x7d);
    assert(ascii_set_bytes(set) =~= Set::new(|b: u8| is_escaped(b)));
    set
}

} // verus!
