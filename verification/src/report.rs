//! Results of a parser run, written out for a human reader.

use vstd::prelude::*;

verus! {

/// `std::string::String::push`. Believed of it: it appends the character.
pub assume_specification[ String::push ](s: &mut String, c: char)
    ensures
        final(s)@ == old(s)@.push(c),
;

/// `std::string::String::push_str`. Believed of it: it appends the text.
pub assume_specification[ String::push_str ](s: &mut String, text: &str)
    ensures
        final(s)@ == old(s)@ + text@,
;

/// A byte that is written as the character it stands for.
pub open spec fn is_plain(c: u8) -> bool {
    0x20 <= c < 0x7f && c != 0x22 && c != 0x5c
}

/// A lower-case hexadecimal digit.
pub open spec fn hex_char(v: u8) -> char {
    if v < 10 {
        (0x30 + v) as char
    } else {
        (0x61 + v - 10) as char
    }
}

/// One byte of a quoted string: itself, or a backslash, an `x` and two digits.
pub open spec fn quoted_byte(c: u8) -> Seq<char> {
    if is_plain(c) {
        seq![c as char]
    } else {
        seq!['\\', 'x', hex_char(c / 16), hex_char(c % 16)]
    }
}

/// The bytes one after the other, each written as in a quoted string.
pub open spec fn quoted_bytes(b: Seq<u8>) -> Seq<char>
    decreases b.len(),
{
    if b.len() == 0 {
        Seq::empty()
    } else {
        quoted_bytes(b.drop_last()) + quoted_byte(b.last())
    }
}

/// The bytes as a quoted string.
pub open spec fn quoted(b: Seq<u8>) -> Seq<char> {
    seq!['"'] + quoted_bytes(b) + seq!['"']
}

fn hex_digit_char(v: u8) -> (c: char)
    requires
        v < 16,
    ensures
        c == hex_char(v),
{
    if v < 10 {
        (0x30 + v) as char
    } else {
        (0x61 + (v - 10)) as char
    }
}

/// Writes bytes as a quoted string.
pub fn escape(b: &[u8]) -> (s: String)
    ensures
        s@ == quoted(b@),
{
    let mut s = String::new();
    s.push('"');
    let mut i: usize = 0;
    while i < b.len()
        invariant
            i <= b@.len(),
            s@ =~= seq!['"'] + quoted_bytes(b@.take(i as int)),
        decreases b@.len() - i,
    {
        let c = b[i];
        if 0x20 <= c && c < 0x7f && c != 0x22 && c != 0x5c {
            s.push(c as char);
        } else {
            s.push('\\');
            s.push('x');
            s.push(hex_digit_char(c / 16));
            s.push(hex_digit_char(c % 16));
        }
        proof {
            assert(b@.take(i + 1).drop_last() =~= b@.take(i as int));
        }
        i = i + 1;
    }
    s.push('"');
    assert(b@.take(b@.len() as int) =~= b@);
    s
}

/// A decimal digit.
pub open spec fn decimal_char(v: nat) -> char {
    (0x30 + v) as char
}

/// A number in decimal, without leading zeros.
pub open spec fn decimal(n: nat) -> Seq<char>
    decreases n,
{
    if n < 10 {
        seq![decimal_char(n)]
    } else {
        decimal(n / 10).push(decimal_char(n % 10))
    }
}

/// Numbers in decimal, with a comma and a space between them.
pub open spec fn listed(b: Seq<u8>) -> Seq<char>
    decreases b.len(),
{
    if b.len() == 0 {
        Seq::empty()
    } else if b.len() == 1 {
        decimal(b[0] as nat)
    } else {
        listed(b.drop_last()) + ", "@ + decimal(b.last() as nat)
    }
}

/// The bytes as a list of numbers.
pub open spec fn listing(b: Seq<u8>) -> Seq<char> {
    "["@ + listed(b) + "]"@
}

/// Appends a number in decimal.
pub fn push_decimal(s: &mut String, n: usize)
    ensures
        final(s)@ == old(s)@ + decimal(n as nat),
    decreases n,
{
    if n >= 10 {
        push_decimal(s, n / 10);
    }
    let digit = (n % 10) as u8;
    s.push((0x30 + digit) as char);
    assert(s@ =~= old(s)@ + decimal(n as nat));
}

/// Appends bytes as a list of numbers.
pub fn push_listing(s: &mut String, b: &[u8])
    ensures
        final(s)@ == old(s)@ + listing(b@),
{
    s.push_str("[");
    let mut i: usize = 0;
    while i < b.len()
        invariant
            i <= b@.len(),
            s@ =~= old(s)@ + "["@ + listed(b@.take(i as int)),
        decreases b@.len() - i,
    {
        if i > 0 {
            s.push_str(", ");
        }
        push_decimal(s, b[i] as usize);
        proof {
            assert(b@.take(i + 1).drop_last() =~= b@.take(i as int));
            if i == 0 {
                assert(b@.take(0) =~= Seq::empty());
            }
        }
        i = i + 1;
    }
    s.push_str("]");
    assert(b@.take(b@.len() as int) =~= b@);
    assert(s@ =~= old(s)@ + listing(b@));
}

/// How a query string is written: as a list and as a quoted string.
pub open spec fn written_args(args: Option<&[u8]>) -> Seq<char> {
    match args {
        Some(a) => "Some("@ + listing(a@) + " = "@ + quoted(a@) + ")"@,
        None => "None"@,
    }
}

/// Writes a query string as a list and as a quoted string.
pub fn fmt_args(args: Option<&[u8]>) -> (s: String)
    ensures
        s@ == written_args(args),
{
    let mut s = String::new();
    match args {
        Some(a) => {
            s.push_str("Some(");
            push_listing(&mut s, a);
            s.push_str(" = ");
            s.push_str(escape(a).as_str());
            s.push_str(")");
        },
        None => {
            s.push_str("None");
        },
    }
    assert(s@ =~= written_args(args));
    s
}

} // verus!
