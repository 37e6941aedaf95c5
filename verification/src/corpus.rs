//! Inputs for checking the parser: random ones, and all of a given length.

use crate::chars::SLASH;
use vstd::arithmetic::power::pow;
use vstd::prelude::*;

verus! {

/// A xorshift64* generator. The same seed gives the same numbers.
pub struct Rng(pub u64);

/// The state after `x`.
pub open spec fn next_state(x: u64) -> u64 {
    let a = x ^ (x >> 12u64);
    let b = a ^ (a << 25u64);
    b ^ (b >> 27u64)
}

/// The number that is drawn in state `x`.
pub open spec fn drawn(x: u64) -> u64 {
    next_state(x).wrapping_mul(0x2545_F491_4F6C_DD1D)
}

/// The number below `n` that is drawn in state `x`.
pub open spec fn drawn_below(x: u64, n: int) -> int {
    drawn(x) as int % n
}

impl Rng {
    /// Draws a number.
    pub fn next_u64(&mut self) -> (v: u64)
        ensures
            final(self).0 == next_state(old(self).0),
            v == drawn(old(self).0),
    {
        let mut x: u64 = self.0;
        x = x ^ (x >> 12u64);
        x = x ^ (x << 25u64);
        x = x ^ (x >> 27u64);
        self.0 = x;
        x.wrapping_mul(0x2545_F491_4F6C_DD1D)
    }

    /// Draws a number below `n`.
    pub fn below(&mut self, n: usize) -> (v: usize)
        requires
            n > 0,
        ensures
            final(self).0 == next_state(old(self).0),
            v == drawn_below(old(self).0, n as int),
            v == drawn(old(self).0) as int % n as int,
            v < n,
    {
        (self.next_u64() % n as u64) as usize
    }
}

/// A generator that was not started from 0 never gets there.
pub proof fn law_state_is_never_zero(x: u64)
    requires
        x != 0,
    ensures
        next_state(x) != 0,
{
    let a = x ^ (x >> 12u64);
    let b = a ^ (a << 25u64);
    assert(x != 0 ==> x ^ (x >> 12u64) != 0) by (bit_vector);
    assert(a != 0 ==> a ^ (a << 25u64) != 0) by (bit_vector);
    assert(b != 0 ==> b ^ (b >> 27u64) != 0) by (bit_vector);
}

/// The bytes of a random input. Those that matter to a URL occur repeatedly,
/// which raises their weight.
pub const ALPHABET: [u8; 37] = [
    0x2f,
    0x2f,
    0x2f,
    0x2f,
    0x2e,
    0x2e,
    0x2e,
    0x2e,
    0x25,
    0x25,
    0x25,
    0x32,
    0x65,
    0x45,
    0x66,
    0x30,
    0x61,
    0x67,
    0x5a,
    0x41,
    0x7a,
    0x3f,
    0x23,
    0x2b,
    0x20,
    0x5c,
    0x3a,
    0x7e,
    0x3d,
    0x26,
    0x00,
    0x7f,
    0x01,
    0x80,
    0xff,
    0x2d,
    0x5f,
];

/// The byte at index `i` of an input that is drawn in state `x`, and the state
/// after it. Three inputs of four start with a slash.
pub open spec fn drawn_byte(x: u64, i: int) -> (u8, u64) {
    if i != 0 {
        (ALPHABET@[drawn_below(x, 37)], next_state(x))
    } else if drawn_below(x, 4) != 0 {
        (SLASH, next_state(x))
    } else {
        (ALPHABET@[drawn_below(next_state(x), 37)], next_state(next_state(x)))
    }
}

/// The `len` bytes that are drawn from state `x` on, and the state after them.
pub open spec fn drawn_bytes(x: u64, len: int) -> (Seq<u8>, u64)
    decreases len,
{
    if len <= 0 {
        (Seq::empty(), x)
    } else {
        let (bytes, y) = drawn_bytes(x, len - 1);
        let (b, z) = drawn_byte(y, len - 1);
        (bytes.push(b), z)
    }
}

/// Fills `buf` with a random input of at most 32 bytes.
pub fn gen_input(rng: &mut Rng, buf: &mut Vec<u8>)
    ensures
        (final(buf)@, final(rng).0) == drawn_bytes(
            next_state(old(rng).0),
            drawn_below(old(rng).0, 33),
        ),
        final(buf)@.len() <= 32,
{
    let ghost start = next_state(rng.0);
    buf.clear();
    let len = rng.below(33);
    let mut i: usize = 0;
    while i < len
        invariant
            i <= len,
            (buf@, rng.0) == drawn_bytes(start, i as int),
            buf@.len() == i,
        decreases len - i,
    {
        let b = if i == 0 && rng.below(4) != 0 {
            SLASH
        } else {
            let k = rng.below(37);
            ALPHABET[k]
        };
        buf.push(b);
        i = i + 1;
    }
}

/// Draws whether slashes are merged.
pub fn draw_merge(rng: &mut Rng) -> (merge: bool)
    ensures
        final(rng).0 == next_state(old(rng).0),
        merge == (drawn(old(rng).0) % 2 == 0),
{
    let v = rng.next_u64();
    assert(v & 1 == v % 2) by (bit_vector);
    v & 1 == 0
}

/// The targets that are always tried first, as text.
pub open spec fn tricky_targets() -> Seq<Seq<char>> {
    seq![
        ""@,
        "/"@,
        "//"@,
        "///"@,
        "/."@,
        "/.."@,
        "/../"@,
        "/./"@,
        "/a/./b"@,
        "/a/../b"@,
        "/a/b/../../c"@,
        "/a/b/../../../c"@,
        "/%2e%2e/"@,
        "/%2f"@,
        "/a%2fb"@,
        "/%00"@,
        "/foo?bar"@,
        "/foo#frag"@,
        "/foo?a=b#c"@,
        "/+"@,
        "/foo?"@,
        "/foo?#frag"@,
        "/foo?x=%20"@,
        "/%20"@,
        "/a..b"@,
        "/..."@,
        "/...."@,
        "/a/.."@,
        "relative"@,
        "/%zz"@,
        "/%2"@,
        "/a%"@,
        "/\\"@,
        "/a\\b"@,
        "/.%2e/"@,
        "/%2e./"@,
    ]
}

/// The targets that are always tried first: each is an edge of the grammar.
pub fn fixed_corpus() -> (targets: Vec<&'static str>)
    ensures
        targets@.len() == tricky_targets().len(),
        forall|k: int| 0 <= k < targets@.len() ==> #[trigger] targets@[k]@ == tricky_targets()[k],
{
    vec![
        "",
        "/",
        "//",
        "///",
        "/.",
        "/..",
        "/../",
        "/./",
        "/a/./b",
        "/a/../b",
        "/a/b/../../c",
        "/a/b/../../../c",
        "/%2e%2e/",
        "/%2f",
        "/a%2fb",
        "/%00",
        "/foo?bar",
        "/foo#frag",
        "/foo?a=b#c",
        "/+",
        "/foo?",
        "/foo?#frag",
        "/foo?x=%20",
        "/%20",
        "/a..b",
        "/...",
        "/....",
        "/a/..",
        "relative",
        "/%zz",
        "/%2",
        "/a%",
        "/\\",
        "/a\\b",
        "/.%2e/",
        "/%2e./",
    ]
}

/// The longest suffix of which all values are tried.
pub const MAX_SUFFIX: usize = 3;

/// How many suffixes of a length there are.
pub fn exhaustive_total(suffix_len: usize) -> (total: usize)
    requires
        suffix_len <= MAX_SUFFIX,
    ensures
        total == pow(256, suffix_len as nat),
{
    let mut total: usize = 1;
    let mut i: usize = 0;
    proof {
        reveal(pow);
    }
    while i < suffix_len
        invariant
            i <= suffix_len <= MAX_SUFFIX,
            total == pow(256, i as nat),
            i == 0 ==> total == 1,
            i == 1 ==> total == 256,
            i == 2 ==> total == 65_536,
        decreases suffix_len - i,
    {
        proof {
            reveal(pow);
        }
        total = total * 256;
        i = i + 1;
    }
    total
}

/// The lowest `len` base-256 digits of `n`, lowest first.
pub open spec fn digits(n: nat, len: nat) -> Seq<u8>
    decreases len,
{
    if len == 0 {
        Seq::empty()
    } else {
        seq![(n % 256) as u8] + digits(n / 256, (len - 1) as nat)
    }
}

/// The `n`-th of the inputs that consist of a slash and `suffix_len` bytes.
pub fn exhaustive_input(n: usize, suffix_len: usize) -> (input: Vec<u8>)
    ensures
        input@ == seq![SLASH] + digits(n as nat, suffix_len as nat),
{
    let mut input: Vec<u8> = Vec::new();
    input.push(SLASH);
    let mut v: usize = n;
    let mut i: usize = 0;
    assert(input@ + digits(n as nat, suffix_len as nat) =~= seq![SLASH] + digits(
        n as nat,
        suffix_len as nat,
    ));
    while i < suffix_len
        invariant
            i <= suffix_len,
            input@ + digits(v as nat, (suffix_len - i) as nat) == seq![SLASH] + digits(
                n as nat,
                suffix_len as nat,
            ),
        decreases suffix_len - i,
    {
        let ghost before = input@;
        let ghost rest = digits((v / 256) as nat, (suffix_len - i - 1) as nat);
        input.push((v % 256) as u8);
        assert(before + (seq![(v % 256) as u8] + rest) =~= input@ + rest);
        v = v / 256;
        i = i + 1;
    }
    assert(input@ + digits(v as nat, 0) =~= input@);
    input
}

/// The number with the given base-256 digits, lowest first.
pub open spec fn number(d: Seq<u8>) -> nat
    decreases d.len(),
{
    if d.len() == 0 {
        0
    } else {
        d[0] as nat + 256 * number(d.skip(1))
    }
}

/// Counting up to 256 to the power of the length reaches every suffix.
pub proof fn law_every_suffix_is_reached(suffix: Seq<u8>)
    ensures
        number(suffix) < pow(256, suffix.len()),
        digits(number(suffix), suffix.len()) == suffix,
    decreases suffix.len(),
{
    reveal(pow);
    if suffix.len() == 0 {
        assert(suffix =~= Seq::empty());
    } else {
        let rest = suffix.skip(1);
        law_every_suffix_is_reached(rest);
        let n = number(suffix);
        assert(n % 256 == suffix[0]);
        assert(n / 256 == number(rest));
        assert(seq![suffix[0]] + rest =~= suffix);
    }
}

} // verus!
