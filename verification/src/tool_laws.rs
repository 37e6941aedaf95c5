//! What the developer tools draw, build and write.

use crate::corpus::{
    digits, drawn, drawn_below, drawn_byte, drawn_bytes, next_state, tricky_targets, ALPHABET,
};
use crate::differential::{written_divergence, written_outcome, Outcome};
use crate::path_laws::lower_digit;
use crate::report::{
    decimal, listed, listing, quoted, quoted_byte, quoted_bytes, written_args,
};
use crate::workload::{grown, missing};
use vstd::arithmetic::power::pow;
use vstd::prelude::*;

verus! {

/// Bytes one behind the other are quoted one behind the other.
proof fn lemma_quoted_bytes(a: Seq<u8>, b: Seq<u8>)
    ensures
        quoted_bytes(a + b) == quoted_bytes(a) + quoted_bytes(b),
    decreases b.len(),
{
    if b.len() == 0 {
        assert(a + b =~= a);
        assert(quoted_bytes(a) + quoted_bytes(b) =~= quoted_bytes(a));
    } else {
        lemma_quoted_bytes(a, b.drop_last());
        assert((a + b).drop_last() =~= a + b.drop_last());
        assert(quoted_bytes(a + b) =~= quoted_bytes(a) + quoted_bytes(b));
    }
}

/// Quoting goes byte by byte: what stands between the quotes of two pieces
/// stands, one behind the other, between the quotes of the whole.
pub proof fn law_quoting_goes_byte_by_byte(a: Seq<u8>, b: Seq<u8>)
    ensures
        quoted(a + b) == quoted(a).drop_last() + quoted(b).drop_first(),
        quoted(Seq::empty()) == seq!['"', '"'],
{
    lemma_quoted_bytes(a, b);
    assert(quoted(a).drop_last() =~= seq!['"'] + quoted_bytes(a));
    assert(quoted(b).drop_first() =~= quoted_bytes(b) + seq!['"']);
    assert(quoted(a + b) =~= quoted(a).drop_last() + quoted(b).drop_first());
    assert(quoted(Seq::empty()) =~= seq!['"', '"']);
}

/// A printable byte other than a quote and a backslash is quoted as the
/// character it stands for, any other as `\x` and its two digits.
pub proof fn law_quoted_byte(c: u8)
    ensures
        quoted(seq![c]) == (if 0x20 <= c <= 0x7e && c != 0x22 && c != 0x5c {
            seq!['"', c as char, '"']
        } else {
            seq![
                '"',
                '\\',
                'x',
                lower_digit(c as int / 16) as char,
                lower_digit(c as int % 16) as char,
                '"',
            ]
        }),
{
    assert(seq![c].drop_last() =~= Seq::empty());
    assert(quoted_bytes(seq![c].drop_last()) =~= Seq::empty());
    assert(quoted_bytes(seq![c]) =~= quoted_byte(c));
    assert(0 <= c as int / 16 < 16);
    assert(0 <= c as int % 16 < 16);
    assert(quoted(seq![c]) =~= seq!['"'] + quoted_byte(c) + seq!['"']);
}

/// The number that decimal digits stand for.
pub open spec fn read_decimal(t: Seq<char>) -> int
    decreases t.len(),
{
    if t.len() == 0 {
        0
    } else {
        10 * read_decimal(t.drop_last()) + (t.last() as int - 0x30)
    }
}

/// A number is written in decimal digits that read as the number, without
/// leading zeros.
pub proof fn law_decimal_reads_back(n: nat)
    ensures
        read_decimal(decimal(n)) == n,
        decimal(n).len() > 0,
        forall|i: int| 0 <= i < decimal(n).len() ==> '0' <= #[trigger] decimal(n)[i] <= '9',
        decimal(n).len() > 1 ==> decimal(n)[0] != '0',
        n > 0 ==> decimal(n)[0] != '0',
    decreases n,
{
    if n < 10 {
        assert(decimal(n).drop_last() =~= Seq::empty());
        assert(read_decimal(decimal(n).drop_last()) == 0);
    } else {
        law_decimal_reads_back(n / 10);
        assert(decimal(n).drop_last() =~= decimal(n / 10));
        assert(decimal(n)[0] == decimal(n / 10)[0]);
        assert forall|i: int| 0 <= i < decimal(n).len() implies '0' <= #[trigger] decimal(n)[i]
            <= '9' by {
            if i < decimal(n / 10).len() {
                assert(decimal(n)[i] == decimal(n / 10)[i]);
            }
        }
    }
}

/// Bytes are listed in brackets, in decimal, with a comma and a space between.
pub proof fn law_listing_grows(b: Seq<u8>, c: u8)
    ensures
        listing(Seq::empty()) == seq!['[', ']'],
        listing(seq![c]) == seq!['['] + decimal(c as nat) + seq![']'],
        b.len() > 0 ==> listing(b.push(c)) == listing(b).drop_last() + seq![',', ' '] + decimal(
            c as nat,
        ) + seq![']'],
{
    reveal_strlit("[");
    reveal_strlit("]");
    reveal_strlit(", ");
    assert("["@ =~= seq!['[']);
    assert("]"@ =~= seq![']']);
    assert(", "@ =~= seq![',', ' ']);
    assert(listing(Seq::empty()) =~= seq!['[', ']']);
    assert(listing(seq![c]) =~= seq!['['] + decimal(c as nat) + seq![']']);
    if b.len() > 0 {
        assert(b.push(c).drop_last() =~= b);
        assert(listing(b).drop_last() =~= "["@ + listed(b));
        assert(listing(b.push(c)) =~= listing(b).drop_last() + seq![',', ' '] + decimal(c as nat)
            + seq![']']);
    }
}

/// A missing query is told from any other, and a query is written as a listing
/// and as a quoted string.
pub proof fn law_written_query(a: &[u8])
    ensures
        written_args(None) == "None"@,
        written_args(Some(a)) == "Some("@ + listing(a@) + " = "@ + quoted(a@) + ")"@,
        written_args(Some(a)) != written_args(None),
{
    reveal_strlit("None");
    reveal_strlit("Some(");
    assert(written_args(None)[0] == 'N');
    assert(written_args(Some(a))[0] == 'S');
}

/// A report tells the target in both forms, the setting, and how each of the
/// two calls ended, in this order.
pub proof fn law_report_tells_all(input: Seq<u8>, merge: bool, c: Outcome, r: Outcome)
    ensures
        written_divergence(input, merge, c, r) == "\n=== DIVERGENCE ===\ninput (len "@ + decimal(
            input.len(),
        ) + "):  "@ + quoted(input) + "\nbytes:           "@ + listing(input)
            + "\nmerge_slashes:   "@ + (if merge {
            "true"@
        } else {
            "false"@
        }) + "\nC   result:      "@ + written_outcome(c) + "\nRust result:     "@
            + written_outcome(r),
        c is Panicked ==> written_outcome(c) == "PANIC"@,
        c matches Outcome::Returned(None) ==> written_outcome(c) == "Rejected"@,
        c matches Outcome::Returned(Some(x)) ==> written_outcome(c) == "Ok { path: "@ + listing(
            x.path@,
        ) + " = "@ + quoted(x.path@) + ", args: "@ + written_args(x.args) + " }"@,
{
}

/// The generator is linear: the state after the sum of two states, bit by bit,
/// is the sum of the states after each.
pub proof fn law_generator_is_linear(a: u64, b: u64)
    ensures
        next_state(a ^ b) == next_state(a) ^ next_state(b),
{
    let x = a ^ b;
    let a1 = a ^ (a >> 12u64);
    let b1 = b ^ (b >> 12u64);
    let x1 = x ^ (x >> 12u64);
    assert(x1 == a1 ^ b1) by (bit_vector)
        requires
            x == a ^ b,
            a1 == a ^ (a >> 12u64),
            b1 == b ^ (b >> 12u64),
            x1 == x ^ (x >> 12u64),
    ;
    let a2 = a1 ^ (a1 << 25u64);
    let b2 = b1 ^ (b1 << 25u64);
    let x2 = x1 ^ (x1 << 25u64);
    assert(x2 == a2 ^ b2) by (bit_vector)
        requires
            x1 == a1 ^ b1,
            a2 == a1 ^ (a1 << 25u64),
            b2 == b1 ^ (b1 << 25u64),
            x2 == x1 ^ (x1 << 25u64),
    ;
    assert(x2 ^ (x2 >> 27u64) == (a2 ^ (a2 >> 27u64)) ^ (b2 ^ (b2 >> 27u64))) by (bit_vector)
        requires
            x2 == a2 ^ b2,
    ;
}

/// What is drawn is the next state times a fixed odd number, in 64 bits.
pub proof fn law_what_is_drawn(x: u64)
    ensures
        drawn(x) as int == (next_state(x) as int * 0x2545_F491_4F6C_DD1D) % 0x1_0000_0000_0000_0000,
{
}

/// The bytes that inputs are drawn from: those that matter to a URL, some of
/// them repeatedly, and some others.
pub proof fn law_what_inputs_are_made_of()
    ensures
        ALPHABET@ == seq![
            0x2fu8,
            0x2f,
            0x2f,
            0x2f,
            0x2e,
            0x2e,
            0x2e,
            0x2e,
            0x25,
            0x25,
            0x25,
            0x32,
            0x65,
            0x45,
            0x66,
            0x30,
            0x61,
            0x67,
            0x5a,
            0x41,
            0x7a,
            0x3f,
            0x23,
            0x2b,
            0x20,
            0x5c,
            0x3a,
            0x7e,
            0x3d,
            0x26,
            0x00,
            0x7f,
            0x01,
            0x80,
            0xff,
            0x2d,
            0x5f,
        ],
{
}

/// What is always tried: runs of slashes, dot segments at either end and
/// between names, spelled with and without escapes, paths that leave the root,
/// escaped and broken bytes, queries and fragments with and without text, and
/// what is no origin form.
pub proof fn law_what_is_always_tried()
    ensures
        tricky_targets().len() == 36,
        tricky_targets().contains(""@),
        tricky_targets().contains("/"@),
        tricky_targets().contains("//"@),
        tricky_targets().contains("///"@),
        tricky_targets().contains("/."@),
        tricky_targets().contains("/.."@),
        tricky_targets().contains("/../"@),
        tricky_targets().contains("/./"@),
        tricky_targets().contains("/a/./b"@),
        tricky_targets().contains("/a/../b"@),
        tricky_targets().contains("/a/b/../../c"@),
        tricky_targets().contains("/a/b/../../../c"@),
        tricky_targets().contains("/%2e%2e/"@),
        tricky_targets().contains("/%2f"@),
        tricky_targets().contains("/a%2fb"@),
        tricky_targets().contains("/%00"@),
        tricky_targets().contains("/foo?bar"@),
        tricky_targets().contains("/foo#frag"@),
        tricky_targets().contains("/foo?a=b#c"@),
        tricky_targets().contains("/+"@),
        tricky_targets().contains("/foo?"@),
        tricky_targets().contains("/foo?#frag"@),
        tricky_targets().contains("/foo?x=%20"@),
        tricky_targets().contains("/%20"@),
        tricky_targets().contains("/a..b"@),
        tricky_targets().contains("/..."@),
        tricky_targets().contains("/...."@),
        tricky_targets().contains("/a/.."@),
        tricky_targets().contains("relative"@),
        tricky_targets().contains("/%zz"@),
        tricky_targets().contains("/%2"@),
        tricky_targets().contains("/a%"@),
        tricky_targets().contains("/\\"@),
        tricky_targets().contains("/a\\b"@),
        tricky_targets().contains("/.%2e/"@),
        tricky_targets().contains("/%2e./"@),
{
    assert(tricky_targets()[0] == ""@);
    assert(tricky_targets()[1] == "/"@);
    assert(tricky_targets()[2] == "//"@);
    assert(tricky_targets()[3] == "///"@);
    assert(tricky_targets()[4] == "/."@);
    assert(tricky_targets()[5] == "/.."@);
    assert(tricky_targets()[6] == "/../"@);
    assert(tricky_targets()[7] == "/./"@);
    assert(tricky_targets()[8] == "/a/./b"@);
    assert(tricky_targets()[9] == "/a/../b"@);
    assert(tricky_targets()[10] == "/a/b/../../c"@);
    assert(tricky_targets()[11] == "/a/b/../../../c"@);
    assert(tricky_targets()[12] == "/%2e%2e/"@);
    assert(tricky_targets()[13] == "/%2f"@);
    assert(tricky_targets()[14] == "/a%2fb"@);
    assert(tricky_targets()[15] == "/%00"@);
    assert(tricky_targets()[16] == "/foo?bar"@);
    assert(tricky_targets()[17] == "/foo#frag"@);
    assert(tricky_targets()[18] == "/foo?a=b#c"@);
    assert(tricky_targets()[19] == "/+"@);
    assert(tricky_targets()[20] == "/foo?"@);
    assert(tricky_targets()[21] == "/foo?#frag"@);
    assert(tricky_targets()[22] == "/foo?x=%20"@);
    assert(tricky_targets()[23] == "/%20"@);
    assert(tricky_targets()[24] == "/a..b"@);
    assert(tricky_targets()[25] == "/..."@);
    assert(tricky_targets()[26] == "/...."@);
    assert(tricky_targets()[27] == "/a/.."@);
    assert(tricky_targets()[28] == "relative"@);
    assert(tricky_targets()[29] == "/%zz"@);
    assert(tricky_targets()[30] == "/%2"@);
    assert(tricky_targets()[31] == "/a%"@);
    assert(tricky_targets()[32] == "/\\"@);
    assert(tricky_targets()[33] == "/a\\b"@);
    assert(tricky_targets()[34] == "/.%2e/"@);
    assert(tricky_targets()[35] == "/%2e./"@);
}

/// A number below a bound is what is left of a drawn number.
pub proof fn law_drawn_below(x: u64, n: int)
    requires
        n > 0,
    ensures
        0 <= drawn_below(x, n) < n,
        (drawn(x) as int - drawn_below(x, n)) % n == 0,
{
    let v = drawn(x) as int;
    vstd::arithmetic::div_mod::lemma_fundamental_div_mod(v, n);
    assert(v - drawn_below(x, n) == n * (v / n));
    vstd::arithmetic::div_mod::lemma_mod_multiples_basic(v / n, n);
    assert(n * (v / n) == (v / n) * n) by (nonlinear_arith);
}

/// A random input is drawn byte by byte: a shorter one from the same state is
/// its beginning. A byte behind the first takes one number, and which byte it
/// is depends on that number alone; the first byte takes a second number where
/// it is not made a slash.
pub proof fn law_random_input_is_drawn_byte_by_byte(x: u64, len: int, shorter: int, i: int)
    requires
        0 <= shorter <= len,
        i > 0,
    ensures
        drawn_bytes(x, len).0.len() == len,
        drawn_bytes(x, shorter).0 == drawn_bytes(x, len).0.take(shorter),
        drawn_byte(x, i) == (ALPHABET@[drawn(x) as int % 37], next_state(x)),
        drawn_byte(x, 0) == (if drawn(x) % 4 != 0 {
            (0x2fu8, next_state(x))
        } else {
            drawn_byte(next_state(x), i)
        }),
        len > 0 ==> drawn_bytes(x, len).1 == drawn_byte(drawn_bytes(x, len - 1).1, len - 1).1,
        len > 0 ==> drawn_bytes(x, len).0[len - 1] == drawn_byte(
            drawn_bytes(x, len - 1).1,
            len - 1,
        ).0,
        drawn_bytes(x, 0).1 == x,
    decreases len,
{
    if len > 0 {
        let before = drawn_bytes(x, len - 1).0;
        let at_most = if shorter < len {
            shorter
        } else {
            0
        };
        law_random_input_is_drawn_byte_by_byte(x, len - 1, at_most, i);
        assert(drawn_bytes(x, len).0.take(shorter) =~= if shorter < len {
            before.take(shorter)
        } else {
            drawn_bytes(x, len).0
        });
    } else {
        assert(drawn_bytes(x, len).0.take(shorter) =~= drawn_bytes(x, len).0);
    }
}

/// The bytes of an exhaustive input are the digits of its number to the base
/// 256, the lowest first.
pub proof fn law_exhaustive_input_counts(n: nat, len: nat, i: nat)
    requires
        i < len,
    ensures
        digits(n, len).len() == len,
        digits(n, len)[i as int] == (n as int / pow(256, i)) % 256,
    decreases len,
{
    reveal(pow);
    assert(digits(n / 256, 0) =~= Seq::empty());
    if len > 1 {
        let rest = digits(n / 256, (len - 1) as nat);
        if i > 0 {
            let k = (i - 1) as nat;
            law_exhaustive_input_counts(n / 256, (len - 1) as nat, k);
            assert(digits(n, len)[i as int] == rest[k as int]);
            vstd::arithmetic::power::lemma_pow_positive(256, k);
            vstd::arithmetic::div_mod::lemma_div_denominator(n as int, 256, pow(256, k));
        } else {
            law_exhaustive_input_counts(n / 256, (len - 1) as nat, 0);
        }
    }
}

/// A timed target begins with its prefix and goes on with whole units, up to
/// the first length of at least 1000.
pub proof fn law_timed_target_is_prefix_and_units(prefix: Seq<u8>, unit: Seq<u8>)
    requires
        unit.len() > 0,
    ensures
        ({
            let v = grown(prefix, unit);
            &&& v.len() >= 1000
            &&& v.take(prefix.len() as int) == prefix
            &&& prefix.len() >= 1000 ==> v == prefix
            &&& prefix.len() < 1000 ==> v.len() < 1000 + unit.len()
            &&& (v.len() - prefix.len()) % (unit.len() as int) == 0
            &&& forall|j: int|
                prefix.len() <= j < v.len() ==> #[trigger] v[j] == unit[(j - prefix.len())
                    % (unit.len() as int)]
        }),
    decreases missing(prefix.len()),
{
    let v = grown(prefix, unit);
    let n = unit.len() as int;
    if prefix.len() >= 1000 {
        assert(v.take(prefix.len() as int) =~= prefix);
    } else {
        let p = prefix + unit;
        law_timed_target_is_prefix_and_units(p, unit);
        assert(v.take(prefix.len() as int) =~= v.take(p.len() as int).take(prefix.len() as int));
        assert(p.take(prefix.len() as int) =~= prefix);
        assert forall|j: int| prefix.len() <= j < v.len() implies #[trigger] v[j] == unit[(j
            - prefix.len()) % n] by {
            let k = j - prefix.len();
            if j < p.len() {
                assert(v.take(p.len() as int)[j] == v[j]);
                assert(p[j] == unit[k]);
                vstd::arithmetic::div_mod::lemma_small_mod(k as nat, n as nat);
            } else {
                vstd::arithmetic::div_mod::lemma_mod_sub_multiples_vanish(k, n);
                assert((j - p.len()) % n == k % n) by {
                    assert(j - p.len() == -n + k);
                }
            }
        }
        assert((v.len() - prefix.len()) % n == 0) by {
            vstd::arithmetic::div_mod::lemma_mod_sub_multiples_vanish(v.len() - prefix.len(), n);
            assert(v.len() - p.len() == -n + (v.len() - prefix.len()));
        }
    }
}

} // verus!
