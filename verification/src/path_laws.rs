//! What becomes of a path, told in bytes: how it may be spelled, what stays of
//! it, and what its dot segments and slashes do.
//!
//! The laws here are about any path and any of its spellings. Together they
//! settle what every text is rewritten to.

use crate::byte_lemmas::{
    lemma_above_root, lemma_above_root_at_end, lemma_all_path, lemma_behind_spelled,
    lemma_clean_outcome, lemma_digits, lemma_dir_bytes_on, lemma_join, lemma_leave,
    lemma_leave_at_end, lemma_merge, lemma_no_more_path, lemma_segment_place, lemma_spelled,
    lemma_spelled_result, lemma_stay, lemma_stay_at_end, lemma_walk_kept,
};
use crate::chars::SLASH;
use crate::lemmas::{lemma_segments, lemma_slash_from};
use crate::model::{
    before_root, below_root, decode, dir_bytes, front, is_dot, is_dot_dot, outcome, path_text,
    rewrite, segments, slash_from, NormalPath, Written,
};
use vstd::prelude::*;

verus! {

/// The digit for a value below 16, in lower case.
pub open spec fn lower_digit(v: int) -> u8 {
    seq![
        0x30u8,
        0x31,
        0x32,
        0x33,
        0x34,
        0x35,
        0x36,
        0x37,
        0x38,
        0x39,
        0x61,
        0x62,
        0x63,
        0x64,
        0x65,
        0x66,
    ][v]
}

/// The digit for a value below 16, in upper case.
pub open spec fn upper_digit(v: int) -> u8 {
    seq![
        0x30u8,
        0x31,
        0x32,
        0x33,
        0x34,
        0x35,
        0x36,
        0x37,
        0x38,
        0x39,
        0x41,
        0x42,
        0x43,
        0x44,
        0x45,
        0x46,
    ][v]
}

/// Whether `text` is a way to write the byte `b` in a path: as it is, unless
/// it means something else there, or as a percent sign with two digits, each in
/// either case. NUL has no such escape.
pub open spec fn spells(text: Seq<u8>, b: u8) -> bool {
    ||| (text == seq![b] && b != 0x25 && b != 0x3f && b != 0x23)
    ||| (b != 0 && text.len() == 3 && text[0] == 0x25 && (text[1] == lower_digit(b as int / 16)
        || text[1] == upper_digit(b as int / 16)) && (text[2] == lower_digit(b as int % 16)
        || text[2] == upper_digit(b as int % 16)))
}

/// Whether `texts` are ways to write the bytes of `path`, one by one.
pub open spec fn spelling(texts: Seq<Seq<u8>>, path: Seq<u8>) -> bool {
    &&& texts.len() == path.len()
    &&& forall|i: int| 0 <= i < path.len() ==> spells(#[trigger] texts[i], path[i])
}

/// Whether `s` starts with a slash and holds no byte up to 0x20 and not 0x7f.
pub open spec fn is_clean(s: Seq<u8>) -> bool {
    &&& s.len() > 0
    &&& s[0] == 0x2f
    &&& forall|j: int| 0 <= j < s.len() ==> #[trigger] s[j] > 0x20 && s[j] != 0x7f
}

/// What a text is rewritten to, as bytes.
pub open spec fn result(text: Seq<u8>, merge_slashes: bool, rooted: bool) -> Option<Seq<u8>> {
    match rewrite(text, merge_slashes, rooted) {
        Some(n) => Some(n.bytes()),
        None => None,
    }
}

/// For every byte but NUL, a percent sign and its two digits, each in either
/// case, decode to it.
pub proof fn law_digits_of_either_case(b: u8, hi: u8, lo: u8)
    requires
        b != 0,
        hi == lower_digit(b as int / 16) || hi == upper_digit(b as int / 16),
        lo == lower_digit(b as int % 16) || lo == upper_digit(b as int % 16),
    ensures
        decode(seq![0x25u8, hi, lo]) == Some(seq![b]),
{
    lemma_digits(b);
    let t = seq![0x25u8, hi, lo];
    assert(t.skip(3) =~= Seq::empty());
    assert(decode(t.skip(3)) == Some(Seq::<u8>::empty()));
    assert(seq![b] + Seq::<u8>::empty() =~= seq![b]);
    assert(16 * (b / 16) + b % 16 == b);
}

/// A clean target is accepted exactly if its path can be rewritten, with what
/// that gives as its path.
pub proof fn law_clean_target(s: Seq<u8>, merge_slashes: bool)
    requires
        is_clean(s),
    ensures
        match result(path_text(s), merge_slashes, false) {
            Some(bytes) => outcome(s, merge_slashes) matches Some((path, args)) && path == bytes,
            None => outcome(s, merge_slashes) is None,
        },
{
    lemma_clean_outcome(s, merge_slashes);
}

/// The segment `..` removes the one directory before it: in any path, at any
/// depth, however the path is spelled and whatever follows, a directory with
/// `..` behind it may be left out. Where slashes are kept, the directory may be
/// empty.
pub proof fn law_dot_dot_removes_one_directory(
    longer: Seq<Seq<u8>>,
    shorter: Seq<Seq<u8>>,
    x: Seq<u8>,
    d: Seq<u8>,
    tail: Seq<u8>,
    merge_slashes: bool,
    rooted: bool,
)
    requires
        spelling(longer, x + seq![0x2fu8] + d + seq![0x2fu8, 0x2e, 0x2e, 0x2f]),
        spelling(shorter, x + seq![0x2fu8]),
        !d.contains(0x2f),
        d != seq![0x2eu8],
        d != seq![0x2eu8, 0x2e],
        d.len() > 0 || !merge_slashes,
    ensures
        result(path_text(longer.flatten() + tail), merge_slashes, rooted) == result(
            path_text(shorter.flatten() + tail),
            merge_slashes,
            rooted,
        ),
        is_clean(longer.flatten() + tail) && is_clean(shorter.flatten() + tail) ==> outcome(
            longer.flatten() + tail,
            merge_slashes,
        ) == outcome(shorter.flatten() + tail, merge_slashes),
{
    let a = x + seq![0x2fu8] + d + seq![0x2fu8, 0x2e, 0x2e, 0x2f];
    let b = x + seq![0x2fu8];
    lemma_behind_spelled(longer, a, tail);
    lemma_behind_spelled(shorter, b, tail);
    if let Some(y) = decode(path_text(tail)) {
        lemma_leave(x, d, y, merge_slashes, rooted);
        lemma_leave(x, d, y, merge_slashes, false);
    }
    lemma_clean_outcome(longer.flatten() + tail, merge_slashes);
    lemma_clean_outcome(shorter.flatten() + tail, merge_slashes);
}

/// At the end of a path, too, `..` removes the one directory before it, and
/// leaves a slash.
pub proof fn law_trailing_dot_dot_removes_one_directory(
    longer: Seq<Seq<u8>>,
    shorter: Seq<Seq<u8>>,
    x: Seq<u8>,
    d: Seq<u8>,
    tail: Seq<u8>,
    merge_slashes: bool,
    rooted: bool,
)
    requires
        spelling(longer, x + seq![0x2fu8] + d + seq![0x2fu8, 0x2e, 0x2e]),
        spelling(shorter, x + seq![0x2fu8]),
        !d.contains(0x2f),
        d != seq![0x2eu8],
        d != seq![0x2eu8, 0x2e],
        d.len() > 0 || !merge_slashes,
        tail.len() == 0 || tail[0] == 0x3f || tail[0] == 0x23,
    ensures
        result(path_text(longer.flatten() + tail), merge_slashes, rooted) == result(
            path_text(shorter.flatten() + tail),
            merge_slashes,
            rooted,
        ),
        is_clean(longer.flatten() + tail) && is_clean(shorter.flatten() + tail) ==> outcome(
            longer.flatten() + tail,
            merge_slashes,
        ) == outcome(shorter.flatten() + tail, merge_slashes),
{
    let a = x + seq![0x2fu8] + d + seq![0x2fu8, 0x2e, 0x2e];
    let b = x + seq![0x2fu8];
    lemma_behind_spelled(longer, a, tail);
    lemma_behind_spelled(shorter, b, tail);
    if let Some(y) = decode(path_text(tail)) {
        lemma_no_more_path(tail);
        assert(a + y =~= a);
        assert(b + y =~= b);
        lemma_leave_at_end(x, d, merge_slashes, rooted);
        lemma_leave_at_end(x, d, merge_slashes, false);
    }
    lemma_clean_outcome(longer.flatten() + tail, merge_slashes);
    lemma_clean_outcome(shorter.flatten() + tail, merge_slashes);
}

/// A segment `.` may be left out.
pub proof fn law_dot_is_nothing(
    longer: Seq<Seq<u8>>,
    shorter: Seq<Seq<u8>>,
    x: Seq<u8>,
    tail: Seq<u8>,
    merge_slashes: bool,
    rooted: bool,
)
    requires
        spelling(longer, x + seq![0x2fu8, 0x2e, 0x2f]),
        spelling(shorter, x + seq![0x2fu8]),
    ensures
        result(path_text(longer.flatten() + tail), merge_slashes, rooted) == result(
            path_text(shorter.flatten() + tail),
            merge_slashes,
            rooted,
        ),
        is_clean(longer.flatten() + tail) && is_clean(shorter.flatten() + tail) ==> outcome(
            longer.flatten() + tail,
            merge_slashes,
        ) == outcome(shorter.flatten() + tail, merge_slashes),
{
    let a = x + seq![0x2fu8, 0x2e, 0x2f];
    let b = x + seq![0x2fu8];
    lemma_behind_spelled(longer, a, tail);
    lemma_behind_spelled(shorter, b, tail);
    if let Some(y) = decode(path_text(tail)) {
        lemma_stay(x, y, merge_slashes, rooted);
        lemma_stay(x, y, merge_slashes, false);
    }
    lemma_clean_outcome(longer.flatten() + tail, merge_slashes);
    lemma_clean_outcome(shorter.flatten() + tail, merge_slashes);
}

/// At the end of a path, too, `.` may be left out; the slash before it stays.
pub proof fn law_trailing_dot_is_nothing(
    longer: Seq<Seq<u8>>,
    shorter: Seq<Seq<u8>>,
    x: Seq<u8>,
    tail: Seq<u8>,
    merge_slashes: bool,
    rooted: bool,
)
    requires
        spelling(longer, x + seq![0x2fu8, 0x2e]),
        spelling(shorter, x + seq![0x2fu8]),
        tail.len() == 0 || tail[0] == 0x3f || tail[0] == 0x23,
    ensures
        result(path_text(longer.flatten() + tail), merge_slashes, rooted) == result(
            path_text(shorter.flatten() + tail),
            merge_slashes,
            rooted,
        ),
        is_clean(longer.flatten() + tail) && is_clean(shorter.flatten() + tail) ==> outcome(
            longer.flatten() + tail,
            merge_slashes,
        ) == outcome(shorter.flatten() + tail, merge_slashes),
{
    let a = x + seq![0x2fu8, 0x2e];
    let b = x + seq![0x2fu8];
    lemma_behind_spelled(longer, a, tail);
    lemma_behind_spelled(shorter, b, tail);
    if let Some(y) = decode(path_text(tail)) {
        lemma_no_more_path(tail);
        assert(a + y =~= a);
        assert(b + y =~= b);
        lemma_stay_at_end(x, merge_slashes, rooted);
        lemma_stay_at_end(x, merge_slashes, false);
    }
    lemma_clean_outcome(longer.flatten() + tail, merge_slashes);
    lemma_clean_outcome(shorter.flatten() + tail, merge_slashes);
}

/// Where slashes are merged, two of them are one.
pub proof fn law_adjacent_slashes_are_merged(
    longer: Seq<Seq<u8>>,
    shorter: Seq<Seq<u8>>,
    x: Seq<u8>,
    tail: Seq<u8>,
    merge_slashes: bool,
    rooted: bool,
)
    requires
        spelling(longer, x + seq![0x2fu8, 0x2f]),
        spelling(shorter, x + seq![0x2fu8]),
        merge_slashes,
    ensures
        result(path_text(longer.flatten() + tail), merge_slashes, rooted) == result(
            path_text(shorter.flatten() + tail),
            merge_slashes,
            rooted,
        ),
        is_clean(longer.flatten() + tail) && is_clean(shorter.flatten() + tail) ==> outcome(
            longer.flatten() + tail,
            merge_slashes,
        ) == outcome(shorter.flatten() + tail, merge_slashes),
{
    let a = x + seq![0x2fu8, 0x2f];
    let b = x + seq![0x2fu8];
    lemma_behind_spelled(longer, a, tail);
    lemma_behind_spelled(shorter, b, tail);
    if let Some(y) = decode(path_text(tail)) {
        lemma_merge(x, y, merge_slashes, rooted);
        lemma_merge(x, y, merge_slashes, false);
    }
    lemma_clean_outcome(longer.flatten() + tail, merge_slashes);
    lemma_clean_outcome(shorter.flatten() + tail, merge_slashes);
}

/// Nothing is above the root: a path that begins with `/../` is rejected,
/// whatever follows, and so is `/..`. The same holds with a name before that
/// slash; but where a slash is written in front, the name is a directory that
/// `..` removes.
pub proof fn law_nothing_is_above_the_root(
    texts: Seq<Seq<u8>>,
    slash: Seq<Seq<u8>>,
    name: Seq<u8>,
    tail: Seq<u8>,
    merge_slashes: bool,
)
    requires
        !name.contains(0x2f),
        spelling(texts, name + seq![0x2fu8, 0x2e, 0x2e, 0x2f]) || (spelling(
            texts,
            name + seq![0x2fu8, 0x2e, 0x2e],
        ) && (tail.len() == 0 || tail[0] == 0x3f || tail[0] == 0x23)),
        spelling(slash, seq![0x2fu8]),
    ensures
        result(path_text(texts.flatten() + tail), merge_slashes, false) is None,
        is_clean(texts.flatten() + tail) ==> outcome(texts.flatten() + tail, merge_slashes) is None,
        result(path_text(texts.flatten() + tail), merge_slashes, true) == result(
            path_text(slash.flatten() + tail),
            merge_slashes,
            false,
        ),
{
    let a = if texts.len() == name.len() + 4 {
        name + seq![0x2fu8, 0x2e, 0x2e, 0x2f]
    } else {
        name + seq![0x2fu8, 0x2e, 0x2e]
    };
    lemma_behind_spelled(texts, a, tail);
    lemma_behind_spelled(slash, seq![0x2fu8], tail);
    if let Some(y) = decode(path_text(tail)) {
        if texts.len() == name.len() + 4 {
            lemma_above_root(name, y, merge_slashes);
        } else {
            lemma_no_more_path(tail);
            assert(a + y =~= a);
            assert(seq![0x2fu8] + y =~= seq![0x2fu8]);
            lemma_above_root_at_end(name, merge_slashes);
        }
    }
    lemma_clean_outcome(texts.flatten() + tail, merge_slashes);
}

/// Whether a segment `.` or `..` starts behind a slash at `i`.
pub open spec fn dots_behind(path: Seq<u8>, i: int) -> bool {
    &&& 0 <= i
    &&& i + 1 < path.len()
    &&& path[i] == 0x2f
    &&& path[i + 1] == 0x2e
    &&& (i + 2 == path.len() || path[i + 2] == 0x2f || (path[i + 2] == 0x2e && (i + 3 == path.len()
        || path[i + 3] == 0x2f)))
}

/// Whether two slashes stand at `i`.
pub open spec fn slashes_at(path: Seq<u8>, i: int) -> bool {
    0 <= i && i + 1 < path.len() && path[i] == 0x2f && path[i + 1] == 0x2f
}

/// A path without segments `.` and `..`, and without adjacent slashes where
/// they are merged, stays as it is, byte for byte, however it is spelled; a
/// slash is written in front where there is none to be.
pub proof fn law_normal_path_is_kept(
    texts: Seq<Seq<u8>>,
    path: Seq<u8>,
    merge_slashes: bool,
    rooted: bool,
)
    requires
        spelling(texts, path),
        forall|i: int| !dots_behind(path, i),
        merge_slashes ==> forall|i: int| !slashes_at(path, i),
    ensures
        result(texts.flatten(), merge_slashes, rooted) == Some(
            if rooted {
                seq![0x2fu8] + path
            } else {
                path
            },
        ),
        !rooted && is_clean(texts.flatten()) ==> outcome(
            texts.flatten(),
            merge_slashes,
        ) == Some((path, None::<Seq<u8>>)),
{
    let k = slash_from(path, 0);
    let lead = path.take(k);
    let w = path.skip(k + 1);
    let segs = segments(w);
    lemma_slash_from(path, 0);
    lemma_spelled_result(texts, path, merge_slashes, rooted);
    if k < path.len() {
        lemma_segments(w);
        assert forall|n: int| 0 <= n < segs.len() implies !is_dot(#[trigger] segs[n])
            && !is_dot_dot(segs[n]) && (merge_slashes && n < segs.len() - 1 ==> segs[n].len()
            > 0) by {
            let at = lemma_segment_place(w, n);
            let i = k + at;
            let seg = segs[n];
            assert(path[i] == SLASH) by {
                if at > 0 {
                    assert(w[at - 1] == path[k + at]);
                }
            }
            assert forall|j: int| 0 <= j < seg.len() implies #[trigger] seg[j] == path[i + 1
                + j] by {
                assert(w.subrange(at, at + seg.len())[j] == w[at + j]);
            }
            if n < segs.len() - 1 {
                assert(w[at + seg.len()] == path[i + 1 + seg.len()]);
            }
            assert(!dots_behind(path, i));
            assert(merge_slashes ==> !slashes_at(path, i));
            if is_dot(seg) {
                assert(seg[0] == path[i + 1]);
            }
            if is_dot_dot(seg) {
                assert(seg[0] == path[i + 1] && seg[1] == path[i + 2]);
            }
        }
        let start = below_root(lead, rooted);
        let dirs = segs.drop_last();
        assert forall|n: int| 0 <= n < dirs.len() implies !is_dot(#[trigger] dirs[n])
            && !is_dot_dot(dirs[n]) && (merge_slashes ==> dirs[n].len() > 0) by {
            assert(dirs[n] == segs[n]);
        }
        lemma_walk_kept(start, dirs, merge_slashes);
        assert(!is_dot(segs[segs.len() - 1]) && !is_dot_dot(segs[segs.len() - 1]));
        lemma_join(w);
        lemma_dir_bytes_on(start, dirs);
        let n = Written::Path(
            before_root(lead, rooted),
            NormalPath { dirs: start + dirs, file: segs.last() },
        );
        assert(rewrite(texts.flatten(), merge_slashes, rooted) == Some(n));
        assert(path =~= lead + seq![SLASH] + w);
        let tail = dir_bytes(dirs).skip(1) + segs.last();
        assert(tail =~= (seq![SLASH] + w).skip(1));
        assert(tail =~= w);
        if rooted {
            reveal_with_fuel(dir_bytes, 2);
            assert(start.drop_last() =~= Seq::empty());
            assert(dir_bytes(start) =~= seq![SLASH] + lead + seq![SLASH]);
            assert(n.bytes() =~= dir_bytes(start) + tail);
            assert(n.bytes() =~= seq![0x2fu8] + path);
        } else {
            assert(start + dirs =~= dirs);
            assert(n.bytes() =~= lead + seq![SLASH] + tail);
            assert(n.bytes() =~= path);
        }
    } else {
        assert(lead =~= path);
        assert(front(rooted) + lead =~= if rooted {
            seq![0x2fu8] + path
        } else {
            path
        });
    }
    if !rooted && is_clean(texts.flatten()) {
        lemma_spelled(texts, path);
        lemma_all_path(texts.flatten());
        lemma_clean_outcome(texts.flatten(), merge_slashes);
    }
}

} // verus!
