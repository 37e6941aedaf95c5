//! What holds of every target, whatever its bytes.

use crate::chars::{is_forbidden, DOT, HASH, PERCENT, PLUS, QUESTION, SLASH};
use crate::escape::is_escaped;
use crate::lemmas::{
    is_smooth, lemma_already_normal, lemma_already_smooth, lemma_decode_append, lemma_decode_plain,
    lemma_delimiter_from, lemma_hash_from, lemma_rewrite_absolute, lemma_segments,
    lemma_segments_push, lemma_segments_push_slash, lemma_settled_at_delimiter, lemma_smooth,
    lemma_treatment, lemma_walk_fails, lemma_walk_last,
};
use crate::model::{
    decode, delimiter_from, dir_bytes, escape_value, front, hash_from, is_delimiter, is_dot,
    is_dot_dot, needs_rewrite, normalize, outcome, path_text, query, resolve, rewrite, segments,
    valid_target, walk, NormalPath, Written,
};
use crate::normalize::{completed, ext_offset, rewritten};
use crate::request::Request;
use crate::scan::{is_refused, lemma_refused_from, refused_from, scanned, scanned_ext};
use vstd::prelude::*;

verus! {

/// A segment that a normal path may hold as a directory.
pub open spec fn is_normal_dir(seg: Seq<u8>, merge_slashes: bool) -> bool {
    &&& !is_dot(seg)
    &&& !is_dot_dot(seg)
    &&& merge_slashes ==> seg.len() > 0
}

/// A path without `.` and `..` segments and, where slashes are merged,
/// without adjacent slashes.
pub open spec fn is_normal(n: NormalPath, merge_slashes: bool) -> bool {
    &&& forall|k: int| 0 <= k < n.dirs.len() ==> is_normal_dir(#[trigger] n.dirs[k], merge_slashes)
    &&& forall|k: int| 0 <= k < n.dirs.len() ==> !(#[trigger] n.dirs[k]).contains(SLASH)
    &&& !is_dot(n.file)
    &&& !is_dot_dot(n.file)
    &&& !n.file.contains(SLASH)
}

/// The directories of a walk are segments that were entered and kept.
proof fn lemma_walk_dirs(segs: Seq<Seq<u8>>, merge_slashes: bool)
    ensures
        walk(segs, merge_slashes) matches Some(dirs) ==> forall|k: int|
            0 <= k < dirs.len() ==> #[trigger] segs.contains(dirs[k]) && is_normal_dir(
                dirs[k],
                merge_slashes,
            ),
    decreases segs.len(),
{
    if segs.len() > 0 {
        let before = segs.drop_last();
        lemma_walk_dirs(before, merge_slashes);
        if let Some(dirs) = walk(segs, merge_slashes) {
            let outer = walk(before, merge_slashes)->0;
            assert forall|k: int| 0 <= k < dirs.len() implies #[trigger] segs.contains(dirs[k])
                && is_normal_dir(dirs[k], merge_slashes) by {
                if k < outer.len() {
                    assert(dirs[k] == outer[k]);
                    assert(before.contains(outer[k]));
                    let j = choose|j: int| 0 <= j < before.len() && before[j] == outer[k];
                    assert(segs[j] == dirs[k]);
                } else {
                    assert(segs[segs.len() - 1] == dirs[k]);
                }
            }
        }
    }
}

/// A resolved path is normal.
proof fn lemma_resolve_normal(w: Seq<u8>, merge_slashes: bool)
    ensures
        resolve(segments(w), merge_slashes) matches Some(n) ==> is_normal(n, merge_slashes),
{
    let segs = segments(w);
    lemma_segments(w);
    lemma_walk_dirs(segs.drop_last(), merge_slashes);
    if let Some(n) = resolve(segs, merge_slashes) {
        let dirs = walk(segs.drop_last(), merge_slashes)->0;
        assert forall|k: int| 0 <= k < n.dirs.len() implies is_normal_dir(
            #[trigger] n.dirs[k],
            merge_slashes,
        ) && !n.dirs[k].contains(SLASH) by {
            assert(n.dirs[k] == dirs[k]);
            assert(segs.drop_last().contains(dirs[k]));
            let j = choose|j: int|
                0 <= j < segs.drop_last().len() && segs.drop_last()[j] == dirs[k];
            assert(segs[j] == dirs[k]);
            if dirs[k].contains(SLASH) {
                let i = choose|i: int| 0 <= i < dirs[k].len() && dirs[k][i] == SLASH;
                assert(segs[j][i] != SLASH);
            }
        }
        let last = segs[segs.len() - 1];
        if last.contains(SLASH) {
            let i = choose|i: int| 0 <= i < last.len() && last[i] == SLASH;
            assert(segs[segs.len() - 1][i] != SLASH);
        }
    }
}

/// Appending bytes without a slash lengthens the last segment.
proof fn lemma_segments_append(w: Seq<u8>, seg: Seq<u8>)
    requires
        !seg.contains(SLASH),
    ensures
        segments(w + seg).drop_last() == segments(w).drop_last(),
        segments(w + seg).last() == segments(w).last() + seg,
    decreases seg.len(),
{
    if seg.len() == 0 {
        assert(w + seg =~= w);
        assert(segments(w).last() + seg =~= segments(w).last());
    } else {
        let shorter = seg.drop_last();
        assert(seg.contains(seg.last()));
        assert(!shorter.contains(SLASH)) by {
            if shorter.contains(SLASH) {
                let j = choose|j: int| 0 <= j < shorter.len() && shorter[j] == SLASH;
                assert(seg[j] == SLASH);
            }
        }
        lemma_segments_append(w, shorter);
        assert(w + seg =~= (w + shorter).push(seg.last()));
        lemma_segments_push(w + shorter, seg.last());
        assert(segments(w).last() + seg =~= (segments(w).last() + shorter).push(seg.last()));
    }
}

/// Splitting written directories gives them back.
proof fn lemma_split_dirs(dirs: Seq<Seq<u8>>)
    requires
        forall|k: int| 0 <= k < dirs.len() ==> !(#[trigger] dirs[k]).contains(SLASH),
    ensures
        segments(dir_bytes(dirs).skip(1)) == dirs.push(Seq::empty()),
    decreases dirs.len(),
{
    lemma_dir_bytes(dirs);
    if dirs.len() == 0 {
        assert(dir_bytes(dirs).skip(1) =~= Seq::empty());
        assert(segments(Seq::<u8>::empty()) =~= dirs.push(Seq::empty()));
    } else {
        let outer = dirs.drop_last();
        let last = dirs.last();
        lemma_dir_bytes(outer);
        assert forall|k: int| 0 <= k < outer.len() implies !(#[trigger] outer[k]).contains(
            SLASH,
        ) by {
            assert(outer[k] == dirs[k]);
        }
        lemma_split_dirs(outer);
        let head = dir_bytes(outer).skip(1);
        assert(dir_bytes(dirs).skip(1) =~= (head + last).push(SLASH));
        lemma_segments_append(head, last);
        lemma_segments_push_slash(head + last);
        lemma_segments(head + last);
        let segs = segments(head + last);
        assert(Seq::<u8>::empty() + last =~= last);
        assert(outer.push(Seq::<u8>::empty()).drop_last() =~= outer);
        assert(segs =~= segs.drop_last().push(segs.last()));
        assert(segs =~= dirs);
        assert(segments(dir_bytes(dirs).skip(1)) =~= dirs.push(Seq::empty())) by {
            lemma_segments((head + last).push(SLASH));
        }
    }
}

/// Splitting a written path gives back its directories and its file.
proof fn lemma_split_path(n: NormalPath, merge_slashes: bool)
    requires
        is_normal(n, merge_slashes),
    ensures
        n.bytes().len() > 0,
        n.bytes()[0] == SLASH,
        segments(n.bytes().skip(1)) == n.dirs.push(n.file),
{
    lemma_dir_bytes(n.dirs);
    lemma_split_dirs(n.dirs);
    let head = dir_bytes(n.dirs).skip(1);
    assert(n.bytes().skip(1) =~= head + n.file);
    lemma_segments_append(head, n.file);
    lemma_segments(head + n.file);
    assert(Seq::<u8>::empty() + n.file =~= n.file);
    assert(n.dirs.push(Seq::<u8>::empty()).drop_last() =~= n.dirs);
    assert(segments(head + n.file) =~= n.dirs.push(n.file));
}

/// The path of an accepted target is absolute and holds no `.` or `..`
/// segment; where slashes are merged it holds no empty one but the last.
pub proof fn law_path_is_normal(s: Seq<u8>, merge_slashes: bool)
    requires
        outcome(s, merge_slashes) is Some,
    ensures
        ({
            let path = (outcome(s, merge_slashes)->0).0;
            let segs = segments(path.skip(1));
            &&& path.len() > 0
            &&& path[0] == SLASH
            &&& forall|k: int|
                0 <= k < segs.len() ==> !is_dot(#[trigger] segs[k]) && !is_dot_dot(segs[k])
            &&& merge_slashes ==> forall|k: int|
                0 <= k < segs.len() - 1 ==> (#[trigger] segs[k]).len() > 0
        }),
{
    let d = decode(path_text(s))->0;
    let n = normalize(path_text(s), merge_slashes)->0;
    lemma_resolve_normal(d.skip(1), merge_slashes);
    lemma_split_path(n, merge_slashes);
    let segs = n.dirs.push(n.file);
    assert forall|k: int| 0 <= k < segs.len() implies !is_dot(#[trigger] segs[k]) && !is_dot_dot(
        segs[k],
    ) by {
        if k < n.dirs.len() {
            assert(is_normal_dir(n.dirs[k], merge_slashes));
        }
    }
    if merge_slashes {
        assert forall|k: int| 0 <= k < segs.len() - 1 implies (#[trigger] segs[k]).len() > 0 by {
            assert(is_normal_dir(n.dirs[k], merge_slashes));
        }
    }
}

/// Directories are written with a slash at either end.
proof fn lemma_dir_bytes(dirs: Seq<Seq<u8>>)
    ensures
        dir_bytes(dirs).len() > 0,
        dir_bytes(dirs)[0] == SLASH,
        dir_bytes(dirs).last() == SLASH,
    decreases dirs.len(),
{
    if dirs.len() > 0 {
        lemma_dir_bytes(dirs.drop_last());
    }
}

/// A decoded text is no longer than the text.
proof fn lemma_decode_len(t: Seq<u8>)
    ensures
        decode(t) matches Some(d) ==> d.len() <= t.len(),
    decreases t.len(),
{
    if t.len() > 0 {
        if t[0] != PERCENT {
            lemma_decode_len(t.skip(1));
        } else if t.len() >= 3 {
            lemma_decode_len(t.skip(3));
        }
    }
}

/// What a walk writes is no longer than what it read.
proof fn lemma_walk_len(w: Seq<u8>, merge_slashes: bool)
    ensures
        walk(segments(w).drop_last(), merge_slashes) matches Some(dirs) ==> dir_bytes(dirs).len()
            + segments(w).last().len() <= 1 + w.len(),
    decreases w.len(),
{
    if w.len() == 0 {
        assert(segments(w).drop_last() =~= Seq::empty());
    } else {
        let v = w.drop_last();
        let b = w.last();
        lemma_walk_len(v, merge_slashes);
        assert(w =~= v.push(b));
        if b == SLASH {
            lemma_segments_push_slash(v);
            lemma_walk_last(Seq::empty(), v, merge_slashes);
            if let Some(dirs) = walk(segments(v).drop_last(), merge_slashes) {
                let cur = segments(v).last();
                assert(dirs.push(cur).drop_last() =~= dirs);
            }
        } else {
            lemma_segments_push(v, b);
        }
    }
}

/// The path of an accepted target is no longer than the text it came from.
pub proof fn law_path_never_longer(s: Seq<u8>, merge_slashes: bool)
    requires
        outcome(s, merge_slashes) is Some,
    ensures
        (outcome(s, merge_slashes)->0).0.len() <= path_text(s).len(),
        path_text(s).len() <= s.len(),
{
    let t = path_text(s);
    let d = decode(t)->0;
    lemma_delimiter_from(s, 0);
    lemma_decode_len(t);
    lemma_walk_len(d.skip(1), merge_slashes);
    let dirs = walk(segments(d.skip(1)).drop_last(), merge_slashes)->0;
    if dirs.len() > 0 {
        lemma_dir_bytes(dirs.drop_last());
    }
}

/// A target that needs no rewriting is accepted with its path as it stands.
pub proof fn law_simple_path_unchanged(s: Seq<u8>, merge_slashes: bool)
    requires
        valid_target(s),
        !needs_rewrite(s),
    ensures
        outcome(s, merge_slashes) == Some((path_text(s), query(s))),
{
    lemma_already_normal(s, merge_slashes);
}

/// A normal sequence of directories is walked as it stands.
proof fn lemma_walk_normal(dirs: Seq<Seq<u8>>, merge_slashes: bool)
    requires
        forall|k: int| 0 <= k < dirs.len() ==> is_normal_dir(#[trigger] dirs[k], merge_slashes),
    ensures
        walk(dirs, merge_slashes) == Some(dirs),
    decreases dirs.len(),
{
    if dirs.len() > 0 {
        let outer = dirs.drop_last();
        assert forall|k: int| 0 <= k < outer.len() implies is_normal_dir(
            #[trigger] outer[k],
            merge_slashes,
        ) by {
            assert(outer[k] == dirs[k]);
        }
        lemma_walk_normal(outer, merge_slashes);
        assert(is_normal_dir(dirs[dirs.len() - 1], merge_slashes));
        assert(outer.push(dirs.last()) =~= dirs);
    } else {
        assert(dirs =~= Seq::empty());
    }
}

/// The upper-case hexadecimal digit for a value below 16.
pub open spec fn hex_upper(v: u8) -> u8 {
    if v < 10 {
        (0x30 + v) as u8
    } else {
        (0x41 + v - 10) as u8
    }
}

/// A byte as it is written in an escaped path: bytes to be escaped, and all
/// that are not ASCII, as `%` and two upper-case digits.
pub open spec fn escaped_byte(b: u8) -> Seq<u8> {
    if is_escaped(b) || b >= 0x80 {
        seq![PERCENT, hex_upper(b / 16), hex_upper(b % 16)]
    } else {
        seq![b]
    }
}

/// A path with the bytes of the escape set, and all that are not ASCII,
/// written as escapes.
pub open spec fn escaped_path(path: Seq<u8>) -> Seq<u8>
    decreases path.len(),
{
    if path.len() == 0 {
        Seq::empty()
    } else {
        escaped_byte(path[0]) + escaped_path(path.skip(1))
    }
}

/// An escaped path decodes to the path.
proof fn lemma_decode_escaped(path: Seq<u8>)
    requires
        !path.contains(0),
    ensures
        decode(escaped_path(path)) == Some(path),
    decreases path.len(),
{
    if path.len() == 0 {
        assert(path =~= Seq::empty());
    } else {
        let b = path[0];
        let rest = path.skip(1);
        assert(path.contains(b));
        assert(!rest.contains(0)) by {
            if rest.contains(0) {
                let j = choose|j: int| 0 <= j < rest.len() && rest[j] == 0;
                assert(path[j + 1] == 0);
            }
        }
        lemma_decode_escaped(rest);
        let e = escaped_path(path);
        assert(seq![b] + rest =~= path);
        if is_escaped(b) || b >= 0x80 {
            assert(e.skip(3) =~= escaped_path(rest));
            assert(e[1] == hex_upper(b / 16) && e[2] == hex_upper(b % 16));
            assert(escape_value(e[1], e[2]) == Some(b));
        } else {
            assert(e.skip(1) =~= escaped_path(rest));
        }
    }
}

/// An escaped path holds no forbidden byte and no delimiter.
proof fn lemma_escaped_bytes(path: Seq<u8>)
    ensures
        forall|j: int|
            0 <= j < escaped_path(path).len() ==> !is_forbidden(#[trigger] escaped_path(path)[j])
                && !is_delimiter(escaped_path(path)[j]),
    decreases path.len(),
{
    if path.len() > 0 {
        let rest = escaped_path(path.skip(1));
        let first = escaped_byte(path[0]);
        lemma_escaped_bytes(path.skip(1));
        assert forall|j: int| 0 <= j < escaped_path(path).len() implies !is_forbidden(
            #[trigger] escaped_path(path)[j],
        ) && !is_delimiter(escaped_path(path)[j]) by {
            if j >= first.len() {
                assert(escaped_path(path)[j] == rest[j - first.len()]);
            } else {
                assert(escaped_path(path)[j] == first[j]);
            }
        }
    }
}

/// Decoding brings in no NUL.
proof fn lemma_decode_no_nul(t: Seq<u8>)
    requires
        !t.contains(0),
    ensures
        decode(t) matches Some(d) ==> !d.contains(0),
    decreases t.len(),
{
    if t.len() > 0 {
        if let Some(d) = decode(t) {
            let n = if t[0] != PERCENT {
                1int
            } else {
                3int
            };
            let rest = t.skip(n);
            assert(t.contains(t[0]));
            assert(!rest.contains(0)) by {
                if rest.contains(0) {
                    let j = choose|j: int| 0 <= j < rest.len() && rest[j] == 0;
                    assert(t[j + n] == 0);
                }
            }
            lemma_decode_no_nul(rest);
            let tail = decode(rest)->0;
            if d.contains(0) {
                let j = choose|j: int| 0 <= j < d.len() && d[j] == 0;
                if j > 0 {
                    assert(tail[j - 1] == 0);
                }
            }
        }
    }
}

/// The bytes of a segment are bytes of the whole.
proof fn lemma_segments_no_nul(w: Seq<u8>)
    requires
        !w.contains(0),
    ensures
        forall|k: int| 0 <= k < segments(w).len() ==> !(#[trigger] segments(w)[k]).contains(0),
    decreases w.len(),
{
    if w.len() > 0 {
        let v = w.drop_last();
        assert(w.contains(w.last()));
        assert(!v.contains(0)) by {
            if v.contains(0) {
                let j = choose|j: int| 0 <= j < v.len() && v[j] == 0;
                assert(w[j] == 0);
            }
        }
        lemma_segments_no_nul(v);
        lemma_segments(v);
        let before = segments(v);
        assert forall|k: int| 0 <= k < segments(w).len() implies !(#[trigger] segments(
            w,
        )[k]).contains(0) by {
            let seg = segments(w)[k];
            if w.last() != SLASH && k == before.len() - 1 {
                if seg.contains(0) {
                    let j = choose|j: int| 0 <= j < seg.len() && seg[j] == 0;
                    assert(before[k][j] == 0);
                }
            } else if k < before.len() {
                assert(seg == before[k]);
            }
        }
    }
}

/// Directories without NUL are written without NUL.
proof fn lemma_dir_bytes_no_nul(dirs: Seq<Seq<u8>>)
    requires
        forall|k: int| 0 <= k < dirs.len() ==> !(#[trigger] dirs[k]).contains(0),
    ensures
        !dir_bytes(dirs).contains(0),
    decreases dirs.len(),
{
    if dirs.len() > 0 {
        let outer = dirs.drop_last();
        assert forall|k: int| 0 <= k < outer.len() implies !(#[trigger] outer[k]).contains(0) by {
            assert(outer[k] == dirs[k]);
        }
        lemma_dir_bytes_no_nul(outer);
        let head = dir_bytes(outer);
        let last = dirs[dirs.len() - 1];
        let all = dir_bytes(dirs);
        if all.contains(0) {
            let j = choose|j: int| 0 <= j < all.len() && all[j] == 0;
            if j < head.len() {
                assert(head[j] == 0);
            } else if j < head.len() + last.len() {
                assert(last[j - head.len()] == 0);
            }
        }
    }
}

/// The path of an accepted target holds no NUL.
pub proof fn law_path_has_no_nul(s: Seq<u8>, merge_slashes: bool)
    requires
        outcome(s, merge_slashes) is Some,
    ensures
        !(outcome(s, merge_slashes)->0).0.contains(0),
{
    let t = path_text(s);
    lemma_delimiter_from(s, 0);
    assert(!t.contains(0)) by {
        if t.contains(0) {
            let j = choose|j: int| 0 <= j < t.len() && t[j] == 0;
            assert(is_forbidden(s[j]));
        }
    }
    lemma_decode_no_nul(t);
    let d = decode(t)->0;
    let w = d.skip(1);
    assert(!w.contains(0)) by {
        if w.contains(0) {
            let j = choose|j: int| 0 <= j < w.len() && w[j] == 0;
            assert(d[j + 1] == 0);
        }
    }
    let segs = segments(w);
    let n = resolve(segs, merge_slashes)->0;
    lemma_segments(w);
    lemma_segments_no_nul(w);
    lemma_walk_dirs(segs.drop_last(), merge_slashes);
    let dirs = walk(segs.drop_last(), merge_slashes)->0;
    assert forall|k: int| 0 <= k < n.dirs.len() implies !(#[trigger] n.dirs[k]).contains(0) by {
        assert(n.dirs[k] == dirs[k]);
        assert(segs.drop_last().contains(dirs[k]));
        let j = choose|j: int| 0 <= j < segs.drop_last().len() && segs.drop_last()[j] == dirs[k];
        assert(segs[j] == dirs[k]);
    }
    lemma_dir_bytes_no_nul(n.dirs);
    assert(!segs[segs.len() - 1].contains(0));
    let path = n.bytes();
    if path.contains(0) {
        let head = dir_bytes(n.dirs);
        let j = choose|j: int| 0 <= j < path.len() && path[j] == 0;
        if j < head.len() {
            assert(head[j] == 0);
        } else {
            assert(n.file[j - head.len()] == 0);
        }
    }
}

/// Writing the path of an accepted target with escapes and parsing that again
/// gives the same path, without a query.
pub proof fn law_escaped_path_parses_back(s: Seq<u8>, merge_slashes: bool)
    requires
        outcome(s, merge_slashes) is Some,
    ensures
        outcome(escaped_path((outcome(s, merge_slashes)->0).0), merge_slashes) == Some(
            ((outcome(s, merge_slashes)->0).0, None::<Seq<u8>>),
        ),
{
    let path = (outcome(s, merge_slashes)->0).0;
    let n = normalize(path_text(s), merge_slashes)->0;
    let e = escaped_path(path);
    lemma_resolve_normal((decode(path_text(s))->0).skip(1), merge_slashes);
    lemma_split_path(n, merge_slashes);
    law_path_has_no_nul(s, merge_slashes);
    lemma_decode_escaped(path);
    lemma_escaped_bytes(path);
    lemma_delimiter_from(e, 0);
    assert(e[0] == SLASH);
    assert(path_text(e) =~= e);
    lemma_walk_normal(n.dirs, merge_slashes);
    assert(n.dirs.push(n.file).drop_last() =~= n.dirs);
}

/// The query string is a piece of the target as it stands: it starts behind
/// the `?` that ends the path, and ends at a `#` or with the target.
pub proof fn law_query_is_verbatim(s: Seq<u8>, merge_slashes: bool)
    requires
        outcome(s, merge_slashes) is Some,
    ensures
        ({
            let e = path_text(s).len() as int;
            match (outcome(s, merge_slashes)->0).1 {
                Some(q) => {
                    &&& e < s.len()
                    &&& s[e] == QUESTION
                    &&& !q.contains(HASH)
                    &&& e + 1 + q.len() <= s.len()
                    &&& q == s.subrange(e + 1, e + 1 + q.len())
                    &&& e + 1 + q.len() < s.len() ==> s[e + 1 + q.len()] == HASH
                },
                None => e == s.len() || s[e] == HASH || (s[e] == QUESTION && e + 1 == s.len()),
            }
        }),
{
    lemma_delimiter_from(s, 0);
    let e = delimiter_from(s, 0);
    if let Some(q) = query(s) {
        lemma_hash_from(s, e + 1);
        if q.contains(HASH) {
            let j = choose|j: int| 0 <= j < q.len() && q[j] == HASH;
            assert(s[e + 1 + j] == HASH);
        }
    }
}

/// Behind the path nothing changes it: two targets with the same path text
/// have the same path, and the same setting accepts both.
pub proof fn law_path_ignores_rest(s1: Seq<u8>, s2: Seq<u8>, merge_slashes: bool)
    requires
        valid_target(s1),
        valid_target(s2),
        path_text(s1) == path_text(s2),
    ensures
        outcome(s1, merge_slashes) is Some <==> outcome(s2, merge_slashes) is Some,
        outcome(s1, merge_slashes) is Some ==> (outcome(s1, merge_slashes)->0).0 == (outcome(
            s2,
            merge_slashes,
        )->0).0,
{
}

/// An escape means the byte that it stands for: two targets whose path texts
/// decode to the same bytes have the same path.
pub proof fn law_escapes_are_transparent(s1: Seq<u8>, s2: Seq<u8>, merge_slashes: bool)
    requires
        valid_target(s1),
        valid_target(s2),
        decode(path_text(s1)) == decode(path_text(s2)),
    ensures
        outcome(s1, merge_slashes) is Some <==> outcome(s2, merge_slashes) is Some,
        outcome(s1, merge_slashes) is Some ==> (outcome(s1, merge_slashes)->0).0 == (outcome(
            s2,
            merge_slashes,
        )->0).0,
{
}

/// A fragment is dropped: it changes no path, and no query but that it turns
/// a `?` with nothing behind it into an empty query.
pub proof fn law_fragment_is_dropped(s: Seq<u8>, fragment: Seq<u8>, merge_slashes: bool)
    requires
        !s.contains(HASH),
        s.len() > 0,
        forall|j: int| 0 <= j < fragment.len() ==> !is_forbidden(#[trigger] fragment[j]),
    ensures
        ({
            let longer = s + seq![HASH] + fragment;
            match outcome(s, merge_slashes) {
                Some((path, args)) => outcome(longer, merge_slashes) == Some(
                    (
                        path,
                        if path_text(s).len() + 1 == s.len() {
                            Some(Seq::empty())
                        } else {
                            args
                        },
                    ),
                ),
                None => outcome(longer, merge_slashes) is None,
            }
        }),
{
    let longer = s + seq![HASH] + fragment;
    let e = delimiter_from(s, 0);
    let e2 = delimiter_from(longer, 0);
    lemma_delimiter_from(s, 0);
    lemma_delimiter_from(longer, 0);
    assert(longer[s.len() as int] == HASH);
    assert forall|j: int| 0 <= j < s.len() implies #[trigger] longer[j] == s[j] by {}
    assert(e2 == e) by {
        if e2 < e {
            assert(longer[e2] == s[e2]);
        }
        if e < e2 {
            assert(is_delimiter(longer[e]));
        }
    }
    assert(path_text(longer) =~= path_text(s));
    if valid_target(s) {
        assert forall|j: int| 0 <= j < longer.len() implies !is_forbidden(
            #[trigger] longer[j],
        ) by {
            if j > s.len() {
                assert(longer[j] == fragment[j - s.len() - 1]);
            } else if j < s.len() {
                assert(longer[j] == s[j]);
            }
        }
    } else if valid_target(longer) {
        assert(longer[0] == s[0]);
        assert forall|j: int| 0 <= j < s.len() implies !is_forbidden(#[trigger] s[j]) by {
            assert(longer[j] == s[j]);
        }
    }
    if e < s.len() {
        lemma_hash_from(s, e + 1);
        lemma_hash_from(longer, e + 1);
        let h = hash_from(longer, e + 1);
        assert(h == s.len()) by {
            if h < s.len() {
                assert(longer[h] == s[h]);
            }
        }
        if hash_from(s, e + 1) < s.len() {
            assert(s.contains(s[hash_from(s, e + 1)]));
        }
        assert(longer.subrange(e + 1, h) =~= s.subrange(e + 1, s.len() as int));
        if e + 1 == s.len() {
            assert(longer.subrange(e + 1, h) =~= Seq::empty());
        }
    }
}

/// Without adjacent slashes, whether or not they are merged makes no
/// difference to a walk.
proof fn lemma_walk_either(w: Seq<u8>)
    requires
        w.len() > 0 ==> w[0] != SLASH,
        forall|j: int| 0 <= j < w.len() - 1 && #[trigger] w[j] == SLASH ==> w[j + 1] != SLASH,
    ensures
        walk(segments(w).drop_last(), true) == walk(segments(w).drop_last(), false),
        segments(w).last().len() == 0 <==> w.len() == 0 || w.last() == SLASH,
    decreases w.len(),
{
    if w.len() == 0 {
        assert(segments(w).drop_last() =~= Seq::empty());
    } else {
        let v = w.drop_last();
        let b = w.last();
        assert forall|j: int| 0 <= j < v.len() - 1 && #[trigger] v[j] == SLASH implies v[j + 1]
            != SLASH by {
            assert(w[j] == SLASH);
        }
        lemma_walk_either(v);
        if v.len() > 0 {
            assert(w[v.len() - 1] == v.last());
        }
        assert(w =~= v.push(b));
        if b == SLASH {
            lemma_segments_push_slash(v);
            lemma_walk_last(Seq::empty(), v, true);
            lemma_walk_last(Seq::empty(), v, false);
        } else {
            lemma_segments_push(v, b);
        }
    }
}

/// Where the decoded path has no adjacent slashes, `merge_slashes` makes no
/// difference.
pub proof fn law_merge_slashes_is_about_adjacent_slashes(s: Seq<u8>)
    requires
        decode(path_text(s)) matches Some(d) ==> forall|j: int|
            0 <= j < d.len() - 1 && #[trigger] d[j] == SLASH ==> d[j + 1] != SLASH,
    ensures
        outcome(s, true) == outcome(s, false),
{
    if let Some(d) = decode(path_text(s)) {
        if d.len() > 0 && d[0] == SLASH {
            let w = d.skip(1);
            assert forall|j: int| 0 <= j < w.len() - 1 && #[trigger] w[j] == SLASH implies w[j + 1]
                != SLASH by {
                assert(d[j + 1] == SLASH);
            }
            lemma_walk_either(w);
        }
    }
}

/// A path that leads out of the root is rejected, whatever follows: `above` is
/// what stands decoded between the slash in front and some later slash.
pub proof fn law_leaving_the_root_is_rejected(
    s: Seq<u8>,
    above: Seq<u8>,
    more: Seq<u8>,
    merge_slashes: bool,
)
    requires
        decode(path_text(s)) == Some(seq![SLASH] + above + seq![SLASH] + more),
        walk(segments(above), merge_slashes) is None,
    ensures
        outcome(s, merge_slashes) is None,
{
    let d = seq![SLASH] + above + seq![SLASH] + more;
    assert(d.skip(1) =~= above.push(SLASH) + more);
    lemma_segments_push_slash(above);
    lemma_walk_fails(Seq::empty(), above.push(SLASH), more, merge_slashes);
}

/// Only origin-form targets are accepted, and only without control bytes,
/// spaces and DEL anywhere, the query and the fragment included.
pub proof fn law_only_origin_form_is_accepted(s: Seq<u8>, merge_slashes: bool)
    requires
        outcome(s, merge_slashes) is Some,
    ensures
        s.len() > 0,
        s[0] == SLASH,
        forall|j: int| 0 <= j < s.len() ==> !is_forbidden(#[trigger] s[j]),
{
}

/// A path with a `%` that opens no escape, or an escape for NUL, is rejected,
/// whatever stands before and behind it.
pub proof fn law_bad_escapes_are_rejected(
    s: Seq<u8>,
    before: Seq<u8>,
    behind: Seq<u8>,
    merge_slashes: bool,
)
    requires
        path_text(s) == before + seq![PERCENT] + behind,
        decode(before) is Some,
        behind.len() >= 2 ==> escape_value(behind[0], behind[1]) is None,
    ensures
        outcome(s, merge_slashes) is None,
{
    let bad = seq![PERCENT] + behind;
    assert(before + seq![PERCENT] + behind =~= before + bad);
    lemma_decode_append(before, bad);
    if behind.len() >= 2 {
        assert(bad[1] == behind[0] && bad[2] == behind[1]);
    }
}

/// A walk that merges slashes is never deeper than one that does not, so it
/// fails wherever the other one does.
proof fn lemma_walk_merging(segs: Seq<Seq<u8>>)
    ensures
        walk(segs, true) matches Some(merged) ==> {
            &&& walk(segs, false) matches Some(unmerged)
            &&& merged.len() <= unmerged.len()
        },
    decreases segs.len(),
{
    if segs.len() > 0 {
        lemma_walk_merging(segs.drop_last());
    }
}

/// What is accepted with slashes merged is accepted with slashes kept, with
/// the same query.
pub proof fn law_merging_accepts_no_more(s: Seq<u8>)
    requires
        outcome(s, true) is Some,
    ensures
        outcome(s, false) is Some,
        (outcome(s, false)->0).1 == (outcome(s, true)->0).1,
{
    let segs = segments((decode(path_text(s))->0).skip(1));
    lemma_walk_merging(segs.drop_last());
}

/// What the second pass finds depends on the target, on `merge_slashes` and
/// on whether the path is given a slash in front, but not on what else the
/// record held before.
pub proof fn law_second_pass_ignores_the_record(
    s: Seq<u8>,
    merge_slashes: bool,
    r1: Request,
    r2: Request,
)
    requires
        r1.empty_path_in_uri == r2.empty_path_in_uri,
    ensures
        rewrite(path_text(s), merge_slashes, r1.empty_path_in_uri) == rewrite(
            path_text(s),
            merge_slashes,
            r2.empty_path_in_uri,
        ),
        rewrite(path_text(s), merge_slashes, r1.empty_path_in_uri) matches Some(n) ==> {
            &&& rewritten(r1, s, n).uri.len == rewritten(r2, s, n).uri.len
            &&& rewritten(r1, s, n).args_start == rewritten(r2, s, n).args_start
        },
{
}

/// In a path without dots and slashes behind a slash, both passes find the
/// same extension.
proof fn lemma_same_extension(s: Seq<u8>, k: int)
    requires
        1 <= k <= s.len(),
        s[0] == SLASH,
        is_smooth(s.subrange(1, k)),
    ensures
        ({
            let segs = segments(s.subrange(1, k));
            let path = NormalPath { dirs: segs.drop_last(), file: segs.last() };
            ext_offset(Written::Path(Seq::empty(), path)) == scanned_ext(s, k, None)
        }),
    decreases k,
{
    let w = s.subrange(1, k);
    lemma_segments(w);
    lemma_smooth(w, false);
    if k > 1 {
        let v = s.subrange(1, k - 1);
        let b = s[k - 1];
        assert(w =~= v.push(b));
        assert(is_smooth(v)) by {
            assert forall|j: int| 0 <= j < v.len() - 1 && #[trigger] v[j] == SLASH implies v[j + 1]
                != DOT && v[j + 1] != SLASH by {
                assert(w[j] == SLASH);
            }
            if v.len() > 0 {
                assert(w[0] == v[0]);
            }
        }
        lemma_same_extension(s, k - 1);
        lemma_smooth(v, false);
        lemma_segments(v);
        let file = segments(w).last();
        let before = segments(v).last();
        if b == SLASH {
            lemma_segments_push_slash(v);
        } else {
            lemma_segments_push(v, b);
            assert(file.drop_last() =~= before);
            assert((seq![SLASH] + w).len() == k);
            if b == DOT {
                assert(before.len() > 0) by {
                    if v.len() > 0 && v.last() == SLASH {
                        assert(w[v.len() - 1] == SLASH);
                    }
                }
            }
        }
    }
}

/// Leaving out the second pass loses nothing: on a target that the first pass
/// accepts and does not flag, the second pass writes the path as it stands,
/// and the record it leaves is the one of the first pass, completed.
pub proof fn law_passes_agree(s: Seq<u8>, merge_slashes: bool)
    requires
        refused_from(s, 0) == s.len(),
        s.len() <= usize::MAX,
        !scanned(Request::fresh(), s, s.len() as int).complex_uri,
        !scanned(Request::fresh(), s, s.len() as int).quoted_uri,
    ensures
        ({
            let first = scanned(Request::fresh(), s, s.len() as int);
            let e = path_text(s).len() as int;
            &&& e == s.len() || s[e] == QUESTION
            &&& rewrite(path_text(s), merge_slashes, false) matches Some(n)
            &&& n.bytes() == path_text(s)
            &&& rewritten(Request::fresh(), s, n) == completed(first, e as usize)
            &&& rewritten(Request::fresh(), s, n).args_start == first.args_start
            &&& rewritten(Request::fresh(), s, n).plus_in_uri == first.plus_in_uri
            &&& first.uri_ext matches Some(x) ==> rewritten(Request::fresh(), s, n).exten.data == x
        }),
{
    let t = path_text(s);
    let e = delimiter_from(s, 0);
    let first = scanned(Request::fresh(), s, s.len() as int);
    lemma_delimiter_from(s, 0);
    if s.len() == 0 {
        assert(t =~= Seq::empty());
        assert(front(false) + Seq::<u8>::empty() =~= Seq::empty());
        assert(decode(t) == Some(t));
        assert(t.take(0) =~= t);
        assert(!t.contains(PERCENT) && !t.contains(PLUS));
        assert(s.take(0) =~= t);
    } else {
        lemma_refused_from(s, 0);
        assert(valid_target(s)) by {
            assert(!is_refused(s, 0));
            assert forall|i: int| 0 <= i < s.len() implies !is_forbidden(#[trigger] s[i]) by {
                assert(!is_refused(s, i));
            }
        }
        lemma_treatment(s);
        lemma_already_normal(s, merge_slashes);
        lemma_rewrite_absolute(t, merge_slashes);
        lemma_decode_plain(t);
        let w = t.skip(1);
        lemma_already_smooth(s);
        lemma_smooth(w, merge_slashes);
        assert(w =~= s.subrange(1, e));
        lemma_same_extension(s, e);
        lemma_settled_at_delimiter(s);
    }
}

} // verus!
