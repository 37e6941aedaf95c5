//! Facts behind the laws on bytes.

use crate::chars::{is_forbidden, SLASH};
use crate::lemmas::{
    lemma_decode_append, lemma_delimiter_from, lemma_hash_from, lemma_rewrite_absolute,
    lemma_segments, lemma_segments_push, lemma_segments_push_slash, lemma_slash_from,
};
use crate::model::{
    after_slash, before_root, below_root, decode, delimiter_from, dir_bytes, enter, front,
    hash_from, hex_value, is_delimiter, is_dot, is_dot_dot, opens_dot_or_slash, outcome, path_text,
    query, resolve_from, rewrite, segments, slash_from, valid_target, walk_from, Written,
};
use crate::path_laws::{is_clean, lower_digit, spelling, spells, upper_digit};
use crate::target_laws::{path_ends, rough_at};
use vstd::prelude::*;

verus! {

/// Two ways to write one byte are digits of the same value.
pub proof fn lemma_digits(b: u8)
    ensures
        hex_value(lower_digit(b as int / 16)) == Some((b / 16) as u8),
        hex_value(upper_digit(b as int / 16)) == Some((b / 16) as u8),
        hex_value(lower_digit(b as int % 16)) == Some((b % 16) as u8),
        hex_value(upper_digit(b as int % 16)) == Some((b % 16) as u8),
        !is_delimiter(lower_digit(b as int / 16)),
        !is_delimiter(upper_digit(b as int / 16)),
        !is_delimiter(lower_digit(b as int % 16)),
        !is_delimiter(upper_digit(b as int % 16)),
{
    assert(0 <= b as int / 16 < 16);
    assert(0 <= b as int % 16 < 16);
}

/// A spelled path decodes to the path, and holds nothing that ends the path.
pub proof fn lemma_spelled(texts: Seq<Seq<u8>>, path: Seq<u8>)
    requires
        spelling(texts, path),
    ensures
        decode(texts.flatten()) == Some(path),
        forall|j: int|
            0 <= j < texts.flatten().len() ==> !is_delimiter(#[trigger] texts.flatten()[j]),
    decreases path.len(),
{
    if path.len() == 0 {
        assert(path =~= Seq::empty());
    } else {
        let b = path[0];
        let first = texts[0];
        let rest = texts.drop_first();
        assert forall|i: int| 0 <= i < path.skip(1).len() implies spells(
            #[trigger] rest[i],
            path.skip(1)[i],
        ) by {
            assert(spells(texts[i + 1], path[i + 1]));
        }
        lemma_spelled(rest, path.skip(1));
        assert(spells(texts[0], path[0]));
        let all = texts.flatten();
        assert(all == first + rest.flatten());
        lemma_digits(b);
        assert(seq![b] + path.skip(1) =~= path);
        assert(all[0] == first[0]);
        if first == seq![b] && b != 0x25 {
            assert(all.skip(1) =~= rest.flatten());
        } else {
            assert(all[1] == first[1] && all[2] == first[2]);
            assert(all.skip(3) =~= rest.flatten());
            assert(16 * (b / 16) + b % 16 == b);
        }
        assert forall|j: int| 0 <= j < all.len() implies !is_delimiter(#[trigger] all[j]) by {
            if j >= first.len() {
                assert(all[j] == rest.flatten()[j - first.len()]);
            } else {
                assert(all[j] == first[j]);
            }
        }
    }
}

/// A text without delimiters is all path.
pub proof fn lemma_all_path(s: Seq<u8>)
    requires
        forall|j: int| 0 <= j < s.len() ==> !is_delimiter(#[trigger] s[j]),
    ensures
        path_text(s) == s,
        delimiter_from(s, 0) == s.len(),
        query(s) is None,
{
    lemma_delimiter_from(s, 0);
    assert(path_text(s) =~= s);
}

/// What a text with the decoded bytes `d` is rewritten to.
pub open spec fn of_decoded(d: Seq<u8>, merge_slashes: bool, rooted: bool) -> Option<Written> {
    let k = slash_from(d, 0);
    let lead = d.take(k);
    if k < d.len() {
        match resolve_from(below_root(lead, rooted), segments(d.skip(k + 1)), merge_slashes) {
            Some(path) => Some(Written::Path(before_root(lead, rooted), path)),
            None => None,
        }
    } else {
        Some(Written::Name(front(rooted) + lead))
    }
}

/// Where one is after `x` and a slash.
pub open spec fn under(x: Seq<u8>, merge_slashes: bool, rooted: bool) -> Option<Seq<Seq<u8>>> {
    let k = slash_from(x, 0);
    if k < x.len() {
        walk_from(below_root(x.take(k), rooted), segments(x.skip(k + 1)), merge_slashes)
    } else {
        Some(below_root(x, rooted))
    }
}

/// Splitting at a slash splits into the segments before and behind it.
pub proof fn lemma_segments_at_slash(a: Seq<u8>, b: Seq<u8>)
    ensures
        segments(a.push(SLASH) + b) == segments(a) + segments(b),
        segments(b).len() > 0,
    decreases b.len(),
{
    lemma_segments(a);
    lemma_segments(b);
    if b.len() == 0 {
        assert(a.push(SLASH) + b =~= a.push(SLASH));
        lemma_segments_push_slash(a);
        lemma_segments(a.push(SLASH));
        let all = segments(a.push(SLASH));
        assert(all =~= all.drop_last().push(all.last()));
        assert(segments(b) =~= seq![Seq::<u8>::empty()]);
        assert(all =~= segments(a) + segments(b));
    } else {
        let c = b.drop_last();
        let w = a.push(SLASH) + c;
        lemma_segments_at_slash(a, c);
        lemma_segments(c);
        assert(a.push(SLASH) + b =~= w.push(b.last()));
        assert(b =~= c.push(b.last()));
        let all = segments(w.push(b.last()));
        lemma_segments(w.push(b.last()));
        if b.last() == SLASH {
            lemma_segments_push_slash(w);
            lemma_segments_push_slash(c);
        } else {
            lemma_segments_push(w, b.last());
            lemma_segments_push(c, b.last());
        }
        assert(all =~= all.drop_last().push(all.last()));
        assert(segments(b) =~= segments(b).drop_last().push(segments(b).last()));
        assert((segments(a) + segments(c)).drop_last() =~= segments(a) + segments(c).drop_last());
        assert(all =~= segments(a) + segments(b));
    }
}

/// Walking two stretches is walking one and then the other.
pub proof fn lemma_walk_on(
    start: Seq<Seq<u8>>,
    p: Seq<Seq<u8>>,
    q: Seq<Seq<u8>>,
    merge_slashes: bool,
)
    ensures
        walk_from(start, p + q, merge_slashes) == match walk_from(start, p, merge_slashes) {
            Some(dirs) => walk_from(dirs, q, merge_slashes),
            None => None,
        },
    decreases q.len(),
{
    if q.len() == 0 {
        assert(p + q =~= p);
    } else {
        lemma_walk_on(start, p, q.drop_last(), merge_slashes);
        assert((p + q).drop_last() =~= p + q.drop_last());
    }
}

/// Resolving behind a stretch is resolving from where it leads.
pub proof fn lemma_resolve_on(
    start: Seq<Seq<u8>>,
    p: Seq<Seq<u8>>,
    q: Seq<Seq<u8>>,
    merge_slashes: bool,
)
    requires
        q.len() > 0,
    ensures
        resolve_from(start, p + q, merge_slashes) == match walk_from(start, p, merge_slashes) {
            Some(dirs) => resolve_from(dirs, q, merge_slashes),
            None => None,
        },
{
    lemma_walk_on(start, p, q.drop_last(), merge_slashes);
    assert((p + q).drop_last() =~= p + q.drop_last());
}

/// The bytes before the first slash of `x`.
pub open spec fn lead_of(x: Seq<u8>) -> Seq<u8> {
    x.take(slash_from(x, 0))
}

/// Behind `x` and a slash, the rest is resolved from where they lead.
pub proof fn lemma_under(x: Seq<u8>, b: Seq<u8>, merge_slashes: bool, rooted: bool)
    ensures
        of_decoded(x + seq![SLASH] + b, merge_slashes, rooted) == match under(
            x,
            merge_slashes,
            rooted,
        ) {
            Some(dirs) => match resolve_from(dirs, segments(b), merge_slashes) {
                Some(path) => Some(Written::Path(before_root(lead_of(x), rooted), path)),
                None => None,
            },
            None => None,
        },
        segments(b).len() > 0,
{
    let d = x + seq![SLASH] + b;
    let k = slash_from(x, 0);
    lemma_slash_from(x, 0);
    lemma_slash_from(d, 0);
    lemma_segments(b);
    assert(d[x.len() as int] == SLASH);
    assert(slash_from(d, 0) == k) by {
        let m = slash_from(d, 0);
        if m < k {
            assert(d[m] == x[m]);
        }
        if k < m {
            if k < x.len() {
                assert(d[k] == x[k]);
            }
        }
    }
    assert(d.take(k) =~= x.take(k));
    if k < x.len() {
        let a = x.skip(k + 1);
        assert(d.skip(k + 1) =~= a.push(SLASH) + b);
        lemma_segments_at_slash(a, b);
        lemma_resolve_on(
            below_root(x.take(k), rooted),
            segments(a),
            segments(b),
            merge_slashes,
        );
    } else {
        assert(x.take(k) =~= x);
        assert(d.skip(k + 1) =~= b);
    }
}

/// A spelled path is rewritten as its bytes say.
pub proof fn lemma_spelled_result(
    texts: Seq<Seq<u8>>,
    path: Seq<u8>,
    merge_slashes: bool,
    rooted: bool,
)
    requires
        spelling(texts, path),
    ensures
        rewrite(texts.flatten(), merge_slashes, rooted) == of_decoded(path, merge_slashes, rooted),
{
    lemma_spelled(texts, path);
}

/// The segments of a single segment with a rest behind a slash.
pub proof fn lemma_first_segment(seg: Seq<u8>, y: Seq<u8>)
    requires
        !seg.contains(SLASH),
    ensures
        segments(seg) == seq![seg],
        segments(seg + seq![SLASH] + y) == seq![seg] + segments(y),
{
    lemma_one_segment(seg);
    lemma_segments_at_slash(seg, y);
    assert(seg + seq![SLASH] + y =~= seg.push(SLASH) + y);
}

/// Bytes without a slash are one segment.
pub proof fn lemma_one_segment(seg: Seq<u8>)
    requires
        !seg.contains(SLASH),
    ensures
        segments(seg) == seq![seg],
    decreases seg.len(),
{
    if seg.len() == 0 {
        assert(seg =~= Seq::empty());
        assert(segments(seg) =~= seq![seg]);
    } else {
        let shorter = seg.drop_last();
        assert(seg.contains(seg.last()));
        assert(!shorter.contains(SLASH)) by {
            if shorter.contains(SLASH) {
                let j = choose|j: int| 0 <= j < shorter.len() && shorter[j] == SLASH;
                assert(seg[j] == SLASH);
            }
        }
        lemma_one_segment(shorter);
        assert(shorter.push(seg.last()) =~= seg);
        assert(segments(seg) =~= seq![seg]);
    }
}

/// Walking one segment is entering it.
pub proof fn lemma_walk_one(dirs: Seq<Seq<u8>>, seg: Seq<u8>, merge_slashes: bool)
    ensures
        walk_from(dirs, seq![seg], merge_slashes) == enter(dirs, seg, merge_slashes),
{
    assert(seq![seg].drop_last() =~= Seq::empty());
    assert(walk_from(dirs, seq![seg].drop_last(), merge_slashes) == Some(dirs));
}

/// A segment that is neither `.` nor `..` is none to the model.
pub proof fn lemma_no_dots(d: Seq<u8>)
    ensures
        is_dot(d) <==> d == seq![0x2eu8],
        is_dot_dot(d) <==> d == seq![0x2eu8, 0x2e],
{
    if is_dot(d) {
        assert(d =~= seq![0x2eu8]);
    }
    if is_dot_dot(d) {
        assert(d =~= seq![0x2eu8, 0x2e]);
    }
}

/// Where segment `k` of `w` stands.
pub proof fn lemma_segment_place(w: Seq<u8>, k: int) -> (at: int)
    requires
        0 <= k < segments(w).len(),
    ensures
        0 <= at <= at + segments(w)[k].len() <= w.len(),
        w.subrange(at, at + segments(w)[k].len()) == segments(w)[k],
        at == 0 || w[at - 1] == SLASH,
        k == 0 ==> at == 0,
        k > 0 ==> at > 0,
        if k == segments(w).len() - 1 {
            at + segments(w)[k].len() == w.len()
        } else {
            at + segments(w)[k].len() < w.len() && w[at + segments(w)[k].len()] == SLASH
        },
    decreases w.len(),
{
    lemma_segments(w);
    if w.len() == 0 {
        assert(w.subrange(0, 0) =~= segments(w)[k]);
        0
    } else {
        let v = w.drop_last();
        let b = w.last();
        let before = segments(v);
        lemma_segments(v);
        assert(w =~= v.push(b));
        if b == SLASH && k == before.len() {
            assert(w.subrange(w.len() as int, w.len() as int) =~= segments(w)[k]);
            w.len() as int
        } else {
            let at = lemma_segment_place(v, k);
            let n = before[k].len() as int;
            if b != SLASH && k == before.len() - 1 {
                assert(w.subrange(at, at + n + 1) =~= v.subrange(at, at + n).push(b));
            } else {
                assert(w.subrange(at, at + n) =~= v.subrange(at, at + n));
            }
            at
        }
    }
}

/// Writing the segments of `w` again gives `w`.
pub proof fn lemma_join(w: Seq<u8>)
    ensures
        dir_bytes(segments(w).drop_last()) + segments(w).last() == seq![SLASH] + w,
    decreases w.len(),
{
    lemma_segments(w);
    let segs = segments(w);
    if w.len() == 0 {
        assert(segs.drop_last() =~= Seq::empty());
        assert(dir_bytes(segs.drop_last()) + segs.last() =~= seq![SLASH] + w);
    } else {
        let v = w.drop_last();
        let before = segments(v);
        lemma_join(v);
        lemma_segments(v);
        assert(w =~= v.push(w.last()));
        assert(seq![SLASH] + w =~= (seq![SLASH] + v).push(w.last()));
        if w.last() == SLASH {
            lemma_segments_push_slash(v);
            assert(dir_bytes(segs.drop_last()) + segs.last() =~= dir_bytes(before));
        } else {
            lemma_segments_push(v, w.last());
            assert(dir_bytes(segs.drop_last()) + segs.last() =~= (dir_bytes(before.drop_last())
                + before.last()).push(w.last()));
        }
    }
}

/// Directories that are neither dots nor, where slashes are merged, empty are
/// kept.
pub proof fn lemma_walk_kept(start: Seq<Seq<u8>>, segs: Seq<Seq<u8>>, merge_slashes: bool)
    requires
        forall|k: int|
            0 <= k < segs.len() ==> !is_dot(#[trigger] segs[k]) && !is_dot_dot(segs[k]) && (
            merge_slashes ==> segs[k].len() > 0),
    ensures
        walk_from(start, segs, merge_slashes) == Some(start + segs),
    decreases segs.len(),
{
    if segs.len() == 0 {
        assert(start + segs =~= start);
    } else {
        let outer = segs.drop_last();
        assert forall|k: int| 0 <= k < outer.len() implies !is_dot(#[trigger] outer[k])
            && !is_dot_dot(outer[k]) && (merge_slashes ==> outer[k].len() > 0) by {
            assert(outer[k] == segs[k]);
        }
        lemma_walk_kept(start, outer, merge_slashes);
        let last = segs[segs.len() - 1];
        assert(!is_dot(last) && !is_dot_dot(last));
        assert((start + outer).push(last) =~= start + segs);
    }
}

/// Directories behind others are written behind them.
pub proof fn lemma_dir_bytes_on(a: Seq<Seq<u8>>, b: Seq<Seq<u8>>)
    ensures
        dir_bytes(a + b) == dir_bytes(a) + dir_bytes(b).skip(1),
        dir_bytes(b).len() > 0,
    decreases b.len(),
{
    if b.len() == 0 {
        assert(a + b =~= a);
        assert(dir_bytes(b).skip(1) =~= Seq::empty());
        assert(dir_bytes(a) + Seq::<u8>::empty() =~= dir_bytes(a));
    } else {
        lemma_dir_bytes_on(a, b.drop_last());
        assert((a + b).drop_last() =~= a + b.drop_last());
        assert(dir_bytes(a + b) =~= dir_bytes(a) + dir_bytes(b).skip(1));
    }
}

/// A path ends where the model says.
pub proof fn lemma_path_ends(s: Seq<u8>, e: int)
    requires
        path_ends(s, e),
    ensures
        delimiter_from(s, 0) == e,
        path_text(s) == s.take(e),
{
    let m = delimiter_from(s, 0);
    lemma_delimiter_from(s, 0);
    if m < e {
        assert(s[m] != 0x3f && s[m] != 0x23);
    }
    if e < m {
        assert(!is_delimiter(s[e]));
    }
}

/// What is put behind a target does not make it invalid, nor valid, where it
/// starts with a delimiter and holds only what a target may hold.
pub proof fn lemma_valid_on(p: Seq<u8>, more: Seq<u8>)
    requires
        more.len() > 0,
        more[0] == 0x3f || more[0] == 0x23,
        forall|j: int| 0 <= j < more.len() ==> #[trigger] more[j] > 0x20 && more[j] != 0x7f,
    ensures
        valid_target(p + more) == valid_target(p),
{
    let s = p + more;
    if valid_target(p) {
        assert forall|j: int| 0 <= j < s.len() implies !is_forbidden(#[trigger] s[j]) by {
            if j < p.len() {
                assert(s[j] == p[j]);
            } else {
                assert(s[j] == more[j - p.len()]);
            }
        }
    }
    if valid_target(s) {
        if p.len() == 0 {
            assert(s[0] == more[0]);
        }
        assert(s[0] == p[0]);
        assert forall|j: int| 0 <= j < p.len() implies !is_forbidden(#[trigger] p[j]) by {
            assert(s[j] == p[j]);
        }
    }
}

/// Single bytes put together.
pub proof fn lemma_flatten_singletons(t: Seq<u8>)
    ensures
        Seq::new(t.len(), |i: int| seq![t[i]]).flatten() == t,
    decreases t.len(),
{
    let texts = Seq::new(t.len(), |i: int| seq![t[i]]);
    if t.len() > 0 {
        let rest = t.skip(1);
        lemma_flatten_singletons(rest);
        assert(texts.drop_first() =~= Seq::new(rest.len(), |i: int| seq![rest[i]]));
        assert(seq![t[0]] + rest =~= t);
    } else {
        assert(texts.flatten() =~= t);
    }
}

/// What stands before `k` is a slash and plus signs.
pub proof fn lemma_after_slash(s: Seq<u8>, k: int)
    requires
        0 <= k <= s.len(),
    ensures
        after_slash(s, k) <==> exists|i: int|
            0 <= i < k && s[i] == 0x2f && forall|m: int| i < m < k ==> #[trigger] s[m] == 0x2b,
    decreases k,
{
    if k > 0 {
        lemma_after_slash(s, k - 1);
        if after_slash(s, k) {
            if s[k - 1] == SLASH {
                assert(0 <= k - 1 < k && s[k - 1] == 0x2f);
            } else {
                let i = choose|i: int|
                    0 <= i < k - 1 && s[i] == 0x2f && forall|m: int|
                        i < m < k - 1 ==> #[trigger] s[m] == 0x2b;
                assert forall|m: int| i < m < k implies #[trigger] s[m] == 0x2b by {}
            }
        }
        if exists|i: int|
            0 <= i < k && s[i] == 0x2f && forall|m: int| i < m < k ==> #[trigger] s[m] == 0x2b {
            let i = choose|i: int|
                0 <= i < k && s[i] == 0x2f && forall|m: int|
                    i < m < k ==> #[trigger] s[m] == 0x2b;
            if i < k - 1 {
                assert(s[k - 1] == 0x2b);
                assert(0 <= i < k - 1 && s[i] == 0x2f);
            }
        }
    }
}

/// Rough places are those that the first pass flags.
pub proof fn lemma_rough(s: Seq<u8>, k: int)
    ensures
        rough_at(s, k) == opens_dot_or_slash(s, k),
{
    if 0 <= k < s.len() {
        lemma_after_slash(s, k);
    }
}

/// What stands behind a spelled path goes on where it ends.
pub proof fn lemma_behind_spelled(texts: Seq<Seq<u8>>, path: Seq<u8>, tail: Seq<u8>)
    requires
        spelling(texts, path),
    ensures
        query(texts.flatten() + tail) == query(tail),
        match decode(path_text(tail)) {
            Some(y) => {
                &&& decode(path_text(texts.flatten() + tail)) == Some(path + y)
                &&& forall|m: bool, rooted: bool| #[trigger]
                    rewrite(path_text(texts.flatten() + tail), m, rooted) == of_decoded(
                        path + y,
                        m,
                        rooted,
                    )
            },
            None => {
                &&& decode(path_text(texts.flatten() + tail)) is None
                &&& forall|m: bool, rooted: bool| #[trigger]
                    rewrite(path_text(texts.flatten() + tail), m, rooted) is None
            },
        },
{
    let a = texts.flatten();
    let n = a.len() as int;
    let s = a + tail;
    let e = delimiter_from(tail, 0);
    lemma_spelled(texts, path);
    lemma_delimiter_from(tail, 0);
    assert(path_ends(s, n + e)) by {
        assert forall|j: int| 0 <= j < n + e implies #[trigger] s[j] != 0x3f && s[j] != 0x23 by {
            if j < n {
                assert(s[j] == a[j]);
                assert(!is_delimiter(a[j]));
            } else {
                assert(s[j] == tail[j - n]);
                assert(!is_delimiter(tail[j - n]));
            }
        }
        if n + e < s.len() {
            assert(s[n + e] == tail[e]);
        }
    }
    lemma_path_ends(s, n + e);
    assert(path_text(s) =~= a + path_text(tail));
    lemma_decode_append(a, path_text(tail));
    if e < tail.len() {
        assert(s[n + e] == tail[e]);
        let h = hash_from(tail, e + 1);
        let k = hash_from(s, n + e + 1);
        lemma_hash_from(tail, e + 1);
        lemma_hash_from(s, n + e + 1);
        assert(k == n + h) by {
            if k < n + h {
                assert(s[k] == tail[k - n]);
            }
            if n + h < k {
                assert(s[n + h] == tail[h]);
            }
        }
        assert(s.subrange(n + e + 1, k) =~= tail.subrange(e + 1, h));
    }
}

/// A tail that is no path.
pub proof fn lemma_no_more_path(tail: Seq<u8>)
    requires
        tail.len() == 0 || tail[0] == 0x3f || tail[0] == 0x23,
    ensures
        path_text(tail) == Seq::<u8>::empty(),
        decode(path_text(tail)) == Some(Seq::<u8>::empty()),
{
    assert(path_ends(tail, 0));
    lemma_path_ends(tail, 0);
    assert(path_text(tail) =~= Seq::empty());
}

/// What a clean target comes to.
pub proof fn lemma_clean_outcome(s: Seq<u8>, merge_slashes: bool)
    ensures
        is_clean(s) ==> outcome(s, merge_slashes) == match rewrite(
            path_text(s),
            merge_slashes,
            false,
        ) {
            Some(n) => Some((n.bytes(), query(s))),
            None => None,
        },
{
    if is_clean(s) {
        lemma_delimiter_from(s, 0);
        assert(path_text(s)[0] == s[0]);
        lemma_rewrite_absolute(path_text(s), merge_slashes);
    }
}

/// A directory with `..` behind it leads back.
pub proof fn lemma_leave(x: Seq<u8>, d: Seq<u8>, y: Seq<u8>, merge_slashes: bool, rooted: bool)
    requires
        !d.contains(0x2f),
        d != seq![0x2eu8],
        d != seq![0x2eu8, 0x2e],
        d.len() > 0 || !merge_slashes,
    ensures
        of_decoded(
            x + seq![0x2fu8] + d + seq![0x2fu8, 0x2e, 0x2e, 0x2f] + y,
            merge_slashes,
            rooted,
        ) == of_decoded(x + seq![0x2fu8] + y, merge_slashes, rooted),
{
    let p1 = x + seq![0x2fu8] + d + seq![0x2fu8, 0x2e, 0x2e, 0x2f] + y;
    let up = seq![0x2eu8, 0x2e];
    let rest = up + seq![SLASH] + y;
    let b = d + seq![SLASH] + rest;
    assert(p1 =~= x + seq![SLASH] + b);
    lemma_under(x, b, merge_slashes, rooted);
    lemma_under(x, y, merge_slashes, rooted);
    lemma_first_segment(d, rest);
    assert(!up.contains(SLASH));
    lemma_first_segment(up, y);
    lemma_no_dots(d);
    if let Some(dirs) = under(x, merge_slashes, rooted) {
        lemma_walk_one(dirs, d, merge_slashes);
        lemma_walk_one(dirs.push(d), up, merge_slashes);
        assert(dirs.push(d).drop_last() =~= dirs);
        lemma_resolve_on(dirs, seq![d], seq![up] + segments(y), merge_slashes);
        lemma_resolve_on(dirs.push(d), seq![up], segments(y), merge_slashes);
    }
}

/// A directory with `..` behind it at the end leads back.
pub proof fn lemma_leave_at_end(x: Seq<u8>, d: Seq<u8>, merge_slashes: bool, rooted: bool)
    requires
        !d.contains(0x2f),
        d != seq![0x2eu8],
        d != seq![0x2eu8, 0x2e],
        d.len() > 0 || !merge_slashes,
    ensures
        of_decoded(
            x + seq![0x2fu8] + d + seq![0x2fu8, 0x2e, 0x2e],
            merge_slashes,
            rooted,
        ) == of_decoded(x + seq![0x2fu8], merge_slashes, rooted),
{
    let up = seq![0x2eu8, 0x2e];
    let empty = Seq::<u8>::empty();
    let b = d + seq![SLASH] + up;
    assert(x + seq![0x2fu8] + d + seq![0x2fu8, 0x2e, 0x2e] =~= x + seq![SLASH] + b);
    assert(x + seq![0x2fu8] =~= x + seq![SLASH] + empty);
    lemma_under(x, b, merge_slashes, rooted);
    lemma_under(x, empty, merge_slashes, rooted);
    assert(!up.contains(SLASH));
    assert(!empty.contains(SLASH));
    lemma_first_segment(d, up);
    lemma_one_segment(up);
    lemma_one_segment(empty);
    lemma_no_dots(d);
    if let Some(dirs) = under(x, merge_slashes, rooted) {
        lemma_walk_one(dirs, d, merge_slashes);
        assert(dirs.push(d).drop_last() =~= dirs);
        lemma_resolve_on(dirs, seq![d], seq![up], merge_slashes);
        assert(seq![up].drop_last() =~= Seq::empty());
        assert(seq![empty].drop_last() =~= Seq::empty());
        assert(walk_from(dirs.push(d), Seq::empty(), merge_slashes) == Some(dirs.push(d)));
        assert(walk_from(dirs, Seq::empty(), merge_slashes) == Some(dirs));
    }
}

/// A segment `.` leads nowhere.
pub proof fn lemma_stay(x: Seq<u8>, y: Seq<u8>, merge_slashes: bool, rooted: bool)
    ensures
        of_decoded(x + seq![0x2fu8, 0x2e, 0x2f] + y, merge_slashes, rooted) == of_decoded(
            x + seq![0x2fu8] + y,
            merge_slashes,
            rooted,
        ),
{
    let dot = seq![0x2eu8];
    let b = dot + seq![SLASH] + y;
    assert(x + seq![0x2fu8, 0x2e, 0x2f] + y =~= x + seq![SLASH] + b);
    lemma_under(x, b, merge_slashes, rooted);
    lemma_under(x, y, merge_slashes, rooted);
    assert(!dot.contains(SLASH));
    lemma_first_segment(dot, y);
    if let Some(dirs) = under(x, merge_slashes, rooted) {
        lemma_walk_one(dirs, dot, merge_slashes);
        lemma_resolve_on(dirs, seq![dot], segments(y), merge_slashes);
    }
}

/// A segment `.` at the end leads nowhere.
pub proof fn lemma_stay_at_end(x: Seq<u8>, merge_slashes: bool, rooted: bool)
    ensures
        of_decoded(x + seq![0x2fu8, 0x2e], merge_slashes, rooted) == of_decoded(
            x + seq![0x2fu8],
            merge_slashes,
            rooted,
        ),
{
    let dot = seq![0x2eu8];
    let empty = Seq::<u8>::empty();
    assert(x + seq![0x2fu8, 0x2e] =~= x + seq![SLASH] + dot);
    assert(x + seq![0x2fu8] =~= x + seq![SLASH] + empty);
    lemma_under(x, dot, merge_slashes, rooted);
    lemma_under(x, empty, merge_slashes, rooted);
    assert(!dot.contains(SLASH));
    assert(!empty.contains(SLASH));
    lemma_one_segment(dot);
    lemma_one_segment(empty);
    if let Some(dirs) = under(x, merge_slashes, rooted) {
        assert(seq![dot].drop_last() =~= Seq::empty());
        assert(seq![empty].drop_last() =~= Seq::empty());
        assert(walk_from(dirs, Seq::empty(), merge_slashes) == Some(dirs));
    }
}

/// Where slashes are merged, an empty segment leads nowhere.
pub proof fn lemma_merge(x: Seq<u8>, y: Seq<u8>, merge_slashes: bool, rooted: bool)
    requires
        merge_slashes,
    ensures
        of_decoded(x + seq![0x2fu8, 0x2f] + y, merge_slashes, rooted) == of_decoded(
            x + seq![0x2fu8] + y,
            merge_slashes,
            rooted,
        ),
{
    let empty = Seq::<u8>::empty();
    let b = empty + seq![SLASH] + y;
    assert(x + seq![0x2fu8, 0x2f] + y =~= x + seq![SLASH] + b);
    lemma_under(x, b, merge_slashes, rooted);
    lemma_under(x, y, merge_slashes, rooted);
    assert(!empty.contains(SLASH));
    lemma_first_segment(empty, y);
    if let Some(dirs) = under(x, merge_slashes, rooted) {
        lemma_walk_one(dirs, empty, merge_slashes);
        lemma_resolve_on(dirs, seq![empty], segments(y), merge_slashes);
    }
}

/// Where a name and a slash lead.
proof fn lemma_under_name(name: Seq<u8>, merge_slashes: bool)
    requires
        !name.contains(0x2f),
    ensures
        under(name, merge_slashes, false) == Some(Seq::<Seq<u8>>::empty()),
        under(name, merge_slashes, true) == Some(seq![name]),
        lead_of(name) == name,
{
    lemma_slash_from(name, 0);
    if slash_from(name, 0) < name.len() {
        assert(name.contains(name[slash_from(name, 0)]));
    }
    assert(name.take(name.len() as int) =~= name);
}

/// What `..` does behind a name and a slash.
pub proof fn lemma_above_root(name: Seq<u8>, y: Seq<u8>, merge_slashes: bool)
    requires
        !name.contains(0x2f),
    ensures
        of_decoded(name + seq![0x2fu8, 0x2e, 0x2e, 0x2f] + y, merge_slashes, false) is None,
        of_decoded(name + seq![0x2fu8, 0x2e, 0x2e, 0x2f] + y, merge_slashes, true) == of_decoded(
            seq![0x2fu8] + y,
            merge_slashes,
            false,
        ),
{
    let up = seq![0x2eu8, 0x2e];
    let empty = Seq::<u8>::empty();
    let b = up + seq![SLASH] + y;
    assert(!up.contains(SLASH));
    assert(!empty.contains(0x2f));
    lemma_under_name(name, merge_slashes);
    lemma_under_name(empty, merge_slashes);
    assert(name + seq![0x2fu8, 0x2e, 0x2e, 0x2f] + y =~= name + seq![SLASH] + b);
    assert(seq![0x2fu8] + y =~= empty + seq![SLASH] + y);
    lemma_under(name, b, merge_slashes, false);
    lemma_under(name, b, merge_slashes, true);
    lemma_under(empty, y, merge_slashes, false);
    lemma_first_segment(up, y);
    assert(seq![name].drop_last() =~= Seq::empty());
    lemma_walk_one(Seq::empty(), up, merge_slashes);
    lemma_walk_one(seq![name], up, merge_slashes);
    lemma_resolve_on(Seq::empty(), seq![up], segments(y), merge_slashes);
    lemma_resolve_on(seq![name], seq![up], segments(y), merge_slashes);
}

/// What `..` at the end does behind a name and a slash.
pub proof fn lemma_above_root_at_end(name: Seq<u8>, merge_slashes: bool)
    requires
        !name.contains(0x2f),
    ensures
        of_decoded(name + seq![0x2fu8, 0x2e, 0x2e], merge_slashes, false) is None,
        of_decoded(name + seq![0x2fu8, 0x2e, 0x2e], merge_slashes, true) == of_decoded(
            seq![0x2fu8],
            merge_slashes,
            false,
        ),
{
    let up = seq![0x2eu8, 0x2e];
    let empty = Seq::<u8>::empty();
    assert(!up.contains(SLASH));
    assert(!empty.contains(0x2f));
    lemma_under_name(name, merge_slashes);
    lemma_under_name(empty, merge_slashes);
    assert(name + seq![0x2fu8, 0x2e, 0x2e] =~= name + seq![SLASH] + up);
    assert(seq![0x2fu8] =~= empty + seq![SLASH] + empty);
    lemma_under(name, up, merge_slashes, false);
    lemma_under(name, up, merge_slashes, true);
    lemma_under(empty, empty, merge_slashes, false);
    lemma_one_segment(up);
    lemma_one_segment(empty);
    assert(seq![name].drop_last() =~= Seq::empty());
    assert(seq![up].drop_last() =~= Seq::empty());
    assert(seq![empty].drop_last() =~= Seq::empty());
    assert(walk_from(seq![name], Seq::empty(), merge_slashes) == Some(seq![name]));
    assert(walk_from(Seq::<Seq<u8>>::empty(), Seq::empty(), merge_slashes) == Some(
        Seq::<Seq<u8>>::empty(),
    ));
}

} // verus!
