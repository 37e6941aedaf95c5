//! Facts about the model that the passes and the laws rest on.

use crate::chars::{DOT, HASH, PERCENT, QUESTION, SLASH};
use crate::model::{
    after_slash, decode, delimiter_from, dir_bytes, enter, escape_value, hash_from, is_delimiter,
    needs_rewrite, normalize, opens_dot_or_slash, path_text, prefixed, rewrite, segments,
    slash_from, valid_target, walk, walk_from, NormalPath, Written,
};
use crate::request::Request;
use crate::scan::{lemma_settled_from, scanned, settled_from, settles};
use vstd::prelude::*;

verus! {

/// A delimiter found from `i` on is the first one there.
pub proof fn lemma_delimiter_from(s: Seq<u8>, i: int)
    requires
        0 <= i <= s.len(),
    ensures
        i <= delimiter_from(s, i) <= s.len(),
        forall|j: int| i <= j < delimiter_from(s, i) ==> !is_delimiter(#[trigger] s[j]),
        delimiter_from(s, i) < s.len() ==> is_delimiter(s[delimiter_from(s, i)]),
    decreases s.len() - i,
{
    if i < s.len() && !is_delimiter(s[i]) {
        lemma_delimiter_from(s, i + 1);
    }
}

/// A `#` found from `i` on is the first one there.
pub proof fn lemma_hash_from(s: Seq<u8>, i: int)
    requires
        0 <= i <= s.len(),
    ensures
        i <= hash_from(s, i) <= s.len(),
        forall|j: int| i <= j < hash_from(s, i) ==> #[trigger] s[j] != HASH,
        hash_from(s, i) < s.len() ==> s[hash_from(s, i)] == HASH,
    decreases s.len() - i,
{
    if i < s.len() && s[i] != HASH {
        lemma_hash_from(s, i + 1);
    }
}

/// There is always a last segment, and no segment holds a slash.
pub proof fn lemma_segments(w: Seq<u8>)
    ensures
        segments(w).len() > 0,
        forall|k: int, j: int|
            0 <= k < segments(w).len() && 0 <= j < segments(w)[k].len()
                ==> #[trigger] segments(w)[k][j] != SLASH,
    decreases w.len(),
{
    if w.len() > 0 {
        lemma_segments(w.drop_last());
    }
}

/// Appending a byte that is no slash lengthens the last segment.
pub proof fn lemma_segments_push(w: Seq<u8>, b: u8)
    requires
        b != SLASH,
    ensures
        segments(w.push(b)).drop_last() == segments(w).drop_last(),
        segments(w.push(b)).last() == segments(w).last().push(b),
{
    lemma_segments(w);
    assert(w.push(b).drop_last() =~= w);
    assert(segments(w.push(b)).drop_last() =~= segments(w).drop_last());
}

/// Appending a slash starts a new, empty segment.
pub proof fn lemma_segments_push_slash(w: Seq<u8>)
    ensures
        segments(w.push(SLASH)).drop_last() == segments(w),
        segments(w.push(SLASH)).last() == Seq::<u8>::empty(),
{
    assert(w.push(SLASH).drop_last() =~= w);
    assert(segments(w.push(SLASH)).drop_last() =~= segments(w));
}

/// Entering the last segment continues the walk.
pub proof fn lemma_walk_last(start: Seq<Seq<u8>>, w: Seq<u8>, merge_slashes: bool)
    ensures
        walk_from(start, segments(w), merge_slashes) == match walk_from(
            start,
            segments(w).drop_last(),
            merge_slashes,
        ) {
            Some(dirs) => enter(dirs, segments(w).last(), merge_slashes),
            None => None,
        },
{
    lemma_segments(w);
}

/// A walk that failed stays failed, whatever follows.
pub proof fn lemma_walk_fails(
    start: Seq<Seq<u8>>,
    w: Seq<u8>,
    more: Seq<u8>,
    merge_slashes: bool,
)
    requires
        walk_from(start, segments(w).drop_last(), merge_slashes) is None,
    ensures
        walk_from(start, segments(w + more).drop_last(), merge_slashes) is None,
    decreases more.len(),
{
    if more.len() == 0 {
        assert(w + more =~= w);
    } else {
        let shorter = more.drop_last();
        lemma_walk_fails(start, w, shorter, merge_slashes);
        assert(w + more =~= (w + shorter).push(more.last()));
        if more.last() == SLASH {
            lemma_segments_push_slash(w + shorter);
            lemma_walk_last(start, w + shorter, merge_slashes);
        } else {
            lemma_segments_push(w + shorter, more.last());
        }
    }
}

/// A slash found from `i` on is the first one there.
pub proof fn lemma_slash_from(d: Seq<u8>, i: int)
    requires
        0 <= i <= d.len(),
    ensures
        i <= slash_from(d, i) <= d.len(),
        forall|j: int| i <= j < slash_from(d, i) ==> #[trigger] d[j] != SLASH,
        slash_from(d, i) < d.len() ==> d[slash_from(d, i)] == SLASH,
    decreases d.len() - i,
{
    if i < d.len() && d[i] != SLASH {
        lemma_slash_from(d, i + 1);
    }
}

/// A text that starts with a slash, and is given none, is rewritten to its
/// normal path.
pub proof fn lemma_rewrite_absolute(text: Seq<u8>, merge_slashes: bool)
    requires
        text.len() > 0,
        text[0] == SLASH,
    ensures
        match normalize(text, merge_slashes) {
            Some(n) => rewrite(text, merge_slashes, false) == Some(
                Written::Path(Seq::empty(), n),
            ) && Written::Path(Seq::empty(), n).bytes() == n.bytes(),
            None => rewrite(text, merge_slashes, false) is None,
        },
{
    if let Some(d) = decode(text) {
        assert(d[0] == SLASH);
        assert(slash_from(d, 0) == 0);
        assert(d.take(0) =~= Seq::empty());
    }
    if let Some(n) = normalize(text, merge_slashes) {
        assert(Seq::empty() + n.bytes() =~= n.bytes());
    }
}

/// Whether a byte follows a slash depends on the bytes before it alone.
pub proof fn lemma_after_slash_take(s: Seq<u8>, e: int, k: int)
    requires
        0 <= e <= s.len(),
        k <= e,
    ensures
        after_slash(s.take(e), k) == after_slash(s, k),
    decreases k,
{
    if 0 < k {
        lemma_after_slash_take(s, e, k - 1);
    }
}

/// A text without escapes stands for itself.
pub proof fn lemma_decode_plain(t: Seq<u8>)
    requires
        !t.contains(PERCENT),
    ensures
        decode(t) == Some(t),
    decreases t.len(),
{
    if t.len() > 0 {
        assert(t.contains(t[0]));
        let rest = t.skip(1);
        assert(!rest.contains(PERCENT)) by {
            if rest.contains(PERCENT) {
                let j = choose|j: int| 0 <= j < rest.len() && rest[j] == PERCENT;
                assert(t[j + 1] == PERCENT);
            }
        }
        lemma_decode_plain(rest);
        assert(seq![t[0]] + rest =~= t);
    } else {
        assert(t =~= Seq::empty());
    }
}

/// What a text decodes to does not depend on what follows it.
pub proof fn lemma_decode_append(a: Seq<u8>, b: Seq<u8>)
    requires
        decode(a) is Some,
    ensures
        decode(a + b) == prefixed(decode(a)->0, decode(b)),
    decreases a.len(),
{
    if a.len() == 0 {
        assert(a + b =~= b);
        if let Some(d) = decode(b) {
            assert(Seq::<u8>::empty() + d =~= d);
        }
    } else {
        let n = if a[0] != PERCENT {
            1int
        } else {
            3int
        };
        let first = if n == 1 {
            a[0]
        } else {
            escape_value(a[1], a[2])->0
        };
        let rest = a.skip(n);
        lemma_decode_append(rest, b);
        assert((a + b).skip(n) =~= rest + b);
        assert((a + b)[0] == a[0]);
        if n == 3 {
            assert((a + b)[1] == a[1] && (a + b)[2] == a[2]);
        }
        if let Some(d) = decode(b) {
            assert(seq![first] + (decode(rest)->0 + d) =~= (seq![first] + decode(rest)->0) + d);
        }
    }
}

/// No `.` and no `/` directly behind a slash, the one in front of `w` included.
pub open spec fn is_smooth(w: Seq<u8>) -> bool {
    &&& w.len() > 0 ==> w[0] != DOT && w[0] != SLASH
    &&& forall|j: int|
        0 <= j < w.len() - 1 && #[trigger] w[j] == SLASH ==> w[j + 1] != DOT && w[j + 1] != SLASH
}

/// A smooth path is walked as it stands.
pub proof fn lemma_smooth(w: Seq<u8>, merge_slashes: bool)
    requires
        is_smooth(w),
    ensures
        ({
            let segs = segments(w);
            &&& segs.len() > 0
            &&& walk(segs.drop_last(), merge_slashes) == Some(segs.drop_last())
            &&& dir_bytes(segs.drop_last()) + segs.last() == seq![SLASH] + w
            &&& (segs.last().len() == 0 <==> w.len() == 0 || w.last() == SLASH)
            &&& segs.last().len() > 0 ==> segs.last()[0] != DOT
        }),
    decreases w.len(),
{
    lemma_segments(w);
    let segs = segments(w);
    if w.len() == 0 {
        assert(segs.drop_last() =~= Seq::empty());
        assert(dir_bytes(segs.drop_last()) + segs.last() =~= seq![SLASH] + w);
    } else {
        let v = w.drop_last();
        let b = w.last();
        assert(is_smooth(v)) by {
            assert forall|j: int| 0 <= j < v.len() - 1 && #[trigger] v[j] == SLASH implies v[j + 1]
                != DOT && v[j + 1] != SLASH by {
                assert(w[j] == SLASH);
            }
        }
        lemma_smooth(v, merge_slashes);
        lemma_segments(v);
        let before = segments(v);
        if v.len() > 0 {
            assert(w[v.len() - 1] == v.last());
        }
        assert(w =~= v.push(b));
        if b == SLASH {
            lemma_segments_push_slash(v);
            lemma_walk_last(Seq::empty(), v, merge_slashes);
            assert(before.drop_last().push(before.last()) =~= before);
            assert(dir_bytes(segs.drop_last()) + segs.last() =~= seq![SLASH] + w);
        } else {
            lemma_segments_push(v, b);
            assert(dir_bytes(segs.drop_last()) + segs.last() =~= (dir_bytes(before.drop_last())
                + before.last()).push(b));
            assert(seq![SLASH] + w =~= (seq![SLASH] + v).push(b));
        }
    }
}

/// A target that needs no rewriting has a smooth path.
pub proof fn lemma_already_smooth(s: Seq<u8>)
    requires
        s.len() > 0,
        s[0] == SLASH,
        !needs_rewrite(s),
    ensures
        path_text(s).len() > 0,
        path_text(s)[0] == SLASH,
        is_smooth(path_text(s).skip(1)),
{
    let t = path_text(s);
    let w = t.skip(1);
    lemma_delimiter_from(s, 0);
    assert(t[0] == s[0]);
    if w.len() > 0 && (w[0] == DOT || w[0] == SLASH) {
        assert(opens_dot_or_slash(t, 1));
    }
    assert forall|j: int| 0 <= j < w.len() - 1 && #[trigger] w[j] == SLASH implies w[j + 1] != DOT
        && w[j + 1] != SLASH by {
        if w[j + 1] == DOT || w[j + 1] == SLASH {
            assert(t[j + 1] == SLASH);
            assert(opens_dot_or_slash(t, j + 2));
        }
    }
}

/// A target that needs no rewriting has a path that is already normal.
pub proof fn lemma_already_normal(s: Seq<u8>, merge_slashes: bool)
    requires
        s.len() > 0,
        s[0] == SLASH,
        !needs_rewrite(s),
    ensures
        normalize(path_text(s), merge_slashes) == Some(
            NormalPath {
                dirs: segments(path_text(s).skip(1)).drop_last(),
                file: segments(path_text(s).skip(1)).last(),
            },
        ),
        normalize(path_text(s), merge_slashes)->0.bytes() == path_text(s),
{
    let t = path_text(s);
    let w = t.skip(1);
    lemma_already_smooth(s);
    lemma_decode_plain(t);
    lemma_smooth(w, merge_slashes);
    assert(seq![SLASH] + w =~= t);
}

/// The first pass tells which targets need rewriting, and where the query
/// starts in the others.
pub proof fn lemma_treatment(s: Seq<u8>)
    requires
        valid_target(s),
    ensures
        ({
            let r = scanned(Request::fresh(), s, s.len() as int);
            let e = delimiter_from(s, 0);
            &&& (r.complex_uri || r.quoted_uri) == needs_rewrite(s)
            &&& !needs_rewrite(s) ==> r.args_start == (if e < s.len() {
                Some((e + 1) as usize)
            } else {
                None
            })
            &&& !needs_rewrite(s) && e < s.len() ==> s[e] == QUESTION
            &&& !needs_rewrite(s) ==> forall|j: int|
                0 <= j <= s.len() ==> #[trigger] hash_from(s, j) == s.len()
        }),
{
    let t = path_text(s);
    let e = delimiter_from(s, 0);
    let k = settled_from(s, 1);
    lemma_delimiter_from(s, 0);
    lemma_settled_from(s, 1);
    assert(s.take(s.len() as int) =~= s);
    assert(k <= e) by {
        if e < s.len() {
            assert(settles(s, e));
        }
    }
    if k < e {
        assert(t[k] == s[k]);
        lemma_after_slash_take(s, e, k);
        if s[k] == PERCENT {
            assert(t.contains(PERCENT));
        } else {
            assert(opens_dot_or_slash(t, k));
        }
    } else if k < s.len() {
        if s[k] == HASH {
            assert(s.contains(HASH));
        }
    }
    if t.contains(PERCENT) {
        let j = choose|j: int| 0 <= j < t.len() && t[j] == PERCENT;
        assert(settles(s, j));
    }
    if exists|j: int| opens_dot_or_slash(t, j) {
        let j = choose|j: int| opens_dot_or_slash(t, j);
        lemma_after_slash_take(s, e, j);
        assert(settles(s, j));
    }
    assert forall|j: int| 0 <= j <= s.len() && !s.contains(HASH) implies #[trigger] hash_from(s, j)
        == s.len() by {
        lemma_hash_from(s, j);
    }
}

/// In a target that needs no rewriting, nothing but the end of the path
/// settles how it is treated.
pub proof fn lemma_settled_at_delimiter(s: Seq<u8>)
    requires
        valid_target(s),
        !needs_rewrite(s),
    ensures
        settled_from(s, 1) == delimiter_from(s, 0),
{
    let t = path_text(s);
    let e = delimiter_from(s, 0);
    let k = settled_from(s, 1);
    lemma_delimiter_from(s, 0);
    lemma_settled_from(s, 1);
    if e < s.len() {
        assert(settles(s, e));
    }
    if k < e {
        assert(t[k] == s[k]);
        lemma_after_slash_take(s, e, k);
        if s[k] == PERCENT {
            assert(t.contains(PERCENT));
        } else {
            assert(opens_dot_or_slash(t, k));
        }
    }
}

} // verus!
