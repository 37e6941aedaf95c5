//! What becomes of a whole target, told in bytes: which bytes it may hold,
//! where its path ends, what its query is, and when it is taken over as it
//! stands.

use crate::byte_lemmas::{
    lemma_all_path, lemma_flatten_singletons, lemma_path_ends, lemma_rough, lemma_spelled,
    lemma_valid_on,
};
use crate::chars::{HASH, PERCENT};
use crate::lemmas::{
    lemma_after_slash_take, lemma_decode_append, lemma_delimiter_from, lemma_hash_from,
};
use crate::model::{
    decode, delimiter_from, hash_from, is_delimiter, needs_rewrite, opens_dot_or_slash, outcome,
    path_text, rewrite, valid_target,
};
use crate::path_laws::{dots_behind, law_normal_path_is_kept, slashes_at, spelling, spells};
use vstd::prelude::*;

verus! {

/// Whether the path of `s` ends at `e`: at its first `?` or `#`, or with it.
pub open spec fn path_ends(s: Seq<u8>, e: int) -> bool {
    &&& 0 <= e <= s.len()
    &&& forall|j: int| 0 <= j < e ==> #[trigger] s[j] != 0x3f && s[j] != 0x23
    &&& e < s.len() ==> s[e] == 0x3f || s[e] == 0x23
}

/// Where the path of a target ends, there is no other place to end it.
pub proof fn law_path_text(s: Seq<u8>, e: int)
    requires
        path_ends(s, e),
    ensures
        path_text(s) == s.take(e),
{
    lemma_path_ends(s, e);
}

/// A target is rejected that is empty, does not start with a slash, or holds,
/// in any part, a byte up to 0x20 or the byte 0x7f.
pub proof fn law_what_no_target_may_hold(s: Seq<u8>, merge_slashes: bool)
    requires
        s.len() == 0 || s[0] != 0x2f || exists|i: int|
            0 <= i < s.len() && (#[trigger] s[i] <= 0x20 || s[i] == 0x7f),
    ensures
        outcome(s, merge_slashes) is None,
{
}

/// What stands behind a path: a query, a fragment, or both. Neither changes
/// whether the path is accepted, nor the path. The query is taken as it stands;
/// an empty one counts only before a fragment; a fragment is dropped.
pub proof fn law_rest_behind_the_path(
    p: Seq<u8>,
    q: Seq<u8>,
    f: Seq<u8>,
    merge_slashes: bool,
)
    requires
        forall|j: int| 0 <= j < p.len() ==> #[trigger] p[j] != 0x3f && p[j] != 0x23,
        forall|j: int| 0 <= j < q.len() ==> #[trigger] q[j] > 0x20 && q[j] != 0x7f && q[j] != 0x23,
        forall|j: int| 0 <= j < f.len() ==> #[trigger] f[j] > 0x20 && f[j] != 0x7f,
    ensures
        match outcome(p, merge_slashes) {
            Some((path, args)) => {
                &&& args is None
                &&& outcome(p + seq![0x3fu8] + q, merge_slashes) == Some(
                    (
                        path,
                        if q.len() > 0 {
                            Some(q)
                        } else {
                            None
                        },
                    ),
                )
                &&& outcome(p + seq![0x3fu8] + q + seq![0x23u8] + f, merge_slashes) == Some(
                    (path, Some(q)),
                )
                &&& outcome(p + seq![0x23u8] + f, merge_slashes) == Some((path, None::<Seq<u8>>))
            },
            None => {
                &&& outcome(p + seq![0x3fu8] + q, merge_slashes) is None
                &&& outcome(p + seq![0x3fu8] + q + seq![0x23u8] + f, merge_slashes) is None
                &&& outcome(p + seq![0x23u8] + f, merge_slashes) is None
            },
        },
{
    let e = p.len() as int;
    let s1 = p + seq![0x3fu8] + q;
    let s2 = p + seq![0x3fu8] + q + seq![0x23u8] + f;
    let s3 = p + seq![0x23u8] + f;
    lemma_path_ends(p, e);
    assert(path_ends(s1, e));
    assert(path_ends(s2, e));
    assert(path_ends(s3, e));
    lemma_path_ends(s1, e);
    lemma_path_ends(s2, e);
    lemma_path_ends(s3, e);
    assert(s1.take(e) =~= p);
    assert(s2.take(e) =~= p);
    assert(s3.take(e) =~= p);
    assert(p.take(e) =~= p);
    assert(valid_target(s1) == valid_target(p)) by {
        lemma_valid_on(p, seq![0x3fu8] + q);
        assert(p + (seq![0x3fu8] + q) =~= s1);
    }
    assert(valid_target(s2) == valid_target(p)) by {
        lemma_valid_on(p, seq![0x3fu8] + q + seq![0x23u8] + f);
        assert(p + (seq![0x3fu8] + q + seq![0x23u8] + f) =~= s2);
    }
    assert(valid_target(s3) == valid_target(p)) by {
        lemma_valid_on(p, seq![0x23u8] + f);
        assert(p + (seq![0x23u8] + f) =~= s3);
    }
    lemma_hash_from(s1, e + 1);
    assert(hash_from(s1, e + 1) == s1.len()) by {
        let h = hash_from(s1, e + 1);
        if h < s1.len() {
            assert(s1[h] == q[h - e - 1]);
        }
    }
    lemma_hash_from(s2, e + 1);
    assert(s2[e + 1 + q.len()] == 0x23);
    assert(hash_from(s2, e + 1) == e + 1 + q.len()) by {
        let h = hash_from(s2, e + 1);
        if h < e + 1 + q.len() {
            assert(s2[h] == q[h - e - 1]);
        }
    }
    assert(s1.subrange(e + 1, s1.len() as int) =~= q);
    assert(s2.subrange(e + 1, e + 1 + q.len()) =~= q);
    assert(s2[e] == 0x3f);
    assert(s1[e] == 0x3f);
    assert(s3[e] == 0x23);
}

/// A target that holds no byte up to 0x20 and not 0x7f, and whose path starts
/// with a slash and holds no percent sign, no segment `.` or `..`, and no
/// adjacent slashes where they are merged, is accepted with its path as it
/// stands.
pub proof fn law_plain_target_is_accepted(s: Seq<u8>, e: int, merge_slashes: bool)
    requires
        path_ends(s, e),
        e > 0,
        s[0] == 0x2f,
        forall|j: int| 0 <= j < s.len() ==> #[trigger] s[j] > 0x20 && s[j] != 0x7f,
        forall|j: int| 0 <= j < e ==> #[trigger] s[j] != 0x25,
        forall|i: int| !dots_behind(s.take(e), i),
        merge_slashes ==> forall|i: int| !slashes_at(s.take(e), i),
    ensures
        outcome(s, merge_slashes) matches Some((path, args)) && path == s.take(e),
{
    let t = s.take(e);
    let texts = Seq::new(t.len(), |i: int| seq![t[i]]);
    assert forall|i: int| 0 <= i < t.len() implies spells(#[trigger] texts[i], t[i]) by {
        assert(t[i] == s[i]);
    }
    lemma_flatten_singletons(t);
    lemma_spelled(texts, t);
    lemma_path_ends(s, e);
    law_normal_path_is_kept(texts, t, merge_slashes, false);
    assert forall|j: int| 0 <= j < t.len() implies !is_delimiter(#[trigger] t[j]) by {
        assert(t[j] == s[j]);
    }
    lemma_all_path(t);
    assert forall|j: int| 0 <= j < t.len() implies #[trigger] t[j] > 0x20 && t[j] != 0x7f by {
        assert(t[j] == s[j]);
    }
}

/// Whether a byte is a hexadecimal digit.
pub open spec fn is_hex(b: u8) -> bool {
    0x30 <= b <= 0x39 || 0x41 <= b <= 0x46 || 0x61 <= b <= 0x66
}

/// Behind a well-spelled part of a path, a percent sign without two
/// hexadecimal digits behind it, or with two zeros, makes the target rejected,
/// whatever follows.
pub proof fn law_broken_escape_is_rejected(
    texts: Seq<Seq<u8>>,
    read: Seq<u8>,
    behind: Seq<u8>,
    merge_slashes: bool,
    rooted: bool,
)
    requires
        spelling(texts, read),
        behind.len() < 2 || !is_hex(behind[0]) || !is_hex(behind[1]) || (behind[0] == 0x30
            && behind[1] == 0x30),
    ensures
        outcome(texts.flatten() + seq![0x25u8] + behind, merge_slashes) is None,
        rewrite(
            path_text(texts.flatten() + seq![0x25u8] + behind),
            merge_slashes,
            rooted,
        ) is None,
{
    let a = texts.flatten();
    let s = a + seq![0x25u8] + behind;
    let e = delimiter_from(s, 0);
    let t = path_text(s);
    lemma_spelled(texts, read);
    lemma_delimiter_from(s, 0);
    assert(e > a.len()) by {
        if e < a.len() {
            assert(s[e] == a[e]);
        }
        assert(s[a.len() as int] == 0x25);
    }
    let rest = t.skip(a.len() as int);
    assert(t =~= a + rest);
    assert(rest[0] == s[a.len() as int]);
    if rest.len() >= 3 {
        assert(rest[1] == behind[0] && rest[2] == behind[1]);
    }
    assert(decode(rest) is None);
    lemma_decode_append(a, rest);
}

/// Whether a dot or a slash stands at `k` behind a slash, with nothing but
/// plus signs between.
pub open spec fn rough_at(s: Seq<u8>, k: int) -> bool {
    &&& 0 <= k < s.len()
    &&& s[k] == 0x2e || s[k] == 0x2f
    &&& exists|i: int|
        0 <= i < k && s[i] == 0x2f && forall|m: int| i < m < k ==> #[trigger] s[m] == 0x2b
}

/// The path is taken over as it stands, without a copy, exactly if there is no
/// fragment, and the path holds no percent sign and, behind a slash and any
/// plus signs, no dot and no slash.
pub proof fn law_what_is_taken_over(s: Seq<u8>, e: int)
    requires
        path_ends(s, e),
    ensures
        needs_rewrite(s) <==> {
            ||| exists|j: int| 0 <= j < s.len() && #[trigger] s[j] == 0x23
            ||| exists|j: int| 0 <= j < e && #[trigger] s[j] == 0x25
            ||| exists|k: int| k < e && #[trigger] rough_at(s, k)
        },
{
    let t = path_text(s);
    lemma_path_ends(s, e);
    assert forall|k: int| k < e implies #[trigger] rough_at(s, k) == opens_dot_or_slash(t, k) by {
        lemma_rough(s, k);
        if 0 <= k {
            lemma_after_slash_take(s, e, k);
            assert(t[k] == s[k]);
        }
    }
    if exists|k: int| opens_dot_or_slash(t, k) {
        let k = choose|k: int| opens_dot_or_slash(t, k);
        assert(rough_at(s, k));
    }
    if exists|k: int| k < e && #[trigger] rough_at(s, k) {
        let k = choose|k: int| k < e && #[trigger] rough_at(s, k);
        assert(opens_dot_or_slash(t, k));
    }
    if t.contains(PERCENT) {
        let j = choose|j: int| 0 <= j < t.len() && t[j] == PERCENT;
        assert(s[j] == 0x25);
    }
    if exists|j: int| 0 <= j < e && #[trigger] s[j] == 0x25 {
        let j = choose|j: int| 0 <= j < e && #[trigger] s[j] == 0x25;
        assert(t[j] == PERCENT);
    }
    if s.contains(HASH) {
        let j = choose|j: int| 0 <= j < s.len() && s[j] == HASH;
        assert(s[j] == 0x23);
    }
}

} // verus!
