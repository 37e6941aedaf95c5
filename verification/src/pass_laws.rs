//! What the two passes leave in the record, told in bytes.

use crate::byte_lemmas::{
    lead_of, lemma_first_segment, lemma_one_segment, lemma_path_ends, lemma_resolve_on, lemma_rough,
    lemma_segment_place, lemma_segments_at_slash, lemma_spelled, lemma_spelled_result, lemma_under,
    lemma_walk_on, lemma_walk_one, of_decoded, under,
};
use crate::chars::{DOT, HASH, PERCENT, PLUS, SLASH};
use crate::lemmas::{
    lemma_after_slash_take, lemma_decode_append, lemma_delimiter_from, lemma_hash_from,
    lemma_segments, lemma_slash_from,
};
use crate::model::{
    below_root, decode, delimiter_from, dir_bytes, escape_value, front, hash_from, is_dot,
    is_dot_dot, path_text, readable, rewrite, segments, slash_from, so_far, walk_from, NormalPath,
    Written,
};
use crate::normalize::{abandoned, ext_offset, extension, name_extension, rewritten, searched};
use crate::path_laws::{result, spelling};
use crate::progress::{lemma_stuck, stuck};
use crate::request::{NgxStr, Request};
use crate::scan::{
    is_refused, lemma_refused_from, lemma_settled_from, refused_from, scanned, scanned_ext,
    settled_from, settles,
};
use crate::target_laws::{is_hex, path_ends, rough_at};
use vstd::prelude::*;

verus! {

/// The scan stops at the first byte up to 0x20 or equal to 0x7f, or at the
/// first byte of all where that is no slash, and nowhere else.
pub proof fn law_where_the_scan_stops(s: Seq<u8>, i: int)
    requires
        0 <= i <= s.len(),
        i > 0 ==> s[0] == 0x2f,
        forall|j: int| 0 <= j < i ==> #[trigger] s[j] > 0x20 && s[j] != 0x7f,
        i < s.len() ==> s[i] <= 0x20 || s[i] == 0x7f || (i == 0 && s[0] != 0x2f),
    ensures
        refused_from(s, 0) == i,
{
    let m = refused_from(s, 0);
    lemma_refused_from(s, 0);
    if m < i {
        assert(is_refused(s, m));
    }
    if i < m {
        assert(!is_refused(s, i));
    }
}

/// What the scan has noted before a byte depends on the bytes before it alone:
/// a refused target leaves the record of the target that ends there.
pub proof fn law_scan_sees_what_it_passed(r: Request, s: Seq<u8>, p: int)
    requires
        0 <= p <= s.len(),
    ensures
        scanned(r, s, p) == scanned(r, s.take(p), p),
{
    let t = s.take(p);
    assert(t.take(p) =~= t);
    if p >= 1 {
        let k = settled_from(s, 1);
        let m = settled_from(t, 1);
        lemma_settled_from(s, 1);
        lemma_settled_from(t, 1);
        assert forall|j: int| 0 <= j < p implies #[trigger] settles(t, j) == settles(s, j) by {
            assert(t[j] == s[j]);
            lemma_after_slash_take(s, p, j);
        }
        if k < p {
            assert(settles(t, k));
        }
        if m < p {
            assert(settles(s, m));
        }
        let stop = if k < p {
            k
        } else {
            p
        };
        assert(m == stop);
        lemma_ext_take(s, p, stop, r.uri_ext);
        assert(s.take(stop) =~= t.take(stop));
    } else {
        if s.len() > 0 {
            lemma_settled_from(s, 1);
        }
        assert(s.take(0) =~= t);
    }
}

/// Where an extension starts depends on the bytes before alone.
proof fn lemma_ext_take(s: Seq<u8>, p: int, k: int, start: Option<usize>)
    requires
        0 <= k <= p <= s.len(),
    ensures
        scanned_ext(s.take(p), k, start) == scanned_ext(s, k, start),
    decreases k,
{
    if k > 1 {
        lemma_ext_take(s, p, k - 1, start);
    }
}

/// Where an extension starts in what was scanned.
proof fn lemma_ext(s: Seq<u8>, k: int, start: Option<usize>, j: int)
    requires
        0 <= k <= s.len(),
        0 <= j < k,
        forall|m: int| j < m < k ==> #[trigger] s[m] != 0x2e && s[m] != 0x2f,
        j > 0 ==> s[j] == 0x2e || s[j] == 0x2f,
    ensures
        scanned_ext(s, k, start) == (if j == 0 {
            start
        } else if s[j] == 0x2e {
            Some((j + 1) as usize)
        } else {
            None
        }),
    decreases k,
{
    if k > 1 && j < k - 1 {
        lemma_ext(s, k - 1, start, j);
    }
}

/// Whether the first pass reads `a` without flagging anything: it starts with a
/// slash, and holds no percent sign, no `?`, no `#`, and, behind a slash and
/// any plus signs, no dot and no slash.
pub open spec fn is_calm(a: Seq<u8>) -> bool {
    &&& a.len() > 0
    &&& a[0] == 0x2f
    &&& forall|j: int|
        0 <= j < a.len() ==> #[trigger] a[j] != 0x25 && a[j] != 0x3f && a[j] != 0x23
    &&& forall|k: int| !rough_at(a, k)
}

/// What the first pass notes: up to the byte that ends a calm beginning it
/// looks for plus signs and for an extension, which starts behind the last dot
/// unless a slash follows; that byte says whether there is a query, an escape,
/// or a dot or slash to resolve; behind it only a `#` counts. `mark` is the
/// last dot or slash of the beginning.
pub proof fn law_what_the_scan_notes(r: Request, a: Seq<u8>, rest: Seq<u8>, mark: int)
    requires
        is_calm(a),
        rest.len() > 0 ==> rest[0] == 0x3f || rest[0] == 0x25 || rest[0] == 0x23 || rough_at(
            a + rest,
            a.len() as int,
        ),
        0 <= mark < a.len(),
        a[mark] == 0x2e || a[mark] == 0x2f,
        forall|m: int| mark < m < a.len() ==> #[trigger] a[m] != 0x2e && a[m] != 0x2f,
    ensures
        ({
            let n = scanned(r, a + rest, (a + rest).len() as int);
            &&& n.plus_in_uri == (r.plus_in_uri || exists|j: int|
                0 <= j < a.len() && #[trigger] a[j] == 0x2b)
            &&& n.args_start == (if rest.len() > 0 && rest[0] == 0x3f {
                Some((a.len() + 1) as usize)
            } else {
                r.args_start
            })
            &&& n.quoted_uri == (r.quoted_uri || (rest.len() > 0 && rest[0] == 0x25))
            &&& n.complex_uri == (r.complex_uri || (rest.len() > 0 && (rest[0] == 0x2e || rest[0]
                == 0x2f)) || exists|j: int| 0 <= j < rest.len() && #[trigger] rest[j] == 0x23)
            &&& n.uri_ext == (if mark == 0 {
                r.uri_ext
            } else if a[mark] == 0x2e {
                Some((mark + 1) as usize)
            } else {
                None
            })
            &&& n.uri == r.uri
            &&& n.args == r.args
            &&& n.exten == r.exten
            &&& n.empty_path_in_uri == r.empty_path_in_uri
        }),
{
    let s = a + rest;
    let e = a.len() as int;
    let k = settled_from(s, 1);
    lemma_settled_from(s, 1);
    assert(s.take(e) =~= a);
    assert(s.take(s.len() as int) =~= s);
    assert forall|j: int| 0 <= j < e implies !settles(s, j) by {
        assert(s[j] == a[j]);
        lemma_rough(a, j);
        lemma_after_slash_take(s, e, j);
        assert(!rough_at(a, j));
    }
    if rest.len() > 0 {
        assert(s[e] == rest[0]);
        lemma_rough(s, e);
        assert(settles(s, e));
    }
    assert(k == e) by {
        if k < e {
            assert(settles(s, k));
        }
        if e < k {
            assert(!settles(s, e));
        }
    }
    assert forall|m: int| mark < m < e implies #[trigger] s[m] != 0x2e && s[m] != 0x2f by {
        assert(s[m] == a[m]);
    }
    assert(s[mark] == a[mark]);
    lemma_ext(s, e, r.uri_ext, mark);
    if a.contains(PLUS) {
        let j = choose|j: int| 0 <= j < a.len() && a[j] == PLUS;
        assert(a[j] == 0x2b);
    }
    if s.contains(HASH) {
        let j = choose|j: int| 0 <= j < s.len() && s[j] == HASH;
        if j < e {
            assert(a[j] == 0x23);
        }
        assert(rest[j - e] == 0x23);
    }
    if exists|j: int| 0 <= j < rest.len() && #[trigger] rest[j] == 0x23 {
        let j = choose|j: int| 0 <= j < rest.len() && #[trigger] rest[j] == 0x23;
        assert(s[e + j] == HASH);
    }
}

/// What the second pass notes of the query: where a `?` ends the path, the
/// query starts behind it; a `#` ends the query, which is then noted with its
/// length.
pub proof fn law_what_is_noted_of_the_query(
    r: Request,
    p: Seq<u8>,
    q: Seq<u8>,
    f: Seq<u8>,
    merge_slashes: bool,
)
    requires
        forall|j: int| 0 <= j < p.len() ==> #[trigger] p[j] != 0x3f && p[j] != 0x23,
        forall|j: int| 0 <= j < q.len() ==> #[trigger] q[j] != 0x23,
        p.len() + q.len() + f.len() + 2 <= usize::MAX,
        rewrite(p, merge_slashes, r.empty_path_in_uri) is Some,
    ensures
        ({
            let n = rewrite(p, merge_slashes, r.empty_path_in_uri)->0;
            let start = (p.len() + 1) as usize;
            let plain = rewritten(r, p, n);
            &&& plain.args == r.args
            &&& plain.args_start is None
            &&& plain.uri.len == n.bytes().len() as usize
            &&& plain.uri.data == r.uri.data
            &&& plain.uri_ext is None
            &&& plain.complex_uri == r.complex_uri
            &&& plain.empty_path_in_uri == r.empty_path_in_uri
            &&& plain.quoted_uri == (r.quoted_uri || exists|j: int|
                0 <= j < p.len() && #[trigger] p[j] == 0x25)
            &&& rewritten(r, p + seq![0x3fu8] + q, n) == (Request {
                args_start: Some(start),
                ..plain
            })
            &&& rewritten(r, p + seq![0x3fu8] + q + seq![0x23u8] + f, n) == (Request {
                args: NgxStr { len: q.len() as usize, data: start },
                ..plain
            })
            &&& rewritten(r, p + seq![0x23u8] + f, n) == plain
        }),
{
    let e = p.len() as int;
    let s1 = p + seq![0x3fu8] + q;
    let s2 = p + seq![0x3fu8] + q + seq![0x23u8] + f;
    let s3 = p + seq![0x23u8] + f;
    lemma_path_ends(p, e);
    assert(path_ends(s1, e));
    assert(path_ends(s2, e));
    assert(path_ends(s3, e));
    lemma_path_ends(s1, e);
    lemma_path_ends(s2, e);
    lemma_path_ends(s3, e);
    assert(s1.take(e) =~= p);
    assert(s2.take(e) =~= p);
    assert(s3.take(e) =~= p);
    assert(p.take(e) =~= p);
    assert(s2[e] == 0x3f);
    assert(s1[e] == 0x3f);
    assert(s3[e] == 0x23);
    lemma_hash_from(s1, e + 1);
    assert(hash_from(s1, e + 1) == s1.len()) by {
        let h = hash_from(s1, e + 1);
        if h < s1.len() {
            assert(s1[h] == q[h - e - 1]);
        }
    }
    lemma_hash_from(s2, e + 1);
    assert(s2[e + 1 + q.len()] == 0x23);
    assert(hash_from(s2, e + 1) == e + 1 + q.len()) by {
        let h = hash_from(s2, e + 1);
        if h < e + 1 + q.len() {
            assert(s2[h] == q[h - e - 1]);
        }
    }
    if p.contains(PERCENT) {
        let j = choose|j: int| 0 <= j < p.len() && p[j] == PERCENT;
        assert(p[j] == 0x25);
    }
}

/// The second pass notes a plus sign exactly if the path, once decoded, holds
/// one, however it is spelled.
pub proof fn law_plus_signs_are_noted(
    r: Request,
    texts: Seq<Seq<u8>>,
    path: Seq<u8>,
    merge_slashes: bool,
)
    requires
        spelling(texts, path),
        rewrite(texts.flatten(), merge_slashes, r.empty_path_in_uri) is Some,
    ensures
        rewritten(
            r,
            texts.flatten(),
            rewrite(texts.flatten(), merge_slashes, r.empty_path_in_uri)->0,
        ).plus_in_uri == (r.plus_in_uri || exists|j: int|
            0 <= j < path.len() && #[trigger] path[j] == 0x2b),
{
    let s = texts.flatten();
    lemma_spelled(texts, path);
    assert(path_ends(s, s.len() as int));
    lemma_path_ends(s, s.len() as int);
    assert(s.take(s.len() as int) =~= s);
    if path.contains(PLUS) {
        let j = choose|j: int| 0 <= j < path.len() && path[j] == PLUS;
        assert(path[j] == 0x2b);
    }
}

/// Whether the byte at `j` of a segment is a dot behind which an extension may
/// start: any but the dots that the segment begins with, up to three.
pub open spec fn dot_counts(seg: Seq<u8>, j: int) -> bool {
    &&& 0 <= j < seg.len()
    &&& seg[j] == 0x2e
    &&& j >= 3 || exists|m: int| 0 <= m < j && #[trigger] seg[m] != 0x2e
}

/// Whether `last` is the last dot of a segment that counts, if any does.
pub open spec fn last_dot(seg: Seq<u8>, last: Option<int>) -> bool {
    match last {
        Some(j) => dot_counts(seg, j) && forall|m: int| j < m ==> !dot_counts(seg, m),
        None => forall|m: int| !dot_counts(seg, m),
    }
}

/// An extension starts behind the last dot that counts.
proof fn lemma_extension_starts(seg: Seq<u8>, last: Option<int>)
    requires
        last_dot(seg, last),
    ensures
        extension(seg) == match last {
            Some(j) => Some(j + 1),
            None => None,
        },
    decreases seg.len(),
{
    if seg.len() > 0 {
        let before = seg.drop_last();
        let n = before.len() as int;
        assert forall|m: int| m < n implies #[trigger] dot_counts(before, m) == dot_counts(
            seg,
            m,
        ) by {
            if dot_counts(before, m) && m < 3 {
                let i = choose|i: int| 0 <= i < m && #[trigger] before[i] != 0x2e;
                assert(seg[i] != 0x2e);
            }
            if dot_counts(seg, m) && m < 3 {
                let i = choose|i: int| 0 <= i < m && #[trigger] seg[i] != 0x2e;
                assert(before[i] != 0x2e);
            }
        }
        let counts = seg.last() == DOT && before.len() > 0 && !is_dot(before) && !is_dot_dot(
            before,
        );
        assert(counts == dot_counts(seg, n)) by {
            if counts && n < 3 {
                if n == 1 {
                    assert(seg[0] != 0x2e);
                } else {
                    assert(seg[0] != 0x2e || seg[1] != 0x2e);
                }
            }
            if dot_counts(seg, n) && n < 3 {
                let i = choose|i: int| 0 <= i < n && #[trigger] seg[i] != 0x2e;
                assert(before[i] != 0x2e);
            }
        }
        if !counts {
            assert(last_dot(before, last)) by {
                match last {
                    Some(j) => {
                        assert(dot_counts(before, j));
                        assert forall|m: int| j < m implies !dot_counts(before, m) by {
                            if m < n {
                                assert(!dot_counts(seg, m));
                            }
                        }
                    },
                    None => {
                        assert forall|m: int| !dot_counts(before, m) by {
                            if m < n {
                                assert(!dot_counts(seg, m));
                            }
                        }
                    },
                }
            }
            lemma_extension_starts(before, last);
        } else if let Some(j) = last {
            if j < n {
                assert(!dot_counts(seg, n));
            }
        }
    }
}

/// Directories are written with a slash at the end, and are not empty.
proof fn lemma_dirs_end(dirs: Seq<Seq<u8>>)
    ensures
        dir_bytes(dirs).len() > 0,
        dir_bytes(dirs).last() == SLASH,
{
}

/// Where the extension starts in a written path: `z` is the last slash.
proof fn lemma_ext_offset(lead: Seq<u8>, path: NormalPath, z: int, last: Option<int>)
    requires
        !path.file.contains(SLASH),
        ({
            let bytes = Written::Path(lead, path).bytes();
            &&& 0 <= z < bytes.len()
            &&& bytes[z] == 0x2f
            &&& forall|m: int| z < m < bytes.len() ==> #[trigger] bytes[m] != 0x2f
            &&& last_dot(bytes.skip(z + 1), last)
        }),
    ensures
        ext_offset(Written::Path(lead, path)) == match last {
            Some(j) => Some((z + 1 + j + 1) as usize),
            None => None,
        },
{
    let bytes = Written::Path(lead, path).bytes();
    let y = lead.len() + dir_bytes(path.dirs).len() - 1;
    lemma_dirs_end(path.dirs);
    assert(bytes[y] == dir_bytes(path.dirs).last());
    assert(z == y) by {
        if y < z {
            assert(bytes[z] == path.file[z - y - 1]);
            assert(path.file.contains(SLASH));
        }
    }
    assert(bytes.skip(z + 1) =~= path.file);
    lemma_extension_starts(path.file, last);
}

/// The last segment of a rewritten path holds no slash.
proof fn lemma_file(path: Seq<u8>, merge_slashes: bool, rooted: bool)
    requires
        path.contains(SLASH),
    ensures
        of_decoded(path, merge_slashes, rooted) matches Some(n) ==> n matches Written::Path(
            lead,
            inner,
        ) && !inner.file.contains(SLASH),
{
    let k = slash_from(path, 0);
    lemma_slash_from(path, 0);
    let j = choose|j: int| 0 <= j < path.len() && path[j] == SLASH;
    let w = path.skip(k + 1);
    lemma_segments(w);
    let last = segments(w).last();
    if last.contains(SLASH) {
        let i = choose|i: int| 0 <= i < last.len() && last[i] == SLASH;
        assert(segments(w)[segments(w).len() - 1][i] != SLASH);
    }
}

/// What the second pass notes of the extension: it starts in the written path
/// behind the last dot of the last segment, and ends with the path; the first
/// three dots that the segment begins with do not count. `z` is the last slash
/// of the written path, `last` the dot in what follows.
pub proof fn law_what_is_noted_of_the_extension(
    r: Request,
    texts: Seq<Seq<u8>>,
    path: Seq<u8>,
    z: int,
    last: Option<int>,
    merge_slashes: bool,
)
    requires
        spelling(texts, path),
        path.contains(0x2f),
        result(texts.flatten(), merge_slashes, r.empty_path_in_uri) matches Some(bytes) && {
            &&& bytes.len() <= usize::MAX
            &&& 0 <= z < bytes.len()
            &&& bytes[z] == 0x2f
            &&& forall|m: int| z < m < bytes.len() ==> #[trigger] bytes[m] != 0x2f
            &&& last_dot(bytes.skip(z + 1), last)
        },
    ensures
        ({
            let n = rewrite(texts.flatten(), merge_slashes, r.empty_path_in_uri)->0;
            rewritten(r, texts.flatten(), n).exten == match last {
                Some(j) => NgxStr {
                    len: (n.bytes().len() - (z + 1 + j + 1)) as usize,
                    data: (z + 1 + j + 1) as usize,
                },
                None => r.exten,
            }
        }),
{
    let n = rewrite(texts.flatten(), merge_slashes, r.empty_path_in_uri)->0;
    lemma_spelled_result(texts, path, merge_slashes, r.empty_path_in_uri);
    lemma_file(path, merge_slashes, r.empty_path_in_uri);
    match n {
        Written::Path(lead, inner) => {
            lemma_ext_offset(lead, inner, z, last);
        },
        Written::Name(_) => {},
    }
}

/// In a name without a slash, an extension starts behind the last dot, whatever
/// stands before it.
pub proof fn law_extension_of_a_name(
    r: Request,
    texts: Seq<Seq<u8>>,
    name: Seq<u8>,
    last: Option<int>,
    merge_slashes: bool,
)
    requires
        spelling(texts, name),
        !name.contains(0x2f),
        name.len() + 1 <= usize::MAX,
        match last {
            Some(j) => 0 <= j < name.len() && name[j] == 0x2e && forall|m: int|
                j < m < name.len() ==> #[trigger] name[m] != 0x2e,
            None => forall|m: int| 0 <= m < name.len() ==> #[trigger] name[m] != 0x2e,
        },
    ensures
        rewrite(texts.flatten(), merge_slashes, r.empty_path_in_uri) matches Some(n) && rewritten(
            r,
            texts.flatten(),
            n,
        ).exten == match last {
            Some(j) => {
                let x = j + 1 + (if r.empty_path_in_uri {
                    1int
                } else {
                    0
                });
                NgxStr { len: (name.len() - (j + 1)) as usize, data: x as usize }
            },
            None => r.exten,
        },
{
    let rooted = r.empty_path_in_uri;
    lemma_spelled_result(texts, name, merge_slashes, rooted);
    lemma_slash_from(name, 0);
    if slash_from(name, 0) < name.len() {
        assert(name.contains(name[slash_from(name, 0)]));
    }
    assert(name.take(name.len() as int) =~= name);
    let n = front(rooted).len() as int;
    lemma_name_extension(
        front(rooted) + name,
        match last {
            Some(j) => Some(n + j),
            None => None,
        },
    );
}

/// The extension of a name starts behind its last dot.
proof fn lemma_name_extension(name: Seq<u8>, last: Option<int>)
    requires
        match last {
            Some(j) => 0 <= j < name.len() && name[j] == 0x2e && forall|m: int|
                j < m < name.len() ==> #[trigger] name[m] != 0x2e,
            None => forall|m: int| 0 <= m < name.len() ==> #[trigger] name[m] != 0x2e,
        },
    ensures
        name_extension(name) == match last {
            Some(j) => Some(j + 1),
            None => None,
        },
    decreases name.len(),
{
    if name.len() > 0 && name.last() != DOT {
        lemma_name_extension(name.drop_last(), last);
    }
}

/// What is left of a record when nothing behind `i` can be read.
proof fn lemma_abandoned(r: Request, s: Seq<u8>, merge_slashes: bool, i: int)
    requires
        0 <= i <= path_text(s).len(),
        so_far(path_text(s).take(i), merge_slashes, r.empty_path_in_uri) is Some,
        stuck(s, merge_slashes, r.empty_path_in_uri, i),
    ensures
        readable(path_text(s), path_text(s).len() as int, merge_slashes, r.empty_path_in_uri) == i,
{
    lemma_stuck(s, merge_slashes, r.empty_path_in_uri, i, path_text(s).len() as int);
}

/// What is written so far of a spelled path.
proof fn lemma_so_far(
    texts: Seq<Seq<u8>>,
    read: Seq<u8>,
    merge_slashes: bool,
    rooted: bool,
)
    requires
        spelling(texts, read),
        !ends_in_dots(read),
    ensures
        so_far(texts.flatten(), merge_slashes, rooted) == rewrite(
            texts.flatten(),
            merge_slashes,
            rooted,
        ),
{
    lemma_spelled(texts, read);
    let k = slash_from(read, 0);
    lemma_slash_from(read, 0);
    if k < read.len() {
        let w = read.skip(k + 1);
        let segs = segments(w);
        lemma_segments(w);
        let at = lemma_segment_place(w, segs.len() - 1);
        let seg = segs[segs.len() - 1];
        assert forall|j: int| 0 <= j < seg.len() implies #[trigger] seg[j] == read[k + 1 + at
            + j] by {
            assert(w.subrange(at, at + seg.len())[j] == w[at + j]);
        }
        assert(read[k + at] == 0x2f) by {
            if at > 0 {
                assert(w[at - 1] == read[k + at]);
            }
        }
        if is_dot(seg) {
            assert(seg[0] == 0x2e);
        }
        if is_dot_dot(seg) {
            assert(seg[0] == 0x2e && seg[1] == 0x2e);
        }
    }
}

/// Whether a path ends in a segment `.` or `..` behind a slash.
pub open spec fn ends_in_dots(path: Seq<u8>) -> bool {
    let n = path.len() as int;
    ||| (n >= 2 && path[n - 2] == 0x2f && path[n - 1] == 0x2e)
    ||| (n >= 3 && path[n - 3] == 0x2f && path[n - 2] == 0x2e && path[n - 1] == 0x2e)
}

/// A broken escape stops the reading where it stands.
proof fn lemma_broken_escape(
    texts: Seq<Seq<u8>>,
    read: Seq<u8>,
    behind: Seq<u8>,
    merge_slashes: bool,
    rooted: bool,
)
    requires
        spelling(texts, read),
        behind.len() < 2 || !is_hex(behind[0]) || !is_hex(behind[1]) || (behind[0] == 0x30
            && behind[1] == 0x30),
    ensures
        ({
            let a = texts.flatten();
            let s = a + seq![0x25u8] + behind;
            &&& a.len() < path_text(s).len()
            &&& path_text(s).take(a.len() as int) == a
            &&& stuck(s, merge_slashes, rooted, a.len() as int)
        }),
{
    let a = texts.flatten();
    let i = a.len() as int;
    let s = a + seq![0x25u8] + behind;
    let e = delimiter_from(s, 0);
    let t = path_text(s);
    lemma_spelled(texts, read);
    lemma_delimiter_from(s, 0);
    assert(e > i) by {
        if e < i {
            assert(s[e] == a[e]);
        }
        assert(s[i] == 0x25);
    }
    assert(t.take(i) =~= a);
    assert forall|j: int| i < j <= t.len() implies decode(#[trigger] t.take(j)) is None by {
        let rest = t.take(j).skip(i);
        assert(t.take(j) =~= a + rest);
        assert(rest[0] == s[i]);
        if rest.len() >= 3 {
            assert(rest[1] == behind[0] && rest[2] == behind[1]);
        }
        lemma_decode_append(a, rest);
    }
}

/// Whether a `%` was searched for and seen.
proof fn lemma_percent_seen(s: Seq<u8>, a: Seq<u8>, q: int)
    requires
        a.len() <= q <= s.len(),
        s.take(a.len() as int) == a,
        q <= a.len() + 1,
    ensures
        s.take(q).contains(PERCENT) <==> {
            ||| exists|j: int| 0 <= j < a.len() && #[trigger] a[j] == 0x25
            ||| (q == a.len() + 1 && s[a.len() as int] == 0x25)
        },
{
    let t = s.take(q);
    if t.contains(PERCENT) {
        let j = choose|j: int| 0 <= j < t.len() && t[j] == PERCENT;
        if j < a.len() {
            assert(a[j] == s[j]);
            assert(a[j] == 0x25);
        }
    }
    if exists|j: int| 0 <= j < a.len() && #[trigger] a[j] == 0x25 {
        let j = choose|j: int| 0 <= j < a.len() && #[trigger] a[j] == 0x25;
        assert(a[j] == s[j]);
        assert(t[j] == PERCENT);
    }
    if q == a.len() + 1 && s[a.len() as int] == 0x25 {
        assert(t[a.len() as int] == PERCENT);
    }
}

/// What a broken escape leaves in the record: no result, and what was found in
/// the path before it. The extension is the one of that path; behind a segment
/// of dots alone there is none. The escape itself counts as one if anything
/// stands behind its percent sign. `base` is the path before it, without the
/// dots that it ends in.
pub proof fn law_what_a_broken_escape_leaves(
    r: Request,
    texts: Seq<Seq<u8>>,
    read: Seq<u8>,
    base: Seq<Seq<u8>>,
    x: Seq<u8>,
    behind: Seq<u8>,
    merge_slashes: bool,
)
    requires
        spelling(texts, read),
        spelling(base, x),
        behind.len() < 2 || !is_hex(behind[0]) || !is_hex(behind[1]) || (behind[0] == 0x30
            && behind[1] == 0x30),
        if ends_in_dots(read) {
            x.len() > 0 && x.last() == 0x2f && (read == x + seq![0x2eu8] || read == x + seq![
                0x2eu8,
                0x2e,
            ])
        } else {
            base == texts && x == read
        },
        rewrite(base.flatten(), merge_slashes, r.empty_path_in_uri) is Some,
    ensures
        ({
            let left = abandoned(r, texts.flatten() + seq![0x25u8] + behind, merge_slashes);
            let n = rewrite(base.flatten(), merge_slashes, r.empty_path_in_uri)->0;
            left == Request {
                uri_ext: if ends_in_dots(read) {
                    None
                } else {
                    ext_offset(n)
                },
                args_start: None,
                quoted_uri: r.quoted_uri || behind.len() > 0 || exists|j: int|
                    0 <= j < texts.flatten().len() && #[trigger] texts.flatten()[j] == 0x25,
                plus_in_uri: r.plus_in_uri || exists|j: int|
                    0 <= j < read.len() && #[trigger] read[j] == 0x2b,
                ..r
            }
        }),
{
    let rooted = r.empty_path_in_uri;
    let a = texts.flatten();
    let i = a.len() as int;
    let s = a + seq![0x25u8] + behind;
    lemma_broken_escape(texts, read, behind, merge_slashes, rooted);
    lemma_spelled(texts, read);
    if ends_in_dots(read) {
        lemma_dots_so_far(texts, read, base, x, merge_slashes, rooted);
    } else {
        lemma_so_far(texts, read, merge_slashes, rooted);
    }
    lemma_delimiter_from(s, 0);
    lemma_abandoned(r, s, merge_slashes, i);
    assert(s.take(i) =~= a);
    assert(s[i] == 0x25);
    lemma_percent_seen(s, a, searched(s, i));
    if read.contains(PLUS) {
        let j = choose|j: int| 0 <= j < read.len() && read[j] == PLUS;
        assert(read[j] == 0x2b);
    }
}

/// A path that ends in a segment of dots alone, as it is read so far.
proof fn lemma_dots_so_far(
    texts: Seq<Seq<u8>>,
    read: Seq<u8>,
    base: Seq<Seq<u8>>,
    x: Seq<u8>,
    merge_slashes: bool,
    rooted: bool,
)
    requires
        spelling(texts, read),
        spelling(base, x),
        x.len() > 0,
        x.last() == 0x2f,
        read == x + seq![0x2eu8] || read == x + seq![0x2eu8, 0x2e],
        rewrite(base.flatten(), merge_slashes, rooted) is Some,
    ensures
        so_far(texts.flatten(), merge_slashes, rooted) matches Some(n) && ext_offset(n) is None,
{
    let v = x.drop_last();
    let empty = Seq::<u8>::empty();
    let dots = read.skip(x.len() as int);
    assert(x =~= v + seq![SLASH] + empty);
    assert(read =~= v + seq![SLASH] + dots);
    lemma_spelled(texts, read);
    lemma_spelled_result(base, x, merge_slashes, rooted);
    lemma_under(v, empty, merge_slashes, rooted);
    lemma_behind(v, dots, merge_slashes, rooted);
    reveal_with_fuel(extension, 3);
}

/// What is written so far of a path that ends in a segment without slashes.
proof fn lemma_behind(v: Seq<u8>, seg: Seq<u8>, merge_slashes: bool, rooted: bool)
    requires
        !seg.contains(SLASH),
        under(v, merge_slashes, rooted) is Some,
    ensures
        ({
            let d = v + seq![SLASH] + seg;
            let k = slash_from(d, 0);
            let segs = segments(d.skip(k + 1));
            &&& 0 <= k < d.len()
            &&& d.take(k) == lead_of(v)
            &&& segs.last() == seg
            &&& walk_from(below_root(d.take(k), rooted), segs.drop_last(), merge_slashes) == under(
                v,
                merge_slashes,
                rooted,
            )
        }),
{
    let d = v + seq![SLASH] + seg;
    let k = slash_from(v, 0);
    lemma_slash_from(v, 0);
    lemma_slash_from(d, 0);
    lemma_one_segment(seg);
    assert(d[v.len() as int] == SLASH);
    assert(slash_from(d, 0) == k) by {
        let m = slash_from(d, 0);
        if m < k {
            assert(d[m] == v[m]);
        }
        if k < m && k < v.len() {
            assert(d[k] == v[k]);
        }
    }
    assert(d.take(k) =~= v.take(k));
    if k < v.len() {
        let a = v.skip(k + 1);
        assert(d.skip(k + 1) =~= a.push(SLASH) + seg);
        lemma_segments_at_slash(a, seg);
        assert((segments(a) + seq![seg]).drop_last() =~= segments(a));
    } else {
        assert(v.take(k) =~= v);
        assert(d.skip(k + 1) =~= seg);
        assert(seq![seg].drop_last() =~= Seq::empty());
    }
}

/// Whether `more` begins with what ends a segment: nothing more, a slash or a
/// delimiter, or an escaped slash.
pub open spec fn ends_segment(more: Seq<u8>) -> bool {
    ||| more.len() == 0
    ||| more[0] == 0x2f || more[0] == 0x3f || more[0] == 0x23
    ||| (more.len() >= 3 && more[0] == 0x25 && more[1] == 0x32 && (more[2] == 0x66 || more[2]
        == 0x46))
}

/// What a `..` that leads out of the root leaves in the record: no result, no
/// extension, and what was found of escapes and plus signs before it; of what
/// follows, only the percent sign of an escaped slash directly behind it
/// counts.
pub proof fn law_what_leaving_the_root_leaves(
    r: Request,
    texts: Seq<Seq<u8>>,
    base: Seq<Seq<u8>>,
    x: Seq<u8>,
    more: Seq<u8>,
    merge_slashes: bool,
)
    requires
        x.len() > 0,
        x.last() == 0x2f,
        spelling(texts, x + seq![0x2eu8, 0x2e]),
        spelling(base, x),
        ends_segment(more),
        rewrite(base.flatten(), merge_slashes, r.empty_path_in_uri) is Some,
        rewrite(texts.flatten(), merge_slashes, r.empty_path_in_uri) is None,
    ensures
        rewrite(
            path_text(texts.flatten() + more),
            merge_slashes,
            r.empty_path_in_uri,
        ) is None,
        abandoned(r, texts.flatten() + more, merge_slashes) == (Request {
            uri_ext: None,
            args_start: None,
            quoted_uri: r.quoted_uri || (more.len() > 0 && more[0] == 0x25) || exists|j: int|
                0 <= j < texts.flatten().len() && #[trigger] texts.flatten()[j] == 0x25,
            plus_in_uri: r.plus_in_uri || exists|j: int|
                0 <= j < x.len() && #[trigger] x[j] == 0x2b,
            ..r
        }),
{
    let rooted = r.empty_path_in_uri;
    let up = seq![0x2eu8, 0x2e];
    let read = x + up;
    let v = x.drop_last();
    let empty = Seq::<u8>::empty();
    let a = texts.flatten();
    let i = a.len() as int;
    let s = a + more;
    let t = path_text(s);
    assert(x =~= v + seq![SLASH] + empty);
    assert(read =~= v + seq![SLASH] + up);
    assert(!up.contains(SLASH));
    lemma_spelled(texts, read);
    lemma_spelled_result(texts, read, merge_slashes, rooted);
    lemma_spelled_result(base, x, merge_slashes, rooted);
    lemma_under(v, empty, merge_slashes, rooted);
    lemma_under(v, up, merge_slashes, rooted);
    lemma_one_segment(up);
    let dirs = under(v, merge_slashes, rooted)->0;
    assert(seq![up].drop_last() =~= Seq::empty());
    assert(walk_from(dirs, Seq::empty(), merge_slashes) == Some(dirs));
    assert(dirs.len() == 0);
    lemma_dots_so_far(texts, read, base, x, merge_slashes, rooted);
    lemma_delimiter_from(s, 0);
    let e = delimiter_from(s, 0);
    assert(e >= i) by {
        if e < i {
            assert(s[e] == a[e]);
        }
    }
    assert(t.take(i) =~= a);
    assert(s.take(i) =~= a);
    let slash_len = if more.len() > 0 && more[0] == 0x25 {
        3int
    } else {
        1int
    };
    if more.len() > 0 {
        assert(s[i] == more[0]);
    }
    assert(e > i ==> e >= i + slash_len) by {
        if e > i && slash_len == 3 {
            assert(s[i + 1] == more[1] && s[i + 2] == more[2]);
        }
    }
    lemma_walk_one(dirs, up, merge_slashes);
    assert forall|j: int| i < j <= t.len() implies so_far(
        #[trigger] t.take(j),
        merge_slashes,
        rooted,
    ) is None && rewrite(t.take(j), merge_slashes, rooted) is None by {
        let rest = t.take(j).skip(i);
        assert(t.take(j) =~= a + rest);
        assert(rest[0] == more[0]);
        lemma_decode_append(a, rest);
        if let Some(d) = decode(rest) {
            if slash_len == 3 && rest.len() >= 3 {
                assert(rest[1] == more[1] && rest[2] == more[2]);
                assert(escape_value(rest[1], rest[2]) == Some(SLASH));
            }
            assert(d[0] == SLASH);
            let y = d.skip(1);
            let b = up + seq![SLASH] + y;
            assert(decode(t.take(j))->0 =~= v + seq![SLASH] + b);
            lemma_under(v, b, merge_slashes, rooted);
            lemma_first_segment(up, y);
            lemma_resolve_on(dirs, seq![up], segments(y), merge_slashes);
            lemma_stays_out(v, y, merge_slashes, rooted);
        }
    }
    assert(rewrite(t, merge_slashes, rooted) is None) by {
        assert(t.take(t.len() as int) =~= t);
        if t.len() == i {
            assert(t =~= a);
        }
    }
    assert(stuck(s, merge_slashes, rooted, i));
    lemma_abandoned(r, s, merge_slashes, i);
    lemma_percent_seen(s, a, searched(s, i));
    if read.contains(PLUS) {
        let j = choose|j: int| 0 <= j < read.len() && read[j] == PLUS;
        assert(x[j] == 0x2b);
    }
    if exists|j: int| 0 <= j < x.len() && #[trigger] x[j] == 0x2b {
        let j = choose|j: int| 0 <= j < x.len() && #[trigger] x[j] == 0x2b;
        assert(read[j] == PLUS);
    }
}

/// Behind a way out of the root nothing can be read.
proof fn lemma_stays_out(v: Seq<u8>, y: Seq<u8>, merge_slashes: bool, rooted: bool)
    requires
        under(v, merge_slashes, rooted) matches Some(dirs) && dirs.len() == 0,
    ensures
        ({
            let d = v + seq![SLASH] + (seq![0x2eu8, 0x2e] + seq![SLASH] + y);
            let k = slash_from(d, 0);
            let segs = segments(d.skip(k + 1));
            &&& 0 <= k < d.len()
            &&& walk_from(below_root(d.take(k), rooted), segs.drop_last(), merge_slashes) is None
        }),
{
    let up = seq![0x2eu8, 0x2e];
    let b = up + seq![SLASH] + y;
    let d = v + seq![SLASH] + b;
    let k = slash_from(v, 0);
    let dirs = under(v, merge_slashes, rooted)->0;
    lemma_slash_from(v, 0);
    lemma_slash_from(d, 0);
    assert(!up.contains(SLASH));
    lemma_first_segment(up, y);
    lemma_segments(y);
    assert(d[v.len() as int] == SLASH);
    assert(slash_from(d, 0) == k) by {
        let m = slash_from(d, 0);
        if m < k {
            assert(d[m] == v[m]);
        }
        if k < m && k < v.len() {
            assert(d[k] == v[k]);
        }
    }
    assert(d.take(k) =~= v.take(k));
    lemma_walk_one(dirs, up, merge_slashes);
    let ys = segments(y).drop_last();
    assert(segments(b).drop_last() =~= seq![up] + ys);
    lemma_walk_on(dirs, seq![up], ys, merge_slashes);
    if k < v.len() {
        let a = v.skip(k + 1);
        assert(d.skip(k + 1) =~= a.push(SLASH) + b);
        lemma_segments_at_slash(a, b);
        assert((segments(a) + segments(b)).drop_last() =~= segments(a) + segments(b).drop_last());
        lemma_walk_on(
            below_root(v.take(k), rooted),
            segments(a),
            segments(b).drop_last(),
            merge_slashes,
        );
    } else {
        assert(v.take(k) =~= v);
        assert(d.skip(k + 1) =~= b);
    }
}

} // verus!
