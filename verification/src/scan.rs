//! The first pass: checks a target and finds out whether it must be rewritten.

use crate::chars::{is_forbidden, usual, DOT, HASH, PERCENT, PLUS, QUESTION, SLASH};
use crate::model::{after_slash, opens_dot_or_slash, valid_target};
use crate::request::{ParseError, Request};
use vstd::prelude::*;

verus! {

/// Where the scan is within the target.
#[derive(Clone, Copy, PartialEq, Eq, Structural)]
enum UriState {
    /// Before the first byte.
    Start,
    /// Behind a slash, or behind plus signs that follow one.
    AfterSlash,
    /// Within a segment.
    CheckUri,
    /// Behind the byte that settled how the path is to be treated.
    Uri,
}

/// Whether the byte at `k` settles how the path is to be treated.
pub open spec fn settles(s: Seq<u8>, k: int) -> bool {
    0 <= k < s.len() && (s[k] == QUESTION || s[k] == PERCENT || s[k] == HASH
        || opens_dot_or_slash(s, k))
}

/// The first index at or after `i` whose byte settles the treatment of the
/// path, or the length of `s`.
pub open spec fn settled_from(s: Seq<u8>, i: int) -> int
    decreases s.len() - i,
{
    if i < 0 || i >= s.len() {
        s.len() as int
    } else if settles(s, i) {
        i
    } else {
        settled_from(s, i + 1)
    }
}

/// Where the extension starts that the bytes before `k` end with: behind the
/// last dot, unless a slash follows it.
pub open spec fn scanned_ext(s: Seq<u8>, k: int, start: Option<usize>) -> Option<usize>
    decreases k,
{
    if k <= 1 {
        start
    } else if s[k - 1] == SLASH {
        None
    } else if s[k - 1] == DOT {
        Some(k as usize)
    } else {
        scanned_ext(s, k - 1, start)
    }
}

/// Whether the byte at `i` makes the scan fail.
pub open spec fn is_refused(s: Seq<u8>, i: int) -> bool {
    (i == 0 && s[i] != SLASH) || is_forbidden(s[i])
}

/// The first index at or after `i` whose byte makes the scan fail, or the
/// length of `s`.
pub open spec fn refused_from(s: Seq<u8>, i: int) -> int
    decreases s.len() - i,
{
    if i < 0 || i >= s.len() {
        s.len() as int
    } else if is_refused(s, i) {
        i
    } else {
        refused_from(s, i + 1)
    }
}

/// The record after the first `p` bytes of `s` were scanned without an error.
pub open spec fn scanned(r: Request, s: Seq<u8>, p: int) -> Request {
    let k = settled_from(s, 1);
    let stop = if k < p { k } else { p };
    Request {
        uri_ext: scanned_ext(s, stop, r.uri_ext),
        args_start: if k < p && s[k] == QUESTION { Some((k + 1) as usize) } else { r.args_start },
        complex_uri: r.complex_uri || s.take(p).contains(HASH) || (k < p && (s[k] == DOT || s[k]
            == SLASH)),
        quoted_uri: r.quoted_uri || (k < p && s[k] == PERCENT),
        plus_in_uri: r.plus_in_uri || s.take(stop).contains(PLUS),
        ..r
    }
}

/// The state of the scan after `p` bytes.
spec fn expected_state(s: Seq<u8>, p: int) -> UriState {
    if p == 0 {
        UriState::Start
    } else if settled_from(s, 1) < p {
        UriState::Uri
    } else if after_slash(s, p) {
        UriState::AfterSlash
    } else {
        UriState::CheckUri
    }
}

/// A settling byte found from `i` on is the first one there.
pub proof fn lemma_settled_from(s: Seq<u8>, i: int)
    requires
        0 <= i <= s.len(),
    ensures
        i <= settled_from(s, i) <= s.len(),
        forall|j: int| i <= j < settled_from(s, i) ==> !settles(s, j),
        settled_from(s, i) < s.len() ==> settles(s, settled_from(s, i)),
    decreases s.len() - i,
{
    if i < s.len() && !settles(s, i) {
        lemma_settled_from(s, i + 1);
    }
}

/// A refused byte found from `i` on is the first one there.
pub proof fn lemma_refused_from(s: Seq<u8>, i: int)
    requires
        0 <= i <= s.len(),
    ensures
        i <= refused_from(s, i) <= s.len(),
        forall|j: int| i <= j < refused_from(s, i) ==> !is_refused(s, j),
        refused_from(s, i) < s.len() ==> is_refused(s, refused_from(s, i)),
    decreases s.len() - i,
{
    if i < s.len() && !is_refused(s, i) {
        lemma_refused_from(s, i + 1);
    }
}

/// How one byte changes what the scan knows.
proof fn lemma_scan_step(s: Seq<u8>, p: int)
    requires
        0 <= p < s.len(),
    ensures
        1 <= settled_from(s, 1) <= s.len(),
        p >= 1 && settled_from(s, 1) >= p ==> (settled_from(s, 1) == p <==> settles(s, p)),
        s.take(p + 1) =~= s.take(p).push(s[p]),
        forall|b: u8| #[trigger] s.take(p + 1).contains(b) <==> s.take(p).contains(b) || s[p] == b,
{
    lemma_settled_from(s, 1);
    assert(s.take(p + 1) =~= s.take(p).push(s[p]));
    assert forall|b: u8| #[trigger]
        s.take(p + 1).contains(b) <==> s.take(p).contains(b) || s[p] == b by {
        if s.take(p).contains(b) {
            let j = choose|j: int| 0 <= j < p && s.take(p)[j] == b;
            assert(s.take(p + 1)[j] == b);
        }
        if s[p] == b {
            assert(s.take(p + 1)[p] == b);
        }
        if s.take(p + 1).contains(b) {
            let longer = s.take(p + 1);
            let j = choose|j: int| 0 <= j < longer.len() && longer[j] == b;
            if j < p {
                assert(s.take(p)[j] == b);
            }
        }
    }
}

/// Scans the whole target in `buf` and notes in `r` how it is to be treated.
///
/// Fails where the first byte is no slash or a byte is forbidden. The record
/// then tells what was found before that byte.
pub fn ngx_http_parse_uri(r: &mut Request, buf: &[u8]) -> (res: Result<(), ParseError>)
    ensures
        res is Ok <==> (buf@.len() == 0 || valid_target(buf@)),
        res is Ok <==> refused_from(buf@, 0) == buf@.len(),
        res is Ok <==> {
            &&& buf@.len() > 0 ==> buf@[0] == 0x2f
            &&& forall|i: int| 0 <= i < buf@.len() ==> #[trigger] buf@[i] > 0x20 && buf@[i] != 0x7f
        },
        *final(r) == scanned(*old(r), buf@, refused_from(buf@, 0)),
        buf@.len() == 0 || buf@[0] != SLASH ==> *final(r) == *old(r),
        final(r).uri == old(r).uri,
        final(r).args == old(r).args,
        final(r).exten == old(r).exten,
        final(r).empty_path_in_uri == old(r).empty_path_in_uri,
        old(r).complex_uri ==> final(r).complex_uri,
        old(r).quoted_uri ==> final(r).quoted_uri,
        old(r).plus_in_uri ==> final(r).plus_in_uri,
{
    let uri_end = buf.len();
    let mut state = UriState::Start;
    let mut p: usize = 0;
    proof {
        assert(buf@.take(0) =~= Seq::empty());
        if buf@.len() > 0 {
            lemma_settled_from(buf@, 1);
        }
    }
    while p < uri_end
        invariant
            uri_end == buf@.len(),
            p <= uri_end,
            forall|i: int| 0 <= i < p ==> !is_forbidden(#[trigger] buf@[i]),
            p > 0 ==> buf@[0] == SLASH,
            refused_from(buf@, p as int) == refused_from(buf@, 0),
            state == expected_state(buf@, p as int),
            *r == scanned(*old(r), buf@, p as int),
        decreases uri_end - p,
    {
        let ch = buf[p];
        proof {
            lemma_scan_step(buf@, p as int);
        }
        match state {
            UriState::Start => {
                if ch != SLASH {
                    return Err(ParseError);
                }
                state = UriState::AfterSlash;
            },
            UriState::AfterSlash => {
                if usual(ch) {
                    state = UriState::CheckUri;
                } else if ch == DOT || ch == SLASH || ch == HASH {
                    r.complex_uri = true;
                    state = UriState::Uri;
                } else if ch == PERCENT {
                    r.quoted_uri = true;
                    state = UriState::Uri;
                } else if ch == QUESTION {
                    r.args_start = Some(p + 1);
                    state = UriState::Uri;
                } else if ch == PLUS {
                    r.plus_in_uri = true;
                } else {
                    return Err(ParseError);
                }
            },
            UriState::CheckUri => {
                if usual(ch) {
                } else if ch == SLASH {
                    r.uri_ext = None;
                    state = UriState::AfterSlash;
                } else if ch == DOT {
                    r.uri_ext = Some(p + 1);
                } else if ch == PERCENT {
                    r.quoted_uri = true;
                    state = UriState::Uri;
                } else if ch == QUESTION {
                    r.args_start = Some(p + 1);
                    state = UriState::Uri;
                } else if ch == HASH {
                    r.complex_uri = true;
                    state = UriState::Uri;
                } else if ch == PLUS {
                    r.plus_in_uri = true;
                } else {
                    return Err(ParseError);
                }
            },
            UriState::Uri => {
                if usual(ch) {
                } else if ch == HASH {
                    r.complex_uri = true;
                } else if ch <= 0x20 || ch == 0x7f {
                    return Err(ParseError);
                }
            },
        }
        p = p + 1;
    }
    Ok(())
}

} // verus!
