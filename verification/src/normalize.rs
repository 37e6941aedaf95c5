//! The second pass: decodes the path of a target and resolves its segments.

use crate::chars::{DOT, HASH, PERCENT, PLUS, QUESTION, SLASH};
use crate::lemmas::{lemma_delimiter_from, lemma_hash_from};
use crate::model::{
    before_root, decode, delimiter_from, dir_bytes, enter, escape_value, front, hash_from,
    hex_value, is_delimiter, is_dot, is_dot_dot, path_text, readable, rewrite, so_far, Written,
};
use crate::progress::{
    lemma_bad_escape, lemma_bounds, lemma_close, lemma_descend, lemma_drop_dot, lemma_enter,
    lemma_last_directory, lemma_leaves_root, lemma_lengthen, lemma_reached, lemma_read_all,
    lemma_start, lemma_stuck, on_track, stuck, token, Progress,
};
use crate::request::{NgxStr, ParseError, Request};
use vstd::prelude::*;

verus! {

/// What has been read of the current segment.
#[derive(Clone, Copy, PartialEq, Eq, Structural)]
enum State {
    /// Something other than dots alone.
    Usual,
    /// Nothing yet.
    Slash,
    /// One dot.
    Dot,
    /// Two dots.
    DotDot,
    /// A `%`.
    Quoted,
    /// A `%` and the first digit.
    QuotedSecond,
}

/// The byte at `p`, or a line feed behind the end.
spec fn sentinel(s: Seq<u8>, p: int) -> u8 {
    if 0 <= p < s.len() {
        s[p]
    } else {
        0x0a
    }
}

/// Reads the byte at `p`, or a line feed behind the end.
#[inline(always)]
fn read_with_lf_sentinel(buf: &[u8], p: usize) -> (ch: u8)
    ensures
        ch == sentinel(buf@, p as int),
{
    if p < buf.len() {
        buf[p]
    } else {
        0x0a
    }
}

/// The value of a hexadecimal digit of either case.
fn hex_digit(ch: u8) -> (res: Option<u8>)
    ensures
        res == hex_value(ch),
        res matches Some(value) ==> value < 16,
        0x30 <= ch <= 0x39 ==> res == Some((ch - 0x30) as u8),
        0x41 <= ch <= 0x46 ==> res == Some((ch - 0x37) as u8),
        0x61 <= ch <= 0x66 ==> res == Some((ch - 0x57) as u8),
        res is Some ==> 0x30 <= ch <= 0x39 || 0x41 <= ch <= 0x46 || 0x61 <= ch <= 0x66,
{
    if 0x30 <= ch && ch <= 0x39 {
        Some(ch - 0x30)
    } else {
        let c = ch | 0x20;
        assert(0x61 <= c <= 0x66 <==> (0x41 <= ch <= 0x46 || 0x61 <= ch <= 0x66)) by (bit_vector)
            requires
                c == ch | 0x20,
        ;
        assert(0x41 <= ch <= 0x46 ==> c == ch + 0x20) by (bit_vector)
            requires
                c == ch | 0x20,
        ;
        assert(0x61 <= ch <= 0x66 ==> c == ch) by (bit_vector)
            requires
                c == ch | 0x20,
        ;
        if 0x61 <= c && c <= 0x66 {
            Some(c - 0x61 + 10)
        } else {
            None
        }
    }
}

/// Where the extension of a segment starts: behind its last dot, where the
/// leading dots that make `.` or `..` do not count.
pub open spec fn extension(seg: Seq<u8>) -> Option<int>
    decreases seg.len(),
{
    if seg.len() == 0 {
        None
    } else {
        let before = seg.drop_last();
        if seg.last() == DOT && before.len() > 0 && !is_dot(before) && !is_dot_dot(before) {
            Some(seg.len() as int)
        } else {
            extension(before)
        }
    }
}

/// Where the extension of a name starts that stands before any slash: behind
/// its last dot.
pub open spec fn name_extension(name: Seq<u8>) -> Option<int>
    decreases name.len(),
{
    if name.len() == 0 {
        None
    } else if name.last() == DOT {
        Some(name.len() as int)
    } else {
        name_extension(name.drop_last())
    }
}

/// The offset in what is written at which the extension starts.
pub open spec fn ext_offset(n: Written) -> Option<usize> {
    match n {
        Written::Name(name) => match name_extension(name) {
            Some(x) => Some(x as usize),
            None => None,
        },
        Written::Path(lead, path) => match extension(path.file) {
            Some(x) => Some((lead.len() + dir_bytes(path.dirs).len() + x) as usize),
            None => None,
        },
    }
}

/// The record once the path of length `u` is complete. Where the extension
/// were to start behind `u`, its length wraps around.
pub open spec fn completed(r: Request, u: usize) -> Request {
    Request {
        uri: NgxStr { len: u, ..r.uri },
        exten: match r.uri_ext {
            Some(ext) => NgxStr { len: u.wrapping_sub(ext), data: ext },
            None => r.exten,
        },
        uri_ext: None,
        ..r
    }
}

/// The record once the target was searched from `from` on for the `#` that
/// ends the query. The query starts where the record says.
pub open spec fn query_ended(r: Request, s: Seq<u8>, from: int) -> Request {
    let h = hash_from(s, from);
    match r.args_start {
        Some(a) => if h < s.len() {
            Request {
                args: NgxStr { len: (h as usize).wrapping_sub(a), data: a },
                args_start: None,
                ..r
            }
        } else {
            r
        },
        None => r,
    }
}

/// The record after the path was found to be written as `n`.
pub open spec fn rewritten(r: Request, s: Seq<u8>, n: Written) -> Request {
    let e = delimiter_from(s, 0);
    let asks = e < s.len() && s[e] == QUESTION;
    let read = Request {
        uri_ext: ext_offset(n),
        args_start: if asks { Some((e + 1) as usize) } else { None },
        quoted_uri: r.quoted_uri || path_text(s).contains(PERCENT),
        plus_in_uri: r.plus_in_uri || decode(path_text(s))->0.contains(PLUS),
        ..r
    };
    completed(
        if asks { query_ended(read, s, e + 1) } else { read },
        n.bytes().len() as usize,
    )
}

/// How many bytes were searched for `%` once the reading stopped at `i`. A
/// `%` there counts if a byte stands behind it.
pub open spec fn searched(s: Seq<u8>, i: int) -> int {
    if i + 1 < s.len() && s[i] == PERCENT {
        i + 1
    } else {
        i
    }
}

/// The record after the path was given up: it holds what was found in the part
/// of the path text that could be read, and no result.
pub open spec fn abandoned(r: Request, s: Seq<u8>, merge_slashes: bool) -> Request {
    let t = path_text(s);
    let i = readable(t, t.len() as int, merge_slashes, r.empty_path_in_uri);
    Request {
        uri_ext: ext_offset(so_far(t.take(i), merge_slashes, r.empty_path_in_uri)->0),
        args_start: None,
        quoted_uri: r.quoted_uri || s.take(searched(s, i)).contains(PERCENT),
        plus_in_uri: r.plus_in_uri || decode(t.take(i))->0.contains(PLUS),
        ..r
    }
}

/// Notes that the path is complete.
pub fn finish_done(r: &mut Request, u: usize) -> (res: Result<(), ParseError>)
    ensures
        res is Ok,
        *final(r) == completed(*old(r), u),
        final(r).uri.len == u,
        final(r).uri.data == old(r).uri.data,
        final(r).uri_ext is None,
        match old(r).uri_ext {
            Some(ext) => final(r).exten.data == ext && final(r).exten.len == u.wrapping_sub(ext),
            None => final(r).exten == old(r).exten,
        },
        final(r).args == old(r).args,
        final(r).args_start == old(r).args_start,
        final(r).complex_uri == old(r).complex_uri,
        final(r).quoted_uri == old(r).quoted_uri,
        final(r).plus_in_uri == old(r).plus_in_uri,
        final(r).empty_path_in_uri == old(r).empty_path_in_uri,
{
    r.uri.len = u;
    if let Some(ext) = r.uri_ext {
        r.exten.len = u.wrapping_sub(ext);
        r.exten.data = ext;
    }
    r.uri_ext = None;
    Ok(())
}

/// The first `#` is where it is found.
proof fn lemma_first_hash(s: Seq<u8>, start: int)
    requires
        0 <= start,
    ensures
        forall|h: int|
            start <= h < s.len() && #[trigger] s[h] == 0x23 && (forall|j: int|
                start <= j < h ==> #[trigger] s[j] != 0x23) ==> hash_from(s, start) == h,
        (forall|j: int| start <= j < s.len() ==> #[trigger] s[j] != 0x23) ==> hash_from(s, start)
            == s.len(),
{
    if start <= s.len() {
        lemma_hash_from(s, start);
        let m = hash_from(s, start);
        assert forall|h: int|
            start <= h < s.len() && #[trigger] s[h] == 0x23 && (forall|j: int|
                start <= j < h ==> #[trigger] s[j] != 0x23) implies m == h by {
            if m < h {
                assert(s[m] != 0x23);
            }
        }
    }
}

/// Notes that the path is complete, and where the query behind it ends: at
/// the first `#` from `start` on. A query must have been noted where there is
/// one.
pub fn finish_args(r: &mut Request, buf: &[u8], u: usize, start: usize) -> (res: Result<
    (),
    ParseError,
>)
    requires
        old(r).args_start is None ==> hash_from(buf@, start as int) >= buf@.len(),
    ensures
        res is Ok,
        *final(r) == completed(query_ended(*old(r), buf@, start as int), u),
        final(r).uri.len == u,
        final(r).uri.data == old(r).uri.data,
        final(r).uri_ext is None,
        match old(r).uri_ext {
            Some(ext) => final(r).exten.data == ext && final(r).exten.len == u.wrapping_sub(ext),
            None => final(r).exten == old(r).exten,
        },
        forall|h: int|
            start <= h < buf@.len() && #[trigger] buf@[h] == 0x23 && (forall|j: int|
                start <= j < h ==> #[trigger] buf@[j] != 0x23) ==> {
                &&& old(r).args_start matches Some(a)
                &&& final(r).args.data == a
                &&& final(r).args.len == (h as usize).wrapping_sub(a)
                &&& final(r).args_start is None
            },
        (forall|j: int| start <= j < buf@.len() ==> #[trigger] buf@[j] != 0x23) ==> final(r).args
            == old(r).args && final(r).args_start == old(r).args_start,
        final(r).complex_uri == old(r).complex_uri,
        final(r).quoted_uri == old(r).quoted_uri,
        final(r).plus_in_uri == old(r).plus_in_uri,
        final(r).empty_path_in_uri == old(r).empty_path_in_uri,
{
    proof {
        lemma_first_hash(buf@, start as int);
    }
    let uri_end = buf.len();
    let mut p: usize = start;
    while p < uri_end
        invariant_except_break
            uri_end == buf@.len(),
            hash_from(buf@, p as int) == hash_from(buf@, start as int),
            *r == *old(r),
        invariant
            old(r).args_start is None ==> hash_from(buf@, start as int) >= buf@.len(),
        ensures
            *r == query_ended(*old(r), buf@, start as int),
        decreases uri_end - p,
    {
        if buf[p] == HASH {
            if let Some(args_start) = r.args_start {
                r.args.len = p.wrapping_sub(args_start);
                r.args.data = args_start;
                r.args_start = None;
            }
            break;
        }
        p = p + 1;
    }
    finish_done(r, u)
}

/// The index of the last slash in the first `end` bytes.
fn last_slash(out: &[u8], end: usize) -> (res: Option<usize>)
    requires
        end <= out@.len(),
    ensures
        match res {
            Some(i) => i < end && out@[i as int] == SLASH && forall|j: int|
                i < j < end ==> #[trigger] out@[j] != SLASH,
            None => forall|j: int| 0 <= j < end ==> #[trigger] out@[j] != SLASH,
        },
{
    let mut i: usize = end;
    while i > 0
        invariant
            i <= end <= out@.len(),
            forall|j: int| i <= j < end ==> #[trigger] out@[j] != SLASH,
        decreases i,
    {
        i = i - 1;
        if out[i] == SLASH {
            return Some(i);
        }
    }
    None
}

/// The length of the output once the segment `..` at its end, which ends at
/// `u`, and the directory before it are cut off.
fn leave_directory(
    out: &[u8],
    u: usize,
    Ghost(s): Ghost<Seq<u8>>,
    Ghost(merge_slashes): Ghost<bool>,
    Ghost(rooted): Ghost<bool>,
    Ghost(g): Ghost<Progress>,
) -> (res: Result<usize, ParseError>)
    requires
        on_track(s, merge_slashes, rooted, g, out@, u as int),
        g.deep,
        is_dot_dot(g.cur),
    ensures
        match res {
            Ok(n) => g.dirs.len() > 0 && n <= u && out@.take(n as int) == before_root(
                g.lead,
                rooted,
            ) + dir_bytes(g.dirs.drop_last()),
            Err(_) => g.dirs.len() == 0,
        },
{
    proof {
        reveal(on_track);
        let outer = before_root(g.lead, rooted);
        lemma_last_directory(out@, u as int, outer, g.dirs, g.cur);
        if g.dirs.len() > 0 {
            let n = outer.len() + dir_bytes(g.dirs.drop_last()).len() as int;
            assert(out@[n - 1] == SLASH);
        }
    }
    if u < 4 {
        return Err(ParseError);
    }
    match last_slash(out, u - 3) {
        Some(i) => Ok(i + 1),
        None => Err(ParseError),
    }
}

/// The state that belongs to what was read: before the first slash, dots mean
/// nothing.
spec fn state_of(g: Progress) -> State {
    if !g.deep {
        State::Usual
    } else if g.cur.len() == 0 {
        State::Slash
    } else if is_dot(g.cur) {
        State::Dot
    } else if is_dot_dot(g.cur) {
        State::DotDot
    } else {
        State::Usual
    }
}

/// The record while the path is being read: `q` bytes were searched for `%`,
/// and a plus sign was read or is `pending`.
#[verifier::opaque]
spec fn noted(r: Request, s: Seq<u8>, g: Progress, q: int, pending: bool) -> Request {
    Request {
        uri_ext: ext_offset(g.written(r.empty_path_in_uri)),
        args_start: None,
        quoted_uri: r.quoted_uri || s.take(q).contains(PERCENT),
        plus_in_uri: r.plus_in_uri || g.read().contains(PLUS) || pending,
        ..r
    }
}

/// What the variables of the loop hold before each round. Behind a complete
/// escape (`escaped`), `ch` is the byte that it stands for; else `ch` is the
/// byte at `p`.
spec fn in_step(
    s: Seq<u8>,
    r0: Request,
    r: Request,
    g: Progress,
    p: int,
    ch: u8,
    state: State,
    quoted_state: State,
    decoded: u8,
    escaped: bool,
) -> bool {
    match state {
        State::Quoted => {
            &&& g.i + 1 == p
            &&& s[g.i] == PERCENT
            &&& ch == sentinel(s, p)
            &&& quoted_state == state_of(g)
            &&& r == noted(r0, s, g, g.i, false)
        },
        State::QuotedSecond => {
            &&& g.i + 2 == p
            &&& s[g.i] == PERCENT
            &&& hex_value(s[g.i + 1]) == Some(decoded)
            &&& ch == sentinel(s, p)
            &&& quoted_state == state_of(g)
            &&& r == noted(r0, s, g, g.i + 1, false)
        },
        _ => {
            &&& state == state_of(g)
            &&& if escaped {
                &&& g.i + 2 == p
                &&& p < s.len()
                &&& s[g.i] == PERCENT
                &&& token(s, g.i, p + 1, ch)
                &&& ch != PERCENT && ch != QUESTION && ch != HASH
                &&& r == noted(r0, s, g, g.i + 1, ch == PLUS)
            } else {
                &&& g.i == p
                &&& ch == sentinel(s, p)
                &&& r == noted(r0, s, g, g.i, false)
            }
        },
    }
}

/// Whether a `%` or a plus sign was read, after one more byte.
proof fn lemma_seen(s: Seq<u8>, read: Seq<u8>, i: int, next: int, b: u8)
    requires
        token(s, i, next, b),
    ensures
        s.take(next).contains(PERCENT) == (s.take(i).contains(PERCENT) || s[i] == PERCENT),
        s.take(i + 1).contains(PERCENT) == (s.take(i).contains(PERCENT) || s[i] == PERCENT),
        read.push(b).contains(PLUS) == (read.contains(PLUS) || b == PLUS),
{
    let a = s.take(i);
    let c = s.take(next);
    if a.contains(PERCENT) {
        let j = choose|j: int| 0 <= j < a.len() && a[j] == PERCENT;
        assert(c[j] == PERCENT);
        assert(s.take(i + 1)[j] == PERCENT);
    }
    if s[i] == PERCENT {
        assert(c[i] == PERCENT);
        assert(s.take(i + 1)[i] == PERCENT);
    } else {
        assert(c =~= a.push(s[i]));
        assert(s.take(i + 1) =~= c);
        if c.contains(PERCENT) {
            let j = choose|j: int| 0 <= j < c.len() && c[j] == PERCENT;
            assert(a[j] == PERCENT);
        }
    }
    let longer = read.push(b);
    if read.contains(PLUS) {
        let j = choose|j: int| 0 <= j < read.len() && read[j] == PLUS;
        assert(longer[j] == PLUS);
    }
    if b == PLUS {
        assert(longer[read.len() as int] == PLUS);
    }
    if longer.contains(PLUS) && b != PLUS {
        let j = choose|j: int| 0 <= j < longer.len() && longer[j] == PLUS;
        assert(read[j] == PLUS);
    }
}

/// The record before a byte or escape is taken over: in front of a byte, or
/// behind the `%` of an escape whose byte is known.
spec fn may_take(s: Seq<u8>, g: Progress, q: int, pending: bool, next: int, b: u8) -> bool {
    &&& token(s, g.i, next, b)
    &&& if s[g.i] == PERCENT {
        q == g.i + 1 && pending == (b == PLUS)
    } else {
        q == g.i && !pending
    }
}

/// How taking over a byte that is no slash changes the record.
proof fn lemma_note_byte(
    r0: Request,
    s: Seq<u8>,
    g: Progress,
    q: int,
    pending: bool,
    next: int,
    b: u8,
)
    requires
        may_take(s, g, q, pending, next, b),
        b != SLASH,
    ensures
        ({
            let r = noted(r0, s, g, q, pending);
            noted(r0, s, g.lengthened(next, b), next, false) == Request {
                uri_ext: if b == DOT && state_of(g) == State::Usual {
                    Some((g.written(r0.empty_path_in_uri).bytes().len() + 1) as usize)
                } else {
                    r.uri_ext
                },
                plus_in_uri: r.plus_in_uri || b == PLUS,
                ..r
            }
        }),
{
    let rooted = r0.empty_path_in_uri;
    let name = front(rooted) + g.lead;
    reveal(noted);
    lemma_seen(s, g.read(), g.i, next, b);
    assert(g.lengthened(next, b).read() =~= g.read().push(b));
    assert(g.cur.push(b).drop_last() =~= g.cur);
    assert(front(rooted) + g.lead.push(b) =~= name.push(b));
    assert(name.push(b).drop_last() =~= name);
    reveal_with_fuel(extension, 3);
}

/// How a slash changes the record: the next segment has no extension yet.
proof fn lemma_note_slash(
    r0: Request,
    s: Seq<u8>,
    g: Progress,
    q: int,
    pending: bool,
    next: int,
    dirs: Seq<Seq<u8>>,
)
    requires
        may_take(s, g, q, pending, next, SLASH),
    ensures
        ({
            let rooted = r0.empty_path_in_uri;
            let r = noted(r0, s, g, q, pending);
            let after = if g.deep {
                g.entered(next, dirs)
            } else {
                g.descended(next, rooted)
            };
            &&& noted(r0, s, after, next, false) == Request { uri_ext: None, ..r }
            &&& state_of(g) != State::Usual ==> r.uri_ext is None
        }),
{
    reveal(noted);
    lemma_seen(s, g.read(), g.i, next, SLASH);
    if g.deep {
        assert(g.entered(next, dirs).read() =~= g.read().push(SLASH));
    } else {
        assert(g.descended(next, r0.empty_path_in_uri).read() =~= g.read().push(SLASH));
    }
    reveal_with_fuel(extension, 3);
}

/// How reading a `%`, and then the byte that its escape stands for, changes
/// the record.
proof fn lemma_note_escape(r0: Request, s: Seq<u8>, g: Progress)
    requires
        0 <= g.i < s.len(),
        s[g.i] == PERCENT,
    ensures
        noted(r0, s, g, g.i + 1, false) == (Request {
            quoted_uri: true,
            ..noted(r0, s, g, g.i, false)
        }),
        noted(r0, s, g, g.i + 1, true) == (Request {
            plus_in_uri: true,
            ..noted(r0, s, g, g.i + 1, false)
        }),
{
    reveal(noted);
    assert(s.take(g.i + 1)[g.i] == PERCENT);
}

/// The record before anything was read.
proof fn lemma_note_nothing(r0: Request, s: Seq<u8>)
    ensures
        noted(r0, s, Progress::fresh(), 0, false) == (Request {
            uri_ext: None,
            args_start: None,
            ..r0
        }),
{
    let front = front(r0.empty_path_in_uri);
    reveal(noted);
    assert(s.take(0) =~= Seq::empty());
    assert(front + Seq::<u8>::empty() =~= front);
    reveal_with_fuel(name_extension, 3);
    assert(front.len() > 0 ==> front.drop_last() =~= Seq::empty());
}

/// What the pass promises: `r` is what the record `r0` has become, and `out`
/// holds the path where `ok`.
#[verifier::opaque]
spec fn settled(
    r0: Request,
    s: Seq<u8>,
    merge_slashes: bool,
    r: Request,
    out: Seq<u8>,
    ok: bool,
) -> bool {
    match rewrite(path_text(s), merge_slashes, r0.empty_path_in_uri) {
        Some(n) => {
            &&& ok
            &&& r == rewritten(r0, s, n)
            &&& n.bytes().len() <= s.len() + front(r0.empty_path_in_uri).len()
            &&& out.take(n.bytes().len() as int) == n.bytes()
        },
        None => {
            &&& !ok
            &&& r == abandoned(r0, s, merge_slashes)
        },
    }
}

/// The record once the path text and what ends it are read, but for the
/// length of the path.
spec fn ended(r0: Request, s: Seq<u8>, g: Progress) -> Request {
    let r = noted(r0, s, g, g.i, false);
    if g.i < s.len() && s[g.i] == QUESTION {
        query_ended(Request { args_start: Some((g.i + 1) as usize), ..r }, s, g.i + 1)
    } else {
        r
    }
}

/// Once the path text is read, the first `n` bytes of the output are the path.
proof fn lemma_done(
    s: Seq<u8>,
    merge_slashes: bool,
    r0: Request,
    g: Progress,
    out: Seq<u8>,
    u: int,
    n: usize,
)
    requires
        on_track(s, merge_slashes, r0.empty_path_in_uri, g, out, u),
        g.i == s.len() || is_delimiter(s[g.i]),
        n <= u,
        if state_of(g) == State::Dot || state_of(g) == State::DotDot {
            enter(g.dirs, g.cur, merge_slashes) matches Some(inner) && out.take(n as int)
                == before_root(g.lead, r0.empty_path_in_uri) + dir_bytes(inner)
        } else {
            n == u
        },
    ensures
        settled(r0, s, merge_slashes, completed(ended(r0, s, g), n), out, true),
{
    let rooted = r0.empty_path_in_uri;
    reveal(on_track);
    reveal(noted);
    reveal(settled);
    lemma_delimiter_from(s, g.i);
    lemma_read_all(s, merge_slashes, rooted, g);
    reveal_with_fuel(extension, 3);
    assert(out.take(u).len() == u);
    assert(out.take(n as int).len() == n);
    if let Some(inner) = enter(g.dirs, g.cur, merge_slashes) {
        assert(dir_bytes(inner) + Seq::<u8>::empty() =~= dir_bytes(inner));
    }
}

/// Where no more can be read and the path cannot be rewritten, the reading
/// stops without a result.
proof fn lemma_stopped(
    s: Seq<u8>,
    merge_slashes: bool,
    r0: Request,
    g: Progress,
    out: Seq<u8>,
    u: int,
)
    requires
        on_track(s, merge_slashes, r0.empty_path_in_uri, g, out, u),
        stuck(s, merge_slashes, r0.empty_path_in_uri, g.i),
        rewrite(path_text(s), merge_slashes, r0.empty_path_in_uri) is None,
    ensures
        settled(
            r0,
            s,
            merge_slashes,
            noted(r0, s, g, searched(s, g.i), false),
            out,
            false,
        ),
{
    let rooted = r0.empty_path_in_uri;
    reveal(on_track);
    reveal(noted);
    reveal(settled);
    lemma_reached(s, merge_slashes, rooted, g);
    lemma_stuck(s, merge_slashes, rooted, g.i, path_text(s).len() as int);
}

/// A `%` that opens no escape stops the reading.
proof fn lemma_stopped_by_escape(
    s: Seq<u8>,
    merge_slashes: bool,
    r0: Request,
    g: Progress,
    out: Seq<u8>,
    u: int,
)
    requires
        on_track(s, merge_slashes, r0.empty_path_in_uri, g, out, u),
        0 <= g.i < s.len(),
        s[g.i] == PERCENT,
        g.i + 2 < s.len() ==> escape_value(s[g.i + 1], s[g.i + 2]) is None,
    ensures
        settled(
            r0,
            s,
            merge_slashes,
            noted(r0, s, g, searched(s, g.i), false),
            out,
            false,
        ),
{
    lemma_bad_escape(s, merge_slashes, r0.empty_path_in_uri, g, out, u);
    lemma_stopped(s, merge_slashes, r0, g, out, u);
}

/// A `..` that leads out of the root stops the reading, where a slash or the
/// end of the path text stands behind it.
proof fn lemma_stopped_at_root(
    s: Seq<u8>,
    merge_slashes: bool,
    r0: Request,
    g: Progress,
    out: Seq<u8>,
    u: int,
    next: int,
)
    requires
        on_track(s, merge_slashes, r0.empty_path_in_uri, g, out, u),
        g.deep,
        is_dot_dot(g.cur),
        g.dirs.len() == 0,
        token(s, g.i, next, SLASH) || g.i == s.len() || is_delimiter(s[g.i]),
    ensures
        settled(
            r0,
            s,
            merge_slashes,
            noted(r0, s, g, searched(s, g.i), false),
            out,
            false,
        ),
{
    let rooted = r0.empty_path_in_uri;
    if token(s, g.i, next, SLASH) {
        lemma_leaves_root(s, merge_slashes, rooted, g, out, u, next);
    } else {
        reveal(on_track);
        lemma_delimiter_from(s, g.i);
        lemma_read_all(s, merge_slashes, rooted, g);
    }
    lemma_stopped(s, merge_slashes, r0, g, out, u);
}

/// Joining two digits by a shift gives the byte that they stand for.
proof fn lemma_join_digits(hi: u8, lo: u8)
    requires
        hi < 16,
        lo < 16,
    ensures
        (hi << 4) + lo == 16 * hi + lo,
        (hi << 4) + lo <= 255,
{
    assert(hi < 16 ==> hi << 4 == 16 * hi) by (bit_vector);
}

/// Reads the path byte by byte, as [`ngx_http_parse_complex_uri`] describes.
#[verifier::rlimit(30)]
#[verifier::spinoff_prover]
fn rewrite_path(r: &mut Request, buf: &[u8], out: &mut [u8], merge_slashes: bool) -> (res: Result<
    (),
    ParseError,
>)
    requires
        old(out)@.len() >= buf@.len() + front(old(r).empty_path_in_uri).len(),
    ensures
        final(out)@.len() == old(out)@.len(),
        forall|j: int|
            buf@.len() + front(old(r).empty_path_in_uri).len() <= j < old(out)@.len()
                ==> #[trigger] final(out)@[j] == old(out)@[j],
        settled(*old(r), buf@, merge_slashes, *final(r), final(out)@, res is Ok),
{
    let uri_end = buf.len();
    let mut state = State::Usual;
    let mut quoted_state = State::Usual;
    let mut decoded: u8 = 0;

    let mut p: usize = 0;
    let mut u: usize = 0;
    r.uri_ext = None;
    r.args_start = None;

    if r.empty_path_in_uri {
        out[u] = SLASH;
        u = u + 1;
    }
    let mut ch = read_with_lf_sentinel(buf, p);

    let ghost rooted = r.empty_path_in_uri;
    let ghost mut g = Progress::fresh();
    let ghost mut escaped = false;
    proof {
        lemma_start(buf@, merge_slashes, rooted, out@);
        lemma_note_nothing(*old(r), buf@);
    }

    while p < uri_end
        invariant
            uri_end == buf@.len(),
            p <= uri_end,
            out@.len() == old(out)@.len(),
            forall|j: int|
                buf@.len() + front(rooted).len() <= j < out@.len() ==> #[trigger] out@[j]
                    == old(out)@[j],
            rooted == old(r).empty_path_in_uri,
            out@.len() >= buf@.len() + front(rooted).len(),
            on_track(buf@, merge_slashes, rooted, g, out@, u as int),
            in_step(
                buf@,
                *old(r),
                *r,
                g,
                p as int,
                ch,
                state,
                quoted_state,
                decoded,
                escaped,
            ),
        decreases uri_end - p, if state == State::QuotedSecond { 1int } else { 0 },
    {
        proof {
            lemma_bounds(buf@, merge_slashes, rooted, g, out@, u as int);
        }
        let ghost q = if escaped {
            g.i + 1
        } else {
            g.i
        };
        let ghost pending = escaped && ch == PLUS;
        match state {
            State::Usual => {
                if ch == SLASH {
                    let ghost before = out@;
                    let ghost length = u as int;
                    r.uri_ext = None;
                    state = State::Slash;
                    out[u] = ch;
                    u = u + 1;
                    proof {
                        lemma_note_slash(
                            *old(r),
                            buf@,
                            g,
                            q,
                            pending,
                            p + 1,
                            g.dirs.push(g.cur),
                        );
                        if g.deep {
                            lemma_close(buf@, merge_slashes, rooted, g, before, length, out@);
                            let dirs = g.dirs.push(g.cur);
                            lemma_enter(
                                buf@,
                                merge_slashes,
                                rooted,
                                g,
                                before,
                                length,
                                p + 1,
                                dirs,
                                out@,
                                u as int,
                            );
                            g = g.entered(p + 1, dirs);
                        } else {
                            lemma_descend(buf@, merge_slashes, rooted, g, before, length, p + 1);
                            g = g.descended(p + 1, rooted);
                        }
                        escaped = false;
                    }
                } else if ch == PERCENT {
                    quoted_state = state;
                    state = State::Quoted;
                } else if ch == QUESTION {
                    proof {
                        lemma_done(buf@, merge_slashes, *old(r), g, out@, u as int, u);
                    }
                    r.args_start = Some(p + 1);
                    return finish_args(r, buf, u, p + 1);
                } else if ch == HASH {
                    proof {
                        lemma_done(buf@, merge_slashes, *old(r), g, out@, u as int, u);
                    }
                    return finish_done(r, u);
                } else {
                    if ch == DOT {
                        r.uri_ext = Some(u + 1);
                    } else if ch == PLUS {
                        r.plus_in_uri = true;
                    }
                    proof {
                        lemma_lengthen(buf@, merge_slashes, rooted, g, out@, u as int, p + 1, ch);
                        lemma_note_byte(*old(r), buf@, g, q, pending, p + 1, ch);
                        g = g.lengthened(p + 1, ch);
                        escaped = false;
                    }
                    out[u] = ch;
                    u = u + 1;
                }
                p = p + 1;
                ch = read_with_lf_sentinel(buf, p);
            },
            State::Slash => {
                if ch == SLASH {
                    let ghost before = out@;
                    let ghost length = u as int;
                    if !merge_slashes {
                        out[u] = ch;
                        u = u + 1;
                    }
                    proof {
                        lemma_close(buf@, merge_slashes, rooted, g, before, length, out@);
                        let dirs = enter(g.dirs, g.cur, merge_slashes)->0;
                        lemma_enter(
                            buf@,
                            merge_slashes,
                            rooted,
                            g,
                            before,
                            length,
                            p + 1,
                            dirs,
                            out@,
                            u as int,
                        );
                        lemma_note_slash(*old(r), buf@, g, q, pending, p + 1, dirs);
                        g = g.entered(p + 1, dirs);
                        escaped = false;
                    }
                } else if ch == DOT {
                    state = State::Dot;
                    proof {
                        lemma_lengthen(buf@, merge_slashes, rooted, g, out@, u as int, p + 1, ch);
                        lemma_note_byte(*old(r), buf@, g, q, pending, p + 1, ch);
                        g = g.lengthened(p + 1, ch);
                        escaped = false;
                    }
                    out[u] = ch;
                    u = u + 1;
                } else if ch == PERCENT {
                    quoted_state = state;
                    state = State::Quoted;
                } else if ch == QUESTION {
                    proof {
                        lemma_done(buf@, merge_slashes, *old(r), g, out@, u as int, u);
                    }
                    r.args_start = Some(p + 1);
                    return finish_args(r, buf, u, p + 1);
                } else if ch == HASH {
                    proof {
                        lemma_done(buf@, merge_slashes, *old(r), g, out@, u as int, u);
                    }
                    return finish_done(r, u);
                } else {
                    if ch == PLUS {
                        r.plus_in_uri = true;
                    }
                    state = State::Usual;
                    proof {
                        lemma_lengthen(buf@, merge_slashes, rooted, g, out@, u as int, p + 1, ch);
                        lemma_note_byte(*old(r), buf@, g, q, pending, p + 1, ch);
                        g = g.lengthened(p + 1, ch);
                        escaped = false;
                    }
                    out[u] = ch;
                    u = u + 1;
                }
                p = p + 1;
                ch = read_with_lf_sentinel(buf, p);
            },
            State::Dot => {
                if ch == SLASH {
                    let ghost before = out@;
                    let ghost length = u as int;
                    proof {
                        lemma_drop_dot(buf@, merge_slashes, rooted, g, before, length);
                    }
                    state = State::Slash;
                    u = u - 1;
                    proof {
                        let dirs = g.dirs;
                        lemma_enter(
                            buf@,
                            merge_slashes,
                            rooted,
                            g,
                            before,
                            length,
                            p + 1,
                            dirs,
                            out@,
                            u as int,
                        );
                        lemma_note_slash(*old(r), buf@, g, q, pending, p + 1, dirs);
                        g = g.entered(p + 1, dirs);
                        escaped = false;
                    }
                } else if ch == DOT {
                    state = State::DotDot;
                    proof {
                        lemma_lengthen(buf@, merge_slashes, rooted, g, out@, u as int, p + 1, ch);
                        lemma_note_byte(*old(r), buf@, g, q, pending, p + 1, ch);
                        g = g.lengthened(p + 1, ch);
                        escaped = false;
                    }
                    out[u] = ch;
                    u = u + 1;
                } else if ch == PERCENT {
                    quoted_state = state;
                    state = State::Quoted;
                } else if ch == QUESTION {
                    proof {
                        lemma_drop_dot(buf@, merge_slashes, rooted, g, out@, u as int);
                        lemma_done(
                            buf@,
                            merge_slashes,
                            *old(r),
                            g,
                            out@,
                            u as int,
                            (u - 1) as usize,
                        );
                    }
                    u = u - 1;
                    r.args_start = Some(p + 1);
                    return finish_args(r, buf, u, p + 1);
                } else if ch == HASH {
                    proof {
                        lemma_drop_dot(buf@, merge_slashes, rooted, g, out@, u as int);
                        lemma_done(
                            buf@,
                            merge_slashes,
                            *old(r),
                            g,
                            out@,
                            u as int,
                            (u - 1) as usize,
                        );
                    }
                    u = u - 1;
                    return finish_done(r, u);
                } else {
                    if ch == PLUS {
                        r.plus_in_uri = true;
                    }
                    state = State::Usual;
                    proof {
                        lemma_lengthen(buf@, merge_slashes, rooted, g, out@, u as int, p + 1, ch);
                        lemma_note_byte(*old(r), buf@, g, q, pending, p + 1, ch);
                        g = g.lengthened(p + 1, ch);
                        escaped = false;
                    }
                    out[u] = ch;
                    u = u + 1;
                }
                p = p + 1;
                ch = read_with_lf_sentinel(buf, p);
            },
            State::DotDot => {
                if ch == SLASH || ch == QUESTION || ch == HASH {
                    let ghost before = out@;
                    let ghost length = u as int;
                    match leave_directory(
                        out,
                        u,
                        Ghost(buf@),
                        Ghost(merge_slashes),
                        Ghost(rooted),
                        Ghost(g),
                    ) {
                        Ok(n) => {
                            u = n;
                        },
                        Err(e) => {
                            proof {
                                lemma_stopped_at_root(
                                    buf@,
                                    merge_slashes,
                                    *old(r),
                                    g,
                                    before,
                                    length,
                                    p + 1,
                                );
                            }
                            return Err(e);
                        },
                    }
                    if ch == QUESTION {
                        proof {
                            lemma_done(buf@, merge_slashes, *old(r), g, before, length, u);
                        }
                        r.args_start = Some(p + 1);
                        return finish_args(r, buf, u, p + 1);
                    }
                    if ch == HASH {
                        proof {
                            lemma_done(buf@, merge_slashes, *old(r), g, before, length, u);
                        }
                        return finish_done(r, u);
                    }
                    state = State::Slash;
                    proof {
                        let dirs = g.dirs.drop_last();
                        lemma_enter(
                            buf@,
                            merge_slashes,
                            rooted,
                            g,
                            before,
                            length,
                            p + 1,
                            dirs,
                            out@,
                            u as int,
                        );
                        lemma_note_slash(*old(r), buf@, g, q, pending, p + 1, dirs);
                        g = g.entered(p + 1, dirs);
                        escaped = false;
                    }
                } else if ch == PERCENT {
                    quoted_state = state;
                    state = State::Quoted;
                } else {
                    if ch == PLUS {
                        r.plus_in_uri = true;
                    }
                    state = State::Usual;
                    proof {
                        lemma_lengthen(buf@, merge_slashes, rooted, g, out@, u as int, p + 1, ch);
                        lemma_note_byte(*old(r), buf@, g, q, pending, p + 1, ch);
                        g = g.lengthened(p + 1, ch);
                        escaped = false;
                    }
                    out[u] = ch;
                    u = u + 1;
                }
                p = p + 1;
                ch = read_with_lf_sentinel(buf, p);
            },
            State::Quoted => {
                r.quoted_uri = true;
                proof {
                    lemma_note_escape(*old(r), buf@, g);
                }
                match hex_digit(ch) {
                    Some(value) => {
                        decoded = value;
                        state = State::QuotedSecond;
                    },
                    None => {
                        proof {
                            lemma_stopped_by_escape(
                                buf@,
                                merge_slashes,
                                *old(r),
                                g,
                                out@,
                                u as int,
                            );
                        }
                        return Err(ParseError);
                    },
                }
                p = p + 1;
                ch = read_with_lf_sentinel(buf, p);
            },
            State::QuotedSecond => {
                proof {
                    lemma_note_escape(*old(r), buf@, g);
                }
                match hex_digit(ch) {
                    Some(value) => {
                        if decoded == 0 && value == 0 {
                            proof {
                                lemma_stopped_by_escape(
                                    buf@,
                                    merge_slashes,
                                    *old(r),
                                    g,
                                    out@,
                                    u as int,
                                );
                            }
                            return Err(ParseError);
                        }
                        proof {
                            lemma_join_digits(decoded, value);
                        }
                        ch = (decoded << 4) + value;
                        if ch == PERCENT || ch == HASH || ch == QUESTION {
                            // An escaped delimiter is an ordinary byte.
                            state = State::Usual;
                            proof {
                                lemma_lengthen(
                                    buf@,
                                    merge_slashes,
                                    rooted,
                                    g,
                                    out@,
                                    u as int,
                                    p + 1,
                                    ch,
                                );
                                lemma_note_byte(*old(r), buf@, g, g.i + 1, false, p + 1, ch);
                                g = g.lengthened(p + 1, ch);
                                escaped = false;
                            }
                            out[u] = ch;
                            u = u + 1;
                            p = p + 1;
                            ch = read_with_lf_sentinel(buf, p);
                        } else {
                            // Any other escaped byte is read as if it stood there itself.
                            if ch == PLUS {
                                r.plus_in_uri = true;
                            }
                            state = quoted_state;
                            proof {
                                escaped = true;
                            }
                        }
                    },
                    None => {
                        proof {
                            lemma_stopped_by_escape(
                                buf@,
                                merge_slashes,
                                *old(r),
                                g,
                                out@,
                                u as int,
                            );
                        }
                        return Err(ParseError);
                    },
                }
            },
        }
    }

    proof {
        lemma_bounds(buf@, merge_slashes, rooted, g, out@, u as int);
    }
    if state == State::Quoted || state == State::QuotedSecond {
        proof {
            lemma_stopped_by_escape(buf@, merge_slashes, *old(r), g, out@, u as int);
        }
        return Err(ParseError);
    }
    let ghost length = u as int;
    if state == State::Dot {
        proof {
            lemma_drop_dot(buf@, merge_slashes, rooted, g, out@, u as int);
        }
        u = u - 1;
    } else if state == State::DotDot {
        match leave_directory(
            out,
            u,
            Ghost(buf@),
            Ghost(merge_slashes),
            Ghost(rooted),
            Ghost(g),
        ) {
            Ok(n) => {
                u = n;
            },
            Err(e) => {
                proof {
                    lemma_stopped_at_root(
                        buf@,
                        merge_slashes,
                        *old(r),
                        g,
                        out@,
                        length,
                        g.i,
                    );
                }
                return Err(e);
            },
        }
    }
    proof {
        lemma_done(buf@, merge_slashes, *old(r), g, out@, length, u);
    }
    finish_done(r, u)
}

/// Decodes the path of the target in `buf`, resolves its segments, and writes
/// the result to the front of `out`.
///
/// Of `out`, no more is touched than the target is long, and a byte for the
/// slash that a path is given in front where it was empty. Fails where a `%` opens no
/// escape, where an escape stands for NUL, and where `..` leads out of the
/// root.
pub fn ngx_http_parse_complex_uri(
    r: &mut Request,
    buf: &[u8],
    out: &mut [u8],
    merge_slashes: bool,
) -> (res: Result<(), ParseError>)
    requires
        old(out)@.len() >= buf@.len() + front(old(r).empty_path_in_uri).len(),
    ensures
        final(out)@.len() == old(out)@.len(),
        forall|j: int|
            buf@.len() + front(old(r).empty_path_in_uri).len() <= j < old(out)@.len()
                ==> #[trigger] final(out)@[j] == old(out)@[j],
        match rewrite(path_text(buf@), merge_slashes, old(r).empty_path_in_uri) {
            Some(n) => {
                &&& res is Ok
                &&& *final(r) == rewritten(*old(r), buf@, n)
                &&& n.bytes().len() <= buf@.len() + front(old(r).empty_path_in_uri).len()
                &&& final(out)@.take(n.bytes().len() as int) == n.bytes()
            },
            None => {
                &&& res is Err
                &&& *final(r) == abandoned(*old(r), buf@, merge_slashes)
            },
        },
{
    proof {
        reveal(settled);
    }
    rewrite_path(r, buf, out, merge_slashes)
}

} // verus!
