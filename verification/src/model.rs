//! What a request target means: the mathematical model behind the contracts.
//!
//! A target is cut at its first `?` or `#` into a path text and the rest. The
//! path text is percent-decoded, split at its slashes, and the segments are
//! walked one by one, as a file system would walk them.

use crate::chars::{is_forbidden, DOT, HASH, PERCENT, PLUS, QUESTION, SLASH};
use vstd::prelude::*;

verus! {

/// A non-empty target that starts with `/` and holds no forbidden byte.
pub open spec fn valid_target(s: Seq<u8>) -> bool {
    &&& s.len() > 0
    &&& s[0] == SLASH
    &&& forall|i: int| 0 <= i < s.len() ==> !is_forbidden(#[trigger] s[i])
}

/// A byte that ends the path when it stands unescaped.
pub open spec fn is_delimiter(b: u8) -> bool {
    b == QUESTION || b == HASH
}

/// The index of the first delimiter at or after `i`, or the length of `s`.
pub open spec fn delimiter_from(s: Seq<u8>, i: int) -> int
    decreases s.len() - i,
{
    if i < 0 || i >= s.len() {
        s.len() as int
    } else if is_delimiter(s[i]) {
        i
    } else {
        delimiter_from(s, i + 1)
    }
}

/// The index of the first `#` at or after `i`, or the length of `s`.
pub open spec fn hash_from(s: Seq<u8>, i: int) -> int
    decreases s.len() - i,
{
    if i < 0 || i >= s.len() {
        s.len() as int
    } else if s[i] == HASH {
        i
    } else {
        hash_from(s, i + 1)
    }
}

/// The part of the target that names the path, still percent-encoded.
pub open spec fn path_text(s: Seq<u8>) -> Seq<u8> {
    s.take(delimiter_from(s, 0))
}

/// The query string: what stands between the `?` that ends the path and the
/// next `#`, or the end of the target. A `?` at the very end opens no query.
pub open spec fn query(s: Seq<u8>) -> Option<Seq<u8>> {
    let e = delimiter_from(s, 0);
    if e < s.len() && s[e] == QUESTION && e + 1 < s.len() {
        Some(s.subrange(e + 1, hash_from(s, e + 1)))
    } else {
        None
    }
}

/// The value of a hexadecimal digit of either case.
pub open spec fn hex_value(b: u8) -> Option<u8> {
    if 0x30 <= b <= 0x39 {
        Some((b - 0x30) as u8)
    } else if 0x41 <= b <= 0x46 {
        Some((b - 0x41 + 10) as u8)
    } else if 0x61 <= b <= 0x66 {
        Some((b - 0x61 + 10) as u8)
    } else {
        None
    }
}

/// The byte that `%`, `hi`, `lo` stand for, where both are hexadecimal digits
/// and the byte is not NUL.
pub open spec fn escape_value(hi: u8, lo: u8) -> Option<u8> {
    match (hex_value(hi), hex_value(lo)) {
        (Some(h), Some(l)) => if h == 0 && l == 0 {
            None
        } else {
            Some((16 * h + l) as u8)
        },
        _ => None,
    }
}

/// `tail` with `head` put before it, where there is a tail.
pub open spec fn prefixed(head: Seq<u8>, tail: Option<Seq<u8>>) -> Option<Seq<u8>> {
    match tail {
        Some(t) => Some(head + t),
        None => None,
    }
}

/// The bytes that a path text stands for. Every `%` must open an escape.
pub open spec fn decode(t: Seq<u8>) -> Option<Seq<u8>>
    decreases t.len(),
{
    if t.len() == 0 {
        Some(Seq::empty())
    } else if t[0] != PERCENT {
        prefixed(seq![t[0]], decode(t.skip(1)))
    } else if t.len() < 3 {
        None
    } else {
        match escape_value(t[1], t[2]) {
            Some(b) => prefixed(seq![b], decode(t.skip(3))),
            None => None,
        }
    }
}

/// The segments between the slashes of `w`: one more than it has slashes.
pub open spec fn segments(w: Seq<u8>) -> Seq<Seq<u8>>
    decreases w.len(),
{
    if w.len() == 0 {
        seq![Seq::empty()]
    } else {
        let before = segments(w.drop_last());
        if w.last() == SLASH {
            before.push(Seq::empty())
        } else {
            before.drop_last().push(before.last().push(w.last()))
        }
    }
}

/// The segment `.`
pub open spec fn is_dot(seg: Seq<u8>) -> bool {
    seg.len() == 1 && seg[0] == DOT
}

/// The segment `..`
pub open spec fn is_dot_dot(seg: Seq<u8>) -> bool {
    seg.len() == 2 && seg[0] == DOT && seg[1] == DOT
}

/// The directories one is in after entering `seg` from inside `dirs`: `.`
/// stays, `..` leaves the innermost directory, and an empty segment stays
/// where slashes are merged. There is no way out of the root.
pub open spec fn enter(dirs: Seq<Seq<u8>>, seg: Seq<u8>, merge_slashes: bool) -> Option<
    Seq<Seq<u8>>,
> {
    if is_dot(seg) || (seg.len() == 0 && merge_slashes) {
        Some(dirs)
    } else if is_dot_dot(seg) {
        if dirs.len() == 0 {
            None
        } else {
            Some(dirs.drop_last())
        }
    } else {
        Some(dirs.push(seg))
    }
}

/// The directories one is in after entering each of `segs` in turn, from
/// inside `start`.
pub open spec fn walk_from(start: Seq<Seq<u8>>, segs: Seq<Seq<u8>>, merge_slashes: bool) -> Option<
    Seq<Seq<u8>>,
>
    decreases segs.len(),
{
    if segs.len() == 0 {
        Some(start)
    } else {
        match walk_from(start, segs.drop_last(), merge_slashes) {
            Some(dirs) => enter(dirs, segs.last(), merge_slashes),
            None => None,
        }
    }
}

/// The directories one is in after entering each of `segs` in turn, from the
/// root.
pub open spec fn walk(segs: Seq<Seq<u8>>, merge_slashes: bool) -> Option<Seq<Seq<u8>>> {
    walk_from(Seq::empty(), segs, merge_slashes)
}

/// A normal path: the directories from the root down, and the name in the
/// innermost one, which is empty for a path that ends in a slash.
#[verifier::ext_equal]
pub struct NormalPath {
    pub dirs: Seq<Seq<u8>>,
    pub file: Seq<u8>,
}

/// The root slash, then each directory with a slash behind it.
pub open spec fn dir_bytes(dirs: Seq<Seq<u8>>) -> Seq<u8>
    decreases dirs.len(),
{
    if dirs.len() == 0 {
        seq![SLASH]
    } else {
        dir_bytes(dirs.drop_last()) + dirs.last() + seq![SLASH]
    }
}

impl NormalPath {
    /// The path written out.
    pub open spec fn bytes(self) -> Seq<u8> {
        dir_bytes(self.dirs) + self.file
    }
}

/// Where a path with these segments leads from inside `start`: all but the
/// last are entered, and the last one is the file, unless it is `.` or `..`.
pub open spec fn resolve_from(
    start: Seq<Seq<u8>>,
    segs: Seq<Seq<u8>>,
    merge_slashes: bool,
) -> Option<NormalPath> {
    match walk_from(start, segs.drop_last(), merge_slashes) {
        Some(dirs) => if is_dot(segs.last()) || is_dot_dot(segs.last()) {
            match enter(dirs, segs.last(), merge_slashes) {
                Some(inner) => Some(NormalPath { dirs: inner, file: Seq::empty() }),
                None => None,
            }
        } else {
            Some(NormalPath { dirs, file: segs.last() })
        },
        None => None,
    }
}

/// Where a path with these segments leads from the root.
pub open spec fn resolve(segs: Seq<Seq<u8>>, merge_slashes: bool) -> Option<NormalPath> {
    resolve_from(Seq::empty(), segs, merge_slashes)
}

/// The normal path that a path text stands for, if there is one.
pub open spec fn normalize(text: Seq<u8>, merge_slashes: bool) -> Option<NormalPath> {
    match decode(text) {
        Some(d) => if d.len() > 0 && d[0] == SLASH {
            resolve(segments(d.skip(1)), merge_slashes)
        } else {
            None
        },
        None => None,
    }
}

/// The index of the first slash at or after `i`, or the length of `d`.
pub open spec fn slash_from(d: Seq<u8>, i: int) -> int
    decreases d.len() - i,
{
    if i < 0 || i >= d.len() {
        d.len() as int
    } else if d[i] == SLASH {
        i
    } else {
        slash_from(d, i + 1)
    }
}

/// What any text is rewritten to, whether or not it starts with a slash.
pub enum Written {
    /// No slash was read: all of it is one name.
    Name(Seq<u8>),
    /// The bytes before the root slash, and the path from there.
    Path(Seq<u8>, NormalPath),
}

impl Written {
    /// The bytes written out.
    pub open spec fn bytes(self) -> Seq<u8> {
        match self {
            Written::Name(name) => name,
            Written::Path(lead, path) => lead + path.bytes(),
        }
    }
}

/// The slash that is written in front of a path that was empty.
pub open spec fn front(rooted: bool) -> Seq<u8> {
    if rooted {
        seq![SLASH]
    } else {
        Seq::empty()
    }
}

/// What stands before the root slash once a slash was read behind `lead`:
/// `lead` itself, unless a slash was written in front of it.
pub open spec fn before_root(lead: Seq<u8>, rooted: bool) -> Seq<u8> {
    if rooted {
        Seq::empty()
    } else {
        lead
    }
}

/// Where one is once a slash was read behind `lead`: in the root, unless a
/// slash was written in front of `lead`, which makes it a directory.
pub open spec fn below_root(lead: Seq<u8>, rooted: bool) -> Seq<Seq<u8>> {
    if rooted {
        seq![lead]
    } else {
        Seq::empty()
    }
}

/// What a text is rewritten to; with `rooted`, a slash is written in front of
/// it. The bytes before its first slash are taken as they are; the segments
/// behind it are walked.
pub open spec fn rewrite(text: Seq<u8>, merge_slashes: bool, rooted: bool) -> Option<Written> {
    match decode(text) {
        Some(d) => {
            let k = slash_from(d, 0);
            let lead = d.take(k);
            if k < d.len() {
                match resolve_from(
                    below_root(lead, rooted),
                    segments(d.skip(k + 1)),
                    merge_slashes,
                ) {
                    Some(path) => Some(Written::Path(before_root(lead, rooted), path)),
                    None => None,
                }
            } else {
                Some(Written::Name(front(rooted) + lead))
            }
        },
        None => None,
    }
}

/// What the front part of a text has been rewritten to when it was read up to
/// its end: as by [`rewrite`], but the last segment, which may go on, stands as
/// it is. There is no such thing where an escape is broken or cut off, or where
/// the segments before the last lead out of the root.
pub open spec fn so_far(text: Seq<u8>, merge_slashes: bool, rooted: bool) -> Option<Written> {
    match decode(text) {
        Some(d) => {
            let k = slash_from(d, 0);
            let lead = d.take(k);
            if k < d.len() {
                let segs = segments(d.skip(k + 1));
                match walk_from(below_root(lead, rooted), segs.drop_last(), merge_slashes) {
                    Some(dirs) => Some(
                        Written::Path(
                            before_root(lead, rooted),
                            NormalPath { dirs, file: segs.last() },
                        ),
                    ),
                    None => None,
                }
            } else {
                Some(Written::Name(front(rooted) + lead))
            }
        },
        None => None,
    }
}

/// How much of the first `i` bytes of a text can be read without a failure.
pub open spec fn readable(text: Seq<u8>, i: int, merge_slashes: bool, rooted: bool) -> int
    decreases i,
{
    if i <= 0 {
        0
    } else if so_far(text.take(i), merge_slashes, rooted) is Some {
        i
    } else {
        readable(text, i - 1, merge_slashes, rooted)
    }
}

/// Whether what stands before index `k` is a slash followed by nothing but
/// plus signs.
pub open spec fn after_slash(s: Seq<u8>, k: int) -> bool
    decreases k,
{
    0 < k <= s.len() && (s[k - 1] == SLASH || (s[k - 1] == PLUS && after_slash(s, k - 1)))
}

/// Whether the byte at `k` is a `.` or `/` that follows a slash, with at most
/// plus signs between.
pub open spec fn opens_dot_or_slash(s: Seq<u8>, k: int) -> bool {
    0 <= k < s.len() && (s[k] == DOT || s[k] == SLASH) && after_slash(s, k)
}

/// Whether the target is rewritten rather than taken over as it stands: it
/// has a fragment, or its path holds an escape, or a `.` or `/` after a slash.
pub open spec fn needs_rewrite(s: Seq<u8>) -> bool {
    let t = path_text(s);
    ||| s.contains(HASH)
    ||| t.contains(PERCENT)
    ||| exists|k: int| opens_dot_or_slash(t, k)
}

/// The path and the query string that a target stands for, if it is accepted.
pub open spec fn outcome(s: Seq<u8>, merge_slashes: bool) -> Option<
    (Seq<u8>, Option<Seq<u8>>),
> {
    if valid_target(s) {
        match normalize(path_text(s), merge_slashes) {
            Some(n) => Some((n.bytes(), query(s))),
            None => None,
        }
    } else {
        None
    }
}

} // verus!
