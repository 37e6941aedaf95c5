//! How the second pass proceeds: what its output stands for at each step.

use crate::chars::{PERCENT, SLASH};
use crate::lemmas::{
    lemma_decode_append, lemma_delimiter_from, lemma_segments, lemma_segments_push,
    lemma_segments_push_slash, lemma_slash_from, lemma_walk_fails, lemma_walk_last,
};
use crate::model::{
    before_root, below_root, decode, delimiter_from, dir_bytes, enter, escape_value, front,
    is_delimiter, is_dot, is_dot_dot, path_text, readable, rewrite, segments, slash_from, so_far,
    walk_from, NormalPath, Written,
};
use vstd::prelude::*;

verus! {

/// How far the rewriting has come.
pub ghost struct Progress {
    /// Where the first byte or escape starts that was not taken over yet.
    pub i: int,
    /// The decoded bytes before the first slash.
    pub lead: Seq<u8>,
    /// Whether a slash was read.
    pub deep: bool,
    /// The decoded bytes behind the first slash.
    pub w: Seq<u8>,
    /// The directories that the complete segments of `w` lead to.
    pub dirs: Seq<Seq<u8>>,
    /// The last segment of `w`.
    pub cur: Seq<u8>,
}

impl Progress {
    /// Before anything was read.
    pub open spec fn fresh() -> Progress {
        Progress {
            i: 0,
            lead: Seq::empty(),
            deep: false,
            w: Seq::empty(),
            dirs: Seq::empty(),
            cur: Seq::empty(),
        }
    }

    /// The decoded bytes before `i`.
    pub open spec fn read(self) -> Seq<u8> {
        if self.deep {
            self.lead + seq![SLASH] + self.w
        } else {
            self.lead
        }
    }

    /// What the bytes before `i` are rewritten to, with the last segment
    /// taken as it is.
    pub open spec fn written(self, rooted: bool) -> Written {
        if self.deep {
            Written::Path(
                before_root(self.lead, rooted),
                NormalPath { dirs: self.dirs, file: self.cur },
            )
        } else {
            Written::Name(front(rooted) + self.lead)
        }
    }

    /// After one more byte that is no slash.
    pub open spec fn lengthened(self, next: int, b: u8) -> Progress {
        if self.deep {
            Progress { i: next, w: self.w.push(b), cur: self.cur.push(b), ..self }
        } else {
            Progress { i: next, lead: self.lead.push(b), ..self }
        }
    }

    /// After a slash that led to `dirs`.
    pub open spec fn entered(self, next: int, dirs: Seq<Seq<u8>>) -> Progress {
        Progress { i: next, w: self.w.push(SLASH), dirs, cur: Seq::empty(), ..self }
    }

    /// After the first slash.
    pub open spec fn descended(self, next: int, rooted: bool) -> Progress {
        Progress {
            i: next,
            deep: true,
            w: Seq::empty(),
            dirs: below_root(self.lead, rooted),
            cur: Seq::empty(),
            ..self
        }
    }
}

/// No directory holds a slash.
pub open spec fn slash_free(dirs: Seq<Seq<u8>>) -> bool {
    forall|k: int, j: int|
        0 <= k < dirs.len() && 0 <= j < dirs[k].len() ==> #[trigger] dirs[k][j] != SLASH
}

/// `g` is what the bytes of `s` before `g.i` stand for.
pub open spec fn reached(s: Seq<u8>, merge_slashes: bool, rooted: bool, g: Progress) -> bool {
    let t = path_text(s);
    &&& 0 <= g.i <= s.len()
    &&& delimiter_from(s, g.i) == delimiter_from(s, 0)
    &&& decode(t.take(g.i)) == Some(g.read())
    &&& forall|j: int| 0 <= j < g.lead.len() ==> #[trigger] g.lead[j] != SLASH
    &&& g.deep ==> {
        &&& g.cur == segments(g.w).last()
        &&& walk_from(below_root(g.lead, rooted), segments(g.w).drop_last(), merge_slashes) == Some(
            g.dirs,
        )
        &&& slash_free(g.dirs)
    }
}

/// `g` was reached, and the first `u` bytes of `out` are what it is written as.
#[verifier::opaque]
pub open spec fn on_track(
    s: Seq<u8>,
    merge_slashes: bool,
    rooted: bool,
    g: Progress,
    out: Seq<u8>,
    u: int,
) -> bool {
    &&& reached(s, merge_slashes, rooted, g)
    &&& 0 <= u <= g.i + front(rooted).len()
    &&& u <= out.len()
    &&& out.take(u) == g.written(rooted).bytes()
}

/// The bytes of `s` from `i` up to `next` stand for the single byte `b`.
pub open spec fn token(s: Seq<u8>, i: int, next: int, b: u8) -> bool {
    ||| (next == i + 1 && 0 <= i < s.len() && s[i] == b && b != PERCENT && !is_delimiter(b))
    ||| (next == i + 3 && 0 <= i && i + 2 < s.len() && s[i] == PERCENT
        && escape_value(s[i + 1], s[i + 2]) == Some(b))
}

/// Taking over one byte or escape keeps the decoded part right.
pub proof fn lemma_token(s: Seq<u8>, read: Seq<u8>, i: int, next: int, b: u8)
    requires
        token(s, i, next, b),
        delimiter_from(s, i) == delimiter_from(s, 0),
        decode(path_text(s).take(i)) == Some(read),
    ensures
        next <= path_text(s).len() <= s.len(),
        delimiter_from(s, next) == delimiter_from(s, 0),
        decode(path_text(s).take(next)) == Some(read.push(b)),
{
    let t = path_text(s);
    let empty = Seq::<u8>::empty();
    reveal_with_fuel(delimiter_from, 4);
    lemma_delimiter_from(s, next);
    let piece = t.subrange(i, next);
    assert(t.take(next) =~= t.take(i) + piece);
    assert(piece[0] == s[i]);
    if next == i + 3 {
        assert(piece[1] == s[i + 1] && piece[2] == s[i + 2]);
    }
    assert(piece.skip(next - i) =~= empty);
    assert(decode(empty) == Some(empty));
    assert(seq![b] + empty =~= seq![b]);
    lemma_decode_append(t.take(i), piece);
    assert(read + seq![b] =~= read.push(b));
}

/// Before anything was read, the output is empty or the slash in front.
pub proof fn lemma_start(s: Seq<u8>, merge_slashes: bool, rooted: bool, out: Seq<u8>)
    requires
        rooted ==> out.len() >= 1 && out[0] == SLASH,
    ensures
        on_track(s, merge_slashes, rooted, Progress::fresh(), out, front(rooted).len() as int),
{
    reveal(on_track);
    let empty = Seq::<u8>::empty();
    assert(path_text(s).take(0) =~= empty);
    assert(out.take(front(rooted).len() as int) =~= front(rooted) + empty);
}

/// How long the output is.
pub proof fn lemma_bounds(
    s: Seq<u8>,
    merge_slashes: bool,
    rooted: bool,
    g: Progress,
    out: Seq<u8>,
    u: int,
)
    requires
        on_track(s, merge_slashes, rooted, g, out, u),
    ensures
        0 <= g.i <= s.len(),
        0 <= u <= g.i + front(rooted).len(),
        u <= out.len(),
        u == g.written(rooted).bytes().len(),
{
    reveal(on_track);
    assert(out.take(u).len() == u);
}

/// A byte that is no slash lengthens the current segment.
pub proof fn lemma_lengthen(
    s: Seq<u8>,
    merge_slashes: bool,
    rooted: bool,
    g: Progress,
    out: Seq<u8>,
    u: int,
    next: int,
    b: u8,
)
    requires
        on_track(s, merge_slashes, rooted, g, out, u),
        token(s, g.i, next, b),
        b != SLASH,
        u < out.len(),
    ensures
        on_track(s, merge_slashes, rooted, g.lengthened(next, b), out.update(u, b), u + 1),
        u == g.written(rooted).bytes().len(),
{
    reveal(on_track);
    let longer = g.lengthened(next, b);
    assert(out.take(u).len() == u);
    lemma_token(s, g.read(), g.i, next, b);
    assert(longer.read() =~= g.read().push(b));
    if g.deep {
        lemma_segments_push(g.w, b);
    }
    assert(out.update(u, b).take(u + 1) =~= out.take(u).push(b));
    assert(longer.written(rooted).bytes() =~= g.written(rooted).bytes().push(b));
}

/// The first slash leads to the root, or below it where the output already
/// started there.
pub proof fn lemma_descend(
    s: Seq<u8>,
    merge_slashes: bool,
    rooted: bool,
    g: Progress,
    out: Seq<u8>,
    u: int,
    next: int,
)
    requires
        on_track(s, merge_slashes, rooted, g, out, u),
        token(s, g.i, next, SLASH),
        !g.deep,
        u < out.len(),
    ensures
        on_track(
            s,
            merge_slashes,
            rooted,
            g.descended(next, rooted),
            out.update(u, SLASH),
            u + 1,
        ),
{
    reveal(on_track);
    let deeper = g.descended(next, rooted);
    let empty = Seq::<u8>::empty();
    assert(out.take(u).len() == u);
    lemma_token(s, g.read(), g.i, next, SLASH);
    assert(deeper.read() =~= g.read().push(SLASH));
    assert(segments(empty) =~= seq![empty]);
    assert(segments(empty).drop_last() =~= Seq::empty());
    assert(deeper.cur == segments(deeper.w).last());
    assert(out.update(u, SLASH).take(u + 1) =~= out.take(u).push(SLASH));
    if rooted {
        reveal_with_fuel(dir_bytes, 2);
        assert(deeper.dirs.drop_last() =~= Seq::empty());
        assert(dir_bytes(deeper.dirs) =~= g.written(rooted).bytes().push(SLASH));
    }
    assert(deeper.written(rooted).bytes() =~= g.written(rooted).bytes().push(SLASH));
}

/// A slash ends the current segment and enters it.
pub proof fn lemma_enter(
    s: Seq<u8>,
    merge_slashes: bool,
    rooted: bool,
    g: Progress,
    out: Seq<u8>,
    u: int,
    next: int,
    dirs: Seq<Seq<u8>>,
    new_out: Seq<u8>,
    new_u: int,
)
    requires
        on_track(s, merge_slashes, rooted, g, out, u),
        g.deep,
        token(s, g.i, next, SLASH),
        enter(g.dirs, g.cur, merge_slashes) == Some(dirs),
        0 <= new_u <= next + front(rooted).len(),
        new_u <= new_out.len(),
        new_out.take(new_u) == before_root(g.lead, rooted) + dir_bytes(dirs),
    ensures
        on_track(s, merge_slashes, rooted, g.entered(next, dirs), new_out, new_u),
{
    reveal(on_track);
    let inner = g.entered(next, dirs);
    lemma_token(s, g.read(), g.i, next, SLASH);
    assert(inner.read() =~= g.read().push(SLASH));
    lemma_segments_push_slash(g.w);
    lemma_walk_last(below_root(g.lead, rooted), g.w, merge_slashes);
    lemma_segments(g.w);
    assert(dir_bytes(dirs) + Seq::<u8>::empty() =~= dir_bytes(dirs));
    assert(slash_free(dirs)) by {
        assert forall|k: int, j: int|
            0 <= k < dirs.len() && 0 <= j < dirs[k].len() implies #[trigger] dirs[k][j]
            != SLASH by {
            if k < g.dirs.len() {
                assert(dirs[k] == g.dirs[k]);
                assert(g.dirs[k][j] != SLASH);
            } else {
                let segs = segments(g.w);
                assert(dirs[k] == segs[segs.len() - 1]);
                assert(segs[segs.len() - 1][j] != SLASH);
            }
        }
    }
}

/// Cutting `lead`, a slash and `w` at the first slash gives back the parts.
proof fn lemma_cut(lead: Seq<u8>, w: Seq<u8>)
    requires
        forall|j: int| 0 <= j < lead.len() ==> #[trigger] lead[j] != SLASH,
    ensures
        slash_from(lead, 0) == lead.len(),
        lead.take(lead.len() as int) == lead,
        ({
            let d = lead + seq![SLASH] + w;
            &&& slash_from(d, 0) == lead.len()
            &&& lead.len() < d.len()
            &&& d.take(lead.len() as int) == lead
            &&& d.skip(lead.len() as int + 1) == w
        }),
{
    let d = lead + seq![SLASH] + w;
    lemma_slash_from(lead, 0);
    lemma_slash_from(d, 0);
    assert(lead.take(lead.len() as int) =~= lead);
    assert(d.take(lead.len() as int) =~= lead);
    assert(d.skip(lead.len() as int + 1) =~= w);
    assert(d[lead.len() as int] == SLASH);
    let k = slash_from(d, 0);
    if k < lead.len() {
        assert(d[k] == lead[k]);
    }
}

/// No more of the path text than the first `i` bytes can be read.
pub open spec fn stuck(s: Seq<u8>, merge_slashes: bool, rooted: bool, i: int) -> bool {
    forall|j: int|
        i < j <= path_text(s).len() ==> so_far(
            #[trigger] path_text(s).take(j),
            merge_slashes,
            rooted,
        ) is None
}

/// Where a slash leads out of the root, the path cannot be rewritten, and no
/// more of it can be read.
pub proof fn lemma_leaves_root(
    s: Seq<u8>,
    merge_slashes: bool,
    rooted: bool,
    g: Progress,
    out: Seq<u8>,
    u: int,
    next: int,
)
    requires
        on_track(s, merge_slashes, rooted, g, out, u),
        g.deep,
        token(s, g.i, next, SLASH),
        enter(g.dirs, g.cur, merge_slashes) is None,
    ensures
        rewrite(path_text(s), merge_slashes, rooted) is None,
        stuck(s, merge_slashes, rooted, g.i),
{
    reveal(on_track);
    let t = path_text(s);
    let start = below_root(g.lead, rooted);
    lemma_delimiter_from(s, g.i);
    lemma_token(s, g.read(), g.i, next, SLASH);
    lemma_segments_push_slash(g.w);
    lemma_walk_last(start, g.w, merge_slashes);
    assert forall|j: int| g.i < j <= t.len() implies so_far(
        #[trigger] t.take(j),
        merge_slashes,
        rooted,
    ) is None && rewrite(t.take(j), merge_slashes, rooted) is None by {
        if j < next {
            let cut = t.take(j).skip(g.i);
            assert(t.take(j) =~= t.take(g.i) + cut);
            assert(cut[0] == t[g.i] && t[g.i] == s[g.i]);
            lemma_decode_append(t.take(g.i), cut);
        } else {
            let rest = t.take(j).skip(next);
            assert(t.take(j) =~= t.take(next) + rest);
            lemma_decode_append(t.take(next), rest);
            if let Some(tail) = decode(rest) {
                let w = g.w.push(SLASH) + tail;
                lemma_walk_fails(start, g.w.push(SLASH), tail, merge_slashes);
                assert(decode(t.take(j))->0 =~= g.lead + seq![SLASH] + w);
                lemma_cut(g.lead, w);
            }
        }
    }
    assert(t.take(t.len() as int) =~= t);
}

/// What was reached is what was rewritten so far.
pub proof fn lemma_reached(s: Seq<u8>, merge_slashes: bool, rooted: bool, g: Progress)
    requires
        reached(s, merge_slashes, rooted, g),
    ensures
        g.i <= path_text(s).len(),
        so_far(path_text(s).take(g.i), merge_slashes, rooted) == Some(g.written(rooted)),
{
    lemma_delimiter_from(s, g.i);
    lemma_cut(g.lead, g.w);
}

/// Where the reading is stuck, all that can be read was read.
pub proof fn lemma_stuck(s: Seq<u8>, merge_slashes: bool, rooted: bool, i: int, j: int)
    requires
        0 <= i <= j <= path_text(s).len(),
        i > 0 ==> so_far(path_text(s).take(i), merge_slashes, rooted) is Some,
        stuck(s, merge_slashes, rooted, i),
    ensures
        readable(path_text(s), j, merge_slashes, rooted) == i,
    decreases j,
{
    if i < j {
        assert(so_far(path_text(s).take(j), merge_slashes, rooted) is None);
        lemma_stuck(s, merge_slashes, rooted, i, j - 1);
    }
}

/// Once the whole path text is read, it is known what it is rewritten to.
pub proof fn lemma_read_all(s: Seq<u8>, merge_slashes: bool, rooted: bool, g: Progress)
    requires
        reached(s, merge_slashes, rooted, g),
        g.i == delimiter_from(s, 0),
    ensures
        decode(path_text(s)) == Some(g.read()),
        stuck(s, merge_slashes, rooted, g.i),
        rewrite(path_text(s), merge_slashes, rooted) == (if g.deep && (is_dot(g.cur) || is_dot_dot(
            g.cur,
        )) {
            match enter(g.dirs, g.cur, merge_slashes) {
                Some(inner) => Some(
                    Written::Path(
                        before_root(g.lead, rooted),
                        NormalPath { dirs: inner, file: Seq::empty() },
                    ),
                ),
                None => None,
            }
        } else {
            Some(g.written(rooted))
        }),
{
    let t = path_text(s);
    assert(t.take(g.i) =~= t);
    lemma_cut(g.lead, g.w);
}

/// A `%` that opens no escape leaves the path without a meaning, and no more
/// of it can be read.
pub proof fn lemma_bad_escape(
    s: Seq<u8>,
    merge_slashes: bool,
    rooted: bool,
    g: Progress,
    out: Seq<u8>,
    u: int,
)
    requires
        on_track(s, merge_slashes, rooted, g, out, u),
        g.i < s.len(),
        s[g.i] == PERCENT,
        g.i + 2 < s.len() ==> escape_value(s[g.i + 1], s[g.i + 2]) is None,
    ensures
        rewrite(path_text(s), merge_slashes, rooted) is None,
        stuck(s, merge_slashes, rooted, g.i),
{
    reveal(on_track);
    let t = path_text(s);
    lemma_delimiter_from(s, g.i);
    assert forall|j: int| g.i < j <= t.len() implies decode(#[trigger] t.take(j)) is None by {
        let rest = t.take(j).skip(g.i);
        assert(t.take(j) =~= t.take(g.i) + rest);
        assert(rest[0] == s[g.i]);
        if rest.len() >= 3 {
            assert(rest[1] == s[g.i + 1] && rest[2] == s[g.i + 2]);
        }
        lemma_decode_append(t.take(g.i), rest);
    }
    assert(t.take(t.len() as int) =~= t);
}

/// The slash behind a segment makes it a directory of the output.
pub proof fn lemma_close(
    s: Seq<u8>,
    merge_slashes: bool,
    rooted: bool,
    g: Progress,
    out: Seq<u8>,
    u: int,
    new_out: Seq<u8>,
)
    requires
        on_track(s, merge_slashes, rooted, g, out, u),
        g.deep,
    ensures
        u < out.len() && new_out == out.update(u, SLASH) ==> new_out.take(u + 1) == before_root(
            g.lead,
            rooted,
        ) + dir_bytes(g.dirs.push(g.cur)),
        g.cur.len() == 0 ==> out.take(u) == before_root(g.lead, rooted) + dir_bytes(g.dirs),
{
    reveal(on_track);
    let outer = before_root(g.lead, rooted);
    assert(g.dirs.push(g.cur).drop_last() =~= g.dirs);
    if u < out.len() && new_out == out.update(u, SLASH) {
        assert(new_out.take(u + 1) =~= out.take(u).push(SLASH));
        assert(outer + dir_bytes(g.dirs.push(g.cur)) =~= g.written(rooted).bytes().push(SLASH));
    }
    if g.cur.len() == 0 {
        assert(g.written(rooted).bytes() =~= outer + dir_bytes(g.dirs));
    }
}

/// Dropping the segment `.` leaves the directories.
pub proof fn lemma_drop_dot(
    s: Seq<u8>,
    merge_slashes: bool,
    rooted: bool,
    g: Progress,
    out: Seq<u8>,
    u: int,
)
    requires
        on_track(s, merge_slashes, rooted, g, out, u),
        g.deep,
        g.cur.len() == 1,
    ensures
        u >= 1,
        out.take(u - 1) == before_root(g.lead, rooted) + dir_bytes(g.dirs),
{
    reveal(on_track);
    let all = g.written(rooted).bytes();
    assert(out.take(u).len() == u);
    assert(out.take(u - 1) =~= out.take(u).drop_last());
    assert(all.drop_last() =~= before_root(g.lead, rooted) + dir_bytes(g.dirs));
}

/// What stands in the output before a segment `..`: either the root slash
/// with no slash before it, or a last directory that can be cut off at the
/// slash before it.
pub proof fn lemma_last_directory(
    out: Seq<u8>,
    u: int,
    outer: Seq<u8>,
    dirs: Seq<Seq<u8>>,
    cur: Seq<u8>,
)
    requires
        forall|j: int| 0 <= j < outer.len() ==> #[trigger] outer[j] != SLASH,
        slash_free(dirs),
        0 <= u <= out.len(),
        out.take(u) == outer + (dir_bytes(dirs) + cur),
        cur.len() == 2,
    ensures
        u >= 3,
        dirs.len() == 0 ==> forall|j: int| 0 <= j < u - 3 ==> #[trigger] out[j] != SLASH,
        dirs.len() > 0 ==> {
            let n = outer.len() + dir_bytes(dirs.drop_last()).len() as int;
            &&& 1 <= n <= u - 3
            &&& out[n - 1] == SLASH
            &&& forall|j: int| n <= j < u - 3 ==> #[trigger] out[j] != SLASH
            &&& out.take(n) == outer + dir_bytes(dirs.drop_last())
        },
{
    assert(out.take(u).len() == u);
    if dirs.len() > 0 {
        let head = outer + dir_bytes(dirs.drop_last());
        let n = head.len() as int;
        let last = dirs.last();
        let all = head + last + seq![SLASH] + cur;
        assert(out.take(u) =~= all);
        assert(head.len() > 0 && head.last() == SLASH);
        assert(out[n - 1] == all[n - 1]);
        assert forall|j: int| n <= j < u - 3 implies #[trigger] out[j] != SLASH by {
            assert(out[j] == all[j]);
            assert(all[j] == dirs[dirs.len() - 1][j - n]);
        }
        assert(out.take(n) =~= head) by {
            assert forall|j: int| 0 <= j < n implies out[j] == head[j] by {
                assert(out[j] == out.take(u)[j]);
            }
        }
    } else {
        assert forall|j: int| 0 <= j < u - 3 implies #[trigger] out[j] != SLASH by {
            assert(out[j] == out.take(u)[j]);
            assert(out[j] == outer[j]);
        }
    }
}

} // verus!
