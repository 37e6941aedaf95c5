//! Holding this parser against the C functions of nginx, input by input.

use crate::model::outcome;
use crate::report::{
    decimal, escape, fmt_args, listing, push_decimal, push_listing, quoted, written_args,
};
use crate::target::{bytes_of, parse_origin_form};
use std::borrow::Cow;
use vstd::prelude::*;

verus! {

/// What a parser made of a target that it accepted.
#[derive(Debug)]
pub struct ParseResult<'a> {
    pub path: Cow<'a, [u8]>,
    pub args: Option<&'a [u8]>,
}

impl<'a> ParseResult<'a> {
    /// The bytes of the path and of the query string.
    pub open spec fn bytes(self) -> (Seq<u8>, Option<Seq<u8>>) {
        (self.path@, bytes_of(self.args))
    }
}

/// The bytes of an optional result.
pub open spec fn result_bytes(r: Option<ParseResult>) -> Option<(Seq<u8>, Option<Seq<u8>>)> {
    match r {
        Some(parsed) => Some(parsed.bytes()),
        None => None,
    }
}

/// How a call of a parser ended.
#[derive(Debug)]
pub enum Outcome<'a> {
    /// It returned a result, or `None` where it rejected the target.
    Returned(Option<ParseResult<'a>>),
    /// It panicked.
    Panicked,
}

/// What the C functions hand back for one target.
#[derive(Debug, Clone, Copy)]
pub struct Reply {
    /// 0 for success, -1 for a rejected target.
    pub rc: i32,
    /// The length of the path in the output buffer.
    pub out_len: usize,
    /// Where the query string starts in the target.
    pub args_offset: usize,
    /// The length of the query string.
    pub args_len: usize,
    /// 1 where there is a query string, else 0.
    pub args_present: i32,
}

/// A reply that the C functions do not give.
#[derive(Debug, Clone, Copy, PartialEq, Eq, Structural)]
pub enum ReplyError {
    /// The return code is neither 0 nor -1.
    ReturnCode,
    /// The flag for the query string is neither 0 nor 1.
    ArgsPresent,
    /// The query string does not lie within the target.
    ArgsRange,
}

/// The meaning of a reply on the target `input`, with the output buffer `out`.
pub open spec fn reply_meaning(input: Seq<u8>, out: Seq<u8>, reply: Reply) -> Result<
    Option<(Seq<u8>, Option<Seq<u8>>)>,
    ReplyError,
> {
    let path = if reply.out_len <= out.len() {
        out.take(reply.out_len as int)
    } else {
        out
    };
    let end = reply.args_offset + reply.args_len;
    if reply.rc == -1 {
        Ok(None)
    } else if reply.rc != 0 {
        Err(ReplyError::ReturnCode)
    } else if reply.args_present == 0 {
        Ok(Some((path, None)))
    } else if reply.args_present != 1 {
        Err(ReplyError::ArgsPresent)
    } else if end > input.len() {
        Err(ReplyError::ArgsRange)
    } else {
        Ok(Some((path, Some(input.subrange(reply.args_offset as int, end)))))
    }
}

/// What a reply means: -1 rejects the target; 0 accepts it with the reported
/// part of the buffer as its path, and without a query or with the reported
/// part of the target as its query; anything else is an error, and so is a
/// query that does not lie within the target.
pub proof fn law_what_a_reply_means(input: Seq<u8>, out: Seq<u8>, reply: Reply)
    ensures
        ({
            let meaning = reply_meaning(input, out, reply);
            &&& meaning == Ok::<Option<(Seq<u8>, Option<Seq<u8>>)>, ReplyError>(None)
                <==> reply.rc == -1
            &&& meaning is Ok && reply.rc != -1 <==> reply.rc == 0 && (reply.args_present == 0 || (
            reply.args_present == 1 && reply.args_offset + reply.args_len <= input.len()))
            &&& meaning matches Ok(Some((path, args))) ==> {
                &&& path.len() <= out.len()
                &&& path == out.take(path.len() as int)
                &&& path.len() == reply.out_len || (path.len() == out.len() && out.len()
                    < reply.out_len)
                &&& args is Some <==> reply.args_present == 1
                &&& args matches Some(q) ==> {
                    &&& q.len() == reply.args_len
                    &&& reply.args_offset + q.len() <= input.len()
                    &&& forall|j: int|
                        0 <= j < q.len() ==> #[trigger] q[j] == input[reply.args_offset + j]
                }
            }
        }),
{
    assert(out.take(out.len() as int) =~= out);
}

/// Reads the reply of the C functions on the target `input`.
pub fn c_parse<'a>(input: &'a [u8], out: Vec<u8>, reply: Reply) -> (res: Result<
    Option<ParseResult<'a>>,
    ReplyError,
>)
    ensures
        match reply_meaning(input@, out@, reply) {
            Ok(meaning) => res matches Ok(r) && result_bytes(r) == meaning,
            Err(e) => res matches Err(f) && f == e,
        },
        reply.rc == -1 <==> (res matches Ok(r) && r is None),
        reply.rc != 0 && reply.rc != -1 <==> res == Err::<Option<ParseResult<'a>>, ReplyError>(
            ReplyError::ReturnCode,
        ),
        reply.rc == 0 && reply.args_present != 0 && reply.args_present != 1 <==> res == Err::<
            Option<ParseResult<'a>>,
            ReplyError,
        >(ReplyError::ArgsPresent),
        reply.rc == 0 && reply.args_present == 1 && reply.args_offset + reply.args_len
            > input@.len() <==> res == Err::<Option<ParseResult<'a>>, ReplyError>(
            ReplyError::ArgsRange,
        ),
        res matches Ok(Some(parsed)) ==> {
            &&& parsed.path@.len() == (if reply.out_len < out@.len() {
                reply.out_len as nat
            } else {
                out@.len()
            })
            &&& forall|j: int| 0 <= j < parsed.path@.len() ==> #[trigger] parsed.path@[j] == out@[j]
            &&& match parsed.args {
                Some(a) => {
                    &&& reply.args_present == 1
                    &&& a@ == input@.subrange(
                        reply.args_offset as int,
                        reply.args_offset + reply.args_len,
                    )
                },
                None => reply.args_present == 0,
            }
        },
{
    if reply.rc == -1 {
        return Ok(None);
    }
    if reply.rc != 0 {
        return Err(ReplyError::ReturnCode);
    }
    let input_len = input.len();
    let mut out = out;
    out.truncate(reply.out_len);
    let args = if reply.args_present == 0 {
        None
    } else if reply.args_present == 1 {
        match reply.args_offset.checked_add(reply.args_len) {
            Some(end) => if end <= input_len {
                Some(&input[reply.args_offset..end])
            } else {
                return Err(ReplyError::ArgsRange);
            },
            None => {
                return Err(ReplyError::ArgsRange);
            },
        }
    } else {
        return Err(ReplyError::ArgsPresent);
    };
    Ok(Some(ParseResult { path: Cow::Owned(out), args }))
}

/// The length that the C functions reported, where they accepted the target.
pub fn c_normalize(rc: i32, out_len: usize) -> (res: Option<usize>)
    ensures
        res == (if rc == 0 {
            Some(out_len)
        } else {
            None
        }),
{
    if rc == 0 {
        Some(out_len)
    } else {
        None
    }
}

/// Runs this parser; `None` means that it rejected the target.
pub fn rust_parse<'a>(input: &'a [u8], merge: bool) -> (res: Option<ParseResult<'a>>)
    ensures
        result_bytes(res) == outcome(input@, merge),
        match outcome(input@, merge) {
            Some((path, args)) => {
                &&& res matches Some(parsed)
                &&& parsed.path@ == path
                &&& match args {
                    Some(q) => parsed.args matches Some(a) && a@ == q,
                    None => parsed.args is None,
                }
            },
            None => res is None,
        },
{
    match parse_origin_form(input, merge) {
        Ok(parsed) => Some(ParseResult { path: parsed.path, args: parsed.args }),
        Err(_) => None,
    }
}

fn path_bytes<'b>(path: &'b Cow<'_, [u8]>) -> (bytes: &'b [u8])
    ensures
        bytes@ == path@,
{
    match path {
        Cow::Borrowed(b) => b,
        Cow::Owned(v) => v.as_slice(),
    }
}

fn same_bytes(a: &[u8], b: &[u8]) -> (res: bool)
    ensures
        res == (a@ == b@),
{
    if a.len() != b.len() {
        return false;
    }
    let mut i: usize = 0;
    while i < a.len()
        invariant
            a@.len() == b@.len(),
            i <= a@.len(),
            forall|j: int| 0 <= j < i ==> a@[j] == b@[j],
        decreases a@.len() - i,
    {
        if a[i] != b[i] {
            return false;
        }
        i = i + 1;
    }
    assert(a@ =~= b@);
    true
}

fn same_result(c: &Option<ParseResult>, r: &Option<ParseResult>) -> (res: bool)
    ensures
        res == (result_bytes(*c) == result_bytes(*r)),
{
    match (c, r) {
        (Some(c), Some(r)) => {
            let same_args = match (c.args, r.args) {
                (Some(a), Some(b)) => same_bytes(a, b),
                (None, None) => true,
                _ => false,
            };
            same_args && same_bytes(path_bytes(&c.path), path_bytes(&r.path))
        },
        (None, None) => true,
        _ => false,
    }
}

/// How the end of a call is written.
pub open spec fn written_outcome(r: Outcome) -> Seq<char> {
    match r {
        Outcome::Returned(Some(parsed)) => "Ok { path: "@ + listing(parsed.path@)
            + " = "@ + quoted(parsed.path@) + ", args: "@
            + written_args(parsed.args) + " }"@,
        Outcome::Returned(None) => "Rejected"@,
        Outcome::Panicked => "PANIC"@,
    }
}

/// Writes how a call ended.
pub fn fmt_res(r: &Outcome) -> (s: String)
    ensures
        s@ == written_outcome(*r),
{
    let mut s = String::new();
    match r {
        Outcome::Returned(Some(parsed)) => {
            let path = path_bytes(&parsed.path);
            s.push_str("Ok { path: ");
            push_listing(&mut s, path);
            s.push_str(" = ");
            s.push_str(escape(path).as_str());
            s.push_str(", args: ");
            s.push_str(fmt_args(parsed.args).as_str());
            s.push_str(" }");
        },
        Outcome::Returned(None) => {
            s.push_str("Rejected");
        },
        Outcome::Panicked => {
            s.push_str("PANIC");
        },
    }
    assert(s@ =~= written_outcome(*r));
    s
}

/// Whether both calls returned, and with the same result.
pub open spec fn agree(c: Outcome, r: Outcome) -> bool {
    match (c, r) {
        (Outcome::Returned(x), Outcome::Returned(y)) => result_bytes(x) == result_bytes(y),
        _ => false,
    }
}

/// Two calls agree exactly if both returned, and either both rejected the
/// target, or both accepted it with the same path, byte for byte, and with the
/// same query or both without one.
pub proof fn law_what_agreement_is(c: Outcome, r: Outcome)
    ensures
        agree(c, r) <==> match (c, r) {
            (Outcome::Returned(None), Outcome::Returned(None)) => true,
            (Outcome::Returned(Some(x)), Outcome::Returned(Some(y))) => {
                &&& x.path@ == y.path@
                &&& match (x.args, y.args) {
                    (Some(a), Some(b)) => a@ == b@,
                    (None, None) => true,
                    _ => false,
                }
            },
            _ => false,
        },
{
}

/// The report on two calls that do not agree.
pub open spec fn written_divergence(
    input: Seq<u8>,
    merge: bool,
    c: Outcome,
    r: Outcome,
) -> Seq<char> {
    "\n=== DIVERGENCE ===\ninput (len "@ + decimal(input.len()) + "):  "@
        + quoted(input) + "\nbytes:           "@ + listing(input)
        + "\nmerge_slashes:   "@ + (if merge {
        "true"@
    } else {
        "false"@
    }) + "\nC   result:      "@ + written_outcome(c) + "\nRust result:     "@ + written_outcome(r)
}

/// Compares how the two parsers ended on one target. Returns `None` where they
/// agree, else a report.
pub fn check(input: &[u8], merge: bool, c: &Outcome, r: &Outcome) -> (res: Option<String>)
    ensures
        match res {
            None => agree(*c, *r),
            Some(s) => !agree(*c, *r) && s@ == written_divergence(input@, merge, *c, *r),
        },
        res is None <==> {
            ||| *c matches Outcome::Returned(None) && *r matches Outcome::Returned(None)
            ||| {
                &&& *c matches Outcome::Returned(Some(x))
                &&& *r matches Outcome::Returned(Some(y))
                &&& x.path@ == y.path@
                &&& match (x.args, y.args) {
                    (Some(a), Some(b)) => a@ == b@,
                    (None, None) => true,
                    _ => false,
                }
            }
        },
{
    let same = match (c, r) {
        (Outcome::Returned(x), Outcome::Returned(y)) => same_result(x, y),
        _ => false,
    };
    if same {
        return None;
    }
    let mut s = String::new();
    s.push_str("\n=== DIVERGENCE ===\ninput (len ");
    push_decimal(&mut s, input.len());
    s.push_str("):  ");
    s.push_str(escape(input).as_str());
    s.push_str("\nbytes:           ");
    push_listing(&mut s, input);
    s.push_str("\nmerge_slashes:   ");
    if merge {
        s.push_str("true");
    } else {
        s.push_str("false");
    }
    s.push_str("\nC   result:      ");
    s.push_str(fmt_res(c).as_str());
    s.push_str("\nRust result:     ");
    s.push_str(fmt_res(r).as_str());
    assert(s@ =~= written_divergence(input@, merge, *c, *r));
    Some(s)
}

} // verus!
