//! The entry point: from a request target to its path and query string.

use crate::lemmas::{
    lemma_already_normal, lemma_delimiter_from, lemma_hash_from, lemma_rewrite_absolute,
    lemma_treatment,
};
use crate::model::{delimiter_from, needs_rewrite, outcome, path_text};
use crate::normalize::ngx_http_parse_complex_uri;
use crate::request::{ParseError, Request};
use crate::scan::ngx_http_parse_uri;
use std::borrow::Cow;
use vstd::prelude::*;

verus! {

/// The result of parsing an origin-form request target.
///
/// `path` and `args` correspond to the values that nginx first gives its
/// `$uri` and `$args` variables.
#[derive(Debug, PartialEq, Eq)]
#[non_exhaustive]
pub struct Parsed<'a> {
    /// The normalized path, without the query string.
    ///
    /// A path that needs no rewriting borrows the target; a rewritten one is
    /// owned.
    pub path: Cow<'a, [u8]>,
    /// The query string: the bytes behind the `?` that ends the path, up to a
    /// `#` or the end of the target. It borrows the target and is not decoded.
    ///
    /// `None` means that there is no query, which includes a `?` with nothing
    /// behind it. `Some(b"")` is the empty query before a fragment.
    pub args: Option<&'a [u8]>,
}

/// The bytes of an optional slice.
pub open spec fn bytes_of(args: Option<&[u8]>) -> Option<Seq<u8>> {
    match args {
        Some(a) => Some(a@),
        None => None,
    }
}

impl<'a> Clone for Parsed<'a> {
    fn clone(&self) -> (res: Self)
        ensures
            res.path@ == self.path@,
            res.path is Borrowed <==> self.path is Borrowed,
            res.args == self.args,
    {
        let path = match &self.path {
            Cow::Borrowed(b) => Cow::Borrowed(*b),
            Cow::Owned(v) => Cow::Owned(v.clone()),
        };
        Parsed { path, args: self.args }
    }
}

/// The query string of `input` that the passes noted in `r`.
fn parsed_args<'a>(r: &Request, input: &'a [u8]) -> (res: Option<&'a [u8]>)
    requires
        r.args.data != 0 ==> r.args.data + r.args.len <= input@.len(),
    ensures
        bytes_of(res) == (if r.args.data != 0 {
            Some(input@.subrange(r.args.data as int, r.args.data + r.args.len))
        } else {
            match r.args_start {
                Some(a) => if a < input@.len() {
                    Some(input@.subrange(a as int, input@.len() as int))
                } else {
                    None
                },
                None => None,
            }
        }),
{
    let uri_end = input.len();
    // An offset behind a `?` is never 0, so 0 means that nothing was noted.
    if r.args.data != 0 {
        return Some(&input[r.args.data..r.args.data + r.args.len]);
    }
    match r.args_start {
        Some(a) => if uri_end > a {
            Some(&input[a..uri_end])
        } else {
            None
        },
        None => None,
    }
}

/// Parses a single origin-form request target as nginx does.
///
/// `merge_slashes` corresponds to the nginx directive of that name: with
/// `true`, which is the default there, adjacent slashes count as one.
///
/// Returns the normalized path and the query string, or an error where the
/// target does not start with `/`, holds a control byte, a space or DEL, has a
/// `%` that opens no escape or an escape for NUL in its path, or leads out of
/// the root.
pub fn parse_origin_form<'a>(input: &'a [u8], merge_slashes: bool) -> (res: Result<
    Parsed<'a>,
    ParseError,
>)
    ensures
        match outcome(input@, merge_slashes) {
            Some((path, args)) => {
                &&& res matches Ok(parsed)
                &&& parsed.path@ == path
                &&& bytes_of(parsed.args) == args
                &&& match args {
                    Some(q) => parsed.args matches Some(a) && a@ == q,
                    None => parsed.args is None,
                }
                &&& parsed.path is Borrowed <==> !needs_rewrite(input@)
            },
            None => res is Err,
        },
{
    if input.len() == 0 {
        return Err(ParseError);
    }
    let mut r = Request::default();
    match ngx_http_parse_uri(&mut r, input) {
        Ok(_) => {},
        Err(e) => {
            return Err(e);
        },
    }
    proof {
        lemma_treatment(input@);
        lemma_delimiter_from(input@, 0);
        lemma_rewrite_absolute(path_text(input@), merge_slashes);
        let e = delimiter_from(input@, 0);
        if e < input@.len() {
            lemma_hash_from(input@, e + 1);
        }
    }
    let path = if r.complex_uri || r.quoted_uri || r.empty_path_in_uri {
        let mut out: Vec<u8> = vec![0u8; input.len()];
        match ngx_http_parse_complex_uri(&mut r, input, out.as_mut_slice(), merge_slashes) {
            Ok(_) => {},
            Err(e) => {
                return Err(e);
            },
        }
        out.truncate(r.uri.len);
        Cow::Owned(out)
    } else {
        proof {
            lemma_already_normal(input@, merge_slashes);
        }
        let len = match r.args_start {
            Some(a) => a - 1,
            None => input.len(),
        };
        Cow::Borrowed(&input[0..len])
    };
    Ok(Parsed { path, args: parsed_args(&r, input) })
}

} // verus!
