//! The record that the two passes over a target fill in.

use vstd::prelude::*;

verus! {

/// An error returned when a request target cannot be parsed.
#[derive(Debug, Clone, Copy, PartialEq, Eq, Structural)]
pub struct ParseError;

impl ParseError {
    /// The message for a human reader.
    pub fn message(&self) -> (s: String)
        ensures
            s@ == "failed to parse request target"@,
    {
        "failed to parse request target".to_owned()
    }
}

/// A length and an offset. Which buffer the offset points into depends on the
/// field that holds the pair.
#[derive(Debug, Clone, Copy)]
pub struct NgxStr {
    pub len: usize,
    pub data: usize,
}

/// What the passes have found out about a target.
#[derive(Debug)]
pub struct Request {
    /// The normalized path: its length, as an offset into the output.
    pub uri: NgxStr,
    /// The query string that a `#` ends, as an offset into the target.
    pub args: NgxStr,
    /// The extension of the last segment, as an offset into the output.
    pub exten: NgxStr,
    /// Where an extension starts, while the last segment is being read.
    pub uri_ext: Option<usize>,
    /// Where the query string starts in the target, if nothing ended it yet.
    pub args_start: Option<usize>,
    /// The path holds a dot segment, a double slash or a fragment.
    pub complex_uri: bool,
    /// The path holds an escape.
    pub quoted_uri: bool,
    /// The path holds a plus sign.
    pub plus_in_uri: bool,
    /// The target has no path of its own, so the path is given a slash in front. A target in
    /// origin form always has one.
    pub empty_path_in_uri: bool,
}

impl Default for Request {
    fn default() -> (r: Request)
        ensures
            r == Request::fresh(),
            r.uri.len == 0 && r.uri.data == 0,
            r.args.len == 0 && r.args.data == 0,
            r.exten.len == 0 && r.exten.data == 0,
            r.uri_ext is None && r.args_start is None,
            !r.complex_uri && !r.quoted_uri && !r.plus_in_uri && !r.empty_path_in_uri,
    {
        Request {
            uri: NgxStr { len: 0, data: 0 },
            args: NgxStr { len: 0, data: 0 },
            exten: NgxStr { len: 0, data: 0 },
            uri_ext: None,
            args_start: None,
            complex_uri: false,
            quoted_uri: false,
            plus_in_uri: false,
            empty_path_in_uri: false,
        }
    }
}

impl Request {
    /// The record before anything was read.
    pub open spec fn fresh() -> Request {
        Request {
            uri: NgxStr { len: 0, data: 0 },
            args: NgxStr { len: 0, data: 0 },
            exten: NgxStr { len: 0, data: 0 },
            uri_ext: None,
            args_start: None,
            complex_uri: false,
            quoted_uri: false,
            plus_in_uri: false,
            empty_path_in_uri: false,
        }
    }
}

} // verus!
