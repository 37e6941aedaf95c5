use std::borrow::Cow;
use url_parse_nginx::{parse_origin_form, ParseError};

fn norm(s: &str, merge: bool) -> Result<String, ParseError> {
    parse_origin_form(s.as_bytes(), merge).map(|n| String::from_utf8(n.path.into_owned()).unwrap())
}

/// The query string, where there is one.
fn args(s: &str, merge: bool) -> Option<String> {
    parse_origin_form(s.as_bytes(), merge)
        .unwrap()
        .args
        .map(|a| String::from_utf8(a.to_vec()).unwrap())
}

#[test]
fn simple_unchanged() {
    assert_eq!(norm("/", true).unwrap(), "/");
    assert_eq!(norm("/foo/bar", true).unwrap(), "/foo/bar");
}

#[test]
fn dot_segments() {
    assert_eq!(norm("/foo/./bar", true).unwrap(), "/foo/bar");
    assert_eq!(norm("/foo/../bar", true).unwrap(), "/bar");
    assert_eq!(norm("/a/b/../../c", true).unwrap(), "/c");
    assert_eq!(norm("/../", true), Err(ParseError)); // escapes root
}

#[test]
fn merge_slashes_toggle() {
    assert_eq!(norm("/a//b", true).unwrap(), "/a/b");
    assert_eq!(norm("/a//b", false).unwrap(), "/a//b");
}

#[test]
fn percent_decoding() {
    assert_eq!(norm("/%66oo", true).unwrap(), "/foo");
    assert_eq!(norm("/a%2fb", true).unwrap(), "/a/b"); // decoded '/', not merged
    assert_eq!(norm("/%2f/x", true).unwrap(), "/x");
    assert_eq!(norm("/%2e%2e/x", true), Err(ParseError)); // decoded ".." escapes
}

#[test]
fn encoded_dots() {
    assert_eq!(norm("/foo/%2e%2e/bar", true).unwrap(), "/bar");
    assert_eq!(norm("/foo%2f..%2fbar", true).unwrap(), "/bar");
    assert_eq!(norm("/foo%2f%2e%2e%2fbar", true).unwrap(), "/bar");
}

#[test]
fn query_split() {
    assert_eq!(norm("/foo?a=1", true).unwrap(), "/foo");
    assert_eq!(norm("/foo/../bar?x=%20", true).unwrap(), "/bar");
}

#[test]
fn invalid() {
    assert_eq!(norm("relative", true), Err(ParseError)); // must start with '/'
    assert_eq!(norm("*", true), Err(ParseError)); // must start with '/'
    assert_eq!(norm("/%zz", true), Err(ParseError)); // bad %XX
    assert_eq!(norm("/%00", true), Err(ParseError)); // null byte
}

#[test]
fn empty() {
    assert_eq!(norm("", true), Err(ParseError));
}

#[test]
fn simple_path_borrows_input() {
    // A path needing no normalization must not allocate.
    assert!(matches!(
        parse_origin_form(b"/foo/bar", true).unwrap().path,
        Cow::Borrowed(_)
    ));
    // The query string is excluded, still by borrowing.
    assert!(matches!(
        parse_origin_form(b"/foo?a=1", true).unwrap().path,
        Cow::Borrowed(_)
    ));
}

#[test]
fn parsed_path_is_owned() {
    assert!(matches!(
        parse_origin_form(b"/foo/../bar", true).unwrap().path,
        Cow::Owned(_)
    ));
    assert!(matches!(
        parse_origin_form(b"/%66oo", true).unwrap().path,
        Cow::Owned(_)
    ));
}

#[test]
fn args_returned() {
    // No query component.
    assert_eq!(args("/foo", true), None);
    assert_eq!(args("/foo/../bar", true), None); // complex, still no query

    // Simple path with a query.
    assert_eq!(args("/foo?a=1", true).as_deref(), Some("a=1"));
    // Complex path (normalized) with a query, terminated by end of input.
    assert_eq!(args("/foo/../bar?x=%20", true).as_deref(), Some("x=%20"));

    // A '#' fragment terminates the query (and the fragment is dropped).
    assert_eq!(args("/foo?a=1#frag", true).as_deref(), Some("a=1"));

    // A trailing '?' with nothing after it opens no query.
    assert_eq!(args("/foo?", true), None);
    // Present-but-empty query: '?' immediately followed by '#'.
    assert_eq!(args("/foo?#frag", true).as_deref(), Some(""));

    // The query string is never normalized, even when the path is.
    assert_eq!(args("/a/../b?p=%2e%2e", true).as_deref(), Some("p=%2e%2e"));
}

#[test]
fn args_borrow_input() {
    // args always borrows the input (Option<&[u8]>, no allocation).
    let input = b"/foo?a=1";
    let n = parse_origin_form(input, true).unwrap();
    let a = n.args.unwrap();
    assert!(std::ptr::eq(a.as_ptr(), input[5..].as_ptr()));
}
