use url_parse_nginx::{parse_origin_form, ParseError};

fn path(s: &[u8], merge: bool) -> Result<Vec<u8>, ParseError> {
    parse_origin_form(s, merge).map(|p| p.path.into_owned())
}

#[test]
fn path_is_normal() {
    for merge in [true, false] {
        let p = path(b"/a/./b//%2e%2e/c/../.d/..e/...", merge).unwrap();
        let text = String::from_utf8(p).unwrap();
        assert!(text.starts_with('/'));
        assert!(text[1..].split('/').all(|seg| seg != "." && seg != ".."));
    }
    assert_eq!(path(b"/a/./b//%2e%2e/c/../.d/..e/...", true).unwrap(), b"/a/.d/..e/...");
    assert_eq!(path(b"/a/./b//%2e%2e/c/../.d/..e/...", false).unwrap(), b"/a/b/.d/..e/...");
}

#[test]
fn path_never_longer() {
    let targets: [&[u8]; 4] = [b"/%41%42", b"/a//b/./c", b"/a/b/..", b"/plain"];
    for t in targets {
        assert!(path(t, false).unwrap().len() <= t.len());
    }
}

#[test]
fn simple_path_unchanged() {
    assert_eq!(path(b"/one/two.three+four?q", true).unwrap(), b"/one/two.three+four");
}

#[test]
fn path_has_no_nul() {
    assert_eq!(path(b"/a%00b", true), Err(ParseError));
    assert_eq!(path(b"/a\0b", true), Err(ParseError));
    assert!(!path(b"/a%01b", true).unwrap().contains(&0));
}

#[test]
fn query_is_verbatim() {
    let parsed = parse_origin_form(b"/%61?x=%41&y=../z?w#f", true).unwrap();
    assert_eq!(&*parsed.path, b"/a");
    assert_eq!(parsed.args, Some(&b"x=%41&y=../z?w"[..]));
}

#[test]
fn path_ignores_rest() {
    let expected = path(b"/a/../b", true).unwrap();
    assert_eq!(expected, b"/b");
    assert_eq!(path(b"/a/../b?x/../y", true).unwrap(), expected);
    assert_eq!(path(b"/a/../b#x/../y", true).unwrap(), expected);
}

#[test]
fn escapes_are_transparent() {
    assert_eq!(path(b"/a/../b", true), path(b"/%61%2F%2e.%2f%62", true));
    assert_eq!(path(b"/../b", true), path(b"/%2e%2E/b", true));
    // An escaped delimiter does not delimit.
    assert_eq!(path(b"/a%3fb%23c%25d", true).unwrap(), b"/a?b#c%d");
}

#[test]
fn fragment_is_dropped() {
    let plain = parse_origin_form(b"/a?b", true).unwrap();
    let with_fragment = parse_origin_form(b"/a?b#c?d", true).unwrap();
    assert_eq!(plain.path, with_fragment.path);
    assert_eq!(plain.args, with_fragment.args);
    assert_eq!(parse_origin_form(b"/a?", true).unwrap().args, None);
    assert_eq!(parse_origin_form(b"/a?#c", true).unwrap().args, Some(&b""[..]));
}

#[test]
fn merging_is_about_adjacent_slashes() {
    assert_eq!(path(b"/a/b/../c/", true), path(b"/a/b/../c/", false));
    assert_ne!(path(b"/a/%2fb", true), path(b"/a/%2fb", false));
}

#[test]
fn merging_accepts_no_more() {
    let merged = parse_origin_form(b"/a//b/../c?q", true).unwrap();
    let kept = parse_origin_form(b"/a//b/../c?q", false).unwrap();
    assert_eq!(&*merged.path, b"/a/c");
    assert_eq!(&*kept.path, b"/a//c");
    assert_eq!(merged.args, kept.args);
    // The converse fails.
    assert!(parse_origin_form(b"/a//../..", false).is_ok());
    assert!(parse_origin_form(b"/a//../..", true).is_err());
}

#[test]
fn leaving_the_root_is_rejected() {
    assert_eq!(path(b"/..", true), Err(ParseError));
    assert_eq!(path(b"/a/../../b/c/d", true), Err(ParseError));
    assert_eq!(path(b"//..", true), Err(ParseError));
    assert_eq!(path(b"//..", false).unwrap(), b"/");
}

#[test]
fn parse_error_message() {
    assert_eq!(ParseError.message(), "failed to parse request target");
}

#[test]
fn clone_keeps_the_parts() {
    let target = b"/a/../b?q";
    let parsed = parse_origin_form(target, true).unwrap();
    assert_eq!(parsed.clone(), parsed);
    let simple = parse_origin_form(b"/b?q", true).unwrap();
    assert_eq!(simple.clone(), simple);
}

#[test]
fn only_origin_form_is_accepted() {
    let targets: [&[u8]; 7] = [
        b"http://example.com/path",
        b"example.com:443",
        b"*",
        b"",
        b"/a b",
        b"/a?b c",
        b"/a#b\x7f",
    ];
    for t in targets {
        assert_eq!(path(t, true), Err(ParseError));
    }
}

#[test]
fn bad_escapes_are_rejected() {
    let targets: [&[u8]; 6] = [b"/%", b"/a%4", b"/%g0", b"/%0g/x", b"/a/%00/b", b"/%4?1"];
    for t in targets {
        assert_eq!(path(t, true), Err(ParseError));
    }
    // The query may hold anything behind a `%`.
    assert_eq!(path(b"/a?%zz%00", true).unwrap(), b"/a");
}

#[test]
fn escapes_are_decoded_once() {
    assert_eq!(path(b"/%2541%252e%252e", true).unwrap(), b"/%41%2e%2e");
}
