use url_parse_nginx::normalize::{finish_args, finish_done, ngx_http_parse_complex_uri};
use url_parse_nginx::request::{NgxStr, Request};
use url_parse_nginx::scan::ngx_http_parse_uri;
use url_parse_nginx::ParseError;

type Fields = (
    (usize, usize),
    (usize, usize),
    (usize, usize),
    Option<usize>,
    Option<usize>,
    [bool; 4],
);

fn fields(r: &Request) -> Fields {
    let pair = |s: &NgxStr| (s.len, s.data);
    (
        pair(&r.uri),
        pair(&r.args),
        pair(&r.exten),
        r.uri_ext,
        r.args_start,
        [r.complex_uri, r.quoted_uri, r.plus_in_uri, r.empty_path_in_uri],
    )
}

/// A record in which every field holds something.
fn used() -> Request {
    Request {
        uri: NgxStr { len: 11, data: 12 },
        args: NgxStr { len: 13, data: 14 },
        exten: NgxStr { len: 15, data: 16 },
        uri_ext: Some(17),
        args_start: Some(18),
        complex_uri: true,
        quoted_uri: true,
        plus_in_uri: true,
        empty_path_in_uri: false,
    }
}

fn rewrite(r: &mut Request, buf: &[u8], merge: bool) -> Result<Vec<u8>, ParseError> {
    let mut out = vec![0xaa; buf.len() + 1];
    ngx_http_parse_complex_uri(r, buf, &mut out, merge)?;
    out.truncate(r.uri.len);
    Ok(out)
}

/// What the second pass writes, without and with a slash in front.
fn both(buf: &[u8], merge: bool) -> [Result<Vec<u8>, ParseError>; 2] {
    [false, true].map(|empty_path_in_uri| {
        let mut r = Request { empty_path_in_uri, ..Request::default() };
        rewrite(&mut r, buf, merge)
    })
}

#[test]
fn done_notes_the_path() {
    let mut r = Request { uri_ext: Some(3), ..used() };
    assert!(finish_done(&mut r, 5).is_ok());
    assert_eq!(fields(&r), ((5, 12), (13, 14), (2, 3), None, Some(18), [true, true, true, false]));
    let mut r = Request { uri_ext: None, ..used() };
    assert!(finish_done(&mut r, 5).is_ok());
    assert_eq!(fields(&r), ((5, 12), (13, 14), (15, 16), None, Some(18), [true, true, true, false]));
}

#[test]
fn done_wraps_an_extension_behind_the_path() {
    let mut r = Request { uri_ext: Some(5), ..Request::default() };
    assert!(finish_done(&mut r, 3).is_ok());
    assert_eq!((r.exten.data, r.exten.len), (5, usize::MAX - 1));
    assert_eq!(r.uri.len, 3);
    assert_eq!(r.uri_ext, None);
}

#[test]
fn args_start_where_the_record_says() {
    let mut r = Request { args_start: Some(1), ..Request::default() };
    assert!(finish_args(&mut r, b"/a?b#c", 2, 3).is_ok());
    assert_eq!((r.args.data, r.args.len), (1, 3));
    assert_eq!(r.args_start, None);
    assert_eq!(r.uri.len, 2);
}

#[test]
fn args_without_a_hash_stay_open() {
    let mut r = Request { args_start: Some(3), ..Request::default() };
    assert!(finish_args(&mut r, b"/a?b", 2, 3).is_ok());
    assert_eq!((r.args.data, r.args.len), (0, 0));
    assert_eq!(r.args_start, Some(3));
    // Nor is anything found behind the end, or needed where nothing is found.
    let mut r = Request::default();
    assert!(finish_args(&mut r, b"/a#", 2, 9).is_ok());
    assert!(finish_args(&mut r, b"/a", 2, 0).is_ok());
    assert_eq!((r.args.data, r.args.len, r.args_start), (0, 0, None));
}

#[test]
fn refused_target_leaves_the_record() {
    for t in [&b"relative"[..], b"*", b""] {
        let mut r = Request::default();
        assert_eq!(ngx_http_parse_uri(&mut r, t).is_ok(), t.is_empty());
        assert_eq!(fields(&r), fields(&Request::default()));
        let mut r = used();
        assert_eq!(ngx_http_parse_uri(&mut r, t).is_ok(), t.is_empty());
        assert_eq!(fields(&r), fields(&used()));
    }
}

#[test]
fn refused_byte_ends_the_scan() {
    let mut r = Request::default();
    assert!(ngx_http_parse_uri(&mut r, b"/a+b.c d#").is_err());
    assert_eq!(fields(&r), ((0, 0), (0, 0), (0, 0), Some(5), None, [false, false, true, false]));
    let mut r = used();
    assert!(ngx_http_parse_uri(&mut r, b"/a/b?c\x7f").is_err());
    assert_eq!(fields(&r), ((11, 12), (13, 14), (15, 16), None, Some(5), [true, true, true, false]));
}

#[test]
fn scan_notes() {
    let mut r = Request::default();
    assert!(ngx_http_parse_uri(&mut r, b"/a.b/c.de+f?q").is_ok());
    assert_eq!(fields(&r), ((0, 0), (0, 0), (0, 0), Some(7), Some(12), [false, false, true, false]));
    let mut r = Request::default();
    assert!(ngx_http_parse_uri(&mut r, b"/a/%41").is_ok());
    assert_eq!(fields(&r), ((0, 0), (0, 0), (0, 0), None, None, [false, true, false, false]));
}

#[test]
fn failed_rewriting_keeps_the_results() {
    for t in [&b"/a.b%"[..], b"/a.b%4", b"/a+%zz", b"/+%00", b"/../a", b"/..", b"/..?q", b"/..%2f"] {
        let mut r = used();
        assert!(rewrite(&mut r, t, true).is_err());
        let (uri, args, exten, _, args_start, flags) = fields(&r);
        assert_eq!((uri, args, exten), ((11, 12), (13, 14), (15, 16)));
        assert_eq!(args_start, None);
        assert_eq!(flags, [true, true, true, false]);
        let mut r = Request::default();
        assert!(rewrite(&mut r, t, true).is_err());
        assert!(!r.complex_uri);
    }
    let mut r = Request::default();
    assert!(rewrite(&mut r, b"/a.b%", true).is_err());
    assert_eq!(fields(&r), ((0, 0), (0, 0), (0, 0), Some(3), None, [false; 4]));
    let mut r = Request::default();
    assert!(rewrite(&mut r, b"/a+%4", true).is_err());
    assert_eq!(fields(&r), ((0, 0), (0, 0), (0, 0), None, None, [false, true, true, false]));
}

#[test]
fn failed_rewriting_tells_what_was_read() {
    // The extension, and whether an escape or a plus sign was read.
    let rows: [(&[u8], bool, Option<usize>, bool, bool); 13] = [
        (b"%", false, None, false, false),
        (b"%?", false, None, true, false),
        (b".%", false, Some(1), false, false),
        (b"a.+%", false, Some(2), false, true),
        (b"a.b%", true, Some(3), false, false),
        (b"/a.b%4", false, Some(3), true, false),
        (b"/a.b/%zz+", false, None, true, false),
        (b"/x/../a.%2b%00", false, Some(3), true, true),
        (b"/%41+.c%g", false, Some(4), true, true),
        (b"/../a.b+", false, None, false, false),
        (b"/+/../../a.b%41", false, None, false, true),
        (b"/..%2fa.b+", false, None, true, false),
        (b"/a/../..?+%41", false, None, false, false),
    ];
    for (t, empty_path_in_uri, uri_ext, quoted, plus) in rows {
        let mut r = Request { empty_path_in_uri, ..Request::default() };
        assert!(rewrite(&mut r, t, true).is_err());
        assert_eq!(
            fields(&r),
            ((0, 0), (0, 0), (0, 0), uri_ext, None, [false, quoted, plus, empty_path_in_uri])
        );
    }
}

#[test]
fn rewriting_takes_any_buffer() {
    let ok = |s: &[u8]| Ok(s.to_vec());
    let rows: [(&[u8], Result<Vec<u8>, ParseError>, Result<Vec<u8>, ParseError>); 14] = [
        (b"", ok(b""), ok(b"/")),
        (b"abc", ok(b"abc"), ok(b"/abc")),
        (b"..", ok(b".."), ok(b"/..")),
        (b"./a", ok(b"./a"), ok(b"/./a")),
        (b"a/b", ok(b"a/b"), ok(b"/a/b")),
        (b"a/..", Err(ParseError), ok(b"/")),
        (b"abc/../d", Err(ParseError), ok(b"/d")),
        (b"abc/../..", Err(ParseError), Err(ParseError)),
        (b"a/b/../c", ok(b"a/c"), ok(b"/a/c")),
        (b"/a/..", ok(b"/"), ok(b"//")),
        (b"/..", Err(ParseError), ok(b"/")),
        (b"%41%2f.", ok(b"A/"), ok(b"/A/")),
        (b"?q", ok(b""), ok(b"/")),
        (b" \x00#x", ok(b" \x00"), ok(b"/ \x00")),
    ];
    for (t, plain, rooted) in rows {
        assert_eq!(both(t, true), [plain, rooted]);
    }
    assert_eq!(both(b"//..", true), [Err(ParseError), Ok(b"/".to_vec())]);
    assert_eq!(both(b"//..", false), [Ok(b"/".to_vec()), Ok(b"//".to_vec())]);
}

#[test]
fn rewriting_leaves_the_rest_of_the_output() {
    for t in [&b"/a/b/.."[..], b"/a/%zz"] {
        let mut out = vec![0xaa; t.len() + 3];
        let _ = ngx_http_parse_complex_uri(&mut Request::default(), t, &mut out, true);
        assert_eq!(&out[t.len()..], [0xaa; 3]);
    }
}

#[test]
fn rewriting_notes_extension_and_query() {
    let mut r = used();
    assert_eq!(rewrite(&mut r, b"/x/../a.b%2Ec?q#f", true).unwrap(), b"/a.b.c");
    assert_eq!(fields(&r), ((6, 12), (1, 14), (1, 5), None, None, [true, true, true, false]));
    let mut r = Request::default();
    assert_eq!(rewrite(&mut r, b"...a", true).unwrap(), b"...a");
    assert_eq!(fields(&r), ((4, 0), (0, 0), (1, 3), None, None, [false; 4]));
    let mut r = Request::default();
    assert_eq!(rewrite(&mut r, b"/...a", true).unwrap(), b"/...a");
    assert_eq!(fields(&r), ((5, 0), (0, 0), (0, 0), None, None, [false; 4]));
    let mut r = Request::default();
    assert_eq!(rewrite(&mut r, b"/....a", true).unwrap(), b"/....a");
    assert_eq!(fields(&r), ((6, 0), (0, 0), (1, 5), None, None, [false; 4]));
    let mut r = Request::default();
    assert_eq!(rewrite(&mut r, b"/..a", true).unwrap(), b"/..a");
    assert_eq!(fields(&r), ((4, 0), (0, 0), (0, 0), None, None, [false; 4]));
}

#[test]
fn second_pass_ignores_the_record() {
    for t in [&b"/a/./b.c?q"[..], b"/..", b"x/y?z", b"/%zz"] {
        let mut fresh = Request::default();
        let mut old = used();
        assert_eq!(rewrite(&mut fresh, t, true), rewrite(&mut old, t, true));
        assert_eq!(fresh.args_start, old.args_start);
    }
}

#[test]
fn passes_agree() {
    for t in [&b""[..], b"/", b"/a.b/c+d.e?q=%2e", b"/a/b?", b"/+a.b."] {
        let mut first = Request::default();
        assert!(ngx_http_parse_uri(&mut first, t).is_ok());
        assert!(!first.complex_uri && !first.quoted_uri);
        for merge in [true, false] {
            let mut second = Request::default();
            let path = rewrite(&mut second, t, merge).unwrap();
            let end = t.iter().position(|&b| b == b'?').unwrap_or(t.len());
            assert_eq!(path, &t[..end]);
            assert_eq!(second.args_start, first.args_start);
            assert_eq!(second.plus_in_uri, first.plus_in_uri);
            if let Some(e) = first.uri_ext {
                assert_eq!(second.exten.data, e);
            } else {
                assert_eq!(second.exten.data, 0);
            }
        }
    }
}
