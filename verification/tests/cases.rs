use std::borrow::Cow;
use url_parse_nginx::parse_origin_form;

/// `input` is accepted with this path and query, and the path is owned or not.
fn accepted(input: &[u8], merge: bool, path: &[u8], args: Option<&[u8]>, owned: bool) {
    let parsed = parse_origin_form(input, merge).unwrap();
    assert_eq!(&*parsed.path, path, "path of {:?}", input);
    assert_eq!(parsed.args, args, "query of {:?}", input);
    assert_eq!(matches!(parsed.path, Cow::Owned(_)), owned, "ownership of {:?}", input);
}

fn rejected(input: &[u8], merge: bool) {
    assert!(parse_origin_form(input, merge).is_err(), "{:?}", input);
}

#[test]
fn tricky_targets() {
    rejected(b"", true);
    rejected(b"", false);
    accepted(b"/", true, b"/", None, false);
    accepted(b"/", false, b"/", None, false);
    accepted(b"//", true, b"/", None, true);
    accepted(b"//", false, b"//", None, true);
    accepted(b"///", true, b"/", None, true);
    accepted(b"///", false, b"///", None, true);
    accepted(b"/.", true, b"/", None, true);
    accepted(b"/.", false, b"/", None, true);
    rejected(b"/..", true);
    rejected(b"/..", false);
    rejected(b"/../", true);
    rejected(b"/../", false);
    accepted(b"/./", true, b"/", None, true);
    accepted(b"/./", false, b"/", None, true);
    accepted(b"/a/./b", true, b"/a/b", None, true);
    accepted(b"/a/./b", false, b"/a/b", None, true);
    accepted(b"/a/../b", true, b"/b", None, true);
    accepted(b"/a/../b", false, b"/b", None, true);
    accepted(b"/a/b/../../c", true, b"/c", None, true);
    accepted(b"/a/b/../../c", false, b"/c", None, true);
    rejected(b"/a/b/../../../c", true);
    rejected(b"/a/b/../../../c", false);
    rejected(b"/%2e%2e/", true);
    rejected(b"/%2e%2e/", false);
    accepted(b"/%2f", true, b"/", None, true);
    accepted(b"/%2f", false, b"//", None, true);
    accepted(b"/a%2fb", true, b"/a/b", None, true);
    accepted(b"/a%2fb", false, b"/a/b", None, true);
    rejected(b"/%00", true);
    rejected(b"/%00", false);
    accepted(b"/foo?bar", true, b"/foo", Some(b"bar"), false);
    accepted(b"/foo?bar", false, b"/foo", Some(b"bar"), false);
    accepted(b"/foo#frag", true, b"/foo", None, true);
    accepted(b"/foo#frag", false, b"/foo", None, true);
    accepted(b"/foo?a=b#c", true, b"/foo", Some(b"a=b"), true);
    accepted(b"/foo?a=b#c", false, b"/foo", Some(b"a=b"), true);
    accepted(b"/+", true, b"/+", None, false);
    accepted(b"/+", false, b"/+", None, false);
    accepted(b"/foo?", true, b"/foo", None, false);
    accepted(b"/foo?", false, b"/foo", None, false);
    accepted(b"/foo?#frag", true, b"/foo", Some(b""), true);
    accepted(b"/foo?#frag", false, b"/foo", Some(b""), true);
    accepted(b"/foo?x=%20", true, b"/foo", Some(b"x=%20"), false);
    accepted(b"/foo?x=%20", false, b"/foo", Some(b"x=%20"), false);
    accepted(b"/%20", true, b"/ ", None, true);
    accepted(b"/%20", false, b"/ ", None, true);
    accepted(b"/a..b", true, b"/a..b", None, false);
    accepted(b"/a..b", false, b"/a..b", None, false);
    accepted(b"/...", true, b"/...", None, true);
    accepted(b"/...", false, b"/...", None, true);
    accepted(b"/....", true, b"/....", None, true);
    accepted(b"/....", false, b"/....", None, true);
    accepted(b"/a/..", true, b"/", None, true);
    accepted(b"/a/..", false, b"/", None, true);
    rejected(b"relative", true);
    rejected(b"relative", false);
    rejected(b"/%zz", true);
    rejected(b"/%zz", false);
    rejected(b"/%2", true);
    rejected(b"/%2", false);
    rejected(b"/a%", true);
    rejected(b"/a%", false);
    accepted(b"/\\", true, b"/\\", None, false);
    accepted(b"/\\", false, b"/\\", None, false);
    accepted(b"/a\\b", true, b"/a\\b", None, false);
    accepted(b"/a\\b", false, b"/a\\b", None, false);
    rejected(b"/.%2e/", true);
    rejected(b"/.%2e/", false);
    rejected(b"/%2e./", true);
    rejected(b"/%2e./", false);
    accepted(b"/a//../b", true, b"/b", None, true);
    accepted(b"/a//../b", false, b"/a/b", None, true);
    rejected(b"//../a", true);
    accepted(b"//../a", false, b"/a", None, true);
    accepted(b"/%23x", true, b"/#x", None, true);
    accepted(b"/%23x", false, b"/#x", None, true);
    accepted(b"/%3fx", true, b"/?x", None, true);
    accepted(b"/%3fx", false, b"/?x", None, true);
    accepted(b"/%25x", true, b"/%x", None, true);
    accepted(b"/%25x", false, b"/%x", None, true);
    accepted(b"/%2B", true, b"/+", None, true);
    accepted(b"/%2B", false, b"/+", None, true);
    accepted(b"/a+b", true, b"/a+b", None, false);
    accepted(b"/a+b", false, b"/a+b", None, false);
    accepted(b"/+/x", true, b"/+/x", None, true);
    accepted(b"/+/x", false, b"/+/x", None, true);
    accepted(b"/+.x", true, b"/+.x", None, true);
    accepted(b"/+.x", false, b"/+.x", None, true);
    accepted(b"/a.b/c.d", true, b"/a.b/c.d", None, false);
    accepted(b"/a.b/c.d", false, b"/a.b/c.d", None, false);
    accepted(b"/a/.?q", true, b"/a/", Some(b"q"), true);
    accepted(b"/a/.?q", false, b"/a/", Some(b"q"), true);
    accepted(b"/a/..?q#f", true, b"/", Some(b"q"), true);
    accepted(b"/a/..?q#f", false, b"/", Some(b"q"), true);
    accepted(b"/a/.#f", true, b"/a/", None, true);
    accepted(b"/a/.#f", false, b"/a/", None, true);
    accepted(b"/a/b/..#f", true, b"/a/", None, true);
    accepted(b"/a/b/..#f", false, b"/a/", None, true);
    accepted(b"/a?/../b", true, b"/a", Some(b"/../b"), false);
    accepted(b"/a?/../b", false, b"/a", Some(b"/../b"), false);
    accepted(b"/a#?b", true, b"/a", None, true);
    accepted(b"/a#?b", false, b"/a", None, true);
    accepted(b"/..x/..%3f", true, b"/..x/..?", None, true);
    accepted(b"/..x/..%3f", false, b"/..x/..?", None, true);
    rejected(b"/%2E%2e%2F", true);
    rejected(b"/%2E%2e%2F", false);
    rejected(b"/a%?b", true);
    rejected(b"/a%?b", false);
    rejected(b"/a%4?b", true);
    rejected(b"/a%4?b", false);
    rejected(b"/a b", true);
    rejected(b"/a b", false);
    rejected(b"/a\x7f", true);
    rejected(b"/a\x7f", false);
    accepted(b"/\x80\xff", true, b"/\x80\xff", None, false);
    accepted(b"/\x80\xff", false, b"/\x80\xff", None, false);
    accepted(b"/%C3%a9", true, b"/\xc3\xa9", None, true);
    accepted(b"/%C3%a9", false, b"/\xc3\xa9", None, true);
    accepted(b"/a?%zz", true, b"/a", Some(b"%zz"), false);
    accepted(b"/a?%zz", false, b"/a", Some(b"%zz"), false);
    accepted(b"/a?b?c", true, b"/a", Some(b"b?c"), false);
    accepted(b"/a?b?c", false, b"/a", Some(b"b?c"), false);
}
