use percent_encoding::{percent_encode, AsciiSet, CONTROLS};
use url_parse_nginx::{parse_origin_form, path_escape_set};

fn leaked_set() -> &'static AsciiSet {
    Box::leak(Box::new(path_escape_set()))
}

#[test]
fn set_holds_the_escaped_bytes() {
    let expected = CONTROLS
        .add(b' ')
        .add(b'"')
        .add(b'#')
        .add(b'%')
        .add(b'<')
        .add(b'>')
        .add(b'?')
        .add(b'\\')
        .add(b'^')
        .add(b'`')
        .add(b'{')
        .add(b'|')
        .add(b'}');
    assert_eq!(path_escape_set(), expected);
}

#[test]
fn encodes_a_space() {
    let encoded = percent_encode(b"/hello world", leaked_set());
    assert_eq!(encoded.to_string(), "/hello%20world");
}

#[test]
fn encodes_a_normalized_path() {
    let parsed = parse_origin_form(b"/docs/../hello%20world", true).unwrap();
    let encoded = percent_encode(parsed.path.as_ref(), leaked_set());
    assert_eq!(encoded.to_string(), "/hello%20world");
}

#[test]
fn parses_an_example() {
    let parsed = parse_origin_form(b"/docs/../hello%20world?x=1", true).unwrap();
    assert_eq!(&*parsed.path, b"/hello world");
    assert_eq!(parsed.args, Some(&b"x=1"[..]));
}

#[test]
fn escaped_path_parses_back() {
    let set = leaked_set();
    let targets: [&[u8]; 4] = [
        b"/a%20b/%3f%23%25/../%c3%a9?q",
        b"//x/%7f%01/.%2e/z#f",
        b"/%22%3c%3e%5c%5e%60%7b%7c%7d",
        b"/a//b/",
    ];
    for merge in [true, false] {
        for t in targets {
            let path = parse_origin_form(t, merge).unwrap().path.into_owned();
            let encoded = percent_encode(&path, set).to_string();
            let again = parse_origin_form(encoded.as_bytes(), merge).unwrap();
            assert_eq!(again.path.into_owned(), path);
            assert_eq!(again.args, None);
        }
    }
}

#[test]
fn every_byte_is_encoded_as_stated() {
    let set = leaked_set();
    for b in 0u8..=255 {
        let escaped = b <= 0x20 || b >= 0x7f || b"\"#%<>?\\^`{|}".contains(&b);
        let expected = if escaped {
            format!("%{:02X}", b)
        } else {
            String::from(b as char)
        };
        assert_eq!(percent_encode(&[b], set).to_string(), expected);
    }
}
