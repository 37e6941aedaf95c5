use std::borrow::Cow;
use url_parse_nginx::chars::usual;
use url_parse_nginx::corpus::{
    draw_merge, exhaustive_input, exhaustive_total, fixed_corpus, gen_input, Rng, ALPHABET,
    MAX_SUFFIX,
};
use url_parse_nginx::differential::{
    c_normalize, c_parse, check, fmt_res, rust_parse, Outcome, ParseResult, Reply, ReplyError,
};
use url_parse_nginx::parse_origin_form;
use url_parse_nginx::report::{escape, fmt_args};
use url_parse_nginx::workload::cases;

#[test]
fn ordinary_bytes() {
    for b in 0u8..=255 {
        let special = b <= 0x20 || b == 0x7f || b"#%+./?".contains(&b);
        assert_eq!(usual(b), !special);
    }
}

#[test]
fn generator_is_reproducible() {
    assert_eq!(Rng(1).next_u64(), 0x47e4_ce4b_896c_dd1d);
    let mut rng = Rng(0x9E37_79B9_7F4A_7C15);
    assert_eq!(rng.next_u64(), 0x0d83_b3e2_9a21_487a);
    assert_eq!(rng.0, 0x03f7_21df_fe39_b342);
    assert_eq!(Rng(7).below(10), 2);
    assert_eq!(Rng(0).next_u64(), 0);
}

#[test]
fn random_inputs() {
    let mut rng = Rng(0x9E37_79B9_7F4A_7C15);
    let mut buf = vec![1, 2, 3];
    gen_input(&mut rng, &mut buf);
    assert_eq!(buf, b"/\\e../");
    gen_input(&mut rng, &mut buf);
    assert_eq!(buf, b"#\\ %Za%.?/A%\xff/Z-/?E&:/E/.f\x01/z");
    gen_input(&mut rng, &mut buf);
    assert_eq!(buf, b"/.?%");
    gen_input(&mut rng, &mut buf);
    assert_eq!(buf, b"/=&&\x01&afe%f\x00-\x80g");
    for _ in 0..1000 {
        gen_input(&mut rng, &mut buf);
        assert!(buf.len() <= 32);
        assert!(buf.iter().all(|b| ALPHABET.contains(b)));
    }
}

#[test]
fn exhaustive_inputs() {
    assert_eq!(exhaustive_input(0, 0), b"/");
    assert_eq!(exhaustive_input(0x41, 1), b"/A");
    assert_eq!(exhaustive_input(0x43_42_41, 3), b"/ABC");
    let mut seen = vec![false; 256];
    for n in 0..256 {
        seen[exhaustive_input(n, 1)[1] as usize] = true;
    }
    assert!(seen.iter().all(|s| *s));
}

#[test]
fn exhaustive_totals() {
    assert_eq!(MAX_SUFFIX, 3);
    assert_eq!(exhaustive_total(0), 1);
    assert_eq!(exhaustive_total(1), 256);
    assert_eq!(exhaustive_total(2), 65_536);
    assert_eq!(exhaustive_total(3), 16_777_216);
}

#[test]
fn drawn_settings() {
    let mut rng = Rng(1);
    // 0x47e4_ce4b_896c_dd1d is odd.
    assert!(!draw_merge(&mut rng));
    let mut other = Rng(1);
    other.next_u64();
    assert_eq!(rng.0, other.0);
    // 0x0d83_b3e2_9a21_487a is even.
    assert!(draw_merge(&mut Rng(0x9E37_79B9_7F4A_7C15)));
}

#[test]
fn fixed_targets() {
    let corpus = fixed_corpus();
    assert_eq!(corpus.len(), 36);
    assert_eq!(corpus[0], "");
    assert_eq!(corpus[11], "/a/b/../../../c");
    assert_eq!(corpus[18], "/foo?a=b#c");
    assert_eq!(corpus[32].as_bytes(), b"/\\");
    assert_eq!(corpus[35], "/%2e./");
    let accepted = |t: &&&str| parse_origin_form(t.as_bytes(), true).is_ok();
    assert_eq!(corpus.iter().filter(accepted).count(), 24);
}

#[test]
fn quoting() {
    assert_eq!(escape(b""), "\"\"");
    assert_eq!(escape(b"/a b\"\\\x00\x7f\xff"), "\"/a b\\x22\\x5c\\x00\\x7f\\xff\"");
}

#[test]
fn query_report() {
    assert_eq!(fmt_args(None), "None");
    assert_eq!(fmt_args(Some(b"")), "Some([] = \"\")");
    assert_eq!(fmt_args(Some(b"a=\xff")), "Some([97, 61, 255] = \"a=\\xff\")");
}

fn reply(rc: i32, out_len: usize, args_offset: usize, args_len: usize, args_present: i32) -> Reply {
    Reply { rc, out_len, args_offset, args_len, args_present }
}

#[test]
fn replies() {
    let input = b"/a?bc";
    let r = c_parse(input, b"/a???".to_vec(), reply(0, 2, 3, 2, 1)).unwrap().unwrap();
    assert_eq!(&*r.path, b"/a");
    assert_eq!(r.args, Some(&b"bc"[..]));
    let r = c_parse(input, b"/a???".to_vec(), reply(0, 2, 0, 0, 0)).unwrap().unwrap();
    assert_eq!(r.args, None);
    let r = c_parse(input, b"/a".to_vec(), reply(0, 9, 0, 0, 0)).unwrap().unwrap();
    assert_eq!(&*r.path, b"/a");
    assert!(c_parse(input, Vec::new(), reply(-1, 0, 0, 0, 0)).unwrap().is_none());
    assert_eq!(
        c_parse(input, Vec::new(), reply(-2, 0, 0, 0, 0)).unwrap_err(),
        ReplyError::ReturnCode
    );
    assert_eq!(
        c_parse(input, Vec::new(), reply(0, 0, 0, 0, 2)).unwrap_err(),
        ReplyError::ArgsPresent
    );
    assert_eq!(
        c_parse(input, Vec::new(), reply(0, 0, 3, 3, 1)).unwrap_err(),
        ReplyError::ArgsRange
    );
    assert_eq!(
        c_parse(input, Vec::new(), reply(0, 0, usize::MAX, 1, 1)).unwrap_err(),
        ReplyError::ArgsRange
    );
    assert_eq!(c_normalize(0, 7), Some(7));
    assert_eq!(c_normalize(-1, 7), None);
}

#[test]
fn own_results() {
    let r = rust_parse(b"/x/../a?b", true).unwrap();
    assert_eq!(&*r.path, b"/a");
    assert_eq!(r.args, Some(&b"b"[..]));
    assert!(rust_parse(b"a", true).is_none());
}

#[test]
fn outcome_report() {
    let result = ParseResult { path: Cow::Borrowed(&b"/a"[..]), args: Some(&b"b"[..]) };
    assert_eq!(
        fmt_res(&Outcome::Returned(Some(result))),
        "Ok { path: [47, 97] = \"/a\", args: Some([98] = \"b\") }"
    );
    assert_eq!(fmt_res(&Outcome::Returned(None)), "Rejected");
    assert_eq!(fmt_res(&Outcome::Panicked), "PANIC");
}

fn returned<'a>(path: &'a [u8], args: Option<&'a [u8]>) -> Outcome<'a> {
    Outcome::Returned(Some(ParseResult { path: Cow::Borrowed(path), args }))
}

#[test]
fn comparison() {
    let rejected = Outcome::Returned(None);
    assert!(check(b"/", true, &returned(b"/", None), &returned(b"/", None)).is_none());
    assert!(check(b"", true, &rejected, &Outcome::Returned(None)).is_none());
    assert!(check(b"", true, &Outcome::Panicked, &Outcome::Panicked).is_some());
    assert!(check(b"", true, &rejected, &Outcome::Panicked).is_some());
    assert!(check(b"/", true, &returned(b"/", None), &returned(b"/", Some(b""))).is_some());
    assert!(check(b"/", true, &returned(b"/a", None), &returned(b"/b", None)).is_some());
    assert_eq!(
        check(b"/a", false, &returned(b"/a", None), &rejected).unwrap(),
        "\n=== DIVERGENCE ===\n\
         input (len 2):  \"/a\"\n\
         bytes:           [47, 97]\n\
         merge_slashes:   false\n\
         C   result:      Ok { path: [47, 97] = \"/a\", args: None }\n\
         Rust result:     Rejected"
    );
}

#[test]
fn timed_targets() {
    let cases = cases();
    assert_eq!(cases.len(), 4);
    assert!(cases.iter().all(|c| c.merge));
    assert!(cases.iter().all(|c| (1000..1013).contains(&c.input.len())));
    assert_eq!(cases[0].name, "simple (no normalization)");
    assert_eq!(&cases[0].input[..12], b"/abcdefghij/");
    assert_eq!(cases[1].name, "percent-decode");
    assert_eq!(&cases[1].input[..14], b"/%41%42%43%44/");
    assert_eq!(cases[2].name, "dot-dot resolution");
    assert_eq!(&cases[2].input[..11], b"/base/x/../");
    assert_eq!(cases[3].name, "slash merge");
    assert_eq!(&cases[3].input[..9], b"/a//b////");
    let path = |i: usize| parse_origin_form(&cases[i].input, true).unwrap().path;
    assert!(matches!(path(0), Cow::Borrowed(_)));
    assert!(path(1).starts_with(b"/ABCD/ABCD"));
    assert_eq!(&*path(2), b"/base/");
    assert!(path(3).starts_with(b"/a/b/a/b"));
}
