# url-parse-nginx

Parses and normalizes URL paths with the semantics of nginx: percent-decoding,
resolution of `.` and `..` segments, and merging of adjacent slashes. The
library is written in Verus, and its behaviour is proved.

```rust
use url_parse_nginx::parse_origin_form;

let parsed = parse_origin_form(b"/docs/../hello%20world?x=1", true).unwrap();
assert_eq!(&*parsed.path, b"/hello world");
assert_eq!(parsed.args, Some(&b"x=1"[..]));
```

Only origin-form targets are in scope: a path that starts with `/`, with an
optional query behind a `?`.

## Layout

- `src/model.rs` says what a target means.
- `src/target.rs` holds `parse_origin_form`; `src/scan.rs` and
  `src/normalize.rs` are its two passes over the target.
- `src/laws.rs` states and proves what holds of every target: the path is
  normal, never longer than its text, and parses back once escaped. It also
  shows that the second pass can be left out where the first one says so.
- `src/escape.rs` builds the set of bytes to escape when a path is written
  again, for the `percent-encoding` crate.
- `src/corpus.rs`, `src/differential.rs`, `src/report.rs` and
  `src/workload.rs` serve the developer tools.
- `app/` holds those tools: a differential fuzzer and a benchmark, both
  against the C functions of nginx, which have to be linked in.
