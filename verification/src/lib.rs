//! Parse and normalize URL paths with nginx semantics.
//!
//! [`parse_origin_form`] takes an origin-form request target, which is a path
//! that starts with `/`, optionally followed by `?` and a query string. It
//! percent-decodes the path, resolves its `.` and `..` segments, and optionally
//! merges adjacent slashes. The query string is returned separately and left as
//! it stands. Other forms of a target are rejected.
//!
//! ```
//! use url_parse_nginx::parse_origin_form;
//!
//! let parsed = parse_origin_form(b"/docs/../hello%20world?x=1", true).unwrap();
//! assert_eq!(&*parsed.path, b"/hello world");
//! assert_eq!(parsed.args, Some(&b"x=1"[..]));
//! ```
//!
//! What a target means is defined in [`model`]; what follows from that for all
//! targets is proved in [`laws`]. The laws of [`path_laws`], [`target_laws`],
//! [`pass_laws`] and [`tool_laws`] say it in bytes, without the model's terms.
//! To write a normalized path again as nginx
//! does, pass it to `percent_encoding::percent_encode` with the set that
//! [`path_escape_set`] returns. That function asks for a `&'static` set, so
//! keep the set in a static, for example in a `LazyLock`:
//!
//! ```
//! use percent_encoding::{percent_encode, AsciiSet};
//! use std::sync::LazyLock;
//! use url_parse_nginx::path_escape_set;
//!
//! static PATH_ESCAPE_SET: LazyLock<AsciiSet> = LazyLock::new(path_escape_set);
//!
//! let encoded = percent_encode(b"/hello world", &PATH_ESCAPE_SET);
//! assert_eq!(encoded.to_string(), "/hello%20world");
//! ```

mod byte_lemmas;
pub mod chars;
pub mod corpus;
pub mod differential;
pub mod escape;
pub mod laws;
mod lemmas;
pub mod model;
pub mod normalize;
pub mod pass_laws;
pub mod path_laws;
mod progress;
pub mod report;
pub mod request;
pub mod scan;
pub mod target;
pub mod target_laws;
pub mod tool_laws;
pub mod workload;

pub use crate::escape::path_escape_set;
pub use crate::request::ParseError;
pub use crate::target::{parse_origin_form, Parsed};
