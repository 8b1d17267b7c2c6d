//! Wire codecs for the HTTP partial-content headers of RFC 7233.
//!
//! [`ByteRange`] is the value of a request's `Range` header and
//! [`ContentRangeSpec`] the value of a response's `Content-Range` header.
//! Each type parses one raw field value and writes itself back as the exact
//! wire string. Both grammars are stated as spec functions over `Seq<char>`,
//! and every executable function is proved against them.

pub mod content_range;
pub mod decimal;
pub mod range;
pub mod text;

pub use crate::content_range::ContentRangeSpec;
pub use crate::range::ByteRange;
