//! Word-at-a-time UTF-8 validation.
//!
//! [`validate_utf8`] decides whether a byte buffer is well-formed UTF-8. When it is not, the
//! error names the length of the longest well-formed prefix and the number of bytes that make
//! up the malformed unit, so that a caller can skip them or wait for more input.
//!
//! Runs of ASCII are skipped in blocks of machine words, see [`word`] and [`ascii`]; everything
//! else goes through the decoder in [`decode`]. [`validate_utf8_with_stats`] counts in
//! [`Statistics`] what the fast path did, and [`validate_utf8_std`] is the plain validator to
//! measure against.
//!
//! What "well-formed" means is written down in [`encoding`], and [`laws`] relates that
//! definition to the validator's verdict.

pub mod ascii;
pub mod baseline;
pub mod decode;
pub mod encoding;
pub mod error;
pub mod laws;
pub mod stats;
pub mod validate;
pub mod word;

pub use baseline::validate_utf8_std;
pub use error::Utf8Error;
pub use stats::Statistics;
pub use validate::{validate_utf8, validate_utf8_aligned, validate_utf8_with_stats};
