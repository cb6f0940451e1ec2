//! Indolent JSON processing core.
//!
//! A three-stage pipeline over raw JSON bytes: a compactor that strips
//! insignificant whitespace and canonicalizes string escapes, a structural
//! parser that builds a flat node array over the compact bytes, and a strict
//! validator that audits the compact bytes against that node array.
//! Byte-string escape/unescape utilities and a branch-free four-digit hex
//! decoder round out the core.

pub mod compact;
pub mod parse;
pub mod readhex;
pub mod strings;
pub mod validate;
