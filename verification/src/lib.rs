//! Client-side transport for a line-oriented chat protocol over a duplex
//! byte stream.
//!
//! The crate has two layers:
//!
//! - [`framer`]: the pure splitting algorithm that turns one logical
//!   outbound message into wire-ready lines, each within the protocol's
//!   per-line byte limit and ending in the two-byte terminator.
//! - [`conn`]: the in-memory test transport with line-granular read and
//!   write, plus the redaction rule for diagnostic output.
//!
//! A string-joining helper lives in [`util`].

pub mod conn;
pub mod framer;
pub mod util;
