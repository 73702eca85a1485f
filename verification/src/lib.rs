//! A verified hex-dump formatter.
//!
//! Binary data is rendered as text lines: an eight-digit lowercase
//! hexadecimal offset label, then eight byte-pair fields, sixteen bytes
//! per line.  The crate provides the formatter itself, the byte-budget
//! accounting of the chunked read loop, and the command-line argument
//! parser; reading the file and writing the dump are left to the caller.

pub mod args;
pub mod decode;
pub mod format;
pub mod hex;
pub mod laws;
pub mod session;
