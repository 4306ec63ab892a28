//! A cookie jar for request handling: it parses the raw `Cookie` header
//! values of a request into a store of named records, tracks the original
//! set against later additions and removals, and computes the minimal set
//! of outbound `Set-Cookie` values that describes the changes.
//!
//! The per-record codec (percent-encoding aware parsing and encoding of a
//! single cookie) is delegated to the `cookie` crate; everything around it
//! is verified.

pub mod codec;
pub mod jar;
pub mod laws;
pub mod parse;
pub mod record;
