//! Query-matching core of a JSONPath-style lookup library.
//!
//! A compiled sequence of path criteria is evaluated against an in-memory
//! JSON-like tree; every node whose route from the root satisfies the
//! pattern is produced lazily, together with that route.

pub mod engine;
pub mod path;
pub mod value;
