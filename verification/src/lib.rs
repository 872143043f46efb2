//! Flattening of a structured value tree into one line per leaf.
//!
//! A [`value::Value`] is a finite tree of nulls, booleans, numbers, strings,
//! arrays and objects. A [`traverse::Traverser`] walks such a tree depth-first
//! in document order and hands out, one call at a time, a formatted line
//! `<path>: <rendered leaf>` for every leaf, where the path starts at the
//! root marker `$` and records the object keys and array indices on the way
//! down.

pub mod laws;
pub mod render;
pub mod traverse;
pub mod value;

pub use traverse::Traverser;
pub use value::Value;
