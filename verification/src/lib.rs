//! Structural comparison of JSON-like value trees.
//!
//! The library walks two tree-shaped values (scalars, ordered sequences,
//! key/value maps) in lockstep and reports every addition, removal and
//! change as a flat list of path-addressed records.  Array comparison is
//! either positional or order-insensitive, and float equality can be
//! exact or tolerant; every public operation carries a proved contract
//! over a mathematical model of the trees.

pub mod adapter;
pub mod engine;
pub mod float_bits;
pub mod laws;
pub mod model;
pub mod paths;
pub mod value;

pub use adapter::Json;
pub use engine::{DeepDiff, Diff};
pub use value::Value;
