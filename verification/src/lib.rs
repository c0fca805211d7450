//! Schema compiler core for cross-language binary interoperability.
//!
//! The crate reads a small declarative definition language describing
//! structs, enumerations, tagged unions, fixed arrays, growable vectors,
//! pointers and function signatures, resolves all type references into a
//! flat, indexable schema, and computes the exact in-memory layout (field
//! offsets, sizes, alignment, optional padding) of every composite type.

pub mod generator;
pub mod optimization;
pub mod primitives;
pub mod schema;
pub mod tokenizer;
pub mod types;
pub mod vector;

pub use types::{Type, TypeData};
