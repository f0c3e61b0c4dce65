//! Reading and writing the cross-crate maps of the source browser: the
//! text files (`.rfx`) that record, for each AST node of a crate, the source
//! file and position it spans, so that later crates can link to it.

pub mod text;
pub mod crosscratemap;
pub mod roundtrip;
