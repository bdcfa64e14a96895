//! Versioned, append-only storage of a document's node tree in one byte
//! container: node payloads, a chunk table per version, a backward-linked
//! chain of version indexes, and a footer at the very end.

pub mod codec;
pub mod meta;
pub mod node;
pub mod mask;
pub mod graph;
pub mod file;
pub mod laws;
pub mod stencil;
pub mod braille;

