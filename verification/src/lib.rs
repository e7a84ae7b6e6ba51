//! A small git-like object store: the binary layout of the staging index,
//! tree objects, object naming by SHA-1 and the text listings built from them.

pub mod wire;
pub mod text;
pub mod index;
pub mod objects;
pub mod staging;
