//! The document buffer and everything that keeps its line-break index in step
//! with it.

pub mod boundaries;
pub mod br_indexes;
pub mod change;
pub mod encodings;
pub mod laws;
pub mod lines;
pub mod model;
pub mod strings;
pub mod text;
pub mod tree;
pub mod updateables;
pub mod utils;
