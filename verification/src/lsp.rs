//! What the server offers at a place in a page.

pub mod completions;
pub mod docs;
pub mod hover;
