//! Text synchronisation for a language server: a document buffer, the index of
//! its line breaks, and the edits that keep the two in step.

pub mod texter;
pub mod strs;
pub mod attr_state;
pub mod init;
pub mod lsp;
pub mod utils;
