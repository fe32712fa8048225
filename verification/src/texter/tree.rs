//! A syntax tree of the `tree-sitter` crate as a sink: every edit of the
//! buffer is passed on to the tree, so that the next parse can reuse it.

use vstd::prelude::*;
use crate::texter::updateables::{edit_from_ctx, InputEdit, Record, UpdateContext, Updateable};

verus! {

/// `tree_sitter::Tree`, a parsed syntax tree. Nothing is known here of what
/// it holds.
#[verifier::external_type_specification]
#[verifier::external_body]
pub struct ExTree(tree_sitter::Tree);

/// `tree_sitter::Tree::edit`: the tree is told of an edit of the text it was
/// parsed from. The edit is handed over field by field as a
/// `tree_sitter::InputEdit`. Nothing is claimed of the tree afterwards.
#[verifier::external_body]
fn edit_tree(tree: &mut tree_sitter::Tree, edit: &InputEdit) {
    let (start, old_end, new_end) =
        (edit.start_position, edit.old_end_position, edit.new_end_position);
    tree.edit(&tree_sitter::InputEdit {
        start_byte: edit.start_byte,
        old_end_byte: edit.old_end_byte,
        new_end_byte: edit.new_end_byte,
        start_position: tree_sitter::Point { row: start.row, column: start.column },
        old_end_position: tree_sitter::Point { row: old_end.row, column: old_end.column },
        new_end_position: tree_sitter::Point { row: new_end.row, column: new_end.column },
    })
}

/// A syntax tree takes the record of an edit as the edit that
/// `edit_from_ctx` makes of it.
impl Updateable for tree_sitter::Tree {
    /// The edit addressed rows of the old index only.
    open spec fn ready_for(&self, rec: Record) -> bool {
        rec.within_old_rows()
    }

    fn update(&mut self, ctx: UpdateContext<'_>) {
        let edit = edit_from_ctx(ctx);
        edit_tree(self, &edit);
    }
}

} // verus!
