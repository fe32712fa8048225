//! A syntax tree that follows the edits of a buffer.

use tree_sitter::{Parser, Tree};
use trunkls::texter::change::GridIndex;
use trunkls::texter::text::Text;

const PAGE: &str = "<html>\n  <head>\n    <link data-trunk rel=\"css\" href=\"a.css\">\n  </head>\n</html>\n";

fn parser() -> Parser {
    let mut p = Parser::new();
    p.set_language(&tree_sitter_html::LANGUAGE.into()).unwrap();
    p
}

fn same_as_fresh(text: &Text, tree: &Tree) {
    let mut p = parser();
    let updated = p.parse(text.text.as_str(), Some(tree)).unwrap();
    let fresh = p.parse(text.text.as_str(), None).unwrap();
    assert_eq!(updated.root_node().to_sexp(), fresh.root_node().to_sexp());
    assert_eq!(updated.root_node().end_byte(), text.text.len());
}

#[test]
fn a_tree_is_told_of_an_insertion() {
    let mut text = Text::new(PAGE.to_string());
    let mut tree = parser().parse(PAGE, None).unwrap();
    assert_eq!(tree.root_node().end_byte(), PAGE.len());
    text.insert(" data-no-minify\n     ", GridIndex { row: 2, col: 43 }, &mut tree);
    assert_eq!(
        text.text,
        "<html>\n  <head>\n    <link data-trunk rel=\"css\" href=\"a.css\" data-no-minify\n     >\n  </head>\n</html>\n"
    );
    // The tree has moved its end by what was put in, before any new parse.
    assert_eq!(tree.root_node().end_byte(), text.text.len());
    assert_eq!(tree.root_node().end_position().row, 6);
    same_as_fresh(&text, &tree);
}

#[test]
fn a_tree_is_told_of_a_deletion_and_a_replacement() {
    let mut text = Text::new(PAGE.to_string());
    let mut tree = parser().parse(PAGE, None).unwrap();
    text.delete(GridIndex { row: 1, col: 8 }, GridIndex { row: 2, col: 4 }, &mut tree);
    assert_eq!(
        text.text,
        "<html>\n  <head><link data-trunk rel=\"css\" href=\"a.css\">\n  </head>\n</html>\n"
    );
    assert_eq!(tree.root_node().end_byte(), text.text.len());
    same_as_fresh(&text, &tree);

    let mut tree = parser().parse(text.text.as_str(), None).unwrap();
    text.replace(
        "script\n  data-trunk src=\"a.js\"></script",
        GridIndex { row: 1, col: 9 },
        GridIndex { row: 1, col: 47 },
        &mut tree,
    );
    assert_eq!(
        text.text,
        "<html>\n  <head><script\n  data-trunk src=\"a.js\"></script>\n  </head>\n</html>\n"
    );
    assert_eq!(tree.root_node().end_byte(), text.text.len());
    same_as_fresh(&text, &tree);
}

#[test]
fn a_tree_is_told_of_a_new_text() {
    let mut text = Text::new(PAGE.to_string());
    let mut tree = parser().parse(PAGE, None).unwrap();
    text.replace_full("<p>\nx</p>".into(), &mut tree);
    assert_eq!(tree.root_node().end_byte(), 9);
    assert_eq!(tree.root_node().end_position().row, 1);
    same_as_fresh(&text, &tree);
}
