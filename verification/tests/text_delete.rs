//! Deleting from a buffer.

use trunkls::texter::change::GridIndex;
use trunkls::texter::text::Text;

#[test]
fn nth_row() {
    let t = Text::new("Apple\nOrange\nBanana\nCoconut\nFruity".into());
    assert_eq!(t.br_indexes.0, [0, 5, 12, 19, 27]);
    assert_eq!(t.nth_row(0), 0);
    assert_eq!(t.nth_row(1), 6);
    assert_eq!(t.nth_row(2), 13);
    assert_eq!(t.nth_row(3), 20);
    assert_eq!(t.nth_row(4), 28);
}

#[test]
fn single_line() {
    let mut t = Text::new("Hello, World!".into());
    assert_eq!(t.br_indexes.0, [0]);
    t.delete(
        GridIndex { row: 0, col: 1 },
        GridIndex { row: 0, col: 6 },
        &mut (),
    );

    assert_eq!(t.br_indexes.0, [0]);
    assert_eq!(t.text, "H World!");
}

#[test]
fn multiline() {
    let mut t = Text::new("Hello, World!\nApples\n Oranges\nPears".into());
    assert_eq!(t.br_indexes.0, [0, 13, 20, 29]);
    t.delete(
        GridIndex { row: 1, col: 3 },
        GridIndex { row: 3, col: 2 },
        &mut (),
    );

    assert_eq!(t.br_indexes.0, [0, 13]);
    assert_eq!(t.text, "Hello, World!\nAppars");
}

#[test]
fn in_line_into_start() {
    let mut t = Text::new("Hello, World!\nApples\n Oranges\nPears".into());
    assert_eq!(t.br_indexes.0, [0, 13, 20, 29]);
    t.delete(
        GridIndex { row: 0, col: 1 },
        GridIndex { row: 0, col: 4 },
        &mut (),
    );

    assert_eq!(t.br_indexes.0, [0, 10, 17, 26]);
    assert_eq!(t.text, "Ho, World!\nApples\n Oranges\nPears");
}

#[test]
fn in_line_at_start() {
    let mut t = Text::new("Hello, World!\nApples\n Oranges\nPears".into());
    assert_eq!(t.br_indexes.0, [0, 13, 20, 29]);
    t.delete(
        GridIndex { row: 0, col: 0 },
        GridIndex { row: 0, col: 4 },
        &mut (),
    );

    assert_eq!(t.br_indexes.0, [0, 9, 16, 25]);
    assert_eq!(t.text, "o, World!\nApples\n Oranges\nPears");
}

#[test]
fn text_across_first_line() {
    let mut t = Text::new("Hello, World!\nApplbs\n Oranges\nPears".into());
    assert_eq!(t.br_indexes.0, [0, 13, 20, 29]);
    t.delete(
        GridIndex { row: 0, col: 3 },
        GridIndex { row: 1, col: 4 },
        &mut (),
    );

    assert_eq!(t.br_indexes.0, [0, 5, 14]);
    assert_eq!(t.text, "Helbs\n Oranges\nPears");
}

#[test]
fn across_last_line() {
    let mut t = Text::new("Hello, World!\nApplbs\n Oranges\nPears".into());
    assert_eq!(t.br_indexes.0, [0, 13, 20, 29]);
    t.delete(
        GridIndex { row: 2, col: 3 },
        GridIndex { row: 3, col: 2 },
        &mut (),
    );

    assert_eq!(t.br_indexes.0, [0, 13, 20]);
    assert_eq!(t.text, "Hello, World!\nApplbs\n Orars");
}

#[test]
fn in_line_at_middle() {
    let mut t = Text::new("Hello, World!\nApples\n Oranges\nPears".into());
    assert_eq!(t.br_indexes.0, [0, 13, 20, 29]);
    t.delete(
        GridIndex { row: 2, col: 1 },
        GridIndex { row: 2, col: 4 },
        &mut (),
    );

    assert_eq!(t.br_indexes.0, [0, 13, 20, 26]);
    assert_eq!(t.text, "Hello, World!\nApples\n nges\nPears");
}

#[test]
fn in_line_at_end() {
    let mut t = Text::new("Hello, World!\nApples\n Oranges\nPears".into());
    assert_eq!(t.br_indexes.0, [0, 13, 20, 29]);
    t.delete(
        GridIndex { row: 3, col: 1 },
        GridIndex { row: 3, col: 4 },
        &mut (),
    );

    assert_eq!(t.br_indexes.0, [0, 13, 20, 29]);
    assert_eq!(t.text, "Hello, World!\nApples\n Oranges\nPs");
}

#[test]
fn from_start() {
    let mut t = Text::new("Hello, World!\nApples\n Oranges\nPears".into());
    assert_eq!(t.br_indexes.0, [0, 13, 20, 29]);
    t.delete(
        GridIndex { row: 0, col: 0 },
        GridIndex { row: 0, col: 5 },
        &mut (),
    );

    assert_eq!(t.br_indexes.0, [0, 8, 15, 24]);
    assert_eq!(t.text, ", World!\nApples\n Oranges\nPears");
}

#[test]
fn from_end() {
    let mut t = Text::new("Hello, World!\nApples\n Oranges\nPears".into());
    assert_eq!(t.br_indexes.0, [0, 13, 20, 29]);
    t.delete(
        GridIndex { row: 3, col: 0 },
        GridIndex { row: 3, col: 5 },
        &mut (),
    );

    assert_eq!(t.br_indexes.0, [0, 13, 20, 29]);
    assert_eq!(t.text, "Hello, World!\nApples\n Oranges\n");
}

#[test]
fn text_br() {
    let mut t = Text::new("Hello, World!\nBadApple\n".into());
    assert_eq!(t.br_indexes.0, [0, 13, 22]);
    t.delete(
        GridIndex { row: 1, col: 8 },
        GridIndex { row: 2, col: 0 },
        &mut (),
    );

    assert_eq!(t.br_indexes.0, [0, 13]);
    assert_eq!(t.text, "Hello, World!\nBadApple");
}

#[test]
fn br_chain() {
    let mut t = Text::new("Hello, World!\n\n\nBadApple\n".into());
    assert_eq!(t.br_indexes.0, [0, 13, 14, 15, 24]);
    t.delete(
        GridIndex { row: 1, col: 0 },
        GridIndex { row: 2, col: 0 },
        &mut (),
    );

    assert_eq!(t.br_indexes.0, [0, 13, 14, 23]);
    assert_eq!(t.text, "Hello, World!\n\nBadApple\n");
}

#[test]
fn text_long_text_single_byte() {
    let mut t = Text::new(
        "Hello, World!\nBanana\nHuman\nInteresting\nSuper\nMohawk\nShrek is a great movie."
            .into(),
    );
    assert_eq!(t.br_indexes.0, [0, 13, 20, 26, 38, 44, 51]);
    t.delete(
        GridIndex { row: 1, col: 3 },
        GridIndex { row: 5, col: 2 },
        &mut (),
    );
    assert_eq!(t.br_indexes.0, [0, 13, 21]);
    assert_eq!(t.text, "Hello, World!\nBanhawk\nShrek is a great movie.");
}

#[test]
fn text_long_text_multi_byte() {
    let mut t = Text::new(
        "\
誰かがかつて世界が私をロールつもりである私に言いました
私は小屋で最もシャープなツールではありません
彼女は彼女の指と親指でダムのようなものを探していました
彼女の額の「L」の形をしました

さて、年が来て起動し、彼らが来て停止しません
ルールに供給され、私は地上走行をヒット
楽しみのために生きることはない意味がありませんでした
あなたの脳は、スマート取得しますが、あなたの頭はダム取得します

見るために、あまりを行うことがそんなに
だから、裏通りを取ると間違って何ですか？
あなたが行っていない場合は、あなたが知っていることは決してないだろう
あなたが輝くない場合は輝くことは決してないだろう"
            .into(),
    );
    assert_eq!(t.br_indexes.0,
        [0, 81, 148, 230, 274, 275, 342, 400, 479, 573, 574, 632, 693, 796]
    );
    t.delete(
        GridIndex { row: 1, col: 3 },
        GridIndex { row: 5, col: 0 },
        &mut (),
    );
    assert_eq!(t.br_indexes.0,
        [0, 81, 151, 209, 288, 382, 383, 441, 502, 605]
    );
    assert_eq!(
        t.text,
        "\
誰かがかつて世界が私をロールつもりである私に言いました
私さて、年が来て起動し、彼らが来て停止しません
ルールに供給され、私は地上走行をヒット
楽しみのために生きることはない意味がありませんでした
あなたの脳は、スマート取得しますが、あなたの頭はダム取得します

見るために、あまりを行うことがそんなに
だから、裏通りを取ると間違って何ですか？
あなたが行っていない場合は、あなたが知っていることは決してないだろう
あなたが輝くない場合は輝くことは決してないだろう"
    );
}
