//! Inserting into a buffer.

use trunkls::texter::change::GridIndex;
use trunkls::texter::text::Text;



#[test]
fn into_empty() {
    let mut t = Text::new(String::new());
    assert_eq!(t.br_indexes.0, [0]);
    t.insert("Hello, World!", GridIndex { row: 0, col: 0 }, &mut ());

    assert_eq!(t.text, "Hello, World!");
    assert_eq!(t.br_indexes.0, [0]);
}

#[test]
fn in_start() {
    let mut t = Text::new(String::from("Apples"));
    assert_eq!(t.br_indexes.0, [0]);
    t.insert("Hello, World!", GridIndex { row: 0, col: 0 }, &mut ());

    assert_eq!(t.text, "Hello, World!Apples");
    assert_eq!(t.br_indexes.0, [0]);
}

#[test]
fn in_end() {
    let mut t = Text::new(String::from("Apples"));
    assert_eq!(t.br_indexes.0, [0]);
    t.insert("Hello, \nWorld!\n", GridIndex { row: 0, col: 6 }, &mut ());

    assert_eq!(t.text, "ApplesHello, \nWorld!\n");
    assert_eq!(t.br_indexes.0, [0, 13, 20]);
}

#[test]
fn end_of_multiline() {
    let mut t = Text::new(String::from("Apples\nBashdjad\nashdkasdh\nasdsad"));
    assert_eq!(t.br_indexes.0, [0, 6, 15, 25]);
    t.insert("Hello, \nWorld!\n", GridIndex { row: 3, col: 2 }, &mut ());

    assert_eq!(
        t.text,
        "Apples\nBashdjad\nashdkasdh\nasHello, \nWorld!\ndsad"
    );
    assert_eq!(t.br_indexes.0, [0, 6, 15, 25, 35, 42]);
}

#[test]
fn multi_line_in_middle() {
    let mut t = Text::new(String::from("ABC\nDEF"));
    assert_eq!(t.br_indexes.0, [0, 3]);
    t.insert("Hello,\n World!\n", GridIndex { row: 1, col: 1 }, &mut ());

    assert_eq!(t.text, "ABC\nDHello,\n World!\nEF");
    assert_eq!(t.br_indexes.0, [0, 3, 11, 19]);
}

#[test]
fn single_line_in_middle() {
    let mut t = Text::new(String::from("ABC\nDEF"));
    assert_eq!(t.br_indexes.0, [0, 3]);
    t.insert("Hello, World!", GridIndex { row: 0, col: 1 }, &mut ());

    assert_eq!(t.text, "AHello, World!BC\nDEF");
    assert_eq!(t.br_indexes.0, [0, 16]);
}

#[test]
fn multi_byte() {
    let mut t = Text::new("シュタインズ・ゲートは素晴らしいです。".into());
    assert_eq!(t.br_indexes.0, [0]);
    t.insert(
        "\nHello, ゲートWorld!\n",
        GridIndex { row: 0, col: 3 },
        &mut (),
    );

    assert_eq!(
        t.text,
        "シ\nHello, ゲートWorld!\nュタインズ・ゲートは素晴らしいです。"
    );
    assert_eq!(t.br_indexes.0, [0, 3, 26]);
    assert_eq!(
        &t.text[t.br_indexes.0[1] + 1..t.br_indexes.0[2]],
        "Hello, ゲートWorld!"
    );
    assert_eq!(
        &t.text[t.br_indexes.0[2] + 1..],
        "ュタインズ・ゲートは素晴らしいです。"
    )
}

#[test]
fn insert_long_text_single_byte() {
    let mut t = Text::new(
        "1234567\nABCD\nHELLO\nWORLD\nSOMELONGLINEFORTESTINGVARIOUSCASES\nAHAHHAHAH".into(),
    );

    assert_eq!(t.br_indexes.0, [0, 7, 12, 18, 24, 59]);

    t.insert(
        "Apple Juice\nBananaMilkshake\nWobbly",
        GridIndex { row: 4, col: 5 },
        &mut (),
    );

    assert_eq!(
        t.text,
        "1234567\nABCD\nHELLO\nWORLD\nSOMELApple Juice\nBananaMilkshake\nWobblyONGLINEFORTESTINGVARIOUSCASES\nAHAHHAHAH"
    );
    assert_eq!(t.br_indexes.0, [0, 7, 12, 18, 24, 41, 57, 93]);

    assert_eq!(
        &t.text[t.br_indexes.row_start(0)..t.br_indexes.0[1]],
        "1234567"
    );
    assert_eq!(
        &t.text[t.br_indexes.row_start(1)..t.br_indexes.0[2]],
        "ABCD"
    );
    assert_eq!(
        &t.text[t.br_indexes.row_start(2)..t.br_indexes.0[3]],
        "HELLO"
    );
    assert_eq!(
        &t.text[t.br_indexes.row_start(3)..t.br_indexes.0[4]],
        "WORLD"
    );
    assert_eq!(
        &t.text[t.br_indexes.row_start(4)..t.br_indexes.0[5]],
        "SOMELApple Juice"
    );
    assert_eq!(
        &t.text[t.br_indexes.row_start(5)..t.br_indexes.0[6]],
        "BananaMilkshake"
    );
    assert_eq!(
        &t.text[t.br_indexes.row_start(6)..t.br_indexes.0[7]],
        "WobblyONGLINEFORTESTINGVARIOUSCASES"
    );
    assert_eq!(&t.text[t.br_indexes.row_start(7)..], "AHAHHAHAH");
}

#[test]
fn insert_long_text_multi_byte() {
    let mut t = Text::new(
        "シュタ\nHello, ゲートWorld!\nインズ・ゲートは素晴らしいです。\nこんにちは世界！"
            .to_string(),
    );

    assert_eq!(t.br_indexes.0, [0, 9, 32, 81]);

    t.insert(
        "Olá, mundo!\nWaltuh Put the fork away Waltuh.",
        GridIndex { row: 2, col: 3 },
        &mut (),
    );

    assert_eq!(
        t.text,
        "シュタ\nHello, ゲートWorld!\nイOlá, mundo!\nWaltuh Put the fork away Waltuh.ンズ・ゲートは素晴らしいです。\nこんにちは世界！"
    );

    assert_eq!(t.br_indexes.0, [0, 9, 32, 48, 126]);

    assert_eq!(
        &t.text[t.br_indexes.row_start(0)..t.br_indexes.0[1]],
        "シュタ"
    );
    assert_eq!(
        &t.text[t.br_indexes.row_start(1)..t.br_indexes.0[2]],
        "Hello, ゲートWorld!"
    );
    assert_eq!(
        &t.text[t.br_indexes.row_start(2)..t.br_indexes.0[3]],
        "イOlá, mundo!"
    );
    assert_eq!(
        &t.text[t.br_indexes.row_start(3)..t.br_indexes.0[4]],
        "Waltuh Put the fork away Waltuh.ンズ・ゲートは素晴らしいです。"
    );
    assert_eq!(&t.text[t.br_indexes.row_start(4)..], "こんにちは世界！");
}
