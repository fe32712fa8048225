//! Columns and byte offsets in the three encodings.

use trunkls::texter::change::GridIndex;
use trunkls::texter::encodings::{utf16, utf32, utf8, Encoding};
use trunkls::texter::text::Text;

// a: 1 byte, 1 unit; あ: 3 bytes, 1 unit; 😀: 4 bytes, 2 units; b: 1 byte.
const LINE: &str = "aあ😀b";

#[test]
fn utf8_is_the_identity_on_boundaries() {
    for at in [0, 1, 4, 8, 9] {
        assert_eq!(utf8::to(LINE, at), at);
        assert_eq!(utf8::from(LINE, at), at);
    }
}

#[test]
fn utf16_columns_to_bytes() {
    assert_eq!(utf16::to(LINE, 0), 0);
    assert_eq!(utf16::to(LINE, 1), 1);
    assert_eq!(utf16::to(LINE, 2), 4);
    assert_eq!(utf16::to(LINE, 4), 8);
    assert_eq!(utf16::to(LINE, 5), 9);
    assert_eq!(utf16::to("", 0), 0);
}

#[test]
fn utf16_bytes_to_columns() {
    assert_eq!(utf16::from(LINE, 0), 0);
    assert_eq!(utf16::from(LINE, 1), 1);
    assert_eq!(utf16::from(LINE, 4), 2);
    assert_eq!(utf16::from(LINE, 8), 4);
    assert_eq!(utf16::from(LINE, 9), 5);
}

#[test]
fn utf32_columns_to_bytes() {
    assert_eq!(utf32::to(LINE, 0), 0);
    assert_eq!(utf32::to(LINE, 1), 1);
    assert_eq!(utf32::to(LINE, 2), 4);
    assert_eq!(utf32::to(LINE, 3), 8);
    assert_eq!(utf32::to(LINE, 4), 9);
    assert_eq!(utf32::to("", 0), 0);
}

#[test]
fn utf32_bytes_to_columns() {
    assert_eq!(utf32::from(LINE, 0), 0);
    assert_eq!(utf32::from(LINE, 1), 1);
    assert_eq!(utf32::from(LINE, 4), 2);
    assert_eq!(utf32::from(LINE, 8), 3);
    assert_eq!(utf32::from(LINE, 9), 4);
}

#[test]
fn encoding_dispatches_to_its_pair() {
    assert_eq!(Encoding::Utf8.to(LINE, 4), 4);
    assert_eq!(Encoding::Utf16.to(LINE, 4), 8);
    assert_eq!(Encoding::Utf32.to(LINE, 4), 9);
    assert_eq!(Encoding::Utf8.from(LINE, 8), 8);
    assert_eq!(Encoding::Utf16.from(LINE, 8), 4);
    assert_eq!(Encoding::Utf32.from(LINE, 8), 3);
}

#[test]
fn every_column_comes_back_from_its_byte_offset() {
    for (enc, columns) in [
        (Encoding::Utf8, vec![0, 1, 4, 8, 9]),
        (Encoding::Utf16, vec![0, 1, 2, 4, 5]),
        (Encoding::Utf32, vec![0, 1, 2, 3, 4]),
    ] {
        for col in columns {
            assert_eq!(enc.from(LINE, enc.to(LINE, col)), col);
        }
    }
}

#[test]
fn normalize_resolves_utf16_columns() {
    let mut t = Text::new_utf16("xy\r\naあ😀b\nz".into());
    assert_eq!(t.br_indexes.0, [0, 3, 13]);
    let mut pos = GridIndex { row: 1, col: 4 };
    pos.normalize(&mut t);
    assert_eq!(pos, GridIndex { row: 1, col: 8 });
    assert_eq!(t.text, "xy\r\naあ😀b\nz");
    assert_eq!(t.br_indexes.0, [0, 3, 13]);

    // The end of a row that CR LF terminates lies before the CR.
    let mut pos = GridIndex { row: 0, col: 2 };
    pos.normalize(&mut t);
    assert_eq!(pos, GridIndex { row: 0, col: 2 });
}

#[test]
fn denormalize_undoes_normalize() {
    for make in [Text::new, Text::new_utf16, Text::new_utf32] {
        let mut t = make("xy\r\naあ😀b\nz".into());
        for row in 0..3 {
            let columns = match (row, t.encoding) {
                (1, Encoding::Utf8) => vec![0, 1, 4, 8, 9],
                (1, Encoding::Utf16) => vec![0, 1, 2, 4, 5],
                (1, Encoding::Utf32) => vec![0, 1, 2, 3, 4],
                (0, _) => vec![0, 1, 2],
                _ => vec![0, 1],
            };
            for col in columns {
                let mut pos = GridIndex { row, col };
                pos.normalize(&mut t);
                pos.denormalize(&t);
                assert_eq!(pos, GridIndex { row, col });
            }
        }
    }
}

#[test]
fn normalize_makes_the_row_past_the_last() {
    let mut t = Text::new("abc".into());
    let mut pos = GridIndex { row: 1, col: 0 };
    pos.normalize(&mut t);
    assert_eq!(pos, GridIndex { row: 1, col: 0 });
    assert_eq!(t.text, "abc\n");
    assert_eq!(t.br_indexes.0, [0, 3]);

    let mut t = Text::new("abc\n".into());
    let mut pos = GridIndex { row: 2, col: 0 };
    pos.normalize(&mut t);
    assert_eq!(t.text, "abc\n\n");
    assert_eq!(t.br_indexes.0, [0, 3, 4]);
    pos.denormalize(&t);
    assert_eq!(pos, GridIndex { row: 2, col: 0 });
}
