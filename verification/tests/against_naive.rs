//! Every edit of a sample text, held against the same edit made on a plain
//! string and a scan of the result.

use trunkls::texter::br_indexes::BrIndexes;
use trunkls::texter::change::GridIndex;
use trunkls::texter::text::Text;

const SAMPLE: &str = "aé\r\n\nシ😀b\rc\n";
const PIECES: [&str; 8] = ["", "x", "\n", "\r\n", "a\rb", "é\nü😀", "\r", "\n\n"];

/// Every place of `t`, with the byte at which it lies.
fn places(t: &Text) -> Vec<(GridIndex, usize)> {
    let mut out = Vec::new();
    for row in 0..t.br_indexes.row_count() {
        let line = t.get_row(row);
        let start = t.br_indexes.row_start(row);
        for col in 0..=line.len() {
            if line.is_char_boundary(col) {
                out.push((GridIndex { row, col }, start + col));
            }
        }
    }
    out
}

/// Whether the edit brings a CR directly in front of an LF.
fn joins_pair(before: &str, sb: usize, eb: usize, piece: &str, after: &str) -> bool {
    let (b, a) = (before.as_bytes(), after.as_bytes());
    (sb >= 1 && b[sb - 1] == b'\r' && sb < a.len() && a[sb] == b'\n')
        || (piece.ends_with('\r') && eb < b.len() && b[eb] == b'\n')
}

/// The index belongs to the text: its entries ascend and point at
/// terminators, and no terminator is without one.
fn belongs(index: &[usize], text: &str) {
    let bytes = text.as_bytes();
    assert_eq!(index[0], 0);
    for pair in index[1..].windows(2) {
        assert!(pair[0] < pair[1]);
    }
    for &at in &index[1..] {
        assert!(matches!(bytes[at], b'\n' | b'\r'));
    }
    for (p, &byte) in bytes.iter().enumerate() {
        let has_entry = index[1..].contains(&p);
        match byte {
            b'\n' => assert!(has_entry),
            b'\r' => assert!(has_entry || bytes.get(p + 1) == Some(&b'\n')),
            _ => assert!(!has_entry),
        }
    }
}

fn check(t: &Text, before: &str, sb: usize, eb: usize, piece: &str) {
    let mut naive = before.to_string();
    naive.replace_range(sb..eb, piece);
    assert_eq!(t.text, naive);
    belongs(&t.br_indexes.0, &naive);
    if !joins_pair(before, sb, eb, piece, &naive) {
        assert_eq!(t.br_indexes, BrIndexes::new(&naive));
    }
    assert_eq!(t.old_br_indexes, BrIndexes::new(before));
}

#[test]
fn the_sample_is_indexed_as_expected() {
    let t = Text::new(SAMPLE.into());
    assert_eq!(t.br_indexes.0, [0, 4, 5, 14, 16]);
    assert_eq!(places(&t).len(), 3 + 1 + 4 + 2 + 1);
}

#[test]
fn every_replacement_is_the_naive_one() {
    let all = places(&Text::new(SAMPLE.into()));
    for &(start, sb) in &all {
        for &(end, eb) in &all {
            if sb > eb {
                continue;
            }
            for piece in PIECES {
                let mut t = Text::new(SAMPLE.into());
                t.replace(piece, start, end, &mut ());
                check(&t, SAMPLE, sb, eb, piece);
            }
        }
    }
}

#[test]
fn every_deletion_is_the_naive_one() {
    let all = places(&Text::new(SAMPLE.into()));
    for &(start, sb) in &all {
        for &(end, eb) in &all {
            if sb > eb {
                continue;
            }
            let mut t = Text::new(SAMPLE.into());
            t.delete(start, end, &mut ());
            check(&t, SAMPLE, sb, eb, "");
        }
    }
}

#[test]
fn every_insertion_is_the_naive_one() {
    for &(at, b) in &places(&Text::new(SAMPLE.into())) {
        for piece in PIECES {
            let mut t = Text::new(SAMPLE.into());
            t.insert(piece, at, &mut ());
            check(&t, SAMPLE, b, b, piece);
        }
    }
}

#[test]
fn edits_in_a_row_keep_the_index_with_the_text() {
    let mut t = Text::new(SAMPLE.into());
    let mut naive = SAMPLE.to_string();
    for round in 0..40usize {
        let all = places(&t);
        let (start, sb) = all[(round * 7) % all.len()];
        let (end, eb) = all[(round * 13 + 5) % all.len()];
        let ((start, sb), (end, eb)) =
            if sb <= eb { ((start, sb), (end, eb)) } else { ((end, eb), (start, sb)) };
        let piece = PIECES[round % PIECES.len()];
        match round % 3 {
            0 => {
                t.replace(piece, start, end, &mut ());
                naive.replace_range(sb..eb, piece);
            }
            1 => {
                t.insert(piece, start, &mut ());
                naive.insert_str(sb, piece);
            }
            _ => {
                t.delete(start, end, &mut ());
                naive.replace_range(sb..eb, "");
            }
        }
        assert_eq!(t.text, naive);
        belongs(&t.br_indexes.0, &naive);
    }
}
