//! The line-break index on its own.

use trunkls::texter::br_indexes::BrIndexes;

const S: &str = "ads\nasdas\n\n\nasdad\n\nasdasd\nasd\na\n";

#[test]
fn new() {
    let br = BrIndexes::new(S);
    assert_eq!(br.0, [0, 3, 9, 10, 11, 17, 18, 25, 29, 31]);
}

#[test]
fn row_start() {
    let br = BrIndexes::new(S);
    assert_eq!(br.row_start(0), 0);
    assert_eq!(br.row_start(1), 4);
    assert_eq!(br.row_start(2), 10);
    assert_eq!(br.row_start(3), 11);
    assert_eq!(br.row_start(4), 12);
    assert_eq!(br.row_start(5), 18);
    assert_eq!(br.row_start(6), 19);
    assert_eq!(br.row_start(7), 26);
    assert_eq!(br.row_start(8), 30);
    assert_eq!(br.row_start(9), 32);
}

#[test]
fn remove_indexes_all() {
    let mut br = BrIndexes::new(S);
    br.remove_indexes(0, 9);
    assert_eq!(br.0, [0]);
}

#[test]
fn remove_indexes_from_middle() {
    let mut br = BrIndexes::new(S);
    br.remove_indexes(1, 9);
    assert_eq!(br.0, [0, 3]);

    let mut br = BrIndexes::new(S);
    br.remove_indexes(3, 5);
    assert_eq!(br.0, [0, 3, 9, 10, 18, 25, 29, 31]);

    let mut br = BrIndexes::new(S);
    br.remove_indexes(6, 7);
    assert_eq!(br.0, [0, 3, 9, 10, 11, 17, 18, 29, 31]);
}

#[test]
fn remove_indexes_same_row() {
    let mut br = BrIndexes::new(S);
    br.remove_indexes(0, 0);
    assert_eq!(br.0, [0, 3, 9, 10, 11, 17, 18, 25, 29, 31]);

    let mut br = BrIndexes::new(S);
    br.remove_indexes(5, 5);
    assert_eq!(br.0, [0, 3, 9, 10, 11, 17, 18, 25, 29, 31]);

    let mut br = BrIndexes::new(S);
    br.remove_indexes(9, 9);
    assert_eq!(br.0, [0, 3, 9, 10, 11, 17, 18, 25, 29, 31]);
}

#[test]
fn remove_indexes_last_row() {
    let mut br = BrIndexes::new(S);
    br.remove_indexes(4, 9);
    assert_eq!(br.0, [0, 3, 9, 10, 11]);

    let mut br = BrIndexes::new(S);
    br.remove_indexes(0, 9);
    assert_eq!(br.0, [0]);
}

#[test]
fn add_offsets() {
    let mut br = BrIndexes::new(S);
    br.add_offsets(3, 10);
    assert_eq!(br.0, [0, 3, 9, 10, 21, 27, 28, 35, 39, 41]);
}

#[test]
fn sub_offsets() {
    let mut br = BrIndexes::new(S);
    br.sub_offsets(0, 2);
    assert_eq!(br.0, [0, 1, 7, 8, 9, 15, 16, 23, 27, 29]);
}

#[test]
fn is_last_row() {
    let br = BrIndexes::new(S);
    assert!(!br.is_last_row(0));
    assert!(!br.is_last_row(1));
    assert!(!br.is_last_row(2));
    assert!(br.is_last_row(9));
}

#[test]
fn splicing_entries() {
    let mut br = BrIndexes::new(S);
    assert_eq!(br.insert_indexes(2, &[4, 5, 6]), 2..5);
    assert_eq!(br.0, [0, 3, 4, 5, 6, 9, 10, 11, 17, 18, 25, 29, 31]);
    assert_eq!(br.insert_indexes(13, &[]), 13..13);
    br.insert_index(13, 40);
    assert_eq!(br.0, [0, 3, 4, 5, 6, 9, 10, 11, 17, 18, 25, 29, 31, 40]);

    let mut br = BrIndexes::new(S);
    assert_eq!(br.replace_indexes(1, 7, &[5, 6]), 2..4);
    assert_eq!(br.0, [0, 3, 5, 6, 29, 31]);
    assert_eq!(br.replace_indexes(5, 5, &[40]), 6..7);
    assert_eq!(br.0, [0, 3, 5, 6, 29, 31, 40]);
    assert_eq!(br.replace_indexes(0, 6, &[]), 1..1);
    assert_eq!(br.0, [0]);
}

#[test]
fn offsets_past_the_last_row_move_nothing() {
    let mut br = BrIndexes::new(S);
    br.add_offsets(9, 5);
    br.add_offsets(40, 5);
    br.sub_offsets(9, 5);
    br.sub_offsets(40, 5);
    assert_eq!(br.0, [0, 3, 9, 10, 11, 17, 18, 25, 29, 31]);
}

#[test]
fn rows_of_an_index() {
    let br = BrIndexes::new(S);
    assert_eq!(br.row_count(), 10);
    assert_eq!(br.last_row(), 32);
    let br = BrIndexes::default();
    assert_eq!(br.0, [0]);
    assert_eq!(br.row_count(), 1);
    assert_eq!(br.last_row(), 0);
    assert!(br.is_last_row(0));
    assert_eq!(BrIndexes::new("").0, [0]);
}

#[test]
fn copies_of_an_index() {
    let br = BrIndexes::new(S);
    let copy = br.clone();
    assert_eq!(copy, br);
    let mut other = BrIndexes::new("a\nb");
    other.clone_from(&br);
    assert_eq!(other, br);
}
