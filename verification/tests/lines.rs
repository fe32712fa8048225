//! The terminator scanner and the walk over rows.

use trunkls::texter::lines::{FastEOL, TextLines};

#[test]
fn lines_br() {
    let hs = "123\n45678\n910";
    let lines: Vec<_> = FastEOL::new(hs).collect();
    assert_eq!(lines, [3, 9]);
}

#[test]
fn r() {
    let hs = "123\r45678\r910";
    let lines: Vec<_> = FastEOL::new(hs).collect();
    assert_eq!(lines, [3, 9]);
}

#[test]
fn rbr() {
    let hs = "123\r\n45678\r\n910";
    let lines: Vec<_> = FastEOL::new(hs).collect();
    assert_eq!(lines, [4, 11]);
}

#[test]
fn rbr_mix() {
    let hs = "\r\r\r\n123\r45678\r\n910\n123\r123\n123123\n\r\r";
    let lines: Vec<_> = FastEOL::new(hs).collect();
    assert_eq!(lines, [0, 1, 3, 7, 14, 18, 22, 26, 33, 34, 35]);
}

#[test]
fn text_lines() {
    let s = "abc\n\r123\n\nbasdasd\n\n\n";
    let indexes = &[0, 3, 4, 8, 9, 17, 18, 19];
    let mut lines = TextLines::new(s, indexes);
    assert_eq!(lines.next(), Some("abc"));
    assert_eq!(lines.next(), Some(""));
    assert_eq!(lines.next(), Some("123"));
    assert_eq!(lines.next(), Some(""));
    assert_eq!(lines.next(), Some("basdasd"));
    assert_eq!(lines.next(), Some(""));
    assert_eq!(lines.next(), Some(""));
    assert_eq!(lines.next(), Some(""));
}

#[test]
fn text_lines_nth() {
    let s = "abc\n\r123\n\nbasdasd\n\n\n";
    let indexes = &[0, 3, 4, 8, 9, 17, 18, 19];
    let mut lines = TextLines::new(s, indexes);

    assert_eq!(lines.nth(0), Some("abc"));
    assert_eq!(lines.nth(0), Some(""));
    assert_eq!(lines.nth(0), Some("123"));
    assert_eq!(lines.nth(0), Some(""));
    assert_eq!(lines.nth(0), Some("basdasd"));
    assert_eq!(lines.nth(0), Some(""));
    assert_eq!(lines.nth(0), Some(""));
    assert_eq!(lines.nth(0), Some(""));
}

#[test]
fn text_lines_skip() {
    let s = "abc\n\r123\n\nbasdasd\n\n\n";
    let indexes = &[0, 3, 4, 8, 9, 17, 18, 19];
    let mut lines = TextLines::new(s, indexes).skip(2);
    assert_eq!(lines.next(), Some("123"));
    assert_eq!(lines.next(), Some(""));
    assert_eq!(lines.next(), Some("basdasd"));
    assert_eq!(lines.next(), Some(""));
    assert_eq!(lines.next(), Some(""));
    assert_eq!(lines.next(), Some(""));
}

#[test]
fn rows_that_are_left() {
    let s = "abc\n\r123\n\nbasdasd\n\n\n";
    let indexes = &[0, 3, 4, 8, 9, 17, 18, 19];
    let mut lines = TextLines::new(s, indexes);
    assert_eq!(lines.size_hint(), (8, Some(8)));
    assert_eq!(lines.nth(2), Some("123"));
    assert_eq!(lines.size_hint(), (5, Some(5)));
    assert_eq!(lines.count(), 5);
    assert_eq!(lines.nth(5), None);
    assert_eq!(lines.next(), Some(""));
    assert_eq!(lines.nth(3), Some(""));
    assert_eq!(lines.next(), None);
    assert_eq!(lines.count(), 0);
    assert_eq!(TextLines::new(s, indexes).skip(9).next(), None);
    assert_eq!(TextLines::new(s, &[]).next(), None);
}

#[test]
fn rows_with_their_terminators_stripped() {
    let s = "a\r\n\r\r\nb\n";
    let indexes = &[0, 2, 3, 5, 7];
    let mut lines = TextLines::new(s, indexes);
    assert_eq!(lines.next(), Some("a"));
    assert_eq!(lines.next(), Some(""));
    assert_eq!(lines.next(), Some(""));
    assert_eq!(lines.next(), Some("b"));
    assert_eq!(lines.next(), Some(""));
    assert_eq!(lines.next(), None);
}

#[test]
fn the_scanner_goes_on_returning_none() {
    let mut eol = FastEOL::new("a\r\n\r");
    assert_eq!(eol.size_hint(), (0, Some(4)));
    assert_eq!(eol.next(), Some(2));
    assert_eq!(eol.size_hint(), (0, Some(1)));
    assert_eq!(eol.next(), Some(3));
    assert_eq!(eol.next(), None);
    assert_eq!(eol.next(), None);
    assert_eq!(FastEOL::new("").next(), None);
    assert_eq!(FastEOL::new("no terminator").collect(), Vec::<usize>::new());
}
