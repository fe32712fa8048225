//! Positions in a text and the edits that can be asked of a buffer.

use std::borrow::Cow;
use vstd::prelude::*;
use vstd::utf8::encode_utf8_valid_utf8;
use vstd::string::StringSliceAdditionalSpecFns;
use crate::texter::encodings::{lemma_byte_of, Encoding};
use crate::texter::model::{
    lemma_line_boundaries, lemma_synth, lemma_trimmed_row, lemma_wf, Doc,
};
use crate::texter::strings::{byte_len, insert_str, lemma_line_feed_bytes, substr};
use crate::texter::text::Text;
use crate::texter::utils::trim_eol_from_end;

verus! {

/// A position in a text: a row and a column in it, both counted from zero.
///
/// What unit the column counts depends on who holds the position: a client
/// counts in the encoding it chose, the buffer counts bytes.
#[derive(Clone, Copy, Debug, PartialEq, Eq, PartialOrd, Ord, Structural)]
pub struct GridIndex {
    pub row: usize,
    pub col: usize,
}

/// One edit of a text.
///
/// An end position names the first column that is left alone.
#[derive(Debug, PartialEq)]
pub enum Change<'a> {
    /// Delete what lies between `start` and `end`.
    Delete { start: GridIndex, end: GridIndex },
    /// Insert `text` at `at`.
    Insert { at: GridIndex, text: Cow<'a, str> },
    /// Put `text` in the place of what lies between `start` and `end`.
    Replace { start: GridIndex, end: GridIndex, text: Cow<'a, str> },
    /// Put `text` in the place of the whole text.
    ReplaceFull(Cow<'a, str>),
}

impl<'a> Change<'a> {
    /// The edit that a client means by a range, if it names one, and a text:
    /// without a range the whole text is replaced; with an empty text the range
    /// is deleted; with a range that ends where it starts the text is inserted
    /// there; else the text replaces the range.
    pub fn from_range_and_text(range: Option<(GridIndex, GridIndex)>, text: Cow<'a, str>) -> (r:
        Self)
        ensures
            r == (match range {
                None => Change::ReplaceFull(text),
                Some((start, end)) => if text@.len() == 0 {
                    Change::Delete { start, end }
                } else if start == end {
                    Change::Insert { at: start, text }
                } else {
                    Change::Replace { start, end, text }
                },
            }),
    {
        let (start, end) = match range {
            None => {
                return Change::ReplaceFull(text);
            },
            Some(range) => range,
        };
        let empty = match &text {
            Cow::Borrowed(s) => s.is_empty(),
            Cow::Owned(s) => s.as_str().is_empty(),
        };
        if empty {
            return Change::Delete { start, end };
        }
        if start == end {
            return Change::Insert { at: start, text };
        }
        Change::Replace { start, end, text }
    }
}

/// The content of row `row` of `text`.
pub(crate) fn row_content(text: &Text, row: usize) -> (r: &str)
    requires
        text.wf(),
        row < text@.rows(),
    ensures
        r.spec_bytes() == text@.line(row as int),
{
    let ghost d = text@;
    proof {
        broadcast use encode_utf8_valid_utf8;

        lemma_line_boundaries(d, row as int);
        lemma_wf(d);
    }
    let s = text.text.as_str();
    let len = byte_len(s);
    let row_count = text.br_indexes.row_count();
    let row_start = text.br_indexes.row_start(row);
    if !text.br_indexes.is_last_row(row) && row_count > 1 {
        proof {
            lemma_line_boundaries(d, row + 1);
            lemma_trimmed_row(d, row as int);
        }
        let row_end = text.br_indexes.row_start(row + 1);
        let base_line = substr(s, row_start, row_end);
        trim_eol_from_end(base_line)
    } else {
        substr(s, row_start, len)
    }
}

impl GridIndex {
    /// Resolves this position in `text`: the column, which counts in the
    /// encoding of `text`, becomes a byte column.
    ///
    /// Where the row is the one past the last row of `text`, that row is made
    /// first: a line feed is appended to the text and its offset to the index.
    pub fn normalize(&mut self, text: &mut Text)
        requires
            old(text).wf(),
            old(text)@.admits(old(text).encoding, old(self).row as int, old(self).col as int),
        ensures
            final(text)@ == old(text)@.synth(old(self).row as int),
            final(text).wf(),
            final(text).encoding == old(text).encoding,
            final(text).old_br_indexes == old(text).old_br_indexes,
            final(self).row == old(self).row,
            final(self).col == old(text)@.byte_col(
                old(text).encoding,
                old(self).row as int,
                old(self).col as int,
            ),
            final(text)@.holds(final(self).row as int, final(self).col as int),
    {
        let ghost d0 = text@;
        let ghost d1 = d0.synth(self.row as int);
        proof {
            broadcast use encode_utf8_valid_utf8;

            lemma_wf(d0);
            lemma_synth(d0, self.row as int);
            lemma_line_boundaries(d1, self.row as int);
        }
        let row_count = text.br_indexes.row_count();
        if self.row == row_count {
            let end = byte_len(text.text.as_str());
            text.br_indexes.insert_index(self.row, end);
            proof {
                lemma_line_feed_bytes();
            }
            insert_str(&mut text.text, end, "\n");
            proof {
                assert(text@.bytes =~= d1.bytes);
                assert(text@.index =~= d1.index);
            }
        }
        let line = row_content(text, self.row);
        proof {
            lemma_byte_of(text.encoding, d1.line(self.row as int), self.col as int);
        }
        self.col = text.encoding.to(line, self.col);
    }

    /// Turns this position, which holds a byte column of `text`, into one that
    /// counts its column in the encoding of `text`.
    pub fn denormalize(&mut self, text: &Text)
        requires
            text.wf(),
            text@.holds(old(self).row as int, old(self).col as int),
        ensures
            final(self).row == old(self).row,
            final(self).col == text.encoding.units(
                text@.line(old(self).row as int),
                old(self).col as int,
            ),
            text@.admits(text.encoding, final(self).row as int, final(self).col as int),
            old(self).col == text@.byte_col(
                text.encoding,
                final(self).row as int,
                final(self).col as int,
            ),
    {
        let line = row_content(text, self.row);
        self.col = text.encoding.from(line, self.col);
    }
}

/// Resolving a position and turning the result back gives the position.
///
/// `(row, col)` is any position that the document admits, with its column
/// counted in `enc`. The byte column it resolves to is a place in the
/// document it is resolved in, and that place has the column `col`.
pub proof fn lemma_normalize_denormalize(d: Doc, enc: Encoding, row: int, col: int)
    requires
        d.wf(),
        d.admits(enc, row, col),
    ensures
        d.synth(row).wf(),
        d.synth(row).holds(row, d.byte_col(enc, row, col)),
        enc.units(d.synth(row).line(row), d.byte_col(enc, row, col)) == col,
{
    lemma_synth(d, row);
    lemma_line_boundaries(d.synth(row), row);
    lemma_byte_of(enc, d.synth(row).line(row), col);
}

} // verus!
