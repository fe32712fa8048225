//! The document buffer and the edits that are made to it.

use std::borrow::Cow;
use vstd::prelude::*;
use vstd::slice::slice_subrange;
use vstd::std_specs::cmp::PartialEqSpecImpl;
use vstd::utf8::{encode_utf8, encode_utf8_valid_utf8};
use vstd::string::StringSliceAdditionalSpecFns;
use crate::texter::boundaries::on_boundary;
use crate::texter::br_indexes::{
    ints, lemma_ints_subrange, lemma_spliced_middle, row_start, shifted, BrIndexes,
};
use crate::texter::change::{row_content, Change, GridIndex};
use crate::texter::encodings::{lemma_empty_line, Encoding};
use crate::texter::lines::{breaks, FastEOL, TextLines};
use crate::texter::model::{
    lemma_delete_index, lemma_line_boundaries, lemma_replace_index, lemma_row_bounds,
    lemma_scan_wf, lemma_splice_wf, lemma_synth, lemma_wf, offset, Doc,
};
use crate::texter::strings::{
    byte_len, bytes_of, drain, insert_str, is_boundary, replace_range,
};
use crate::texter::updateables::{
    extended, lemma_full_record, lemma_range_record, ChangeContext, ChangeModel, Record,
    UpdateContext, Updateable,
};

verus! {

/// A text together with the index of its line breaks, kept in step with each
/// other by every edit.
///
/// Each edit also tells a sink what it did, see `Updateable`; where nobody
/// listens, hand in `&mut ()`.
#[derive(Clone, Debug)]
pub struct Text {
    /// The offsets of the line terminators of `text`.
    ///
    /// Whoever changes `text` by hand has to bring this index in step with it.
    pub br_indexes: BrIndexes,
    /// The index as it was before the latest edit. It is empty until the first
    /// edit has been made.
    pub old_br_indexes: BrIndexes,
    /// The text.
    ///
    /// An edit that addresses the row one past the last appends a line feed
    /// first, so the text is not always what was put in byte for byte.
    pub text: String,
    /// The encoding in which positions handed to this buffer count columns.
    /// It is chosen when the buffer is made and stays.
    pub encoding: Encoding,
}

/// Two buffers are equal where they count columns alike and hold the same text
/// and the same index; the index before the latest edit does not count.
impl PartialEq for Text {
    fn eq(&self, other: &Self) -> (r: bool) {
        let same_encoding = self.encoding == other.encoding;
        let same_index = self.br_indexes.0 == other.br_indexes.0;
        let same_text = self.text == other.text;
        proof {
            assert(same_index == (self.br_indexes.0@ =~= other.br_indexes.0@));
        }
        same_encoding && same_index && same_text
    }
}

impl PartialEqSpecImpl for Text {
    open spec fn obeys_eq_spec() -> bool {
        true
    }

    open spec fn eq_spec(&self, other: &Self) -> bool {
        &&& self.encoding == other.encoding
        &&& self.br_indexes.0@ == other.br_indexes.0@
        &&& self.text@ == other.text@
    }
}

impl View for Text {
    type V = Doc;

    open spec fn view(&self) -> Doc {
        Doc { bytes: bytes_of(&self.text), index: self.br_indexes@ }
    }
}

impl Text {
    /// The index belongs to the text.
    pub open spec fn wf(&self) -> bool {
        self@.wf()
    }

    fn with_encoding(text: String, encoding: Encoding) -> (r: Self)
        ensures
            r.text@ == text@,
            r@ == Doc::scan(bytes_of(&text)),
            r.old_br_indexes@ == Seq::<int>::empty(),
            r.encoding == encoding,
            r.wf(),
    {
        let br_indexes = BrIndexes::new(text.as_str());
        let old = BrIndexes(Vec::new());
        proof {
            broadcast use encode_utf8_valid_utf8;

            lemma_scan_wf(bytes_of(&text));
            assert(old@ =~= Seq::<int>::empty());
        }
        Text { text, br_indexes, old_br_indexes: old, encoding }
    }

    /// A buffer for `text` that takes positions with columns counted in UTF-8
    /// bytes.
    pub fn new(text: String) -> (r: Self)
        ensures
            r.text@ == text@,
            r@ == Doc::scan(bytes_of(&text)),
            r.old_br_indexes@ == Seq::<int>::empty(),
            r.encoding == Encoding::Utf8,
            r.wf(),
    {
        Self::with_encoding(text, Encoding::Utf8)
    }

    /// A buffer for `text` that takes positions with columns counted in UTF-16
    /// code units.
    pub fn new_utf16(text: String) -> (r: Self)
        ensures
            r.text@ == text@,
            r@ == Doc::scan(bytes_of(&text)),
            r.old_br_indexes@ == Seq::<int>::empty(),
            r.encoding == Encoding::Utf16,
            r.wf(),
    {
        Self::with_encoding(text, Encoding::Utf16)
    }

    /// A buffer for `text` that takes positions with columns counted in code
    /// points.
    pub fn new_utf32(text: String) -> (r: Self)
        ensures
            r.text@ == text@,
            r@ == Doc::scan(bytes_of(&text)),
            r.old_br_indexes@ == Seq::<int>::empty(),
            r.encoding == Encoding::Utf32,
            r.wf(),
    {
        Self::with_encoding(text, Encoding::Utf32)
    }

    /// The text as a string of its own.
    pub fn to_string(&self) -> (r: String)
        ensures
            r@ == self.text@,
    {
        self.text.clone()
    }

    /// The position `pos`, which counts its column in the encoding of this
    /// buffer, can be resolved here.
    pub open spec fn admits(&self, pos: GridIndex) -> bool {
        self@.admits(self.encoding, pos.row as int, pos.col as int)
    }

    /// The document in which a range from `start` to `end` is resolved: this
    /// one, with the rows made that the two positions ask for.
    pub open spec fn resolved_in(&self, start: GridIndex, end: GridIndex) -> Doc {
        self@.synth(start.row as int).synth(end.row as int)
    }

    /// The position `start` of a range from `start` to `end`, with its column
    /// counted in bytes.
    pub open spec fn resolved_start(&self, start: GridIndex) -> GridIndex {
        GridIndex {
            row: start.row,
            col: self@.byte_col(self.encoding, start.row as int, start.col as int) as usize,
        }
    }

    /// The position `end` of a range from `start` to `end`, with its column
    /// counted in bytes.
    pub open spec fn resolved_end(&self, start: GridIndex, end: GridIndex) -> GridIndex {
        GridIndex {
            row: end.row,
            col: self@.synth(start.row as int).byte_col(
                self.encoding,
                end.row as int,
                end.col as int,
            ) as usize,
        }
    }

    /// The range from `start` to `end` can be resolved here: first `start`,
    /// then `end` in what resolving `start` left, and `start` does not come
    /// after `end`.
    pub open spec fn admits_range(&self, start: GridIndex, end: GridIndex) -> bool {
        let d = self.resolved_in(start, end);
        let s = self.resolved_start(start);
        let e = self.resolved_end(start, end);
        &&& self.admits(start)
        &&& self@.synth(start.row as int).admits(self.encoding, end.row as int, end.col as int)
        &&& d.offset_of(s.row as int, s.col as int) <= d.offset_of(e.row as int, e.col as int)
    }

    /// The record of an edit of the range from `start` to `end`, which are
    /// still to be resolved; `change` is the edit with the resolved positions
    /// in it.
    pub open spec fn range_record(
        &self,
        start: GridIndex,
        end: GridIndex,
        change: ChangeModel,
    ) -> Record {
        let rec = Record {
            change,
            breaklines: Seq::empty(),
            old_breaklines: self@.index,
            old_text: self.resolved_in(start, end).bytes,
        };
        Record {
            change,
            breaklines: rec.result().index,
            old_breaklines: self@.index,
            old_text: self.resolved_in(start, end).bytes,
        }
    }

    /// The record of deleting the range from `start` to `end`.
    pub open spec fn delete_record(&self, start: GridIndex, end: GridIndex) -> Record {
        self.range_record(
            start,
            end,
            ChangeModel::Delete {
                start: self.resolved_start(start),
                end: self.resolved_end(start, end),
            },
        )
    }

    /// The record of inserting `text` at `at`.
    pub open spec fn insert_record(&self, text: Seq<u8>, at: GridIndex) -> Record {
        let position = self.resolved_start(at);
        self.range_record(
            at,
            at,
            ChangeModel::Insert {
                position,
                text,
                inserted: offset(
                    breaks(text),
                    self.resolved_in(at, at).offset_of(position.row as int, position.col as int),
                ),
            },
        )
    }

    /// The record of replacing the range from `start` to `end` by `text`.
    pub open spec fn replace_record(&self, text: Seq<u8>, start: GridIndex, end: GridIndex) -> Record {
        let s = self.resolved_start(start);
        self.range_record(
            start,
            end,
            ChangeModel::Replace {
                start: s,
                end: self.resolved_end(start, end),
                text,
                inserted: offset(
                    breaks(text),
                    self.resolved_in(start, end).offset_of(s.row as int, s.col as int),
                ),
            },
        )
    }

    /// The record of replacing the whole text by `text`.
    pub open spec fn replace_full_record(&self, text: Seq<u8>) -> Record {
        Record {
            change: ChangeModel::ReplaceFull { text },
            breaklines: Doc::scan(text).index,
            old_breaklines: self@.index,
            old_text: self@.bytes,
        }
    }

    /// The edit `change` can be made here: its positions can be resolved, and
    /// the text it leaves is not longer than a text can be.
    pub open spec fn can_apply(&self, change: Change<'_>) -> bool {
        match change {
            Change::Delete { start, end } => self.admits_range(start, end),
            Change::Insert { at, text } => self.admits(at) && self.resolved_in(at, at).bytes.len()
                + encode_utf8(text@).len() <= usize::MAX,
            Change::Replace { start, end, text } => self.admits_range(start, end)
                && self.resolved_in(start, end).bytes.len() + encode_utf8(text@).len()
                <= usize::MAX,
            Change::ReplaceFull(_) => true,
        }
    }

    /// The record of the edit `change`.
    pub open spec fn record_of(&self, change: Change<'_>) -> Record {
        match change {
            Change::Delete { start, end } => self.delete_record(start, end),
            Change::Insert { at, text } => self.insert_record(encode_utf8(text@), at),
            Change::Replace { start, end, text } => self.replace_record(
                encode_utf8(text@),
                start,
                end,
            ),
            Change::ReplaceFull(text) => self.replace_full_record(encode_utf8(text@)),
        }
    }

    /// Makes the edit `change`, and tells `updateable`.
    ///
    /// The positions in `change` count their columns in the encoding of this
    /// buffer.
    pub fn update<U: Updateable>(&mut self, change: Change<'_>, updateable: &mut U)
        requires
            old(self).wf(),
            old(self).can_apply(change),
            old(updateable).ready_for(old(self).record_of(change)),
        ensures
            old(self).record_of(change).wf(),
            final(self)@ == old(self).record_of(change).result(),
            final(self).old_br_indexes@ == old(self)@.index,
            final(self).encoding == old(self).encoding,
            final(self).wf(),
            old(updateable).updated(old(self).record_of(change), final(updateable)),
    {
        match change {
            Change::Delete { start, end } => {
                self.delete(start, end, updateable);
            },
            Change::Insert { text, at } => {
                self.insert(cow_str(&text), at, updateable);
            },
            Change::Replace { text, start, end } => {
                self.replace(cow_str(&text), start, end, updateable);
            },
            Change::ReplaceFull(s) => {
                self.replace_full(s, updateable);
            },
        }
    }

    /// Whether `pos`, which holds a byte column, is a place in the text.
    pub fn holds_at(&self, pos: GridIndex) -> (r: bool)
        requires
            self.wf(),
        ensures
            r == self@.holds(pos.row as int, pos.col as int),
    {
        proof {
            lemma_wf(self@);
        }
        if pos.row >= self.br_indexes.row_count() {
            return false;
        }
        is_boundary(row_content(self, pos.row), pos.col)
    }

    /// The position `pos`, which counts its column in the encoding of this
    /// buffer, with its column counted in bytes; or `None` where `pos` cannot
    /// be resolved here. The buffer stays as it is.
    pub fn try_resolve(&self, pos: GridIndex) -> (r: Option<GridIndex>)
        requires
            self.wf(),
        ensures
            r is Some <==> self.admits(pos),
            r is Some ==> r.unwrap() == self.resolved_start(pos),
    {
        proof {
            lemma_wf(self@);
            lemma_empty_line(self.encoding, pos.col as int);
            if pos.row <= self@.rows() {
                lemma_synth(self@, pos.row as int);
            }
        }
        let rows = self.br_indexes.row_count();
        if pos.row > rows {
            None
        } else if pos.row == rows {
            if pos.col == 0 {
                Some(pos)
            } else {
                None
            }
        } else {
            match self.encoding.try_to(row_content(self, pos.row), pos.col) {
                Some(col) => Some(GridIndex { row: pos.row, col }),
                None => None,
            }
        }
    }

    /// The two ends of the range from `start` to `end` with their columns
    /// counted in bytes; or `None` where the range cannot be resolved here. The
    /// buffer stays as it is.
    pub fn try_resolve_range(&self, start: GridIndex, end: GridIndex) -> (r: Option<
        (GridIndex, GridIndex),
    >)
        requires
            self.wf(),
        ensures
            r is Some <==> self.admits_range(start, end),
            r is Some ==> r.unwrap().0 == self.resolved_start(start) && r.unwrap().1
                == self.resolved_end(start, end),
    {
        let ghost d0 = self@;
        let ghost d1 = d0.synth(start.row as int);
        let ghost d2 = d1.synth(end.row as int);
        let s = match self.try_resolve(start) {
            Some(s) => s,
            None => {
                return None;
            },
        };
        proof {
            lemma_wf(d0);
            lemma_synth(d0, start.row as int);
            lemma_wf(d1);
            lemma_empty_line(self.encoding, end.col as int);
            if end.row <= d1.rows() {
                lemma_synth(d1, end.row as int);
                lemma_wf(d2);
            }
        }
        let rows = self.br_indexes.row_count();
        let n = byte_len(self.text.as_str());
        if end.row < rows {
            let e = match self.encoding.try_to(row_content(self, end.row), end.col) {
                Some(col) => GridIndex { row: end.row, col },
                None => {
                    return None;
                },
            };
            if start.row < rows {
                proof {
                    lemma_synth(d0, end.row as int);
                }
                let sb = self.nth_row(s.row) + s.col;
                let eb = self.nth_row(e.row) + e.col;
                if sb <= eb {
                    Some((s, e))
                } else {
                    None
                }
            } else {
                proof {
                    lemma_line_boundaries(d1, end.row as int);
                    lemma_row_bounds(d1.index, d1.bytes, end.row as int);
                }
                None
            }
        } else if end.col == 0 && (end.row == rows || (start.row == rows && end.row - 1 == rows)) {
            proof {
                if start.row < rows {
                    lemma_line_boundaries(d0, start.row as int);
                    lemma_row_bounds(d0.index, d0.bytes, start.row as int);
                }
            }
            Some((s, GridIndex { row: end.row, col: 0 }))
        } else {
            None
        }
    }

    /// Whether the edit `change` can be made here.
    pub fn accepts(&self, change: &Change<'_>) -> (r: bool)
        requires
            self.wf(),
        ensures
            r == self.can_apply(*change),
    {
        proof {
            lemma_wf(self@);
        }
        let rows = self.br_indexes.row_count();
        let n = byte_len(self.text.as_str());
        match change {
            Change::Delete { start, end } => self.try_resolve_range(*start, *end).is_some(),
            Change::Insert { at, text } => {
                if self.try_resolve(*at).is_none() {
                    return false;
                }
                let made: usize = if at.row == rows {
                    1
                } else {
                    0
                };
                let m = byte_len(cow_str(text));
                m <= usize::MAX - n && made <= usize::MAX - n - m
            },
            Change::Replace { start, end, text } => {
                if self.try_resolve_range(*start, *end).is_none() {
                    return false;
                }
                let made: usize = if start.row == rows && end.row > rows {
                    2
                } else if start.row == rows || end.row == rows {
                    1
                } else {
                    0
                };
                let m = byte_len(cow_str(text));
                m <= usize::MAX - n && made <= usize::MAX - n - m
            },
            Change::ReplaceFull(_) => true,
        }
    }

    /// Whether the edit `change` addresses rows of the text only, so that no
    /// row is made for it.
    pub fn stays_in_rows(&self, change: &Change<'_>) -> (r: bool)
        requires
            self.wf(),
        ensures
            r == self.record_of(*change).within_old_rows(),
    {
        proof {
            lemma_wf(self@);
        }
        let rows = self.br_indexes.row_count();
        match change {
            Change::Delete { end, .. } => end.row < rows,
            Change::Insert { at, .. } => at.row < rows,
            Change::Replace { end, .. } => end.row < rows,
            Change::ReplaceFull(_) => true,
        }
    }

    /// Keeps the index as it stands as the index before the edit.
    fn update_prep(&mut self)
        ensures
            final(self).old_br_indexes@ == old(self).br_indexes@,
            final(self).br_indexes == old(self).br_indexes,
            final(self).text == old(self).text,
            final(self).encoding == old(self).encoding,
    {
        self.old_br_indexes.clone_from(&self.br_indexes);
    }

    /// The index of the first byte of row `r`.
    pub fn nth_row(&self, r: usize) -> (b: usize)
        requires
            self.wf(),
            r < self@.rows(),
        ensures
            b == row_start(self@.index, r as int),
    {
        proof {
            lemma_wf(self@);
        }
        let n = byte_len(self.text.as_str());
        self.br_indexes.row_start(r)
    }

    /// The content of row `r`, without its terminator.
    pub fn get_row(&self, r: usize) -> (line: &str)
        requires
            self.wf(),
            r < self@.rows(),
        ensures
            line.spec_bytes() == self@.line(r as int),
    {
        self.lines().nth(r).unwrap()
    }

    /// A walk over the rows of the text, from the first row on.
    pub fn lines(&self) -> (r: TextLines<'_>)
        requires
            self.wf(),
        ensures
            r.index() == self@.index,
            r.text() == self@.bytes,
            r.cursor() == 0,
    {
        proof {
            lemma_wf(self@);
        }
        TextLines::new(self.text.as_str(), self.br_indexes.0.as_slice())
    }

    /// Resolves the two ends of a range and hands back the byte at which the
    /// range starts and the byte at which it ends.
    fn resolve_range(&mut self, start: &mut GridIndex, end: &mut GridIndex) -> (r: (usize, usize))
        requires
            old(self).wf(),
            old(self).admits_range(*old(start), *old(end)),
        ensures
            final(self)@ == old(self).resolved_in(*old(start), *old(end)),
            final(self).wf(),
            final(self).encoding == old(self).encoding,
            final(self).old_br_indexes == old(self).old_br_indexes,
            *final(start) == old(self).resolved_start(*old(start)),
            *final(end) == old(self).resolved_end(*old(start), *old(end)),
            final(self)@.holds(final(start).row as int, final(start).col as int),
            final(self)@.holds(final(end).row as int, final(end).col as int),
            r.0 == final(self)@.offset_of(final(start).row as int, final(start).col as int),
            r.1 == final(self)@.offset_of(final(end).row as int, final(end).col as int),
            r.0 <= r.1 <= final(self)@.bytes.len() <= usize::MAX,
            forall|k: int|
                1 <= k < final(self)@.rows() ==> final(self)@.index[k] < final(self)@.bytes.len(),
            on_boundary(final(self)@.bytes, r.0 as int),
            on_boundary(final(self)@.bytes, r.1 as int),
            final(start).row <= final(end).row < final(self)@.rows(),
            forall|k: int| final(end).row < k < final(self)@.rows() ==> r.1 <= final(self)@.index[k],
            final(self)@.index == extended(
                old(self)@.index,
                final(self)@.bytes.len() as int,
                final(end).row + 1,
            ),
            old(self)@.index.len() + 2 >= final(self)@.index.len(),
    {
        let ghost d0 = self@;
        let ghost d1 = d0.synth(start.row as int);
        let ghost d2 = d1.synth(end.row as int);
        proof {
            broadcast use encode_utf8_valid_utf8;

            lemma_synth(d0, start.row as int);
            lemma_synth(d1, end.row as int);
        }
        start.normalize(self);
        end.normalize(self);
        proof {
            assert(d2.line(start.row as int) == d1.line(start.row as int));
            lemma_splice_wf(
                d2,
                start.row as int,
                start.col as int,
                end.row as int,
                end.col as int,
                Seq::empty(),
            );
            lemma_wf(d2);
            lemma_row_bounds(d2.index, d2.bytes, start.row as int);
            lemma_row_bounds(d2.index, d2.bytes, end.row as int);
            assert(d2.index =~= extended(d0.index, d2.bytes.len() as int, end.row + 1));
        }
        let n = byte_len(self.text.as_str());
        let start_byte = self.nth_row(start.row) + start.col;
        let end_byte = self.nth_row(end.row) + end.col;
        (start_byte, end_byte)
    }

    /// Removes what lies between `start` and `end`, and tells `updateable`.
    ///
    /// The rows from that of `start` to that of `end` become one row, and the
    /// terminators behind it move down by the number of bytes removed.
    pub fn delete<U: Updateable>(&mut self, start: GridIndex, end: GridIndex, updateable: &mut U)
        requires
            old(self).wf(),
            old(self).admits_range(start, end),
            old(updateable).ready_for(old(self).delete_record(start, end)),
        ensures
            old(self).delete_record(start, end).wf(),
            final(self)@ == old(self).delete_record(start, end).result(),
            final(self).old_br_indexes@ == old(self)@.index,
            final(self).encoding == old(self).encoding,
            final(self).wf(),
            old(updateable).updated(old(self).delete_record(start, end), final(updateable)),
    {
        let ghost old_index = self@.index;
        let mut start = start;
        let mut end = end;
        self.update_prep();
        let (start_byte, end_byte) = self.resolve_range(&mut start, &mut end);
        proof {
            assert(vstd::utf8::valid_utf8(Seq::<u8>::empty()));
            lemma_range_record(self@, old_index, ChangeModel::Delete { start, end });
            lemma_delete_index(
                self@.index,
                start.row as int,
                end.row as int,
                start_byte as int,
                end_byte as int,
            );
        }
        self.br_indexes.remove_indexes(start.row, end.row);
        self.br_indexes.sub_offsets(start.row, end_byte - start_byte);
        updateable.update(
            UpdateContext {
                change: ChangeContext::Delete { start, end },
                breaklines: &self.br_indexes,
                old_breaklines: &self.old_br_indexes,
                old_str: self.text.as_str(),
            },
        );
        drain(&mut self.text, start_byte, end_byte);
    }

    /// Puts `s` into the text at `at`, and tells `updateable`.
    ///
    /// The terminators of `s` enter the index behind the entry of the row of
    /// `at`, and the terminators behind them move up by the length of `s`.
    pub fn insert<U: Updateable>(&mut self, s: &str, at: GridIndex, updateable: &mut U)
        requires
            old(self).wf(),
            old(self).admits(at),
            old(self).resolved_in(at, at).bytes.len() + s.spec_bytes().len() <= usize::MAX,
            old(updateable).ready_for(old(self).insert_record(s.spec_bytes(), at)),
        ensures
            old(self).insert_record(s.spec_bytes(), at).wf(),
            final(self)@ == old(self).insert_record(s.spec_bytes(), at).result(),
            final(self).old_br_indexes@ == old(self)@.index,
            final(self).encoding == old(self).encoding,
            final(self).wf(),
            old(updateable).updated(
                old(self).insert_record(s.spec_bytes(), at),
                final(updateable),
            ),
    {
        let ghost old_index = self@.index;
        let ghost t = s.spec_bytes();
        let mut at = at;
        let mut end = at;
        self.update_prep();
        proof {
            lemma_synth(self@, at.row as int);
        }
        let (end_byte, _) = self.resolve_range(&mut at, &mut end);
        let found = offsets_from(s, end_byte);
        let rows = self.br_indexes.row_count();
        proof {
            broadcast use encode_utf8_valid_utf8;

            lemma_range_record(
                self@,
                old_index,
                ChangeModel::Insert { position: at, text: t, inserted: ints(found@) },
            );
            lemma_replace_index(
                self@.index,
                at.row as int,
                at.row as int,
                end_byte as int,
                end_byte as int,
                t,
            );
            lemma_spliced_middle(
                shifted(self@.index, at.row as int, t.len() as int),
                at.row + 1,
                at.row + 1,
                ints(found@),
            );
        }
        self.br_indexes.add_offsets(at.row, byte_len(s));
        let r = self.br_indexes.insert_indexes(at.row + 1, found.as_slice());
        proof {
            lemma_ints_subrange(self.br_indexes.0@, r.start as int, r.end as int);
        }
        let inserted = slice_subrange(self.br_indexes.0.as_slice(), r.start, r.end);
        updateable.update(
            UpdateContext {
                change: ChangeContext::Insert {
                    inserted_br_indexes: inserted,
                    position: at,
                    text: s,
                },
                breaklines: &self.br_indexes,
                old_breaklines: &self.old_br_indexes,
                old_str: self.text.as_str(),
            },
        );
        insert_str(&mut self.text, end_byte, s);
    }

    /// Puts `s` in the place of what lies between `start` and `end`, and tells
    /// `updateable`.
    ///
    /// The terminators of `s` take the place of those of the rows from that of
    /// `start` to that of `end`, and the terminators behind them move by the
    /// change in length.
    pub fn replace<U: Updateable>(
        &mut self,
        s: &str,
        start: GridIndex,
        end: GridIndex,
        updateable: &mut U,
    )
        requires
            old(self).wf(),
            old(self).admits_range(start, end),
            old(self).resolved_in(start, end).bytes.len() + s.spec_bytes().len() <= usize::MAX,
            old(updateable).ready_for(old(self).replace_record(s.spec_bytes(), start, end)),
        ensures
            old(self).replace_record(s.spec_bytes(), start, end).wf(),
            final(self)@ == old(self).replace_record(s.spec_bytes(), start, end).result(),
            final(self).old_br_indexes@ == old(self)@.index,
            final(self).encoding == old(self).encoding,
            final(self).wf(),
            old(updateable).updated(
                old(self).replace_record(s.spec_bytes(), start, end),
                final(updateable),
            ),
    {
        let ghost old_index = self@.index;
        let ghost t = s.spec_bytes();
        let mut start = start;
        let mut end = end;
        self.update_prep();
        let (start_byte, end_byte) = self.resolve_range(&mut start, &mut end);
        let old_len = end_byte - start_byte;
        let new_len = byte_len(s);
        let found = offsets_from(s, start_byte);
        proof {
            broadcast use encode_utf8_valid_utf8;

            lemma_range_record(
                self@,
                old_index,
                ChangeModel::Replace { start, end, text: t, inserted: ints(found@) },
            );
            lemma_replace_index(
                self@.index,
                start.row as int,
                end.row as int,
                start_byte as int,
                end_byte as int,
                t,
            );
            lemma_spliced_middle(
                shifted(
                    self@.index,
                    end.row as int,
                    t.len() - (end_byte - start_byte),
                ),
                start.row + 1,
                end.row + 1,
                ints(found@),
            );
        }
        if old_len < new_len {
            self.br_indexes.add_offsets(end.row, new_len - old_len);
        } else if old_len > new_len {
            self.br_indexes.sub_offsets(end.row, old_len - new_len);
        }
        let r = self.br_indexes.replace_indexes(start.row, end.row, found.as_slice());
        proof {
            lemma_ints_subrange(self.br_indexes.0@, r.start as int, r.end as int);
        }
        let inserted = slice_subrange(self.br_indexes.0.as_slice(), r.start, r.end);
        updateable.update(
            UpdateContext {
                change: ChangeContext::Replace {
                    start,
                    end,
                    text: s,
                    inserted_br_indexes: inserted,
                },
                breaklines: &self.br_indexes,
                old_breaklines: &self.old_br_indexes,
                old_str: self.text.as_str(),
            },
        );
        replace_range(&mut self.text, start_byte, end_byte, s);
    }

    /// Puts `s` in the place of the whole text, and tells `updateable`.
    ///
    /// The index is made anew by scanning `s`.
    pub fn replace_full<U: Updateable>(&mut self, s: Cow<'_, str>, updateable: &mut U)
        requires
            old(self).wf(),
            old(updateable).ready_for(old(self).replace_full_record(encode_utf8(s@))),
        ensures
            old(self).replace_full_record(encode_utf8(s@)).wf(),
            final(self)@ == Doc::scan(encode_utf8(s@)),
            final(self).text@ == s@,
            final(self).old_br_indexes@ == old(self)@.index,
            final(self).encoding == old(self).encoding,
            final(self).wf(),
            old(updateable).updated(
                old(self).replace_full_record(encode_utf8(s@)),
                final(updateable),
            ),
    {
        let new_text = cow_str(&s);
        let n = byte_len(new_text);
        proof {
            broadcast use encode_utf8_valid_utf8;

            lemma_scan_wf(encode_utf8(s@));
            lemma_full_record(self@, encode_utf8(s@));
        }
        self.update_prep();
        self.br_indexes = BrIndexes::new(new_text);
        updateable.update(
            UpdateContext {
                change: ChangeContext::ReplaceFull { text: new_text },
                breaklines: &self.br_indexes,
                old_breaklines: &self.old_br_indexes,
                old_str: self.text.as_str(),
            },
        );
        match s {
            Cow::Borrowed(s) => {
                self.text = s.to_owned();
            },
            Cow::Owned(s) => {
                self.text = s;
            },
        }
    }
}

/// The text that `c` holds.
pub(crate) fn cow_str<'b>(c: &'b Cow<'_, str>) -> (r: &'b str)
    ensures
        r@ == c@,
{
    match c {
        Cow::Borrowed(s) => s,
        Cow::Owned(s) => s.as_str(),
    }
}

/// The terminator offsets of `s`, each moved up by `base`.
fn offsets_from(s: &str, base: usize) -> (out: Vec<usize>)
    requires
        base + s.spec_bytes().len() <= usize::MAX,
    ensures
        ints(out@) == offset(breaks(s.spec_bytes()), base as int),
{
    let mut it = FastEOL::new(s);
    let mut out: Vec<usize> = Vec::new();
    let ghost all = offset(breaks(s.spec_bytes()), base as int);
    proof {
        assert(ints(out@) + offset(it.remaining(), base as int) =~= all);
    }
    loop
        invariant
            it.haystack() == s.spec_bytes(),
            base + s.spec_bytes().len() <= usize::MAX,
            ints(out@) + offset(it.remaining(), base as int) == all,
        ensures
            ints(out@) == all,
        decreases it.haystack().len() - it.cursor(),
    {
        let ghost before = ints(out@);
        let ghost rem = it.remaining();
        match it.next() {
            Some(i) => {
                out.push(i + base);
                proof {
                    assert(ints(out@) =~= before.push(i + base));
                    assert(before.push(i + base) + offset(rem.drop_first(), base as int) =~= before
                        + offset(rem, base as int));
                }
            },
            None => {
                proof {
                    assert(before + offset(rem, base as int) =~= before);
                }
                break ;
            },
        }
    }
    out
}

} // verus!
