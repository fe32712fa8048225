//! Telling others what an edit did: the record of a change, and the sinks
//! that take it.

use vstd::prelude::*;
use vstd::utf8::valid_utf8;
use vstd::string::StringSliceAdditionalSpecFns;
use crate::texter::br_indexes::{ints, row_start, BrIndexes};
use crate::texter::change::GridIndex;
use crate::texter::lines::{breaks, lemma_breaks_from};
use crate::texter::model::{
    lemma_row_bounds, lemma_scan_wf, lemma_splice_wf, lemma_wf, offset, Doc,
};
use crate::texter::strings::byte_len;

verus! {

/// What an edit did, as handed to a sink.
#[derive(Clone, Copy, Debug)]
pub enum ChangeContext<'a> {
    Insert { position: GridIndex, text: &'a str, inserted_br_indexes: &'a [usize] },
    Delete { start: GridIndex, end: GridIndex },
    Replace { start: GridIndex, end: GridIndex, text: &'a str, inserted_br_indexes: &'a [usize] },
    ReplaceFull { text: &'a str },
}

/// The record of one edit: what changed, the index after the edit and before
/// it, and the text as it still stands while the sinks are told.
///
/// The positions in `change` hold byte columns.
#[derive(Clone, Copy, Debug)]
pub struct UpdateContext<'a> {
    /// The edit.
    pub change: ChangeContext<'a>,
    /// The index after the edit.
    pub breaklines: &'a BrIndexes,
    /// The index before the edit.
    pub old_breaklines: &'a BrIndexes,
    /// The text before the edit.
    pub old_str: &'a str,
}

/// An edit in a record, as the contracts see it.
pub enum ChangeModel {
    Insert { position: GridIndex, text: Seq<u8>, inserted: Seq<int> },
    Delete { start: GridIndex, end: GridIndex },
    Replace { start: GridIndex, end: GridIndex, text: Seq<u8>, inserted: Seq<int> },
    ReplaceFull { text: Seq<u8> },
}

/// A record as the contracts see it.
pub struct Record {
    pub change: ChangeModel,
    pub breaklines: Seq<int>,
    pub old_breaklines: Seq<int>,
    pub old_text: Seq<u8>,
}

impl<'a> View for ChangeContext<'a> {
    type V = ChangeModel;

    open spec fn view(&self) -> ChangeModel {
        match *self {
            ChangeContext::Insert { position, text, inserted_br_indexes } => ChangeModel::Insert {
                position,
                text: text.spec_bytes(),
                inserted: ints(inserted_br_indexes@),
            },
            ChangeContext::Delete { start, end } => ChangeModel::Delete { start, end },
            ChangeContext::Replace {
                start,
                end,
                text,
                inserted_br_indexes,
            } => ChangeModel::Replace {
                start,
                end,
                text: text.spec_bytes(),
                inserted: ints(inserted_br_indexes@),
            },
            ChangeContext::ReplaceFull { text } => ChangeModel::ReplaceFull {
                text: text.spec_bytes(),
            },
        }
    }
}

impl<'a> View for UpdateContext<'a> {
    type V = Record;

    open spec fn view(&self) -> Record {
        Record {
            change: self.change@,
            breaklines: self.breaklines@,
            old_breaklines: self.old_breaklines@,
            old_text: self.old_str.spec_bytes(),
        }
    }
}

/// The index `br` of a text of `len` bytes, with the rows up to `rows` made
/// that it lacks: each such row stands for a line feed at the end of the text,
/// and its entry is the offset of that line feed.
pub open spec fn extended(br: Seq<int>, len: int, rows: int) -> Seq<int> {
    if rows <= br.len() {
        br
    } else {
        let k = rows - br.len();
        br + Seq::new(k as nat, |j: int| len - k + j)
    }
}

impl Record {
    /// The row of the record's last position.
    pub open spec fn last_row(self) -> int {
        match self.change {
            ChangeModel::Insert { position, .. } => position.row as int,
            ChangeModel::Delete { end, .. } => end.row as int,
            ChangeModel::Replace { end, .. } => end.row as int,
            ChangeModel::ReplaceFull { .. } => 0,
        }
    }

    /// The document that the edit was made to.
    ///
    /// Its text is the text before the edit. Its index is the index before
    /// the edit, but where the edit addressed rows past the last: those rows
    /// were made first, each by a line feed at the end of the text, and the old
    /// index does not know of them.
    pub open spec fn base(self) -> Doc {
        Doc {
            bytes: self.old_text,
            index: extended(self.old_breaklines, self.old_text.len() as int, self.last_row() + 1),
        }
    }

    /// The document before the edit, as the record holds it.
    pub open spec fn old_doc(self) -> Doc {
        Doc { bytes: self.old_text, index: self.old_breaklines }
    }

    /// The place where the edit starts.
    pub open spec fn start(self) -> GridIndex {
        match self.change {
            ChangeModel::Insert { position, .. } => position,
            ChangeModel::Delete { start, .. } => start,
            ChangeModel::Replace { start, .. } => start,
            ChangeModel::ReplaceFull { .. } => GridIndex { row: 0, col: 0 },
        }
    }

    /// The place where what the edit took out ended.
    pub open spec fn end(self) -> GridIndex {
        match self.change {
            ChangeModel::Insert { position, .. } => position,
            ChangeModel::Delete { end, .. } => end,
            ChangeModel::Replace { end, .. } => end,
            ChangeModel::ReplaceFull { .. } => GridIndex { row: 0, col: 0 },
        }
    }

    /// The bytes that the edit put in.
    pub open spec fn text(self) -> Seq<u8> {
        match self.change {
            ChangeModel::Insert { text, .. } => text,
            ChangeModel::Delete { .. } => Seq::empty(),
            ChangeModel::Replace { text, .. } => text,
            ChangeModel::ReplaceFull { text } => text,
        }
    }

    /// The document after the edit.
    pub open spec fn result(self) -> Doc {
        match self.change {
            ChangeModel::ReplaceFull { text } => Doc::scan(text),
            _ => self.base().splice(
                self.start().row as int,
                self.start().col as int,
                self.end().row as int,
                self.end().col as int,
                self.text(),
            ),
        }
    }

    /// What a buffer promises of every record that it hands to a sink.
    ///
    /// The text before the edit and the index it was made to belong together,
    /// the positions are places in that text, the start not after the end, and
    /// the new index is the index of the text as it will be. The offsets of the
    /// new terminators are those of the terminators of the new bytes, counted
    /// from where the edit starts. No more than two rows were made for the edit.
    #[verifier::opaque]
    pub open spec fn wf(self) -> bool {
        &&& valid_utf8(self.text())
        &&& self.breaklines == self.result().index
        &&& self.result().bytes.len() <= usize::MAX
        &&& match self.change {
            ChangeModel::ReplaceFull { .. } => self.old_doc().wf(),
            _ => {
                let b = self.base();
                &&& b.wf()
                &&& self.old_breaklines.len() + 2 >= b.rows()
                &&& b.holds(self.start().row as int, self.start().col as int)
                &&& b.holds(self.end().row as int, self.end().col as int)
                &&& b.offset_of(self.start().row as int, self.start().col as int) <= b.offset_of(
                    self.end().row as int,
                    self.end().col as int,
                )
            },
        }
        &&& match self.change {
            ChangeModel::Insert { inserted, .. } => inserted == offset(
                breaks(self.text()),
                self.base().offset_of(self.start().row as int, self.start().col as int),
            ),
            ChangeModel::Replace { inserted, .. } => inserted == offset(
                breaks(self.text()),
                self.base().offset_of(self.start().row as int, self.start().col as int),
            ),
            _ => true,
        }
    }
}

/// The record of an edit of a stretch of a document is one that a buffer may
/// hand out, and the document it tells of is well formed.
///
/// `d` is the document the edit is made to, with the rows made that the edit
/// asked for, and `old_index` is the index before those rows were made.
pub proof fn lemma_range_record(d: Doc, old_index: Seq<int>, change: ChangeModel)
    requires
        change !is ReplaceFull,
        ({
            let rec = Record {
                change,
                breaklines: Seq::empty(),
                old_breaklines: old_index,
                old_text: d.bytes,
            };
            &&& d.wf()
            &&& valid_utf8(rec.text())
            &&& d.holds(rec.start().row as int, rec.start().col as int)
            &&& d.holds(rec.end().row as int, rec.end().col as int)
            &&& d.offset_of(rec.start().row as int, rec.start().col as int) <= d.offset_of(
                rec.end().row as int,
                rec.end().col as int,
            )
            &&& d.index == extended(old_index, d.bytes.len() as int, rec.end().row + 1)
            &&& old_index.len() + 2 >= d.rows()
            &&& d.bytes.len() + rec.text().len() <= usize::MAX
            &&& match change {
                ChangeModel::Insert { inserted, .. } => inserted == offset(
                    breaks(rec.text()),
                    d.offset_of(rec.start().row as int, rec.start().col as int),
                ),
                ChangeModel::Replace { inserted, .. } => inserted == offset(
                    breaks(rec.text()),
                    d.offset_of(rec.start().row as int, rec.start().col as int),
                ),
                _ => true,
            }
        }),
    ensures
        ({
            let rec0 = Record {
                change,
                breaklines: Seq::empty(),
                old_breaklines: old_index,
                old_text: d.bytes,
            };
            let rec = Record {
                change,
                breaklines: rec0.result().index,
                old_breaklines: old_index,
                old_text: d.bytes,
            };
            &&& rec.base() == d
            &&& rec.result() == rec0.result()
            &&& rec.wf()
            &&& rec.result().wf()
        }),
{
    let rec0 = Record { change, breaklines: Seq::empty(), old_breaklines: old_index, old_text: d.bytes };
    let rec = Record {
        change,
        breaklines: rec0.result().index,
        old_breaklines: old_index,
        old_text: d.bytes,
    };
    reveal(Record::wf);
    assert(rec.last_row() == rec.end().row);
    assert(rec.base() == d);
    lemma_splice_wf(
        d,
        rec.start().row as int,
        rec.start().col as int,
        rec.end().row as int,
        rec.end().col as int,
        rec.text(),
    );
}

/// The record of replacing the whole of a well-formed document is one that a
/// buffer may hand out.
pub proof fn lemma_full_record(d: Doc, text: Seq<u8>)
    requires
        d.wf(),
        valid_utf8(text),
        text.len() <= usize::MAX,
    ensures
        (Record {
            change: ChangeModel::ReplaceFull { text },
            breaklines: Doc::scan(text).index,
            old_breaklines: d.index,
            old_text: d.bytes,
        }).wf(),
{
    reveal(Record::wf);
}

/// Whatever a record that a buffer handed out tells of, the index in it is the
/// index of the text as it will be.
pub proof fn lemma_record_result(rec: Record)
    requires
        rec.wf(),
    ensures
        rec.result().wf(),
        rec.result().index == rec.breaklines,
        rec.result().bytes.len() <= usize::MAX,
        rec.change is ReplaceFull ==> rec.old_doc().wf(),
{
    reveal(Record::wf);
    match rec.change {
        ChangeModel::ReplaceFull { text } => {
            lemma_scan_wf(text);
        },
        _ => {
            lemma_splice_wf(
                rec.base(),
                rec.start().row as int,
                rec.start().col as int,
                rec.end().row as int,
                rec.end().col as int,
                rec.text(),
            );
        },
    }
}

/// Something that is told of every edit and brings its own state up to date.
///
/// A sink cannot refuse a record. What it needs beyond what every record
/// promises it says in `ready_for`, and the caller of an edit sees to it.
pub trait Updateable {
    /// What this sink needs of a record, beyond `Record::wf`, to take it.
    /// A sink that says nothing here takes every record.
    open spec fn ready_for(&self, rec: Record) -> bool {
        true
    }

    /// `after` is this sink after it took `rec`. A sink that says nothing
    /// here promises nothing of itself.
    open spec fn updated(&self, rec: Record, after: &Self) -> bool {
        true
    }

    /// Takes the record of an edit.
    fn update(&mut self, ctx: UpdateContext<'_>)
        requires
            ctx@.wf(),
            old(self).ready_for(ctx@),
        ensures
            old(self).updated(ctx@, final(self)),
    ;
}

/// The sink that listens to nothing.
impl Updateable for () {
    fn update(&mut self, ctx: UpdateContext<'_>) {
    }
}

/// Many sinks of one kind: each is told in turn, first to last, and each gets
/// the same record.
impl<T: Updateable> Updateable for Vec<T> {
    open spec fn ready_for(&self, rec: Record) -> bool {
        forall|i: int| 0 <= i < self@.len() ==> (#[trigger] self@[i]).ready_for(rec)
    }

    open spec fn updated(&self, rec: Record, after: &Self) -> bool {
        &&& after@.len() == self@.len()
        &&& forall|i: int| 0 <= i < self@.len() ==> (#[trigger] self@[i]).updated(rec, &after@[i])
    }

    fn update(&mut self, ctx: UpdateContext<'_>) {
        let n = self.len();
        let mut i: usize = 0;
        while i < n
            invariant
                i <= n,
                n == self@.len(),
                self@.len() == old(self)@.len(),
                ctx@.wf(),
                forall|k: int| 0 <= k < i ==> (#[trigger] old(self)@[k]).updated(ctx@, &self@[k]),
                forall|k: int| i <= k < n ==> self@[k] == #[trigger] old(self)@[k],
                forall|k: int| 0 <= k < n ==> (#[trigger] old(self)@[k]).ready_for(ctx@),
            decreases n - i,
        {
            assert(self@[i as int] == old(self)@[i as int]);
            assert(old(self)@[i as int].ready_for(ctx@));
            self[i].update(ctx);
            i = i + 1;
        }
    }
}

impl Record {
    /// The offsets of the terminators that the edit put in.
    pub open spec fn inserted(self) -> Seq<int> {
        match self.change {
            ChangeModel::Insert { inserted, .. } => inserted,
            ChangeModel::Replace { inserted, .. } => inserted,
            _ => Seq::empty(),
        }
    }

    /// The byte at which the edit starts, read off the index before the edit.
    pub open spec fn start_byte(self) -> int {
        match self.change {
            ChangeModel::ReplaceFull { .. } => 0,
            _ => row_start(self.old_breaklines, self.start().row as int) + self.start().col,
        }
    }

    /// The byte at which what the edit took out ended, read off the index
    /// before the edit.
    pub open spec fn old_end_byte(self) -> int {
        match self.change {
            ChangeModel::ReplaceFull { .. } => self.old_text.len() as int,
            _ => row_start(self.old_breaklines, self.end().row as int) + self.end().col,
        }
    }

    /// The byte at which what the edit put in ends.
    pub open spec fn new_end_byte(self) -> int {
        self.start_byte() + self.text().len()
    }

    /// The edit addressed rows that the index before the edit holds: no row
    /// was made for it.
    pub open spec fn within_old_rows(self) -> bool {
        self.change is ReplaceFull || self.last_row() < self.old_breaklines.len()
    }
}

/// What a record tells of the bytes of an edit that addressed rows of the old
/// index only: where the edit starts and ends in the old text, and where the
/// terminators it put in lie.
pub proof fn lemma_record_bytes(rec: Record)
    requires
        rec.wf(),
        rec.within_old_rows(),
        rec.change !is ReplaceFull,
    ensures
        rec.base().index == rec.old_breaklines,
        rec.start().row <= rec.end().row < rec.old_breaklines.len(),
        0 <= rec.start_byte() <= rec.old_end_byte() <= rec.old_text.len(),
        rec.old_text.len() - (rec.old_end_byte() - rec.start_byte()) + rec.text().len()
            <= usize::MAX,
        rec.start().row != 0 ==> rec.old_breaklines[rec.start().row as int] < rec.old_text.len(),
        rec.end().row != 0 ==> rec.old_breaklines[rec.end().row as int] < rec.old_text.len(),
        rec.change !is Delete ==> rec.inserted() == offset(breaks(rec.text()), rec.start_byte()),
        forall|k: int|
            0 <= k < breaks(rec.text()).len() ==> 0 <= #[trigger] breaks(rec.text())[k]
                < rec.text().len(),
        rec.breaklines.len() == rec.old_breaklines.len() + breaks(rec.text()).len()
            - (rec.end().row - rec.start().row),
        forall|k: int| 0 <= k <= rec.start().row ==> rec.breaklines[k] == rec.old_breaklines[k],
        forall|k: int|
            0 <= k < breaks(rec.text()).len() ==> #[trigger] rec.breaklines[rec.start().row + 1
                + k] == breaks(rec.text())[k] + rec.start_byte(),
{
    reveal(Record::wf);
    let b = rec.base();
    lemma_splice_wf(
        b,
        rec.start().row as int,
        rec.start().col as int,
        rec.end().row as int,
        rec.end().col as int,
        rec.text(),
    );
    lemma_breaks_from(rec.text(), 0);
    lemma_wf(b);
    lemma_row_bounds(b.index, b.bytes, rec.start().row as int);
    lemma_row_bounds(b.index, b.bytes, rec.end().row as int);
    if rec.start().row != 0 {
        assert(b.index[rec.start().row as int] < b.bytes.len());
    }
    if rec.end().row != 0 {
        assert(b.index[rec.end().row as int] < b.bytes.len());
    }
}

impl GridIndex {
    /// Where a cursor at this position stands after the edit that `rec` tells
    /// of.
    ///
    /// After an insertion the cursor has gone down by the rows put in; its
    /// column has grown by the bytes put in, or, where rows were put in, is the
    /// number of bytes put in behind the last new terminator. After a deletion
    /// it stands where the deletion started. After a replacement it has gone
    /// down by the rows put in and its column is the number of bytes put in from
    /// the last new terminator on. After a replacement of the whole text its
    /// row has grown by the byte at which the last row starts, and its column by
    /// the bytes of the new text from the start of that row on.
    pub open spec fn cursor_after(self, rec: Record) -> GridIndex {
        match rec.change {
            ChangeModel::Insert { text, inserted, .. } => if text.len() == 0 {
                self
            } else {
                GridIndex {
                    row: (self.row + inserted.len()) as usize,
                    col: if inserted.len() == 0 {
                        (self.col + text.len()) as usize
                    } else {
                        (text.len() - (inserted.last() - rec.start_byte()) - 1) as usize
                    },
                }
            },
            ChangeModel::Delete { start, .. } => start,
            ChangeModel::Replace { text, inserted, .. } => GridIndex {
                row: (self.row + inserted.len()) as usize,
                col: if inserted.len() == 0 {
                    text.len() as usize
                } else {
                    (text.len() - (inserted.last() - rec.start_byte())) as usize
                },
            },
            ChangeModel::ReplaceFull { text } => {
                let row = self.row + row_start(rec.breaklines, rec.breaklines.len() - 1);
                GridIndex {
                    row: row as usize,
                    col: (self.col + (text.len() - row_start(rec.breaklines, row))) as usize,
                }
            },
        }
    }
}

/// A position as a cursor of the simplest kind: it follows the edits as
/// `GridIndex::cursor_after` says. It holds a byte column.
impl Updateable for GridIndex {
    /// The edit addressed rows of the old index only, and the cursor's new
    /// row and column are numbers that a position can hold. After a
    /// replacement of the whole text the cursor's new row has to be a row of
    /// the new text, and the text has to reach to the start of that row.
    open spec fn ready_for(&self, rec: Record) -> bool {
        match rec.change {
            ChangeModel::Insert { position, text, inserted } => text.len() == 0 || {
                &&& position.row < rec.old_breaklines.len()
                &&& self.row + inserted.len() <= usize::MAX
                &&& inserted.len() == 0 ==> self.col + text.len() <= usize::MAX
            },
            ChangeModel::Delete { .. } => true,
            ChangeModel::Replace { start, inserted, .. } => {
                &&& rec.within_old_rows()
                &&& self.row + inserted.len() <= usize::MAX
            },
            ChangeModel::ReplaceFull { text } => {
                let row = self.row + row_start(rec.breaklines, rec.breaklines.len() - 1);
                &&& row < rec.breaklines.len()
                &&& row_start(rec.breaklines, row) <= text.len()
                &&& self.col + (text.len() - row_start(rec.breaklines, row)) <= usize::MAX
            },
        }
    }

    open spec fn updated(&self, rec: Record, after: &Self) -> bool {
        *after == self.cursor_after(rec)
    }

    fn update(&mut self, ctx: UpdateContext<'_>) {
        let ghost rec = ctx@;
        match ctx.change {
            ChangeContext::Insert { position, text, inserted_br_indexes } => {
                let text_len = byte_len(text);
                if text_len == 0 {
                    return ;
                }
                proof {
                    lemma_record_bytes(rec);
                }
                let old_len = byte_len(ctx.old_str);
                self.row = self.row + inserted_br_indexes.len();
                let start_byte_index = ctx.old_breaklines.row_start(position.row) + position.col;
                let n = inserted_br_indexes.len();
                if n == 0 {
                    self.col = self.col + text_len;
                } else {
                    proof {
                        assert(ints(inserted_br_indexes@)[n - 1] == inserted_br_indexes@[n - 1]);
                        assert(rec.inserted()[n - 1] == breaks(rec.text())[n - 1]
                            + rec.start_byte());
                    }
                    let last_lf = inserted_br_indexes[n - 1] - start_byte_index;
                    self.col = text_len - last_lf - 1;
                }
            },
            ChangeContext::Delete { start, .. } => {
                *self = start;
            },
            ChangeContext::Replace { start, text, inserted_br_indexes, .. } => {
                proof {
                    lemma_record_bytes(rec);
                }
                let text_len = byte_len(text);
                let old_len = byte_len(ctx.old_str);
                self.row = self.row + inserted_br_indexes.len();
                let start_byte_index = ctx.old_breaklines.row_start(start.row) + start.col;
                let n = inserted_br_indexes.len();
                proof {
                    if n > 0 {
                        assert(ints(inserted_br_indexes@)[n - 1] == inserted_br_indexes@[n - 1]);
                        assert(rec.inserted()[n - 1] == breaks(rec.text())[n - 1]
                            + rec.start_byte());
                    }
                }
                let last_lf = if n > 0 {
                    inserted_br_indexes[n - 1] - start_byte_index
                } else {
                    0
                };
                self.col = text_len - last_lf;
            },
            ChangeContext::ReplaceFull { text } => {
                proof {
                    lemma_record_result(rec);
                    lemma_wf(rec.result());
                }
                let text_len = byte_len(text);
                let rows = ctx.breaklines.row_count();
                self.row = self.row + ctx.breaklines.last_row();
                self.col = self.col + (text_len - ctx.breaklines.row_start(self.row));
            },
        }
    }
}

/// A place in a text as a re-parser takes it: a row and a byte column.
#[derive(Clone, Copy, Debug, PartialEq, Eq, Structural)]
pub struct Point {
    pub row: usize,
    pub column: usize,
}

/// An edit as an incremental re-parser takes it: where the edit starts, where
/// what it took out ended and where what it put in ends, each as a byte offset
/// and as a place.
#[derive(Clone, Copy, Debug, PartialEq, Eq, Structural)]
pub struct InputEdit {
    pub start_byte: usize,
    pub old_end_byte: usize,
    pub new_end_byte: usize,
    pub start_position: Point,
    pub old_end_position: Point,
    pub new_end_position: Point,
}

impl Record {
    /// The row in which what the edit took out ended. After a replacement of
    /// the whole text that is the last row of the old text.
    pub open spec fn old_end_row(self) -> int {
        match self.change {
            ChangeModel::ReplaceFull { .. } => self.old_breaklines.len() - 1,
            _ => self.end().row as int,
        }
    }

    /// The row in which what the edit put in ends: the row the edit starts in,
    /// further down by the terminators put in. After a replacement of the whole
    /// text that is the last row of the new text.
    pub open spec fn new_end_row(self) -> int {
        match self.change {
            ChangeModel::ReplaceFull { .. } => self.breaklines.len() - 1,
            _ => self.start().row + self.inserted().len(),
        }
    }

    /// `e` describes the edit of this record to a re-parser.
    ///
    /// The three byte offsets are those of the record. The start is the place
    /// where the edit starts; the old end is the place of the old end byte in
    /// the text before the edit, by the old index; the new end is the place of
    /// the new end byte in the text after the edit, by the new index.
    pub open spec fn describes(self, e: InputEdit) -> bool {
        &&& e.start_byte == self.start_byte()
        &&& e.old_end_byte == self.old_end_byte()
        &&& e.new_end_byte == self.new_end_byte()
        &&& e.start_position.row == self.start().row
        &&& e.start_position.column == self.start().col
        &&& e.old_end_position.row == self.old_end_row()
        &&& e.old_end_position.column == self.old_end_byte() - row_start(
            self.old_breaklines,
            self.old_end_row(),
        )
        &&& e.new_end_position.row == self.new_end_row()
        &&& e.new_end_position.column == self.new_end_byte() - row_start(
            self.breaklines,
            self.new_end_row(),
        )
    }
}

/// Where what an edit put in ends, by the new index: in the row of the last
/// terminator put in, behind that terminator; or, where none was put in, in
/// the row the edit started in, as many bytes on as were put in.
pub proof fn lemma_record_new_end(rec: Record)
    requires
        rec.wf(),
        rec.within_old_rows(),
        rec.change !is ReplaceFull,
    ensures
        0 <= rec.new_end_row() < rec.breaklines.len(),
        rec.new_end_byte() <= usize::MAX,
        rec.inserted().len() == 0 ==> rec.new_end_byte() - row_start(
            rec.breaklines,
            rec.new_end_row(),
        ) == rec.start().col + rec.text().len(),
        rec.inserted().len() > 0 ==> rec.new_end_byte() - row_start(
            rec.breaklines,
            rec.new_end_row(),
        ) == rec.text().len() - (rec.inserted().last() - rec.start_byte()) - 1,
        rec.inserted().len() > 0 ==> 0 <= rec.inserted().last() - rec.start_byte()
            < rec.text().len(),
{
    lemma_record_bytes(rec);
    let m = breaks(rec.text()).len() as int;
    if rec.change is Delete {
        assert(breaks(Seq::<u8>::empty()) =~= Seq::<int>::empty());
    } else if m > 0 {
        assert(rec.breaklines[rec.start().row + 1 + (m - 1)] == breaks(rec.text())[m - 1]
            + rec.start_byte());
    }
}

/// The edit that the record `ctx` tells of, as a re-parser takes it.
pub fn edit_from_ctx(ctx: UpdateContext<'_>) -> (ie: InputEdit)
    requires
        ctx@.wf(),
        ctx@.within_old_rows(),
    ensures
        ctx@.describes(ie),
{
    let ghost rec = ctx@;
    let old_br = ctx.old_breaklines;
    let new_br = ctx.breaklines;
    let old_len = byte_len(ctx.old_str);
    match ctx.change {
        ChangeContext::Delete { start, end } => {
            proof {
                lemma_record_bytes(rec);
                lemma_record_new_end(rec);
            }
            let start_byte = old_br.row_start(start.row) + start.col;
            let end_byte = old_br.row_start(end.row) + end.col;
            InputEdit {
                start_position: Point { row: start.row, column: start.col },
                old_end_position: Point { row: end.row, column: end.col },
                new_end_position: Point { row: start.row, column: start.col },
                start_byte,
                old_end_byte: end_byte,
                new_end_byte: start_byte,
            }
        },
        ChangeContext::Insert { inserted_br_indexes, position, text } => {
            proof {
                lemma_record_bytes(rec);
                lemma_record_new_end(rec);
            }
            let rows = new_br.row_count();
            let n = inserted_br_indexes.len();
            let text_len = byte_len(text);
            let start_byte = old_br.row_start(position.row) + position.col;
            let new_end_byte = start_byte + text_len;
            let column = if n > 0 {
                assert(ints(inserted_br_indexes@)[n - 1] == inserted_br_indexes@[n - 1]);
                text_len - (inserted_br_indexes[n - 1] - start_byte) - 1
            } else {
                text_len + position.col
            };
            InputEdit {
                start_byte,
                old_end_byte: start_byte,
                new_end_byte,
                start_position: Point { row: position.row, column: position.col },
                old_end_position: Point { row: position.row, column: position.col },
                new_end_position: Point { row: position.row + n, column },
            }
        },
        ChangeContext::Replace { start, end, text, inserted_br_indexes } => {
            proof {
                lemma_record_bytes(rec);
                lemma_record_new_end(rec);
            }
            let rows = new_br.row_count();
            let n = inserted_br_indexes.len();
            let text_len = byte_len(text);
            let start_byte = old_br.row_start(start.row) + start.col;
            let old_end_byte = old_br.row_start(end.row) + end.col;
            let new_end_position = if n > 0 {
                assert(ints(inserted_br_indexes@)[n - 1] == inserted_br_indexes@[n - 1]);
                Point {
                    row: start.row + n,
                    column: text_len - (inserted_br_indexes[n - 1] - start_byte) - 1,
                }
            } else {
                Point { row: start.row, column: start.col + text_len }
            };
            InputEdit {
                start_byte,
                start_position: Point { row: start.row, column: start.col },
                old_end_position: Point { row: end.row, column: end.col },
                old_end_byte,
                new_end_byte: start_byte + text_len,
                new_end_position,
            }
        },
        ChangeContext::ReplaceFull { text } => {
            proof {
                lemma_record_result(rec);
                lemma_wf(rec.result());
                lemma_wf(rec.old_doc());
                lemma_row_bounds(rec.breaklines, rec.text(), rec.breaklines.len() - 1);
                lemma_row_bounds(rec.old_breaklines, rec.old_text, rec.old_breaklines.len() - 1);
            }
            let text_len = byte_len(text);
            InputEdit {
                start_byte: 0,
                old_end_byte: old_len,
                new_end_byte: text_len,
                start_position: Point { row: 0, column: 0 },
                old_end_position: Point {
                    row: old_br.row_count() - 1,
                    column: old_len - old_br.last_row(),
                },
                new_end_position: Point {
                    row: new_br.row_count() - 1,
                    column: text_len - new_br.last_row(),
                },
            }
        },
    }
}

} // verus!
