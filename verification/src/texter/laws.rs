//! What holds of a buffer whatever is done with it.

use vstd::prelude::*;
use vstd::utf8::valid_utf8;
use crate::texter::change::{lemma_normalize_denormalize, GridIndex};
use crate::texter::lines::{breaks, is_break, lemma_breaks_from, CR, LF};
use crate::texter::model::{
    has_entry, joins_pair, lemma_canonical_is_scan, lemma_line_boundaries, lemma_scan_wf,
    lemma_splice_canonical, lemma_splice_indexes, lemma_splice_wf, lemma_synth, lemma_wf, Doc,
};
use crate::texter::text::Text;

verus! {

/// The entries of `br` are in strictly ascending order, the first included.
pub open spec fn strictly_ascending(br: Seq<int>) -> bool {
    forall|i: int, j: int| 0 <= i < j < br.len() ==> br[i] < br[j]
}

/// The index of a well-formed document starts with 0, has one entry for each
/// row, and never descends; from its second entry on it ascends strictly.
///
/// It ascends strictly from its first entry on exactly where no terminator
/// stands at byte 0 of the text: such a terminator has the offset 0, which is
/// also the first entry.
pub proof fn lemma_index_invariant(d: Doc)
    requires
        d.wf(),
    ensures
        d.rows() == d.index.len(),
        d.rows() >= 1,
        d.index[0] == 0,
        forall|i: int, j: int| 0 <= i <= j < d.index.len() ==> d.index[i] <= d.index[j],
        forall|i: int, j: int| 1 <= i < j < d.index.len() ==> d.index[i] < d.index[j],
        strictly_ascending(d.index) <==> !has_entry(d.index, 0),
{
    lemma_wf(d);
    let br = d.index;
    assert forall|i: int, j: int| 0 <= i <= j < br.len() implies br[i] <= br[j] by {
        if i == 0 && j > 0 {
            assert(0 <= br[j]);
        }
    }
    if has_entry(br, 0) {
        let k = choose|k: int| 1 <= k < br.len() && #[trigger] br[k] == 0;
        assert(!(br[0] < br[k]));
    } else {
        assert forall|i: int, j: int| 0 <= i < j < br.len() implies br[i] < br[j] by {
            if i == 0 {
                assert(0 <= br[j]);
                if br[j] == 0 {
                    assert(has_entry(br, 0));
                }
            }
        }
    }
}

/// The index that scanning a text gives ascends strictly from its first entry
/// on exactly where the text does not start with a terminator.
pub proof fn lemma_scan_strict(t: Seq<u8>)
    requires
        valid_utf8(t),
    ensures
        Doc::scan(t).wf(),
        strictly_ascending(Doc::scan(t).index) <==> !is_break(t, 0),
{
    let d = Doc::scan(t);
    lemma_scan_wf(t);
    lemma_index_invariant(d);
    lemma_breaks_from(t, 0);
    let b = breaks(t);
    if is_break(t, 0) {
        let k = choose|k: int| 0 <= k < b.len() && #[trigger] b[k] == 0;
        assert(d.index[k + 1] == 0);
    }
    if has_entry(d.index, 0) {
        let k = choose|k: int| 1 <= k < d.index.len() && #[trigger] d.index[k] == 0;
        assert(d.index[k] == b[k - 1]);
        assert(is_break(t, b[k - 1]));
    }
}

/// Inserting the empty text at a position in one of the rows of a buffer
/// leaves the text and the index as they were.
///
/// The row one past the last is left out: to address it makes that row, which
/// appends a line feed. The text is no longer than a text can be.
pub proof fn lemma_insert_empty(text: Text, at: GridIndex)
    requires
        text.wf(),
        text.admits(at),
        at.row < text@.rows(),
        text@.bytes.len() <= usize::MAX,
    ensures
        text.insert_record(Seq::empty(), at).result() == text@,
{
    let d = text@;
    let p = text.resolved_start(at);
    lemma_normalize_denormalize(
        d,
        text.encoding,
        at.row as int,
        at.col as int,
    );
    lemma_wf(d);
    let c = d.byte_col(text.encoding, at.row as int, at.col as int);
    lemma_splice_wf(d, at.row as int, c, at.row as int, c, Seq::empty());
    lemma_line_boundaries(d, at.row as int);
    assert(breaks(Seq::<u8>::empty()) =~= Seq::<int>::empty());
    let r = text.insert_record(Seq::empty(), at).result();
    assert(p.col == c);
    assert(r.bytes =~= d.bytes);
    assert(r.index =~= d.index);
}

/// Replacing the whole text of a buffer by `t` leaves the text and the index
/// that a fresh buffer for `t` has, whatever the buffer held.
pub proof fn lemma_replace_full_is_fresh(text: Text, t: Seq<u8>)
    ensures
        text.replace_full_record(t).result() == Doc::scan(t),
        text.replace_full_record(t).breaklines == Doc::scan(t).index,
{
}

/// An edit of a document whose index is the one a scan of its text gives
/// leaves a document of which that holds again, unless the edit brings a CR
/// directly in front of an LF.
///
/// The bytes from the place `(r1, c1)` up to the place `(r2, c2)` are
/// replaced by `t`; the columns count bytes.
pub proof fn lemma_edit_is_scan(d: Doc, r1: int, c1: int, r2: int, c2: int, t: Seq<u8>)
    requires
        d.wf(),
        d == Doc::scan(d.bytes),
        valid_utf8(t),
        d.holds(r1, c1),
        d.holds(r2, c2),
        d.offset_of(r1, c1) <= d.offset_of(r2, c2),
        !joins_pair(d.bytes, d.offset_of(r1, c1), d.offset_of(r2, c2), t),
    ensures
        d.splice(r1, c1, r2, c2, t) == Doc::scan(d.splice(r1, c1, r2, c2, t).bytes),
{
    let sb = d.offset_of(r1, c1);
    let eb = d.offset_of(r2, c2);
    lemma_wf(d);
    lemma_splice_wf(d, r1, c1, r2, c2, t);
    lemma_line_boundaries(d, r1);
    lemma_line_boundaries(d, r2);
    lemma_canonical_is_scan(d.index, d.bytes);
    lemma_splice_indexes(d.index, d.bytes, r1, r2, sb, eb, t);
    lemma_splice_canonical(d.index, d.bytes, r1, r2, sb, eb, t);
    let after = d.splice(r1, c1, r2, c2, t);
    lemma_canonical_is_scan(after.index, after.bytes);
}

/// Making the row one past the last of a document whose index is the one a
/// scan of its text gives leaves a document of which that holds again, unless
/// the text ends with a CR.
pub proof fn lemma_synth_is_scan(d: Doc, row: int)
    requires
        d.wf(),
        d == Doc::scan(d.bytes),
        0 <= row <= d.rows(),
        !(d.bytes.len() >= 1 && d.bytes.last() == CR),
    ensures
        d.synth(row) == Doc::scan(d.synth(row).bytes),
{
    let e = d.synth(row);
    lemma_synth(d, row);
    lemma_wf(d);
    lemma_wf(e);
    lemma_canonical_is_scan(d.index, d.bytes);
    if row == d.rows() {
        assert forall|p: int|
            #![trigger e.bytes[p]]
            0 <= p && p + 1 < e.bytes.len() && e.bytes[p] == CR && e.bytes[p
                + 1] == LF implies !has_entry(e.index, p) by {
            if has_entry(e.index, p) {
                let k = choose|k: int| 1 <= k < e.index.len() && #[trigger] e.index[k] == p;
                assert(k < d.index.len());
                assert(d.index[k] == p);
                assert(has_entry(d.index, p));
                assert(d.bytes[p] == e.bytes[p]);
                assert(d.bytes[p + 1] == e.bytes[p + 1]);
                assert(false);
            }
        }
    }
    lemma_canonical_is_scan(e.index, e.bytes);
}

} // verus!
