//! The line-break index: the byte offsets of a text's line terminators.

use std::ops::Range;
use vstd::prelude::*;
use vstd::string::StringSliceAdditionalSpecFns;
use crate::texter::lines::{breaks, FastEOL};

verus! {

/// The offsets held in `v`, as integers.
pub open spec fn ints(v: Seq<usize>) -> Seq<int> {
    v.map_values(|x: usize| x as int)
}

/// The byte at which row `row` begins, by the index `br`: the first row
/// begins at byte 0, every other row at the byte after its terminator.
pub open spec fn row_start(br: Seq<int>, row: int) -> int {
    br[row] + if row != 0 {
        1int
    } else {
        0int
    }
}

/// `br` has the shape of a line-break index: it starts with the entry 0 that
/// stands for the beginning of the first row, and the entries after that
/// one are offsets in strictly ascending order.
pub open spec fn is_break_index(br: Seq<int>) -> bool {
    &&& br.len() >= 1
    &&& br[0] == 0
    &&& forall|i: int| 1 <= i < br.len() ==> 0 <= #[trigger] br[i]
    &&& forall|i: int, j: int| 1 <= i < j < br.len() ==> #[trigger] br[i] < #[trigger] br[j]
}

/// The index that `b` is spliced into `a` gives: the entries of `a` before
/// `from`, then `b`, then the entries of `a` from `to` on.
pub open spec fn spliced(a: Seq<int>, from: int, to: int, b: Seq<int>) -> Seq<int> {
    a.subrange(0, from) + b + a.subrange(to, a.len() as int)
}

/// `a` with `by` added to every entry after the one of row `row`.
pub open spec fn shifted(a: Seq<int>, row: int, by: int) -> Seq<int> {
    Seq::new(
        a.len(),
        |i: int|
            if i > row {
                a[i] + by
            } else {
                a[i]
            },
    )
}

/// Taking a part of a vector of offsets and reading it as integers is reading
/// it as integers and taking the part.
pub proof fn lemma_ints_subrange(v: Seq<usize>, from: int, to: int)
    requires
        0 <= from <= to <= v.len(),
    ensures
        ints(v.subrange(from, to)) == ints(v).subrange(from, to),
{
    assert(ints(v.subrange(from, to)) =~= ints(v).subrange(from, to));
}

/// What was spliced in stands where it was spliced in.
pub proof fn lemma_spliced_middle(a: Seq<int>, from: int, to: int, b: Seq<int>)
    requires
        0 <= from <= to <= a.len(),
    ensures
        spliced(a, from, to, b).len() == a.len() - (to - from) + b.len(),
        spliced(a, from, to, b).subrange(from, from + b.len()) == b,
{
    assert(spliced(a, from, to, b).subrange(from, from + b.len()) =~= b);
}

/// The byte offsets of the line terminators of a text, with the entry 0 in
/// front of them.
///
/// Entry `r` (for `r > 0`) is the offset of the terminator that ends row
/// `r - 1`; of a CR LF pair it is the offset of the LF.
#[derive(Debug, PartialEq, Eq)]
pub struct BrIndexes(pub Vec<usize>);

impl View for BrIndexes {
    type V = Seq<int>;

    open spec fn view(&self) -> Seq<int> {
        ints(self.0@)
    }
}

impl Default for BrIndexes {
    /// The index of the empty text.
    fn default() -> (r: Self)
        ensures
            r@ == seq![0int],
    {
        let mut v: Vec<usize> = Vec::new();
        v.push(0);
        assert(ints(v@) =~= seq![0int]);
        BrIndexes(v)
    }
}

impl Clone for BrIndexes {
    fn clone(&self) -> (r: Self)
        ensures
            r@ == self@,
    {
        let v = self.0.clone();
        assert(ints(v@) =~= ints(self.0@));
        BrIndexes(v)
    }
}

impl BrIndexes {
    /// The index of the text `s`.
    pub fn new(s: &str) -> (r: Self)
        ensures
            r@ == seq![0int] + breaks(s.spec_bytes()),
    {
        let mut byte_indexes: Vec<usize> = Vec::new();
        byte_indexes.push(0);
        let mut found = FastEOL::new(s).collect();
        proof {
            assert(ints(byte_indexes@ + found@) =~= seq![0int] + ints(found@));
        }
        byte_indexes.append(&mut found);
        BrIndexes(byte_indexes)
    }

    /// Makes this index a copy of `source`, keeping the allocation.
    pub fn clone_from(&mut self, source: &Self)
        ensures
            final(self)@ == source@,
    {
        self.0.clear();
        self.0.extend_from_slice(source.0.as_slice());
        assert(ints(self.0@) =~= ints(source.0@));
    }

    /// The index of the first byte of row `row`.
    pub fn row_start(&self, row: usize) -> (r: usize)
        requires
            row < self@.len(),
            row != 0 ==> self@[row as int] < usize::MAX,
        ensures
            r == row_start(self@, row as int),
    {
        if row != 0 {
            self.0[row] + 1
        } else {
            self.0[row]
        }
    }

    /// Inserts `indexes` in front of the entry at `at`, and returns the range
    /// of positions at which they now stand.
    pub fn insert_indexes(&mut self, at: usize, indexes: &[usize]) -> (r: Range<usize>)
        requires
            at <= old(self)@.len(),
        ensures
            final(self)@ == spliced(old(self)@, at as int, at as int, ints(indexes@)),
            r.start == at,
            r.end == at + indexes@.len(),
    {
        let mut tail = self.0.split_off(at);
        self.0.extend_from_slice(indexes);
        let stop = self.0.len();
        proof {
            assert(ints(self.0@ + tail@) =~= spliced(
                old(self)@,
                at as int,
                at as int,
                ints(indexes@),
            ));
        }
        self.0.append(&mut tail);
        at..stop
    }

    /// Inserts `index` in front of the entry at `at`.
    pub fn insert_index(&mut self, at: usize, index: usize)
        requires
            at <= old(self)@.len(),
        ensures
            final(self)@ == old(self)@.insert(at as int, index as int),
    {
        self.0.insert(at, index);
        assert(ints(self.0@) =~= old(self)@.insert(at as int, index as int));
    }

    /// Removes the entries after the one of row `start`, up to and including
    /// the one of row `end`: the rows from `start` to `end` become one row.
    pub fn remove_indexes(&mut self, start: usize, end: usize)
        requires
            start < end ==> end < old(self)@.len(),
        ensures
            start < end ==> final(self)@ == spliced(
                old(self)@,
                start + 1,
                end + 1,
                Seq::empty(),
            ),
            start >= end ==> final(self)@ == old(self)@,
    {
        if start >= end {
            return ;
        }
        assert(self@.len() == self.0.len());
        let mut tail = self.0.split_off(end + 1);
        self.0.truncate(start + 1);
        proof {
            assert(ints(self.0@ + tail@) =~= spliced(
                old(self)@,
                start + 1,
                end + 1,
                Seq::empty(),
            ));
        }
        self.0.append(&mut tail);
    }

    /// Puts `replacement` in the place of the entries after the one of row
    /// `start`, up to and including the one of row `end`, and returns the range
    /// of positions at which the new entries stand.
    pub fn replace_indexes(&mut self, start: usize, end: usize, replacement: &[usize]) -> (r:
        Range<usize>)
        requires
            start <= end < old(self)@.len(),
        ensures
            final(self)@ == spliced(old(self)@, start + 1, end + 1, ints(replacement@)),
            r.start == start + 1,
            r.end == start + 1 + replacement@.len(),
    {
        assert(self@.len() == self.0.len());
        let mut tail = self.0.split_off(end + 1);
        self.0.truncate(start + 1);
        self.0.extend_from_slice(replacement);
        let stop = self.0.len();
        proof {
            assert(ints(self.0@ + tail@) =~= spliced(
                old(self)@,
                start + 1,
                end + 1,
                ints(replacement@),
            ));
        }
        self.0.append(&mut tail);
        start + 1..stop
    }

    /// Adds `by` to every entry after the one of row `row`.
    pub fn add_offsets(&mut self, row: usize, by: usize)
        requires
            forall|i: int| row < i < old(self)@.len() ==> old(self)@[i] + by <= usize::MAX,
        ensures
            final(self)@ == shifted(old(self)@, row as int, by as int),
    {
        let len = self.0.len();
        if row >= len {
            assert(self@ =~= shifted(old(self)@, row as int, by as int));
            return ;
        }
        assert forall|k: int| row < k < len implies old(self).0@[k] + by <= usize::MAX by {
            assert(old(self)@[k] == old(self).0@[k]);
        }
        let mut i = row + 1;
        while i < len
            invariant
                row < i <= len,
                len == self.0@.len(),
                self.0@.len() == old(self).0@.len(),
                forall|k: int| 0 <= k <= row ==> self.0@[k] == old(self).0@[k],
                forall|k: int| row < k < i ==> self.0@[k] == old(self).0@[k] + by,
                forall|k: int| i <= k < len ==> self.0@[k] == old(self).0@[k],
                forall|k: int| row < k < len ==> old(self).0@[k] + by <= usize::MAX,
            decreases len - i,
        {
            let v = self.0[i];
            self.0.set(i, v + by);
            i = i + 1;
        }
        assert(self@ =~= shifted(old(self)@, row as int, by as int));
    }

    /// Subtracts `by` from every entry after the one of row `row`.
    pub fn sub_offsets(&mut self, row: usize, by: usize)
        requires
            forall|i: int| row < i < old(self)@.len() ==> old(self)@[i] >= by,
        ensures
            final(self)@ == shifted(old(self)@, row as int, -(by as int)),
    {
        let len = self.0.len();
        if row >= len {
            assert(self@ =~= shifted(old(self)@, row as int, -(by as int)));
            return ;
        }
        assert forall|k: int| row < k < len implies old(self).0@[k] >= by by {
            assert(old(self)@[k] == old(self).0@[k]);
        }
        let mut i = row + 1;
        while i < len
            invariant
                row < i <= len,
                len == self.0@.len(),
                self.0@.len() == old(self).0@.len(),
                forall|k: int| 0 <= k <= row ==> self.0@[k] == old(self).0@[k],
                forall|k: int| row < k < i ==> self.0@[k] == old(self).0@[k] - by,
                forall|k: int| i <= k < len ==> self.0@[k] == old(self).0@[k],
                forall|k: int| row < k < len ==> old(self).0@[k] >= by,
            decreases len - i,
        {
            let v = self.0[i];
            self.0.set(i, v - by);
            i = i + 1;
        }
        assert(self@ =~= shifted(old(self)@, row as int, -(by as int)));
    }

    /// Whether `row` is the last row.
    pub fn is_last_row(&self, row: usize) -> (r: bool)
        requires
            row < self@.len(),
        ensures
            r == (row == self@.len() - 1),
    {
        self.0.len() - 1 == row
    }

    /// The number of rows: one more than the number of terminators.
    pub fn row_count(&self) -> (r: usize)
        requires
            self@.len() >= 1,
        ensures
            r == self@.len(),
    {
        self.0.len()
    }

    /// The index of the first byte of the last row.
    pub fn last_row(&self) -> (r: usize)
        requires
            self@.len() >= 1,
            self@.len() > 1 ==> self@.last() < usize::MAX,
        ensures
            r == row_start(self@, self@.len() - 1),
    {
        self.row_start(self.row_count() - 1)
    }
}

} // verus!
