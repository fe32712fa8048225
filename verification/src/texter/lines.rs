//! Finding line terminators in a fragment of text, and walking the lines of a
//! buffer by its line-break index.

use vstd::prelude::*;
use vstd::slice::slice_subrange;
use vstd::string::StringSliceAdditionalSpecFns;
use vstd::utf8::encode_utf8_valid_utf8;
use crate::texter::br_indexes::ints;
use crate::texter::model::{indexes, lemma_trimmed_cut, lemma_wf, line, Doc};
use crate::texter::strings::{byte_len, substr};
use crate::texter::utils::trim_eol_from_end;

verus! {

/// Carriage return.
pub const CR: u8 = 0x0D;

/// Line feed.
pub const LF: u8 = 0x0A;

/// A byte that can end a line.
pub open spec fn is_eol_byte(b: u8) -> bool {
    b == CR || b == LF
}

/// Offset `i` of `s` is the one reported for a line terminator: every line
/// feed is, and so is every carriage return that no line feed follows directly.
/// Of the pair CR LF only the line feed counts.
pub open spec fn is_break(s: Seq<u8>, i: int) -> bool {
    &&& 0 <= i < s.len()
    &&& (s[i] == LF || (s[i] == CR && !(i + 1 < s.len() && s[i + 1] == LF)))
}

/// The terminator offsets of `s` that are at or past `lo`, ascending.
pub open spec fn breaks_from(s: Seq<u8>, lo: int) -> Seq<int>
    decreases s.len() - lo,
{
    if lo < 0 || lo >= s.len() {
        Seq::empty()
    } else if is_break(s, lo) {
        seq![lo] + breaks_from(s, lo + 1)
    } else {
        breaks_from(s, lo + 1)
    }
}

/// All terminator offsets of `s`, ascending.
pub open spec fn breaks(s: Seq<u8>) -> Seq<int> {
    breaks_from(s, 0)
}

/// Where no offset in `lo..hi` is a terminator, the scan from `lo` finds what
/// the scan from `hi` finds.
pub proof fn lemma_breaks_skip(s: Seq<u8>, lo: int, hi: int)
    requires
        0 <= lo <= hi <= s.len(),
        forall|j: int| lo <= j < hi ==> !is_break(s, j),
    ensures
        breaks_from(s, lo) == breaks_from(s, hi),
    decreases hi - lo,
{
    if lo < hi {
        lemma_breaks_skip(s, lo + 1, hi);
    }
}

/// `breaks_from(s, lo)` holds exactly the terminator offsets from `lo` on, each
/// once and in ascending order.
pub proof fn lemma_breaks_from(s: Seq<u8>, lo: int)
    requires
        0 <= lo,
    ensures
        forall|k: int|
            0 <= k < breaks_from(s, lo).len() ==> lo <= #[trigger] breaks_from(s, lo)[k]
                && is_break(s, breaks_from(s, lo)[k]),
        forall|j: int, k: int|
            0 <= j < k < breaks_from(s, lo).len() ==> breaks_from(s, lo)[j] < breaks_from(
                s,
                lo,
            )[k],
        forall|i: int|
            lo <= i && is_break(s, i) ==> exists|k: int|
                0 <= k < breaks_from(s, lo).len() && #[trigger] breaks_from(s, lo)[k] == i,
        breaks_from(s, lo).len() <= s.len() - lo || breaks_from(s, lo).len() == 0,
    decreases s.len() - lo,
{
    if lo < s.len() {
        lemma_breaks_from(s, lo + 1);
        let rest = breaks_from(s, lo + 1);
        let all = breaks_from(s, lo);
        if is_break(s, lo) {
            assert(all[0] == lo);
            assert forall|k: int| 1 <= k < all.len() implies all[k] == rest[k - 1] by {}
            assert forall|i: int| lo <= i && is_break(s, i) implies exists|k: int|
                0 <= k < all.len() && #[trigger] all[k] == i by {
                if i == lo {
                    assert(all[0] == i);
                } else {
                    let k = choose|k: int| 0 <= k < rest.len() && #[trigger] rest[k] == i;
                    assert(all[k + 1] == i);
                }
            }
        } else {
            assert(all == rest);
        }
    }
}

/// Reference for the search routine of the `memchr` crate, `memchr::memchr2`:
/// it returns the index of the first byte of `haystack` that equals one of the
/// two needles, and `None` where no byte does.
pub assume_specification[ memchr::memchr2 ](needle1: u8, needle2: u8, haystack: &[u8]) -> (r:
    Option<usize>)
    ensures
        match r {
            Some(i) => {
                &&& i < haystack@.len()
                &&& (haystack@[i as int] == needle1 || haystack@[i as int] == needle2)
                &&& forall|j: int|
                    0 <= j < i ==> haystack@[j] != needle1 && haystack@[j] != needle2
            },
            None => forall|j: int|
                0 <= j < haystack@.len() ==> haystack@[j] != needle1 && haystack@[j] != needle2,
        },
;

/// A scanner that yields the terminator offsets of a fragment one by one.
///
/// A fresh scanner starts at the beginning of the fragment; once it has
/// returned `None` it keeps doing so.
pub struct FastEOL<'a> {
    haystack: &'a [u8],
    /// The offset at which the search resumes.
    pos: usize,
}

impl<'a> FastEOL<'a> {
    #[verifier::type_invariant]
    spec fn in_bounds(&self) -> bool {
        self.pos <= self.haystack@.len()
    }

    /// The bytes that are scanned.
    pub closed spec fn haystack(&self) -> Seq<u8> {
        self.haystack@
    }

    /// The offset at which the search resumes.
    pub closed spec fn cursor(&self) -> int {
        self.pos as int
    }

    /// The offsets that are still to come.
    pub open spec fn remaining(&self) -> Seq<int> {
        breaks_from(self.haystack(), self.cursor())
    }

    pub fn new(haystack: &'a str) -> (r: Self)
        ensures
            r.haystack() == haystack.spec_bytes(),
            r.cursor() == 0,
            r.remaining() == breaks(haystack.spec_bytes()),
    {
        FastEOL { haystack: haystack.as_bytes(), pos: 0 }
    }

    /// The next terminator offset, if there is one.
    pub fn next(&mut self) -> (r: Option<usize>)
        ensures
            final(self).haystack() == old(self).haystack(),
            old(self).cursor() <= final(self).cursor() <= old(self).haystack().len(),
            match r {
                Some(i) => {
                    &&& old(self).remaining().len() > 0
                    &&& i as int == old(self).remaining()[0]
                    &&& final(self).remaining() == old(self).remaining().drop_first()
                    &&& final(self).cursor() == i + 1
                },
                None => old(self).remaining().len() == 0 && final(self).remaining().len() == 0,
            },
    {
        proof {
            use_type_invariant(&*self);
        }
        let len = self.haystack.len();
        if self.pos >= len {
            return None;
        }
        let ghost s = self.haystack@;
        let ghost from = self.pos as int;
        let rest = slice_subrange(self.haystack, self.pos, len);
        match memchr::memchr2(CR, LF, rest) {
            None => {
                proof {
                    assert forall|j: int| from <= j < len implies !is_break(s, j) by {
                        assert(rest@[j - from] == s[j]);
                    }
                    lemma_breaks_skip(s, from, len as int);
                }
                self.pos = len;
                None
            },
            Some(k) => {
                let n = self.pos + k;
                proof {
                    assert(rest@[k as int] == s[n as int]);
                    assert forall|j: int| from <= j < n implies !is_break(s, j) by {
                        assert(rest@[j - from] == s[j]);
                    }
                    lemma_breaks_skip(s, from, n as int);
                }
                if self.haystack[n] == CR && n + 1 < len && self.haystack[n + 1] == LF {
                    proof {
                        assert(!is_break(s, n as int));
                        assert(is_break(s, n + 1));
                        assert(breaks_from(s, n + 1).drop_first() =~= breaks_from(s, n + 2));
                    }
                    self.pos = n + 2;
                    Some(n + 1)
                } else {
                    proof {
                        assert(is_break(s, n as int));
                        assert(breaks_from(s, n as int).drop_first() =~= breaks_from(s, n + 1));
                    }
                    self.pos = n + 1;
                    Some(n)
                }
            },
        }
    }

    /// The least and the most offsets that can still come: none, and one for
    /// each byte that is still to be searched.
    pub fn size_hint(&self) -> (r: (usize, Option<usize>))
        ensures
            r.0 == 0,
            r.1 == Some((self.haystack().len() - self.cursor()) as usize),
            self.remaining().len() <= self.haystack().len() - self.cursor(),
    {
        proof {
            use_type_invariant(&*self);
            lemma_breaks_from(self.haystack@, self.pos as int);
        }
        (0, Some(self.haystack.len() - self.pos))
    }

    /// All the offsets that are still to come, in order.
    pub fn collect(self) -> (out: Vec<usize>)
        ensures
            out@.map_values(|x: usize| x as int) == self.remaining(),
    {
        let mut it = self;
        let mut out: Vec<usize> = Vec::new();
        let ghost all = it.remaining();
        loop
            invariant
                out@.map_values(|x: usize| x as int) + it.remaining() == all,
            ensures
                out@.map_values(|x: usize| x as int) == all,
            decreases it.haystack().len() - it.cursor(),
        {
            let ghost before = out@.map_values(|x: usize| x as int);
            let ghost rem = it.remaining();
            match it.next() {
                Some(i) => {
                    out.push(i);
                    proof {
                        assert(out@.map_values(|x: usize| x as int) =~= before.push(i as int));
                        assert(before.push(i as int) + rem.drop_first() =~= before + rem);
                    }
                },
                None => {
                    proof {
                        assert(before + rem =~= before);
                    }
                    break ;
                },
            }
        }
        out
    }
}

/// A walk over the rows of a text, by its line-break index: each step hands
/// out the content of one row, without its terminator.
#[derive(Clone, Copy, Debug)]
pub struct TextLines<'a> {
    lf_indexes: &'a [usize],
    s: &'a str,
    /// The row that the next step hands out.
    cursor: usize,
}

impl<'a> TextLines<'a> {
    #[verifier::type_invariant]
    spec fn in_step(&self) -> bool {
        &&& self.cursor <= self.lf_indexes@.len()
        &&& self.lf_indexes@.len() == 0 || indexes(ints(self.lf_indexes@), self.s.spec_bytes())
    }

    /// The index that is walked.
    pub closed spec fn index(&self) -> Seq<int> {
        ints(self.lf_indexes@)
    }

    /// The bytes of the text that is walked.
    pub closed spec fn text(&self) -> Seq<u8> {
        self.s.spec_bytes()
    }

    /// The row that the next step hands out.
    pub closed spec fn cursor(&self) -> int {
        self.cursor as int
    }

    /// A walk over the rows of `s` by the index `lfs`, which is empty or a
    /// line-break index of `s`. It starts at the first row.
    pub fn new(s: &'a str, lfs: &'a [usize]) -> (r: TextLines<'a>)
        requires
            lfs@.len() == 0 || indexes(ints(lfs@), s.spec_bytes()),
        ensures
            r.index() == ints(lfs@),
            r.text() == s.spec_bytes(),
            r.cursor() == 0,
    {
        TextLines { lf_indexes: lfs, s, cursor: 0 }
    }

    /// The content of the next row, if there is one.
    pub fn next(&mut self) -> (r: Option<&'a str>)
        ensures
            final(self).index() == old(self).index(),
            final(self).text() == old(self).text(),
            ({
                let row = old(self).cursor();
                if row < old(self).index().len() {
                    &&& final(self).cursor() == row + 1
                    &&& r.is_some()
                    &&& r.unwrap().spec_bytes() == line(old(self).index(), old(self).text(), row)
                } else {
                    r.is_none() && final(self).cursor() == old(self).cursor()
                }
            }),
    {
        self.nth(0)
    }

    /// The content of the row `n` rows on, if there is one; the walk goes on
    /// behind it. Where there is none the walk stays where it is.
    pub fn nth(&mut self, n: usize) -> (r: Option<&'a str>)
        ensures
            final(self).index() == old(self).index(),
            final(self).text() == old(self).text(),
            ({
                let row = old(self).cursor() + n;
                if row < old(self).index().len() {
                    &&& final(self).cursor() == row + 1
                    &&& r.is_some()
                    &&& r.unwrap().spec_bytes() == line(old(self).index(), old(self).text(), row)
                } else {
                    r.is_none() && final(self).cursor() == old(self).cursor()
                }
            }),
    {
        proof {
            use_type_invariant(&*self);
        }
        let rows = self.lf_indexes.len();
        if n >= rows - self.cursor {
            return None;
        }
        let row = self.cursor + n;
        let ghost d = Doc { bytes: self.s.spec_bytes(), index: ints(self.lf_indexes@) };
        proof {
            broadcast use encode_utf8_valid_utf8;

            lemma_wf(d);
            lemma_trimmed_cut(d, row as int);
            assert(d.index[row as int] == self.lf_indexes@[row as int]);
            if row + 1 < rows {
                assert(d.index[row + 1] == self.lf_indexes@[row + 1]);
            }
        }
        let len = byte_len(self.s);
        let start = if row != 0 {
            self.lf_indexes[row] + 1
        } else {
            self.lf_indexes[row]
        };
        let end = if row + 1 < rows {
            self.lf_indexes[row + 1]
        } else {
            len
        };
        self.cursor = row + 1;
        Some(trim_eol_from_end(substr(self.s, start, end)))
    }

    /// The walk with the next `n` rows left out, or all that are left where
    /// there are fewer.
    pub fn skip(self, n: usize) -> (r: Self)
        ensures
            r.index() == self.index(),
            r.text() == self.text(),
            r.cursor() == if self.cursor() + n <= self.index().len() {
                self.cursor() + n
            } else {
                self.index().len() as int
            },
    {
        proof {
            use_type_invariant(&self);
        }
        let rows = self.lf_indexes.len();
        let cursor = if n >= rows - self.cursor {
            rows
        } else {
            self.cursor + n
        };
        TextLines { lf_indexes: self.lf_indexes, s: self.s, cursor }
    }

    /// The number of rows that are left.
    pub fn count(self) -> (r: usize)
        ensures
            r == self.index().len() - self.cursor(),
    {
        proof {
            use_type_invariant(&self);
        }
        self.lf_indexes.len() - self.cursor
    }

    /// The number of rows that are left, as the least and the most that can
    /// still come.
    pub fn size_hint(&self) -> (r: (usize, Option<usize>))
        ensures
            r.0 == self.index().len() - self.cursor(),
            r.1 == Some(r.0),
    {
        proof {
            use_type_invariant(&*self);
        }
        let b = self.lf_indexes.len() - self.cursor;
        (b, Some(b))
    }
}

} // verus!
