//! What it means for a line-break index to belong to a text, and why the
//! edits keep it so.
//!
//! Texts are sequences of bytes here and indexes are sequences of integers.

use vstd::prelude::*;
use vstd::utf8::{valid_utf8, valid_utf8_concat};
use crate::texter::boundaries::{lemma_ascii_boundaries, lemma_slice_valid, on_boundary};
use crate::texter::br_indexes::{is_break_index, row_start, shifted, spliced};
use crate::texter::encodings::Encoding;
use crate::texter::utils::trimmed;
use crate::texter::lines::{breaks, is_break, is_eol_byte, lemma_breaks_from, CR, LF};

verus! {

/// The index `br` has an entry, other than the 0 in front, for the offset `p`.
pub open spec fn has_entry(br: Seq<int>, p: int) -> bool {
    exists|i: int| 1 <= i < br.len() && #[trigger] br[i] == p
}

/// `br` is a line-break index of the text `s`.
///
/// Every entry after the first is the offset of a CR or an LF of `s`. Every
/// LF of `s` has its entry, and so has every CR that no LF follows; a CR that
/// an LF follows may have one or not.
pub open spec fn indexes(br: Seq<int>, s: Seq<u8>) -> bool {
    &&& is_break_index(br)
    &&& forall|i: int| 1 <= i < br.len() ==> #[trigger] br[i] < s.len() && is_eol_byte(s[br[i]])
    &&& forall|p: int| #![trigger s[p]] 0 <= p < s.len() && s[p] == LF ==> has_entry(br, p)
    &&& forall|p: int|
        #![trigger s[p]]
        0 <= p < s.len() && s[p] == CR ==> has_entry(br, p) || (p + 1 < s.len() && s[p + 1] == LF)
}

/// The byte at which the content of row `row` ends: the end of the text for
/// the last row, else the offset of the row's terminator, which for CR LF is
/// the offset of the CR.
pub open spec fn row_end(br: Seq<int>, s: Seq<u8>, row: int) -> int {
    if row + 1 >= br.len() {
        s.len() as int
    } else {
        let t = br[row + 1];
        if t - 1 >= row_start(br, row) && s[t] == LF && s[t - 1] == CR {
            t - 1
        } else {
            t
        }
    }
}

/// The content of row `row`, without its terminator.
pub open spec fn line(br: Seq<int>, s: Seq<u8>, row: int) -> Seq<u8> {
    s.subrange(row_start(br, row), row_end(br, s, row))
}

/// Every offset of `a`, moved by `d`.
pub open spec fn offset(a: Seq<int>, d: int) -> Seq<int> {
    a.map_values(|x: int| x + d)
}

/// The text `s` with the bytes from `sb` up to `eb` replaced by `t`.
pub open spec fn splice_bytes(s: Seq<u8>, sb: int, eb: int, t: Seq<u8>) -> Seq<u8> {
    s.subrange(0, sb) + t + s.subrange(eb, s.len() as int)
}

/// The index `br` after the bytes from `sb`, in row `r1`, up to `eb`, in row
/// `r2`, were replaced by `t`: the entries up to that of row `r1` stay, the
/// terminators of `t` follow at their new offsets, and the entries after that
/// of row `r2` follow, moved by the change in length.
pub open spec fn splice_index(br: Seq<int>, r1: int, r2: int, sb: int, eb: int, t: Seq<u8>) -> Seq<
    int,
> {
    br.subrange(0, r1 + 1) + offset(breaks(t), sb) + offset(
        br.subrange(r2 + 1, br.len() as int),
        t.len() - (eb - sb),
    )
}

/// The scan of a text, with 0 in front, is a line-break index of that text.
pub proof fn lemma_scan_indexes(s: Seq<u8>)
    ensures
        indexes(seq![0int] + breaks(s), s),
{
    let b = breaks(s);
    let br = seq![0int] + b;
    lemma_breaks_from(s, 0);
    assert forall|i: int| 1 <= i < br.len() implies 0 <= #[trigger] br[i] && br[i] < s.len()
        && is_eol_byte(s[br[i]]) by {
        assert(br[i] == b[i - 1]);
    }
    assert forall|i: int, j: int| 1 <= i < j < br.len() implies #[trigger] br[i] < #[trigger] br[j] by {
        assert(br[i] == b[i - 1]);
        assert(br[j] == b[j - 1]);
    }
    assert forall|p: int| 0 <= p < s.len() && is_break(s, p) implies has_entry(br, p) by {
        let k = choose|k: int| 0 <= k < b.len() && #[trigger] b[k] == p;
        assert(br[k + 1] == p);
    }
    assert forall|p: int| #![trigger s[p]] 0 <= p < s.len() && s[p] == LF implies has_entry(
        br,
        p,
    ) by {
        assert(is_break(s, p));
    }
    assert forall|p: int|
        #![trigger s[p]]
        0 <= p < s.len() && s[p] == CR implies has_entry(br, p) || (p + 1 < s.len() && s[p + 1]
            == LF) by {
        if !(p + 1 < s.len() && s[p + 1] == LF) {
            assert(is_break(s, p));
        }
    }
}

/// The rows of an indexed text lie within it, in order, and a row's
/// terminator lies between the row and the next.
pub proof fn lemma_row_bounds(br: Seq<int>, s: Seq<u8>, r: int)
    requires
        indexes(br, s),
        0 <= r < br.len(),
    ensures
        0 <= row_start(br, r) <= row_end(br, s, r) <= s.len(),
        r + 1 < br.len() ==> row_end(br, s, r) <= br[r + 1] < row_start(br, r + 1),
        forall|k: int| 1 <= k <= r ==> #[trigger] br[k] < row_start(br, r),
        forall|k: int| r < k < br.len() ==> row_end(br, s, r) <= #[trigger] br[k],
{
    if r >= 1 {
        assert(br[r] < s.len());
    }
    if r + 1 < br.len() {
        assert(br[r + 1] < s.len());
    }
}

/// The content of a row holds no CR and no LF.
pub proof fn lemma_line_has_no_eol(br: Seq<int>, s: Seq<u8>, r: int, p: int)
    requires
        indexes(br, s),
        0 <= r < br.len(),
        row_start(br, r) <= p < row_end(br, s, r),
    ensures
        !is_eol_byte(s[p]),
{
    lemma_row_bounds(br, s, r);
    if s[p] == LF || s[p] == CR {
        if has_entry(br, p) {
            let k = choose|k: int| 1 <= k < br.len() && #[trigger] br[k] == p;
            assert(false);
        } else {
            assert(s[p + 1] == LF);
            assert(has_entry(br, p + 1));
            let k = choose|k: int| 1 <= k < br.len() && #[trigger] br[k] == p + 1;
            if k <= r {
                assert(false);
            } else if k == r + 1 {
                assert(false);
            } else {
                assert(br[r + 1] < br[k]);
                assert(false);
            }
        }
    }
}

/// An offset within the content of a row does not part a CR from the LF that
/// belongs to it: where an LF stands at the offset and a CR before it, the CR
/// has an entry of its own.
pub proof fn lemma_seam(br: Seq<int>, s: Seq<u8>, r: int, x: int)
    requires
        indexes(br, s),
        0 <= r < br.len(),
        row_start(br, r) <= x <= row_end(br, s, r),
        1 <= x < s.len(),
        s[x] == LF,
        s[x - 1] == CR,
    ensures
        has_entry(br, x - 1),
{
    lemma_row_bounds(br, s, r);
    if x - 1 >= row_start(br, r) {
        lemma_line_has_no_eol(br, s, r, x - 1);
    } else {
        assert(r >= 1);
        assert(br[r] == x - 1);
    }
}

/// What stands at each place of a spliced text and of a spliced index.
proof fn lemma_splice_shape(br: Seq<int>, s: Seq<u8>, r1: int, r2: int, sb: int, eb: int, t: Seq<u8>)
    requires
        0 <= r1 <= r2 < br.len(),
        0 <= sb <= eb <= s.len(),
    ensures
        ({
            let nb = splice_index(br, r1, r2, sb, eb, t);
            let ns = splice_bytes(s, sb, eb, t);
            let m = breaks(t).len() as int;
            let d = t.len() - (eb - sb);
            &&& ns.len() == s.len() + d
            &&& nb.len() == br.len() + m - (r2 - r1)
            &&& forall|p: int| 0 <= p < sb ==> #[trigger] ns[p] == s[p]
            &&& forall|p: int| sb <= p < sb + t.len() ==> #[trigger] ns[p] == t[p - sb]
            &&& forall|p: int| sb + t.len() <= p < ns.len() ==> #[trigger] ns[p] == s[p - d]
            &&& forall|k: int| 0 <= k <= r1 ==> #[trigger] nb[k] == br[k]
            &&& forall|k: int| r1 < k <= r1 + m ==> #[trigger] nb[k] == breaks(t)[k - r1 - 1] + sb
            &&& forall|k: int|
                r1 + m < k < nb.len() ==> #[trigger] nb[k] == br[k - m + (r2 - r1)] + d
        }),
{
}

/// A spliced index has every entry that the old index had on either side of
/// the splice, and every terminator of the new bytes.
proof fn lemma_splice_entries(
    br: Seq<int>,
    s: Seq<u8>,
    r1: int,
    r2: int,
    sb: int,
    eb: int,
    t: Seq<u8>,
)
    requires
        indexes(br, s),
        0 <= r1 <= r2 < br.len(),
        row_start(br, r1) <= sb <= row_end(br, s, r1),
        row_start(br, r2) <= eb <= row_end(br, s, r2),
        sb <= eb,
    ensures
        ({
            let nb = splice_index(br, r1, r2, sb, eb, t);
            let d = t.len() - (eb - sb);
            &&& forall|p: int| 0 <= p < sb && has_entry(br, p) ==> #[trigger] has_entry(nb, p)
            &&& forall|q: int| is_break(t, q) ==> #[trigger] has_entry(nb, sb + q)
            &&& forall|p: int| eb <= p && has_entry(br, p) ==> #[trigger] has_entry(nb, p + d)
        }),
{
    let nb = splice_index(br, r1, r2, sb, eb, t);
    let m = breaks(t).len() as int;
    let d = t.len() - (eb - sb);
    lemma_row_bounds(br, s, r1);
    lemma_row_bounds(br, s, r2);
    lemma_splice_shape(br, s, r1, r2, sb, eb, t);
    lemma_breaks_from(t, 0);
    assert forall|p: int| 0 <= p < sb && has_entry(br, p) implies #[trigger] has_entry(nb, p) by {
        let k = choose|k: int| 1 <= k < br.len() && #[trigger] br[k] == p;
        if k > r1 {
            assert(row_end(br, s, r1) <= br[k]);
        }
        assert(nb[k] == p);
    }
    assert forall|q: int| is_break(t, q) implies #[trigger] has_entry(nb, sb + q) by {
        let k = choose|k: int| 0 <= k < breaks(t).len() && #[trigger] breaks(t)[k] == q;
        assert(nb[r1 + 1 + k] == sb + q);
    }
    assert forall|p: int| eb <= p && has_entry(br, p) implies #[trigger] has_entry(nb, p + d) by {
        let k = choose|k: int| 1 <= k < br.len() && #[trigger] br[k] == p;
        if k <= r2 {
            assert(br[k] < row_start(br, r2));
        }
        assert(nb[k + m - (r2 - r1)] == p + d);
    }
}

/// A spliced index has the shape of an index, and each of its entries is the
/// offset of a CR or an LF of the spliced text.
proof fn lemma_splice_sound(br: Seq<int>, s: Seq<u8>, r1: int, r2: int, sb: int, eb: int, t: Seq<u8>)
    requires
        indexes(br, s),
        0 <= r1 <= r2 < br.len(),
        row_start(br, r1) <= sb <= row_end(br, s, r1),
        row_start(br, r2) <= eb <= row_end(br, s, r2),
        sb <= eb,
    ensures
        ({
            let nb = splice_index(br, r1, r2, sb, eb, t);
            let ns = splice_bytes(s, sb, eb, t);
            &&& is_break_index(nb)
            &&& forall|i: int|
                1 <= i < nb.len() ==> #[trigger] nb[i] < ns.len() && is_eol_byte(ns[nb[i]])
        }),
{
    let nb = splice_index(br, r1, r2, sb, eb, t);
    let ns = splice_bytes(s, sb, eb, t);
    let m = breaks(t).len() as int;
    let d = t.len() - (eb - sb);
    let b = breaks(t);
    lemma_row_bounds(br, s, r1);
    lemma_row_bounds(br, s, r2);
    lemma_splice_shape(br, s, r1, r2, sb, eb, t);
    lemma_breaks_from(t, 0);
    assert forall|i: int| 1 <= i < nb.len() implies 0 <= #[trigger] nb[i] && nb[i] < ns.len()
        && is_eol_byte(ns[nb[i]]) && (i <= r1 ==> nb[i] < sb) && (r1 < i <= r1 + m ==> sb <= nb[i]
        < sb + t.len()) && (r1 + m < i ==> sb + t.len() <= nb[i]) by {
        if i <= r1 {
            assert(nb[i] == br[i]);
            assert(br[i] < row_start(br, r1));
            assert(ns[nb[i]] == s[br[i]]);
        } else if i <= r1 + m {
            let q = b[i - r1 - 1];
            assert(nb[i] == q + sb);
            assert(is_break(t, q));
            assert(ns[nb[i]] == t[q]);
        } else {
            let k = i - m + (r2 - r1);
            assert(nb[i] == br[k] + d);
            assert(row_end(br, s, r2) <= br[k]);
            assert(br[k] < s.len());
            assert(ns[nb[i]] == s[br[k]]);
        }
    }
    assert forall|i: int, j: int| 1 <= i < j < nb.len() implies #[trigger] nb[i] < #[trigger] nb[j] by {
        if j <= r1 {
            assert(nb[i] == br[i] && nb[j] == br[j]);
        } else if i > r1 + m {
            let ki = i - m + (r2 - r1);
            let kj = j - m + (r2 - r1);
            assert(nb[i] == br[ki] + d && nb[j] == br[kj] + d);
        } else if i > r1 && j <= r1 + m {
            assert(nb[i] == b[i - r1 - 1] + sb && nb[j] == b[j - r1 - 1] + sb);
        } else {
        }
    }
}

/// Splicing keeps an index and its text together.
///
/// The bytes from `sb` to `eb` of `s` are replaced by `t`, where `sb` lies in
/// the content of row `r1` and `eb` in the content of row `r2`.
pub proof fn lemma_splice_indexes(
    br: Seq<int>,
    s: Seq<u8>,
    r1: int,
    r2: int,
    sb: int,
    eb: int,
    t: Seq<u8>,
)
    requires
        indexes(br, s),
        0 <= r1 <= r2 < br.len(),
        row_start(br, r1) <= sb <= row_end(br, s, r1),
        row_start(br, r2) <= eb <= row_end(br, s, r2),
        sb <= eb,
    ensures
        indexes(splice_index(br, r1, r2, sb, eb, t), splice_bytes(s, sb, eb, t)),
{
    let nb = splice_index(br, r1, r2, sb, eb, t);
    let ns = splice_bytes(s, sb, eb, t);
    let d = t.len() - (eb - sb);
    lemma_row_bounds(br, s, r1);
    lemma_row_bounds(br, s, r2);
    lemma_splice_shape(br, s, r1, r2, sb, eb, t);
    lemma_splice_sound(br, s, r1, r2, sb, eb, t);
    lemma_splice_entries(br, s, r1, r2, sb, eb, t);
    assert forall|p: int| #![trigger ns[p]] 0 <= p < ns.len() && ns[p] == LF implies has_entry(
        nb,
        p,
    ) by {
        if p < sb {
            assert(s[p] == LF);
            assert(has_entry(br, p));
        } else if p < sb + t.len() {
            assert(is_break(t, p - sb));
            assert(has_entry(nb, sb + (p - sb)));
        } else {
            assert(s[p - d] == LF);
            assert(has_entry(br, p - d));
            assert(has_entry(nb, (p - d) + d));
        }
    }
    assert forall|p: int|
        #![trigger ns[p]]
        0 <= p < ns.len() && ns[p] == CR implies has_entry(nb, p) || (p + 1 < ns.len() && ns[p + 1]
            == LF) by {
        if p < sb {
            assert(s[p] == CR);
            if has_entry(br, p) {
                assert(has_entry(nb, p));
            } else {
                assert(s[p + 1] == LF);
                if p + 1 == sb {
                    lemma_seam(br, s, r1, sb);
                    assert(false);
                }
                assert(ns[p + 1] == s[p + 1]);
            }
        } else if p < sb + t.len() {
            let q = p - sb;
            if is_break(t, q) {
                assert(has_entry(nb, sb + q));
            } else {
                assert(t[q + 1] == LF);
                assert(ns[p + 1] == t[q + 1]);
            }
        } else {
            let o = p - d;
            assert(s[o] == CR);
            if has_entry(br, o) {
                assert(has_entry(nb, o + d));
            } else {
                assert(s[o + 1] == LF);
                assert(ns[p + 1] == s[o + 1]);
            }
        }
    }
}

/// The index `br` of `s` has no entry for a CR that an LF follows directly.
/// The index that a scan gives is such a one.
pub open spec fn is_canonical(br: Seq<int>, s: Seq<u8>) -> bool {
    forall|p: int|
        #![trigger s[p]]
        0 <= p && p + 1 < s.len() && s[p] == CR && s[p + 1] == LF ==> !has_entry(br, p)
}

/// Two strictly ascending sequences that hold the same numbers are the same
/// sequence.
proof fn lemma_ascending_unique(a: Seq<int>, b: Seq<int>)
    requires
        forall|i: int, j: int| 0 <= i < j < a.len() ==> a[i] < a[j],
        forall|i: int, j: int| 0 <= i < j < b.len() ==> b[i] < b[j],
        forall|x: int| a.contains(x) <==> b.contains(x),
    ensures
        a == b,
    decreases a.len(),
{
    if a.len() == 0 {
        if b.len() > 0 {
            assert(b.contains(b[0]));
        }
        assert(a =~= b);
    } else {
        let top = a.last();
        assert(a.contains(top));
        assert(b.contains(top));
        let k = choose|k: int| 0 <= k < b.len() && b[k] == top;
        if k + 1 < b.len() {
            assert(b.contains(b[b.len() - 1]));
            let j = choose|j: int| 0 <= j < a.len() && a[j] == b[b.len() - 1];
            assert(false);
        }
        let a0 = a.drop_last();
        let b0 = b.drop_last();
        assert forall|x: int| a0.contains(x) <==> b0.contains(x) by {
            if a0.contains(x) {
                let i = choose|i: int| 0 <= i < a0.len() && a0[i] == x;
                assert(a[i] == x && a.contains(x));
                let j = choose|j: int| 0 <= j < b.len() && b[j] == x;
                assert(b0[j] == x);
            }
            if b0.contains(x) {
                let i = choose|i: int| 0 <= i < b0.len() && b0[i] == x;
                assert(b[i] == x && b.contains(x));
                let j = choose|j: int| 0 <= j < a.len() && a[j] == x;
                assert(a0[j] == x);
            }
        }
        lemma_ascending_unique(a0, b0);
        assert(a =~= a0.push(top));
        assert(b =~= b0.push(top));
    }
}

/// An index of a text that has no entry for a CR that an LF follows is the
/// index that a scan of the text gives, and the other way round.
pub proof fn lemma_canonical_is_scan(br: Seq<int>, s: Seq<u8>)
    ensures
        indexes(br, s) && is_canonical(br, s) <==> br == seq![0int] + breaks(s),
{
    let b = breaks(s);
    lemma_breaks_from(s, 0);
    lemma_scan_indexes(s);
    if br == seq![0int] + b {
        assert forall|p: int|
            #![trigger s[p]]
            0 <= p && p + 1 < s.len() && s[p] == CR && s[p + 1] == LF implies !has_entry(br, p) by {
            if has_entry(br, p) {
                let k = choose|k: int| 1 <= k < br.len() && #[trigger] br[k] == p;
                assert(br[k] == b[k - 1]);
                assert(is_break(s, b[k - 1]));
            }
        }
    }
    if indexes(br, s) && is_canonical(br, s) {
        let tail = br.subrange(1, br.len() as int);
        assert forall|x: int| tail.contains(x) <==> b.contains(x) by {
            if tail.contains(x) {
                let i = choose|i: int| 0 <= i < tail.len() && tail[i] == x;
                assert(br[i + 1] == x);
                assert(has_entry(br, x));
                assert(is_eol_byte(s[x]));
                assert(is_break(s, x));
                let k = choose|k: int| 0 <= k < b.len() && #[trigger] b[k] == x;
            }
            if b.contains(x) {
                let i = choose|i: int| 0 <= i < b.len() && b[i] == x;
                assert(is_break(s, b[i]));
                assert(has_entry(br, x));
                let k = choose|k: int| 1 <= k < br.len() && #[trigger] br[k] == x;
                assert(tail[k - 1] == x);
            }
        }
        assert forall|i: int, j: int| 0 <= i < j < tail.len() implies tail[i] < tail[j] by {
            assert(tail[i] == br[i + 1] && tail[j] == br[j + 1]);
        }
        lemma_ascending_unique(tail, b);
        assert(br =~= seq![0int] + tail);
    }
}

/// The edit brings a CR directly in front of an LF: the byte before the edit
/// is a CR and the first byte behind is an LF afterwards, or the new bytes end
/// with a CR and the byte behind the edit is an LF.
pub open spec fn joins_pair(s: Seq<u8>, sb: int, eb: int, t: Seq<u8>) -> bool {
    let after = splice_bytes(s, sb, eb, t);
    ||| (sb >= 1 && s[sb - 1] == CR && sb < after.len() && after[sb] == LF)
    ||| (t.len() >= 1 && t.last() == CR && eb < s.len() && s[eb] == LF)
}

/// An entry of a spliced index comes from the old index, on one side of the
/// splice or the other, or is a terminator of the new bytes.
proof fn lemma_splice_entry_source(
    br: Seq<int>,
    s: Seq<u8>,
    r1: int,
    r2: int,
    sb: int,
    eb: int,
    t: Seq<u8>,
    q: int,
)
    requires
        indexes(br, s),
        0 <= r1 <= r2 < br.len(),
        row_start(br, r1) <= sb <= row_end(br, s, r1),
        row_start(br, r2) <= eb <= row_end(br, s, r2),
        sb <= eb,
        has_entry(splice_index(br, r1, r2, sb, eb, t), q),
    ensures
        q < sb ==> has_entry(br, q),
        sb <= q < sb + t.len() ==> is_break(t, q - sb),
        sb + t.len() <= q ==> has_entry(br, q - (t.len() - (eb - sb))),
{
    let nb = splice_index(br, r1, r2, sb, eb, t);
    let m = breaks(t).len() as int;
    let d = t.len() - (eb - sb);
    lemma_row_bounds(br, s, r1);
    lemma_row_bounds(br, s, r2);
    lemma_splice_shape(br, s, r1, r2, sb, eb, t);
    lemma_breaks_from(t, 0);
    let k = choose|k: int| 1 <= k < nb.len() && #[trigger] nb[k] == q;
    if k <= r1 {
        assert(nb[k] == br[k]);
        assert(br[k] < row_start(br, r1));
    } else if k <= r1 + m {
        assert(nb[k] == breaks(t)[k - r1 - 1] + sb);
        assert(is_break(t, breaks(t)[k - r1 - 1]));
    } else {
        let o = k - m + (r2 - r1);
        assert(nb[k] == br[o] + d);
        assert(row_end(br, s, r2) <= br[o]);
    }
}

/// Splicing keeps an index free of entries for CRs that an LF follows, unless
/// the splice brings a CR directly in front of an LF.
pub proof fn lemma_splice_canonical(
    br: Seq<int>,
    s: Seq<u8>,
    r1: int,
    r2: int,
    sb: int,
    eb: int,
    t: Seq<u8>,
)
    requires
        indexes(br, s),
        is_canonical(br, s),
        0 <= r1 <= r2 < br.len(),
        row_start(br, r1) <= sb <= row_end(br, s, r1),
        row_start(br, r2) <= eb <= row_end(br, s, r2),
        sb <= eb,
        !joins_pair(s, sb, eb, t),
    ensures
        is_canonical(splice_index(br, r1, r2, sb, eb, t), splice_bytes(s, sb, eb, t)),
{
    let nb = splice_index(br, r1, r2, sb, eb, t);
    let ns = splice_bytes(s, sb, eb, t);
    let d = t.len() - (eb - sb);
    lemma_row_bounds(br, s, r1);
    lemma_row_bounds(br, s, r2);
    lemma_splice_shape(br, s, r1, r2, sb, eb, t);
    assert forall|p: int|
        #![trigger ns[p]]
        0 <= p && p + 1 < ns.len() && ns[p] == CR && ns[p + 1] == LF implies !has_entry(nb, p) by {
        if has_entry(nb, p) {
            lemma_splice_entry_source(br, s, r1, r2, sb, eb, t, p);
            if p < sb {
                assert(s[p] == CR);
                if p + 1 < sb {
                    assert(ns[p + 1] == s[p + 1]);
                    assert(s[p + 1] == LF);
                } else {
                    assert(ns[sb] == LF);
                }
            } else if p < sb + t.len() {
                assert(t[p - sb] == CR);
                if p + 1 < sb + t.len() {
                    assert(ns[p + 1] == t[p + 1 - sb]);
                } else {
                    assert(ns[p + 1] == s[p + 1 - d]);
                    assert(p + 1 - d == eb);
                    assert(t.last() == CR);
                }
            } else {
                assert(s[p - d] == CR);
                assert(ns[p + 1] == s[p + 1 - d]);
            }
            assert(false);
        }
    }
}

/// A document as the contracts see it: the bytes of its text and its
/// line-break index.
pub struct Doc {
    pub bytes: Seq<u8>,
    pub index: Seq<int>,
}

impl Doc {
    /// The text is UTF-8 and the index is a line-break index of it.
    #[verifier::opaque]
    pub open spec fn wf(self) -> bool {
        valid_utf8(self.bytes) && indexes(self.index, self.bytes)
    }

    /// The number of rows.
    pub open spec fn rows(self) -> int {
        self.index.len() as int
    }

    /// The content of row `row`, without its terminator.
    pub open spec fn line(self, row: int) -> Seq<u8> {
        line(self.index, self.bytes, row)
    }

    /// The byte offset in the text of byte column `col` of row `row`.
    pub open spec fn offset_of(self, row: int, col: int) -> int {
        row_start(self.index, row) + col
    }

    /// `(row, col)` is a place in this document: `row` is one of its rows and
    /// the byte column `col` stands on a code-point boundary of that row's
    /// content.
    pub open spec fn holds(self, row: int, col: int) -> bool {
        0 <= row < self.rows() && on_boundary(self.line(row), col)
    }

    /// The document that a position in row `row` is resolved in: this one,
    /// but for the row one past the last, which is made by appending a line
    /// feed to the text and its offset to the index.
    pub open spec fn synth(self, row: int) -> Doc {
        if row == self.rows() {
            Doc { bytes: self.bytes.push(LF), index: self.index.push(self.bytes.len() as int) }
        } else {
            self
        }
    }

    /// A position that counts its column in `enc` can be resolved here: its
    /// row is a row of the document, or the one past the last, and `col` is a
    /// column of that row's content.
    pub open spec fn admits(self, enc: Encoding, row: int, col: int) -> bool {
        0 <= row <= self.rows() && enc.is_col(self.synth(row).line(row), col)
    }

    /// The byte column that the column `col` of row `row`, counted in `enc`,
    /// resolves to.
    pub open spec fn byte_col(self, enc: Encoding, row: int, col: int) -> int {
        enc.byte_of(self.synth(row).line(row), col)
    }

    /// The document after the bytes from `(r1, c1)` up to `(r2, c2)` were
    /// replaced by `t`; the columns are byte columns.
    pub open spec fn splice(self, r1: int, c1: int, r2: int, c2: int, t: Seq<u8>) -> Doc {
        let sb = self.offset_of(r1, c1);
        let eb = self.offset_of(r2, c2);
        Doc {
            bytes: splice_bytes(self.bytes, sb, eb, t),
            index: splice_index(self.index, r1, r2, sb, eb, t),
        }
    }

    /// The document whose text is `t`.
    pub open spec fn scan(t: Seq<u8>) -> Doc {
        Doc { bytes: t, index: seq![0int] + breaks(t) }
    }
}

/// What being well formed says of a document, spelled out: its first row
/// starts at byte 0 and every other entry of its index is an offset into its
/// text.
pub proof fn lemma_wf(d: Doc)
    ensures
        d.wf() <==> valid_utf8(d.bytes) && indexes(d.index, d.bytes),
        d.wf() ==> d.rows() >= 1 && d.index[0] == 0 && is_break_index(d.index),
        d.wf() ==> forall|k: int| 1 <= k < d.rows() ==> 0 <= #[trigger] d.index[k] < d.bytes.len(),
{
    reveal(Doc::wf);
}

/// The document that scanning a UTF-8 text gives is well formed.
pub proof fn lemma_scan_wf(t: Seq<u8>)
    requires
        valid_utf8(t),
    ensures
        Doc::scan(t).wf(),
{
    reveal(Doc::wf);
    lemma_scan_indexes(t);
}

/// Making the row one past the last keeps a document well formed, and leaves
/// the rows it had as they were.
pub proof fn lemma_synth(d: Doc, row: int)
    requires
        d.wf(),
        0 <= row <= d.rows(),
    ensures
        d.synth(row).wf(),
        0 <= row < d.synth(row).rows(),
        row == d.rows() ==> d.synth(row).line(row) == Seq::<u8>::empty(),
        forall|r: int| 0 <= r < d.rows() ==> d.synth(row).line(r) == #[trigger] d.line(r),
        forall|r: int|
            0 <= r < d.rows() ==> row_start(d.synth(row).index, r) == #[trigger] row_start(
                d.index,
                r,
            ),
{
    reveal(Doc::wf);
    if row == d.rows() {
        let n = d.bytes.len() as int;
        let e = d.synth(row);
        let one = seq![LF];
        assert(valid_utf8(one)) by {
            reveal_with_fuel(valid_utf8, 2);
            assert(one.subrange(1, 1) =~= Seq::<u8>::empty());
        }
        valid_utf8_concat(d.bytes, one);
        assert(d.bytes + one =~= e.bytes);
        assert forall|i: int| 1 <= i < e.index.len() implies 0 <= #[trigger] e.index[i]
            && e.index[i] < e.bytes.len() && is_eol_byte(e.bytes[e.index[i]]) by {
            if i < d.index.len() {
                assert(e.index[i] == d.index[i]);
            }
        }
        assert forall|i: int, j: int| 1 <= i < j < e.index.len() implies #[trigger] e.index[i]
            < #[trigger] e.index[j] by {
            assert(e.index[i] == d.index[i]);
            if j < d.index.len() {
                assert(e.index[j] == d.index[j]);
            }
        }
        assert forall|p: int| 0 <= p < n && has_entry(d.index, p) implies has_entry(e.index, p) by {
            let k = choose|k: int| 1 <= k < d.index.len() && #[trigger] d.index[k] == p;
            assert(e.index[k] == p);
        }
        assert forall|p: int|
            #![trigger e.bytes[p]]
            0 <= p < e.bytes.len() && e.bytes[p] == LF implies has_entry(e.index, p) by {
            if p < n {
                assert(d.bytes[p] == LF);
            } else {
                assert(e.index[row] == p);
            }
        }
        assert forall|p: int|
            #![trigger e.bytes[p]]
            0 <= p < e.bytes.len() && e.bytes[p] == CR implies has_entry(e.index, p) || (p + 1
                < e.bytes.len() && e.bytes[p + 1] == LF) by {
            assert(d.bytes[p] == CR);
            if !has_entry(d.index, p) {
                assert(e.bytes[p + 1] == d.bytes[p + 1]);
            }
        }
        assert(e.line(row) =~= Seq::<u8>::empty());
        assert forall|r: int| 0 <= r < d.rows() implies e.line(r) == #[trigger] d.line(r) by {
            lemma_row_bounds(d.index, d.bytes, r);
            if r + 1 == d.rows() {
                if n - 1 >= row_start(d.index, r) {
                    lemma_line_has_no_eol(d.index, d.bytes, r, n - 1);
                }
            } else {
                assert(e.index[r + 1] == d.index[r + 1]);
            }
            assert(e.line(r) =~= d.line(r));
        }
    }
}

/// The content of a row starts and ends on code-point boundaries of the text,
/// and the boundaries within it are those of the text.
pub proof fn lemma_line_boundaries(d: Doc, row: int)
    requires
        d.wf(),
        0 <= row < d.rows(),
    ensures
        0 <= row_start(d.index, row) <= row_end(d.index, d.bytes, row) <= d.bytes.len(),
        on_boundary(d.bytes, row_start(d.index, row)),
        on_boundary(d.bytes, row_end(d.index, d.bytes, row)),
        valid_utf8(d.line(row)),
        forall|c: int|
            on_boundary(d.line(row), c) <==> 0 <= c <= d.line(row).len() && #[trigger] on_boundary(
                d.bytes,
                row_start(d.index, row) + c,
            ),
{
    reveal(Doc::wf);
    let s = d.bytes;
    let br = d.index;
    lemma_row_bounds(br, s, row);
    if row >= 1 {
        lemma_ascii_boundaries(s, br[row]);
    }
    if row + 1 < br.len() {
        let t = br[row + 1];
        lemma_ascii_boundaries(s, t);
        if row_end(br, s, row) == t - 1 {
            lemma_ascii_boundaries(s, t - 1);
        }
    }
    lemma_slice_valid(s, row_start(br, row), row_end(br, s, row));
}

/// Stripping the terminator off a row that is cut from the text together with
/// it leaves the content of the row.
pub proof fn lemma_trimmed_row(d: Doc, row: int)
    requires
        d.wf(),
        0 <= row,
        row + 1 < d.rows(),
    ensures
        trimmed(d.bytes.subrange(row_start(d.index, row), row_start(d.index, row + 1))) == d.line(
            row,
        ),
{
    reveal(Doc::wf);
    let s = d.bytes;
    let br = d.index;
    lemma_row_bounds(br, s, row);
    let base = s.subrange(row_start(br, row), row_start(br, row + 1));
    let t = br[row + 1];
    assert(t < s.len() && is_eol_byte(s[t]));
    assert(base[base.len() - 1] == s[t]);
    if base.len() >= 2 {
        assert(base[base.len() - 2] == s[t - 1]);
    }
    assert(trimmed(base) =~= d.line(row));
}

/// Replacing a stretch of a well-formed document that runs from one place in
/// it to a later one leaves a well-formed document, whatever UTF-8 text is put
/// in.
pub proof fn lemma_splice_wf(d: Doc, r1: int, c1: int, r2: int, c2: int, t: Seq<u8>)
    requires
        d.wf(),
        valid_utf8(t),
        d.holds(r1, c1),
        d.holds(r2, c2),
        d.offset_of(r1, c1) <= d.offset_of(r2, c2),
    ensures
        d.splice(r1, c1, r2, c2, t).wf(),
        r1 <= r2,
        0 <= d.offset_of(r1, c1) <= d.offset_of(r2, c2) <= d.bytes.len(),
        on_boundary(d.bytes, d.offset_of(r1, c1)),
        on_boundary(d.bytes, d.offset_of(r2, c2)),
{
    reveal(Doc::wf);
    let sb = d.offset_of(r1, c1);
    let eb = d.offset_of(r2, c2);
    lemma_line_boundaries(d, r1);
    lemma_line_boundaries(d, r2);
    lemma_row_bounds(d.index, d.bytes, r1);
    lemma_row_bounds(d.index, d.bytes, r2);
    if r1 > r2 {
        assert(row_end(d.index, d.bytes, r2) <= d.index[r1]);
        assert(false);
    }
    lemma_splice_indexes(d.index, d.bytes, r1, r2, sb, eb, t);
    lemma_slice_valid(d.bytes, 0, sb);
    lemma_slice_valid(d.bytes, eb, d.bytes.len() as int);
    valid_utf8_concat(d.bytes.subrange(0, sb), t);
    valid_utf8_concat(d.bytes.subrange(0, sb) + t, d.bytes.subrange(eb, d.bytes.len() as int));
}

/// Taking the entries of the merged rows out of an index and moving the
/// entries behind them down gives the index of the text without the bytes
/// deleted.
pub proof fn lemma_delete_index(br: Seq<int>, r1: int, r2: int, sb: int, eb: int)
    requires
        0 <= r1 <= r2 < br.len(),
    ensures
        shifted(
            if r1 < r2 {
                spliced(br, r1 + 1, r2 + 1, Seq::empty())
            } else {
                br
            },
            r1,
            -(eb - sb),
        ) == splice_index(br, r1, r2, sb, eb, Seq::empty()),
{
    assert(breaks(Seq::<u8>::empty()) =~= Seq::<int>::empty());
    assert(shifted(
        if r1 < r2 {
            spliced(br, r1 + 1, r2 + 1, Seq::empty())
        } else {
            br
        },
        r1,
        -(eb - sb),
    ) =~= splice_index(br, r1, r2, sb, eb, Seq::empty()));
}

/// Moving the entries behind row `r2` by the change in length and putting the
/// new terminators in the place of the entries of the rows merged gives the
/// index of the text with the bytes replaced.
pub proof fn lemma_replace_index(br: Seq<int>, r1: int, r2: int, sb: int, eb: int, t: Seq<u8>)
    requires
        0 <= r1 <= r2 < br.len(),
    ensures
        spliced(shifted(br, r2, t.len() - (eb - sb)), r1 + 1, r2 + 1, offset(breaks(t), sb))
            == splice_index(br, r1, r2, sb, eb, t),
        shifted(br, r2, 0) == br,
{
    assert(spliced(shifted(br, r2, t.len() - (eb - sb)), r1 + 1, r2 + 1, offset(breaks(t), sb))
        =~= splice_index(br, r1, r2, sb, eb, t));
    assert(shifted(br, r2, 0) =~= br);
}

/// The byte before which row `row` is cut when it is cut without the last
/// byte of its terminator: the offset of that byte, or the end of the text for
/// the last row.
pub open spec fn row_cut(br: Seq<int>, s: Seq<u8>, row: int) -> int {
    if row + 1 >= br.len() {
        s.len() as int
    } else {
        br[row + 1]
    }
}

/// Stripping what is left of the terminator off a row that is cut from the
/// text without the last byte of its terminator leaves the content of the
/// row.
pub proof fn lemma_trimmed_cut(d: Doc, row: int)
    requires
        d.wf(),
        0 <= row < d.rows(),
    ensures
        row_start(d.index, row) <= row_cut(d.index, d.bytes, row) <= d.bytes.len(),
        on_boundary(d.bytes, row_start(d.index, row)),
        on_boundary(d.bytes, row_cut(d.index, d.bytes, row)),
        trimmed(d.bytes.subrange(row_start(d.index, row), row_cut(d.index, d.bytes, row)))
            == d.line(row),
{
    reveal(Doc::wf);
    let s = d.bytes;
    let br = d.index;
    let from = row_start(br, row);
    let to = row_cut(br, s, row);
    lemma_row_bounds(br, s, row);
    lemma_line_boundaries(d, row);
    if row + 1 < br.len() {
        lemma_ascii_boundaries(s, to);
    }
    let base = s.subrange(from, to);
    let end = row_end(br, s, row);
    if base.len() >= 1 {
        assert(base[base.len() - 1] == s[to - 1]);
        if end == to {
            lemma_line_has_no_eol(br, s, row, to - 1);
        }
    }
    if base.len() >= 2 {
        assert(base[base.len() - 2] == s[to - 2]);
    }
    assert(trimmed(base) =~= d.line(row));
}

} // verus!
