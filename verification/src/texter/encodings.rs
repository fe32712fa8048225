//! Columns in the three encodings a client may count in, and their
//! conversion to and from byte offsets within one line.
//!
//! A line is handed over without its terminator. A column is a count of code
//! units of the chosen encoding; a byte offset is a count of UTF-8 bytes.

use vstd::prelude::*;
use vstd::utf8::*;
use vstd::string::StringSliceAdditionalSpecFns;
use crate::texter::boundaries::{lemma_next_boundary, on_boundary, scalar_width};
use crate::texter::strings::byte_len;

pub mod utf16;
pub mod utf32;
pub mod utf8;

verus! {

/// The unit in which a client counts columns.
#[derive(Clone, Copy, Debug, PartialEq, Eq, Structural)]
pub enum Encoding {
    Utf8,
    Utf16,
    Utf32,
}

impl Encoding {
    /// The code units that byte `b` of a UTF-8 text adds to a column count.
    ///
    /// In UTF-8 every byte is a unit. In the other two a code point is counted
    /// where its first byte stands: in UTF-16 a code point of four bytes takes
    /// two units and every other takes one; in UTF-32 each takes one.
    pub open spec fn weight(self, b: u8) -> int {
        match self {
            Encoding::Utf8 => 1,
            Encoding::Utf16 => if is_continuation_byte(b) {
                0
            } else if b >= 0xF0 {
                2
            } else {
                1
            },
            Encoding::Utf32 => if is_continuation_byte(b) {
                0
            } else {
                1
            },
        }
    }

    /// The code units of the first `n` bytes of `line`.
    pub open spec fn units(self, line: Seq<u8>, n: int) -> int
        decreases n,
    {
        if n <= 0 {
            0
        } else {
            self.units(line, n - 1) + self.weight(line[n - 1])
        }
    }

    /// `col` is a column of `line`: some boundary of `line` has exactly `col`
    /// code units before it.
    pub open spec fn is_col(self, line: Seq<u8>, col: int) -> bool {
        exists|b: int| on_boundary(line, b) && self.units(line, b) == col
    }

    /// The byte offset of column `col` of `line`.
    pub open spec fn byte_of(self, line: Seq<u8>, col: int) -> int {
        choose|b: int| on_boundary(line, b) && self.units(line, b) == col
    }

    /// The code units that the code point starting with `lead` takes.
    pub open spec fn scalar_units(self, lead: u8) -> int {
        match self {
            Encoding::Utf8 => scalar_width(lead),
            _ => self.weight(lead),
        }
    }

    /// The byte offset within `line` of the column `col`, counted in this
    /// encoding.
    pub fn to(self, line: &str, col: usize) -> (r: usize)
        requires
            self.is_col(line.spec_bytes(), col as int),
        ensures
            on_boundary(line.spec_bytes(), r as int),
            self.units(line.spec_bytes(), r as int) == col,
            r == self.byte_of(line.spec_bytes(), col as int),
    {
        match self {
            Encoding::Utf8 => utf8::to(line, col),
            Encoding::Utf16 => utf16::to(line, col),
            Encoding::Utf32 => utf32::to(line, col),
        }
    }

    /// The byte offset within `line` of the column `col`, counted in this
    /// encoding, or `None` where `line` has no such column: where `col` lies
    /// past the end of `line`, or inside a code point.
    pub fn try_to(self, line: &str, col: usize) -> (r: Option<usize>)
        ensures
            r is Some <==> self.is_col(line.spec_bytes(), col as int),
            r is Some ==> r.unwrap() == self.byte_of(line.spec_bytes(), col as int),
    {
        let bytes = line.as_bytes();
        let ghost s = line.spec_bytes();
        let len = bytes.len();
        proof {
            broadcast use encode_utf8_valid_utf8;

        }
        let mut at: usize = 0;
        let mut units: usize = 0;
        while units < col && at < len
            invariant
                bytes@ == s,
                len == s.len(),
                valid_utf8(s),
                on_boundary(s, at as int),
                at <= len,
                units == self.units(s, at as int),
                units <= at,
                forall|b: int|
                    on_boundary(s, b) && b < at ==> #[trigger] self.units(s, b) < col,
            decreases len - at,
        {
            let lead = bytes[at];
            let ghost before = at as int;
            proof {
                lemma_units_scalar(self, s, before);
                lemma_next_boundary(s, before);
                assert forall|b: int|
                    on_boundary(s, b) && b < before + scalar_width(s[before]) implies #[trigger] self.units(
                    s,
                    b,
                ) < col by {
                    if b > before {
                        lemma_boundary_gap(s, before, b);
                    }
                }
            }
            let step: usize = match self {
                Encoding::Utf8 => width_of(lead),
                Encoding::Utf16 => if lead >= 0xF0 {
                    2
                } else {
                    1
                },
                Encoding::Utf32 => 1,
            };
            units = units + step;
            at = at + width_of(lead);
        }
        if units == col {
            proof {
                lemma_byte_of(self, s, col as int);
            }
            Some(at)
        } else {
            proof {
                assert forall|b: int| on_boundary(s, b) implies self.units(s, b) != col by {
                    if b >= at {
                        lemma_units_monotone(self, s, at as int, b);
                    }
                }
            }
            None
        }
    }

    /// The column `col`, or the column at the end of `line` where `col` lies
    /// past it; both counted in this encoding.
    pub fn clamp(self, line: &str, col: usize) -> (r: usize)
        ensures
            r == if col <= self.units(line.spec_bytes(), line.spec_bytes().len() as int) {
                col as int
            } else {
                self.units(line.spec_bytes(), line.spec_bytes().len() as int)
            },
    {
        let end = self.from(line, byte_len(line));
        if col > end {
            end
        } else {
            col
        }
    }

    /// The column, counted in this encoding, of the byte offset `at` within
    /// `line`.
    pub fn from(self, line: &str, at: usize) -> (r: usize)
        requires
            on_boundary(line.spec_bytes(), at as int),
        ensures
            r == self.units(line.spec_bytes(), at as int),
            self.is_col(line.spec_bytes(), r as int),
            self.byte_of(line.spec_bytes(), r as int) == at,
    {
        match self {
            Encoding::Utf8 => utf8::from(line, at),
            Encoding::Utf16 => utf16::from(line, at),
            Encoding::Utf32 => utf32::from(line, at),
        }
    }
}

/// A prefix never has more code units than a longer prefix.
pub proof fn lemma_units_monotone(enc: Encoding, line: Seq<u8>, a: int, b: int)
    requires
        a <= b,
    ensures
        0 <= enc.units(line, a) <= enc.units(line, b),
    decreases b - a, a,
{
    if a < b {
        lemma_units_monotone(enc, line, a, b - 1);
    } else if a > 0 {
        lemma_units_monotone(enc, line, a - 1, a - 1);
    }
}

/// In UTF-8 the code units of a prefix are its bytes.
pub proof fn lemma_units_utf8(line: Seq<u8>, n: int)
    requires
        0 <= n,
    ensures
        Encoding::Utf8.units(line, n) == n,
    decreases n,
{
    if n > 0 {
        lemma_units_utf8(line, n - 1);
    }
}

/// Bytes that are all continuation bytes add nothing to a count in UTF-16 or
/// UTF-32, and one each in UTF-8.
proof fn lemma_units_continuation(enc: Encoding, line: Seq<u8>, a: int, b: int)
    requires
        0 <= a <= b <= line.len(),
        forall|j: int| a <= j < b ==> is_continuation_byte(line[j]),
    ensures
        enc.units(line, b) == enc.units(line, a) + (if enc == Encoding::Utf8 {
            b - a
        } else {
            0
        }),
    decreases b - a,
{
    if a < b {
        lemma_units_continuation(enc, line, a, b - 1);
    }
}

/// Stepping over one code point adds that code point's units.
pub proof fn lemma_units_scalar(enc: Encoding, line: Seq<u8>, i: int)
    requires
        valid_utf8(line),
        on_boundary(line, i),
        i < line.len(),
    ensures
        enc.units(line, i + scalar_width(line[i])) == enc.units(line, i) + enc.scalar_units(
            line[i],
        ),
        1 <= enc.scalar_units(line[i]) <= scalar_width(line[i]),
{
    lemma_next_boundary(line, i);
    let w = scalar_width(line[i]);
    assert(enc.units(line, i + 1) == enc.units(line, i) + enc.weight(line[i]));
    lemma_units_continuation(enc, line, i + 1, i + w);
}

/// No boundary lies strictly inside a code point.
pub proof fn lemma_boundary_gap(line: Seq<u8>, i: int, b: int)
    requires
        valid_utf8(line),
        on_boundary(line, i),
        on_boundary(line, b),
        i < b,
    ensures
        i + scalar_width(line[i]) <= b,
{
    lemma_next_boundary(line, i);
}

/// Of two boundaries the later one has more code units before it.
pub proof fn lemma_units_strict(enc: Encoding, line: Seq<u8>, a: int, b: int)
    requires
        valid_utf8(line),
        on_boundary(line, a),
        on_boundary(line, b),
        a < b,
    ensures
        enc.units(line, a) < enc.units(line, b),
{
    lemma_boundary_gap(line, a, b);
    lemma_units_scalar(enc, line, a);
    lemma_units_monotone(enc, line, a + scalar_width(line[a]), b);
}

/// A column names one byte offset only: two boundaries with the same count of
/// code units before them are the same offset.
pub proof fn lemma_col_unique(enc: Encoding, line: Seq<u8>, a: int, b: int)
    requires
        valid_utf8(line),
        on_boundary(line, a),
        on_boundary(line, b),
        enc.units(line, a) == enc.units(line, b),
    ensures
        a == b,
{
    if a < b {
        lemma_units_strict(enc, line, a, b);
    } else if b < a {
        lemma_units_strict(enc, line, b, a);
    }
}

/// The byte offset of a column is a boundary with that many code units before
/// it, and the only one.
pub proof fn lemma_byte_of(enc: Encoding, line: Seq<u8>, col: int)
    requires
        valid_utf8(line),
        enc.is_col(line, col),
    ensures
        on_boundary(line, enc.byte_of(line, col)),
        enc.units(line, enc.byte_of(line, col)) == col,
        forall|b: int|
            on_boundary(line, b) && enc.units(line, b) == col ==> b == enc.byte_of(line, col),
{
    let r = enc.byte_of(line, col);
    assert forall|b: int| on_boundary(line, b) && enc.units(line, b) == col implies b == r by {
        lemma_col_unique(enc, line, b, r);
    }
}

/// Turning a column into its byte offset and back gives the column, and
/// turning a boundary into its column and back gives the boundary.
pub proof fn lemma_round_trip(enc: Encoding, line: Seq<u8>, col: int, at: int)
    requires
        valid_utf8(line),
    ensures
        enc.is_col(line, col) ==> enc.units(line, enc.byte_of(line, col)) == col,
        on_boundary(line, at) ==> enc.is_col(line, enc.units(line, at)) && enc.byte_of(
            line,
            enc.units(line, at),
        ) == at,
{
    if enc.is_col(line, col) {
        lemma_byte_of(enc, line, col);
    }
    if on_boundary(line, at) {
        lemma_byte_of(enc, line, enc.units(line, at));
    }
}

/// The code units that the code point `c` takes: in UTF-8 the bytes of its
/// UTF-8 form, in UTF-16 two where it lies beyond the basic plane and one
/// else, in UTF-32 one.
pub open spec fn char_units(enc: Encoding, c: char) -> int {
    match enc {
        Encoding::Utf8 => encode_scalar(c as u32).len() as int,
        Encoding::Utf16 => if c as u32 >= 0x10000 {
            2
        } else {
            1
        },
        Encoding::Utf32 => 1,
    }
}

/// The code units that the text `chars` takes.
pub open spec fn text_units(enc: Encoding, chars: Seq<char>) -> int
    decreases chars.len(),
{
    if chars.len() == 0 {
        0
    } else {
        char_units(enc, chars[0]) + text_units(enc, chars.drop_first())
    }
}

/// The count of a prefix looks at the bytes of the prefix only.
proof fn lemma_units_prefix(enc: Encoding, a: Seq<u8>, b: Seq<u8>, n: int)
    requires
        0 <= n <= a.len(),
    ensures
        enc.units(a + b, n) == enc.units(a, n),
    decreases n,
{
    if n > 0 {
        lemma_units_prefix(enc, a, b, n - 1);
        assert((a + b)[n - 1] == a[n - 1]);
    }
}

/// The count of a text put together from two is the sum of their counts.
proof fn lemma_units_concat(enc: Encoding, a: Seq<u8>, b: Seq<u8>, k: int)
    requires
        0 <= k <= b.len(),
    ensures
        enc.units(a + b, a.len() + k) == enc.units(a, a.len() as int) + enc.units(b, k),
    decreases k,
{
    if k == 0 {
        lemma_units_prefix(enc, a, b, a.len() as int);
    } else {
        lemma_units_concat(enc, a, b, k - 1);
        assert((a + b)[a.len() + k - 1] == b[k - 1]);
    }
}

/// Counting the code units of a text byte by byte over its UTF-8 form gives
/// what counting them code point by code point gives.
pub proof fn lemma_units_of_text(enc: Encoding, chars: Seq<char>)
    ensures
        enc.units(encode_utf8(chars), encode_utf8(chars).len() as int) == text_units(enc, chars),
    decreases chars.len(),
{
    let bytes = encode_utf8(chars);
    if chars.len() > 0 {
        let c = chars[0];
        let head = encode_scalar(c as u32);
        let tail = encode_utf8(chars.drop_first());
        assert(bytes == head + tail);
        encode_utf8_valid_utf8(chars);
        encode_utf8_first_scalar(chars);
        char_is_scalar(c);
        assert(bytes[0] == head[0]);
        lemma_units_scalar(enc, bytes, 0);
        assert(scalar_width(bytes[0]) == head.len());
        lemma_units_prefix(enc, head, tail, head.len() as int);
        assert(enc.units(head, head.len() as int) == char_units(enc, c));
        lemma_units_concat(enc, head, tail, tail.len() as int);
        lemma_units_of_text(enc, chars.drop_first());
    }
}

/// The empty line has the one column 0, which is the byte offset 0.
pub proof fn lemma_empty_line(enc: Encoding, col: int)
    ensures
        enc.is_col(Seq::<u8>::empty(), col) <==> col == 0,
        enc.byte_of(Seq::<u8>::empty(), 0) == 0,
{
    let e = Seq::<u8>::empty();
    assert(on_boundary(e, 0) && enc.units(e, 0) == 0);
    lemma_byte_of(enc, e, 0);
}

/// The bytes of the UTF-8 form of the code point that `lead` starts.
pub(crate) fn width_of(lead: u8) -> (w: usize)
    ensures
        w == scalar_width(lead),
{
    if lead < 0x80 {
        1
    } else if lead < 0xE0 {
        2
    } else if lead < 0xF0 {
        3
    } else {
        4
    }
}

} // verus!
