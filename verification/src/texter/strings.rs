//! The operations on `str` and `String` that the buffer is edited with, stated
//! over the bytes of the text.

use vstd::prelude::*;
use vstd::utf8::{encode_utf8, encode_utf8_valid_utf8};
use vstd::string::StringSliceAdditionalSpecFns;
use crate::texter::boundaries::{lemma_boundary_agrees, on_boundary};
use crate::texter::lines::LF;
use crate::texter::model::splice_bytes;

verus! {

/// The bytes of `s`.
pub open spec fn bytes_of(s: &String) -> Seq<u8> {
    encode_utf8(s@)
}

/// `String::insert_str` of the standard library: the bytes of `s` are put
/// into `text` at byte offset `at`, which has to be a code-point boundary of
/// `text`; what stood from `at` on moves behind them.
#[verifier::external_body]
pub(crate) fn insert_str(text: &mut String, at: usize, s: &str)
    requires
        on_boundary(bytes_of(old(text)), at as int),
    ensures
        bytes_of(final(text)) == splice_bytes(
            bytes_of(old(text)),
            at as int,
            at as int,
            s.spec_bytes(),
        ),
{
    text.insert_str(at, s)
}

/// `String::drain` of the standard library, with what it hands back dropped:
/// the bytes from `start` up to `end` leave `text`. Both offsets have to be
/// code-point boundaries of `text`, `start` not after `end`.
#[verifier::external_body]
pub(crate) fn drain(text: &mut String, start: usize, end: usize)
    requires
        start <= end,
        on_boundary(bytes_of(old(text)), start as int),
        on_boundary(bytes_of(old(text)), end as int),
    ensures
        bytes_of(final(text)) == splice_bytes(
            bytes_of(old(text)),
            start as int,
            end as int,
            Seq::empty(),
        ),
{
    text.drain(start..end);
}

/// `String::replace_range` of the standard library: the bytes from `start`
/// up to `end` leave `text` and the bytes of `with` take their place, whatever
/// the two lengths are. Both offsets have to be code-point boundaries of
/// `text`, `start` not after `end`.
#[verifier::external_body]
pub(crate) fn replace_range(text: &mut String, start: usize, end: usize, with: &str)
    requires
        start <= end,
        on_boundary(bytes_of(old(text)), start as int),
        on_boundary(bytes_of(old(text)), end as int),
    ensures
        bytes_of(final(text)) == splice_bytes(
            bytes_of(old(text)),
            start as int,
            end as int,
            with.spec_bytes(),
        ),
{
    text.replace_range(start..end, with)
}

/// The text that consists of one line feed is the byte `LF`.
pub proof fn lemma_line_feed_bytes()
    ensures
        "\n".spec_bytes() == seq![LF],
{
    reveal_strlit("\n");
    let c = "\n"@;
    assert(c.len() == 1);
    assert(c[0] == '\n');
    assert(c[0] as u32 == 10u32);
    assert((10u32 & 0x7F) as u8 == 10u8) by (bit_vector);
    reveal_with_fuel(encode_utf8, 2);
    assert(c.drop_first().len() == 0);
    assert(encode_utf8(c) =~= seq![LF]);
}

/// Whether byte offset `at` of `s` is a code-point boundary.
pub fn is_boundary(s: &str, at: usize) -> (r: bool)
    ensures
        r == on_boundary(s.spec_bytes(), at as int),
{
    let bytes = s.as_bytes();
    at <= bytes.len() && (at == bytes.len() || !(0x80 <= bytes[at] && bytes[at] <= 0xBF))
}

/// The number of bytes of `s`.
pub fn byte_len(s: &str) -> (n: usize)
    ensures
        n == s.spec_bytes().len(),
{
    s.as_bytes().len()
}

/// The part of `s` from byte `from` up to byte `to`.
pub fn substr<'a>(s: &'a str, from: usize, to: usize) -> (r: &'a str)
    requires
        from <= to,
        on_boundary(s.spec_bytes(), from as int),
        on_boundary(s.spec_bytes(), to as int),
    ensures
        r.spec_bytes() == s.spec_bytes().subrange(from as int, to as int),
{
    proof {
        broadcast use encode_utf8_valid_utf8;

        lemma_boundary_agrees(s.spec_bytes(), to as int);
    }
    let (head, _) = s.split_at(to);
    proof {
        broadcast use encode_utf8_valid_utf8;

        lemma_boundary_agrees(head.spec_bytes(), from as int);
    }
    let (_, tail) = head.split_at(from);
    tail
}

} // verus!
