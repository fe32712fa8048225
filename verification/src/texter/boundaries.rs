//! Code-point boundaries in UTF-8 text, stated byte by byte.

use vstd::prelude::*;
use vstd::utf8::*;

verus! {

/// Offset `i` of `bytes` does not fall inside the UTF-8 form of a code point:
/// it is the end of `bytes`, or the byte there is no continuation byte.
pub open spec fn on_boundary(bytes: Seq<u8>, i: int) -> bool {
    0 <= i <= bytes.len() && (i == bytes.len() || !is_continuation_byte(bytes[i]))
}

/// The number of bytes in the UTF-8 form of the code point that `lead` starts.
pub open spec fn scalar_width(lead: u8) -> int {
    if lead < 0x80 {
        1
    } else if lead < 0xE0 {
        2
    } else if lead < 0xF0 {
        3
    } else {
        4
    }
}

/// In valid UTF-8 this module's byte-wise test and the recursive definition of
/// `vstd` name the same offsets.
pub proof fn lemma_boundary_agrees(bytes: Seq<u8>, i: int)
    requires
        valid_utf8(bytes),
    ensures
        is_char_boundary(bytes, i) <==> on_boundary(bytes, i),
{
    if 0 <= i < bytes.len() {
        is_char_boundary_iff_not_is_continuation_byte(bytes, i);
    } else if i == bytes.len() {
        is_char_boundary_start_end_of_seq(bytes);
    } else {
        assert(!is_char_boundary(bytes, i));
    }
}

/// Cutting valid UTF-8 at two boundaries leaves valid UTF-8.
pub proof fn lemma_slice_valid(bytes: Seq<u8>, a: int, b: int)
    requires
        valid_utf8(bytes),
        on_boundary(bytes, a),
        on_boundary(bytes, b),
        a <= b,
    ensures
        valid_utf8(bytes.subrange(a, b)),
{
    lemma_boundary_agrees(bytes, b);
    valid_utf8_split(bytes, b);
    let head = bytes.subrange(0, b);
    lemma_boundary_agrees(head, a);
    valid_utf8_split(head, a);
    assert(head.subrange(a, head.len() as int) =~= bytes.subrange(a, b));
}

/// From a boundary before the end, the next boundary lies one code point
/// further on, and the bytes between the two are continuation bytes.
pub proof fn lemma_next_boundary(bytes: Seq<u8>, i: int)
    requires
        valid_utf8(bytes),
        on_boundary(bytes, i),
        i < bytes.len(),
    ensures
        i + scalar_width(bytes[i]) <= bytes.len(),
        on_boundary(bytes, i + scalar_width(bytes[i])),
        forall|j: int| i < j < i + scalar_width(bytes[i]) ==> is_continuation_byte(bytes[j]),
{
    reveal_with_fuel(valid_utf8, 2);
    lemma_boundary_agrees(bytes, i);
    valid_utf8_split(bytes, i);
    let tail = bytes.subrange(i, bytes.len() as int);
    assert(tail[0] == bytes[i]);
    assert(valid_first_scalar(tail));
    let w = scalar_width(bytes[i]);
    assert(w == length_of_first_scalar(tail));
    assert forall|j: int| i < j < i + w implies is_continuation_byte(bytes[j]) by {
        assert(tail[j - i] == bytes[j]);
    }
    let rest = pop_first_scalar(tail);
    if i + w < bytes.len() {
        assert(rest[0] == bytes[i + w]);
        assert(valid_first_scalar(rest));
    }
}

/// The offset after a byte below 0x80 is a boundary, and so is the offset of
/// that byte.
pub proof fn lemma_ascii_boundaries(bytes: Seq<u8>, i: int)
    requires
        valid_utf8(bytes),
        0 <= i < bytes.len(),
        bytes[i] < 0x80,
    ensures
        on_boundary(bytes, i),
        on_boundary(bytes, i + 1),
{
    lemma_next_boundary(bytes, i);
}

} // verus!
