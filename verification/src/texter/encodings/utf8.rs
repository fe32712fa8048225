//! Columns counted in UTF-8 bytes.

use vstd::prelude::*;
use vstd::utf8::*;
use vstd::string::StringSliceAdditionalSpecFns;
use crate::texter::boundaries::on_boundary;
use crate::texter::encodings::{lemma_byte_of, lemma_units_utf8, Encoding};

verus! {

/// The byte offset of the UTF-8 column `nth` of `s`: `nth` itself, which has
/// to stand on a code-point boundary of `s`.
pub fn to(s: &str, nth: usize) -> (r: usize)
    requires
        Encoding::Utf8.is_col(s.spec_bytes(), nth as int),
    ensures
        r == nth,
        on_boundary(s.spec_bytes(), r as int),
        Encoding::Utf8.units(s.spec_bytes(), r as int) == nth,
        r == Encoding::Utf8.byte_of(s.spec_bytes(), nth as int),
{
    proof {
        let line = s.spec_bytes();
        broadcast use encode_utf8_valid_utf8;

        lemma_byte_of(Encoding::Utf8, line, nth as int);
        lemma_units_utf8(line, Encoding::Utf8.byte_of(line, nth as int));
    }
    nth
}

/// The UTF-8 column of the byte offset `nth` of `s`: `nth` itself, which has
/// to stand on a code-point boundary of `s`.
pub fn from(s: &str, nth: usize) -> (r: usize)
    requires
        on_boundary(s.spec_bytes(), nth as int),
    ensures
        r == nth,
        r == Encoding::Utf8.units(s.spec_bytes(), nth as int),
        Encoding::Utf8.is_col(s.spec_bytes(), r as int),
        Encoding::Utf8.byte_of(s.spec_bytes(), r as int) == nth,
{
    proof {
        let line = s.spec_bytes();
        broadcast use encode_utf8_valid_utf8;

        lemma_units_utf8(line, nth as int);
        lemma_byte_of(Encoding::Utf8, line, nth as int);
    }
    nth
}

} // verus!
