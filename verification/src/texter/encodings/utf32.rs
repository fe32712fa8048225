//! Columns counted in code points.

use vstd::prelude::*;
use vstd::utf8::*;
use vstd::string::StringSliceAdditionalSpecFns;
use crate::texter::boundaries::{lemma_next_boundary, on_boundary, scalar_width};
use crate::texter::encodings::{
    lemma_boundary_gap, lemma_byte_of, lemma_col_unique, lemma_units_monotone, lemma_units_scalar,
    width_of, Encoding,
};

verus! {

/// The byte offset of the UTF-32 column `nth` of `s`.
///
/// The code points of `s` are walked from the start and counted until `nth`
/// of them have gone by.
pub fn to(s: &str, nth: usize) -> (r: usize)
    requires
        Encoding::Utf32.is_col(s.spec_bytes(), nth as int),
    ensures
        on_boundary(s.spec_bytes(), r as int),
        Encoding::Utf32.units(s.spec_bytes(), r as int) == nth,
        r == Encoding::Utf32.byte_of(s.spec_bytes(), nth as int),
{
    let bytes = s.as_bytes();
    let ghost line = s.spec_bytes();
    let ghost goal = Encoding::Utf32.byte_of(line, nth as int);
    proof {
        broadcast use encode_utf8_valid_utf8;

        lemma_byte_of(Encoding::Utf32, line, nth as int);
    }
    let mut at: usize = 0;
    let mut units: usize = 0;
    while units < nth
        invariant
            bytes@ == line,
            valid_utf8(line),
            on_boundary(line, goal),
            Encoding::Utf32.units(line, goal) == nth,
            on_boundary(line, at as int),
            units == Encoding::Utf32.units(line, at as int),
            at <= goal,
        decreases goal - at,
    {
        proof {
            if at as int == goal {
                assert(false);
            }
            lemma_boundary_gap(line, at as int, goal);
            lemma_units_scalar(Encoding::Utf32, line, at as int);
            lemma_next_boundary(line, at as int);
            lemma_units_monotone(
                Encoding::Utf32,
                line,
                at + scalar_width(line[at as int]),
                goal,
            );
        }
        units = units + 1;
        at = at + width_of(bytes[at]);
    }
    proof {
        lemma_units_monotone(Encoding::Utf32, line, at as int, goal);
        lemma_col_unique(Encoding::Utf32, line, at as int, goal);
    }
    at
}

/// The UTF-32 column of the byte offset `col` of `s`.
pub fn from(s: &str, col: usize) -> (r: usize)
    requires
        on_boundary(s.spec_bytes(), col as int),
    ensures
        r == Encoding::Utf32.units(s.spec_bytes(), col as int),
        Encoding::Utf32.is_col(s.spec_bytes(), r as int),
        Encoding::Utf32.byte_of(s.spec_bytes(), r as int) == col,
{
    let bytes = s.as_bytes();
    let ghost line = s.spec_bytes();
    proof {
        broadcast use encode_utf8_valid_utf8;

    }
    let mut at: usize = 0;
    let mut units: usize = 0;
    while at < col
        invariant
            bytes@ == line,
            valid_utf8(line),
            on_boundary(line, col as int),
            on_boundary(line, at as int),
            units == Encoding::Utf32.units(line, at as int),
            units <= at <= col,
        decreases col - at,
    {
        proof {
            lemma_boundary_gap(line, at as int, col as int);
            lemma_units_scalar(Encoding::Utf32, line, at as int);
            lemma_next_boundary(line, at as int);
        }
        units = units + 1;
        at = at + width_of(bytes[at]);
    }
    proof {
        lemma_byte_of(Encoding::Utf32, line, units as int);
    }
    units
}

} // verus!
