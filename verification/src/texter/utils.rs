//! Stripping the terminator off the end of a line.

use vstd::prelude::*;
use vstd::utf8::*;
use vstd::string::StringSliceAdditionalSpecFns;
use crate::texter::boundaries::{lemma_ascii_boundaries, lemma_boundary_agrees};
use crate::texter::lines::{CR, LF};

verus! {

/// The length of the terminator that `line` ends with: two for CR LF, one for
/// a lone CR or LF, zero where `line` ends with neither.
pub open spec fn eol_len(line: Seq<u8>) -> int {
    let n = line.len() as int;
    if n >= 2 && line[n - 2] == CR && line[n - 1] == LF {
        2
    } else if n >= 1 && (line[n - 1] == LF || line[n - 1] == CR) {
        1
    } else {
        0
    }
}

/// `line` without the terminator at its end.
pub open spec fn trimmed(line: Seq<u8>) -> Seq<u8> {
    line.subrange(0, line.len() - eol_len(line))
}

/// `base_line` without the one terminator at its end, if it ends with one.
pub fn trim_eol_from_end(base_line: &str) -> (r: &str)
    ensures
        r.spec_bytes() == trimmed(base_line.spec_bytes()),
{
    let bytes = base_line.as_bytes();
    let n = bytes.len();
    let eol_len: usize = if n >= 2 && bytes[n - 2] == CR && bytes[n - 1] == LF {
        2
    } else if n >= 1 && (bytes[n - 1] == LF || bytes[n - 1] == CR) {
        1
    } else {
        0
    };
    proof {
        broadcast use encode_utf8_valid_utf8;

        let line = base_line.spec_bytes();
        if eol_len > 0 {
            lemma_ascii_boundaries(line, n - eol_len);
        }
        lemma_boundary_agrees(line, n - eol_len);
    }
    let (head, _) = base_line.split_at(n - eol_len);
    head
}

} // verus!
