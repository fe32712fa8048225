//! Settling with a client in which encoding positions are counted.

use vstd::prelude::*;
use crate::strs::str_eq;
use crate::texter::encodings::Encoding;
use crate::texter::text::Text;

verus! {

/// The first of the names `encs`, from `from` on, that is `utf-16` or
/// `utf-8`, as an encoding.
pub open spec fn first_known(encs: Seq<String>, from: int) -> Option<Encoding>
    decreases encs.len() - from,
{
    if from < 0 || from >= encs.len() {
        None
    } else if encs[from]@ == "utf-16"@ {
        Some(Encoding::Utf16)
    } else if encs[from]@ == "utf-8"@ {
        Some(Encoding::Utf8)
    } else {
        first_known(encs, from + 1)
    }
}

/// The encoding to count in with a client that offers `encs`: the first it
/// offers of UTF-16 and UTF-8, and UTF-16 where it offers neither or says
/// nothing.
pub open spec fn decided(encs: Option<Seq<String>>) -> Encoding {
    match encs {
        Some(encs) => match first_known(encs, 0) {
            Some(enc) => enc,
            None => Encoding::Utf16,
        },
        None => Encoding::Utf16,
    }
}

/// The names in `encs`, if there are any.
pub open spec fn names_in(encs: Option<&[String]>) -> Option<Seq<String>> {
    match encs {
        Some(encs) => Some(encs@),
        None => None,
    }
}

/// The encoding to count in with a client that offers the encodings `encs`
/// by name.
pub fn decide_encoding(encs: Option<&[String]>) -> (r: Encoding)
    ensures
        r == decided(names_in(encs)),
{
    let names = match encs {
        Some(names) => names,
        None => {
            return Encoding::Utf16;
        },
    };
    let n = names.len();
    let mut i: usize = 0;
    while i < n
        invariant
            i <= n,
            n == names@.len(),
            names_in(encs) == Some(names@),
            first_known(names@, 0) == first_known(names@, i as int),
        decreases n - i,
    {
        let enc = names[i].as_str();
        if str_eq(enc, "utf-16") {
            return Encoding::Utf16;
        } else if str_eq(enc, "utf-8") {
            return Encoding::Utf8;
        }
        i = i + 1;
    }
    Encoding::Utf16
}

/// A buffer for `text` that takes positions with columns counted in
/// `encoding`.
pub fn open_text(encoding: Encoding, text: String) -> (r: Text)
    ensures
        r.text@ == text@,
        r.encoding == encoding,
        r.wf(),
{
    match encoding {
        Encoding::Utf8 => Text::new(text),
        Encoding::Utf16 => Text::new_utf16(text),
        Encoding::Utf32 => Text::new_utf32(text),
    }
}

} // verus!
