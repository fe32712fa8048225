//! Finding one's way in the syntax tree of a page by the kinds of its nodes.

use vstd::prelude::*;
use crate::strs::str_eq;

verus! {

/// A node of the kind `kind` is one at which the name of an attribute can be
/// completed.
pub open spec fn attr_name_kind(kind: Seq<char>) -> bool {
    kind == "self_closing_tag"@ || kind == "start_tag"@ || kind == "attribute_name"@ || kind
        == "attribute"@
}

/// A node of the kind `kind` is one at which the value of an attribute can be
/// completed.
pub open spec fn attr_value_kind(kind: Seq<char>) -> bool {
    kind == "quoted_attribute_value"@ || kind == "attribute_value"@
}

/// A node of the kind `kind` is the tag that opens an element.
pub open spec fn elem_kind(kind: Seq<char>) -> bool {
    kind == "start_tag"@ || kind == "self_closing_tag"@
}

/// How many steps up from a node of the kind `kind` its attribute stands,
/// given the kinds of the node's parent and grandparent where it has them.
///
/// An attribute is its own attribute. A name or a quoted value has it as its
/// parent. A value has it as its parent, or, where the parent is a quoted
/// value, as its grandparent. No other node has one.
pub open spec fn attr_above(
    kind: Seq<char>,
    parent: Option<Seq<char>>,
    grandparent: Option<Seq<char>>,
) -> Option<usize> {
    if kind == "attribute_value"@ {
        match parent {
            None => None,
            Some(p) => if p == "quoted_attribute_value"@ {
                if grandparent == Some("attribute"@) {
                    Some(2usize)
                } else {
                    None
                }
            } else if p == "attribute"@ {
                Some(1usize)
            } else {
                None
            },
        }
    } else if kind == "quoted_attribute_value"@ || kind == "attribute_name"@ {
        if parent == Some("attribute"@) {
            Some(1usize)
        } else {
            None
        }
    } else if kind == "attribute"@ {
        Some(0usize)
    } else {
        None
    }
}

/// The text that `s` holds, if it holds one.
pub open spec fn text_in(s: Option<&str>) -> Option<Seq<char>> {
    match s {
        Some(t) => Some(t@),
        None => None,
    }
}

pub fn is_attr_name_completion(kind: &str) -> (r: bool)
    ensures
        r == attr_name_kind(kind@),
{
    str_eq(kind, "self_closing_tag") || str_eq(kind, "start_tag") || str_eq(kind, "attribute_name")
        || str_eq(kind, "attribute")
}

pub fn is_attr_value_completion(kind: &str) -> (r: bool)
    ensures
        r == attr_value_kind(kind@),
{
    str_eq(kind, "quoted_attribute_value") || str_eq(kind, "attribute_value")
}

/// Whether `kind`, if there is one, is the kind `attribute`.
fn is_attribute(kind: Option<&str>) -> (r: bool)
    ensures
        r == (text_in(kind) == Some("attribute"@)),
{
    match kind {
        Some(k) => str_eq(k, "attribute"),
        None => false,
    }
}

/// How many steps up from a node its attribute stands: `kind` is the kind of
/// the node, `parent` and `grandparent` those of the two nodes above it, where
/// there are such.
pub fn find_attr(kind: &str, parent: Option<&str>, grandparent: Option<&str>) -> (r: Option<usize>)
    ensures
        r == attr_above(kind@, text_in(parent), text_in(grandparent)),
{
    if str_eq(kind, "attribute_value") {
        let pn = match parent {
            Some(p) => p,
            None => {
                return None;
            },
        };
        if str_eq(pn, "quoted_attribute_value") {
            if is_attribute(grandparent) {
                Some(2)
            } else {
                None
            }
        } else if str_eq(pn, "attribute") {
            Some(1)
        } else {
            None
        }
    } else if str_eq(kind, "quoted_attribute_value") || str_eq(kind, "attribute_name") {
        if is_attribute(parent) {
            Some(1)
        } else {
            None
        }
    } else if str_eq(kind, "attribute") {
        Some(0)
    } else {
        None
    }
}

/// How many steps up from a node the tag stands that opens its element:
/// `kinds` holds the kind of the node, then that of its parent, and so on up to
/// the root. The first tag on the way up is the one.
pub fn find_elem(kinds: &[String]) -> (r: Option<usize>)
    ensures
        match r {
            Some(i) => {
                &&& i < kinds@.len()
                &&& elem_kind(kinds@[i as int]@)
                &&& forall|k: int| 0 <= k < i ==> !elem_kind(#[trigger] kinds@[k]@)
            },
            None => forall|k: int| 0 <= k < kinds@.len() ==> !elem_kind(#[trigger] kinds@[k]@),
        },
{
    let n = kinds.len();
    let mut i: usize = 0;
    while i < n
        invariant
            i <= n,
            n == kinds@.len(),
            forall|k: int| 0 <= k < i ==> !elem_kind(#[trigger] kinds@[k]@),
        decreases n - i,
    {
        let kind = kinds[i].as_str();
        if str_eq(kind, "start_tag") || str_eq(kind, "self_closing_tag") {
            return Some(i);
        }
        i = i + 1;
    }
    None
}

} // verus!
