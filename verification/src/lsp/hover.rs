//! What to explain where the cursor rests on an attribute.

use vstd::prelude::*;
use crate::attr_state::{text_of, AssetType, NodeInfo, TrunkAttrState};
use crate::lsp::completions::{find_named, first_named, kind_at, name_node_of};
use crate::lsp::docs::{asset_attrs, models, ValueRequirment};
use crate::strs::str_eq;
use crate::utils::{attr_above, find_attr};

verus! {

/// What is explained at a place.
#[derive(Clone, Copy, Debug, PartialEq, Eq, Structural)]
pub enum HoverOf {
    /// The attribute that marks an element for the bundler.
    DataTrunk,
    /// The attribute at place `attr` among the attributes of `asset`.
    Attr { asset: AssetType, attr: usize },
    /// The value at place `value` among the fixed values of the attribute at
    /// place `attr` among the attributes of `asset`.
    Value { asset: AssetType, attr: usize, value: usize },
}

/// The place of the first of `values` from `from` on that is `value`.
pub open spec fn first_value(values: Seq<Seq<char>>, from: int, value: Seq<char>) -> Option<int>
    decreases values.len() - from,
{
    if from < 0 || from >= values.len() {
        None
    } else if values[from] == value {
        Some(from)
    } else {
        first_value(values, from + 1, value)
    }
}

/// What is explained of the attribute name `name` on the element in the state
/// `state`: the mark of the bundler where it is that; else, where a kind of
/// asset is set, the first attribute of that kind with that name.
pub open spec fn name_hover(state: TrunkAttrState, name: Seq<char>) -> Option<HoverOf> {
    if name == "data-trunk"@ {
        Some(HoverOf::DataTrunk)
    } else {
        match state.rel {
            None => None,
            Some(asset) => match first_named(asset_attrs(asset), 0, name) {
                Some(i) => Some(HoverOf::Attr { asset, attr: i as usize }),
                None => None,
            },
        }
    }
}

/// What is explained of the value `value` of the attribute named `name`:
/// where a kind of asset is set and the first attribute of that kind with
/// that name takes a fixed set of values, the first of them that is `value`.
pub open spec fn value_hover(state: TrunkAttrState, name: Seq<char>, value: Seq<char>) -> Option<
    HoverOf,
> {
    match state.rel {
        None => None,
        Some(asset) => match first_named(asset_attrs(asset), 0, name) {
            None => None,
            Some(i) => if asset_attrs(asset)[i].req is Values {
                match first_value(asset_attrs(asset)[i].values, 0, value) {
                    Some(v) => Some(HoverOf::Value { asset, attr: i as usize, value: v as usize }),
                    None => None,
                }
            } else {
                None
            },
        },
    }
}

/// What is explained at the node that `chain` starts with.
///
/// `chain` holds the node under the cursor, then its parent, and so on
/// upwards. On an attribute name it is what the name stands for; on an
/// attribute value it is what the value stands for, for the attribute that the
/// value belongs to; elsewhere nothing. A text that cannot be read explains
/// nothing.
pub open spec fn hover_at(state: TrunkAttrState, chain: Seq<NodeInfo>) -> Option<HoverOf> {
    if chain.len() == 0 {
        None
    } else if chain[0].kind@ == "attribute_name"@ {
        match text_of(chain[0]) {
            Some(name) => name_hover(state, name),
            None => None,
        }
    } else if chain[0].kind@ == "attribute_value"@ {
        match attr_above(chain[0].kind@, kind_at(chain, 1), kind_at(chain, 2)) {
            None => None,
            Some(level) => match name_node_of(chain[level as int]) {
                None => None,
                Some(name_node) => match (text_of(name_node), text_of(chain[0])) {
                    (Some(name), Some(value)) => value_hover(state, name, value),
                    _ => None,
                },
            },
        }
    } else {
        None
    }
}

/// The place among `values` of the first that is `value`.
fn find_value(values: &[&'static str], value: &str) -> (r: Option<usize>)
    ensures
        match r {
            Some(i) => first_value(values@.map_values(|v: &'static str| v@), 0, value@) == Some(
                i as int,
            ),
            None => first_value(values@.map_values(|v: &'static str| v@), 0, value@) is None,
        },
{
    let ghost texts = values@.map_values(|v: &'static str| v@);
    let n = values.len();
    let mut i: usize = 0;
    while i < n
        invariant
            i <= n,
            n == values@.len(),
            texts == values@.map_values(|v: &'static str| v@),
            first_value(texts, 0, value@) == first_value(texts, i as int, value@),
        decreases n - i,
    {
        assert(texts[i as int] == values@[i as int]@);
        if str_eq(values[i], value) {
            return Some(i);
        }
        i = i + 1;
    }
    None
}

impl TrunkAttrState {
    /// What is explained of the attribute name `name`.
    pub fn hover_attribute_name(&self, name: &str) -> (r: Option<HoverOf>)
        ensures
            r == name_hover(*self, name@),
    {
        if str_eq(name, "data-trunk") {
            return Some(HoverOf::DataTrunk);
        }
        let asset = match self.rel {
            Some(asset) => asset,
            None => {
                return None;
            },
        };
        let infos = asset.to_info();
        match find_named(infos.as_slice(), name) {
            Some(attr) => Some(HoverOf::Attr { asset, attr }),
            None => None,
        }
    }

    /// What is explained of the value `value` of the attribute named `name`.
    pub fn hover_attribute_value(&self, name: &str, value: &str) -> (r: Option<HoverOf>)
        ensures
            r == value_hover(*self, name@, value@),
    {
        let asset = match self.rel {
            Some(asset) => asset,
            None => {
                return None;
            },
        };
        let infos = asset.to_info();
        let attr = match find_named(infos.as_slice(), name) {
            Some(attr) => attr,
            None => {
                return None;
            },
        };
        let info = &infos[attr];
        assert(models(infos@)[attr as int] == info@);
        match info.req {
            ValueRequirment::Values(_) => match find_value(info.values.as_slice(), value) {
                Some(value) => Some(HoverOf::Value { asset, attr, value }),
                None => None,
            },
            _ => None,
        }
    }

    /// What is explained at the node that `chain` starts with, on the element
    /// of this state.
    pub fn hover(&self, chain: &[NodeInfo]) -> (r: Option<HoverOf>)
        ensures
            r == hover_at(*self, chain@),
    {
        if chain.len() == 0 {
            return None;
        }
        let in_pos = &chain[0];
        let kind = in_pos.kind.as_str();
        if str_eq(kind, "attribute_name") {
            match &in_pos.text {
                Some(name) => self.hover_attribute_name(name.as_str()),
                None => None,
            }
        } else if str_eq(kind, "attribute_value") {
            let parent = if chain.len() > 1 {
                Some(chain[1].kind.as_str())
            } else {
                None
            };
            let grandparent = if chain.len() > 2 {
                Some(chain[2].kind.as_str())
            } else {
                None
            };
            let level = match find_attr(kind, parent, grandparent) {
                Some(level) => level,
                None => {
                    return None;
                },
            };
            let attr = &chain[level];
            if attr.named_children.len() < 1 || !str_eq(
                attr.named_children[0].kind.as_str(),
                "attribute_name",
            ) {
                return None;
            }
            match (&attr.named_children[0].text, &in_pos.text) {
                (Some(name), Some(value)) => self.hover_attribute_value(
                    name.as_str(),
                    value.as_str(),
                ),
                _ => None,
            }
        } else {
            None
        }
    }
}

} // verus!
