//! What is known of the element that the cursor stands in: its tag, whether
//! it is marked for the bundler, and what kind of asset it names.

use std::str::FromStr;
use vstd::prelude::*;
use vstd::std_specs::convert::FromSpecImpl;
use vstd::string::StringSliceAdditionalSpecFns;
use crate::strs::{starts_with, str_eq};

verus! {

/// The tags that can carry an asset.
#[derive(Clone, Copy, Debug, PartialEq, Eq, Structural)]
pub enum TagName {
    Unknown,
    Link,
    Script,
}

/// The tag that the name `s` stands for.
pub open spec fn tag_of(s: Seq<char>) -> TagName {
    if s == "link"@ {
        TagName::Link
    } else if s == "script"@ {
        TagName::Script
    } else {
        TagName::Unknown
    }
}

impl Default for TagName {
    fn default() -> (r: Self)
        ensures
            r == TagName::Unknown,
    {
        TagName::Unknown
    }
}

impl From<&str> for TagName {
    fn from(s: &str) -> (r: Self) {
        if str_eq(s, "link") {
            TagName::Link
        } else if str_eq(s, "script") {
            TagName::Script
        } else {
            TagName::Unknown
        }
    }
}

impl FromSpecImpl<&str> for TagName {
    open spec fn obeys_from_spec() -> bool {
        true
    }

    open spec fn from_spec(s: &str) -> Self {
        tag_of(s@)
    }
}

/// The kinds of asset that a `rel` attribute can name.
#[derive(Clone, Copy, Debug, PartialEq, Eq, Structural)]
pub enum AssetType {
    Rust,
    Css,
    Tailwind,
    Sass,
    Scss,
    Icon,
    Inline,
    CopyFile,
    CopyDir,
}

/// The kind of asset that the value `s` of a `rel` attribute names, if it
/// names one.
pub open spec fn asset_of(s: Seq<char>) -> Option<AssetType> {
    if s == "rust"@ {
        Some(AssetType::Rust)
    } else if s == "css"@ {
        Some(AssetType::Css)
    } else if s == "tailwind-css"@ {
        Some(AssetType::Tailwind)
    } else if s == "sass"@ {
        Some(AssetType::Sass)
    } else if s == "scss"@ {
        Some(AssetType::Scss)
    } else if s == "icon"@ {
        Some(AssetType::Icon)
    } else if s == "inline"@ {
        Some(AssetType::Inline)
    } else if s == "copy-file"@ {
        Some(AssetType::CopyFile)
    } else if s == "copy-dir"@ {
        Some(AssetType::CopyDir)
    } else {
        None
    }
}

impl AssetType {
    /// The kind of asset that the value `s` of a `rel` attribute names.
    pub fn from_str(s: &str) -> (r: Result<Self, ()>)
        ensures
            r == (match asset_of(s@) {
                Some(asset) => Ok::<AssetType, ()>(asset),
                None => Err(()),
            }),
    {
        if str_eq(s, "rust") {
            Ok(AssetType::Rust)
        } else if str_eq(s, "css") {
            Ok(AssetType::Css)
        } else if str_eq(s, "tailwind-css") {
            Ok(AssetType::Tailwind)
        } else if str_eq(s, "sass") {
            Ok(AssetType::Sass)
        } else if str_eq(s, "scss") {
            Ok(AssetType::Scss)
        } else if str_eq(s, "icon") {
            Ok(AssetType::Icon)
        } else if str_eq(s, "inline") {
            Ok(AssetType::Inline)
        } else if str_eq(s, "copy-file") {
            Ok(AssetType::CopyFile)
        } else if str_eq(s, "copy-dir") {
            Ok(AssetType::CopyDir)
        } else {
            Err(())
        }
    }
}

impl FromStr for AssetType {
    type Err = ();

    fn from_str(s: &str) -> (r: Result<Self, ()>)
        ensures
            r == asset_read(s@),
    {
        AssetType::from_str(s)
    }
}

/// What reading the text `s` as a kind of asset gives: the kind that `s`
/// names, or the error where it names none.
pub open spec fn asset_read(s: Seq<char>) -> Result<AssetType, ()> {
    match asset_of(s) {
        Some(asset) => Ok(asset),
        None => Err(()),
    }
}

/// What is read of one node of a syntax tree: its kind, its text where that
/// is UTF-8, and its named children in order.
#[derive(Debug)]
pub struct NodeInfo {
    pub kind: String,
    pub text: Option<String>,
    pub named_children: Vec<NodeInfo>,
}

/// The text of `n`, if it has one.
pub open spec fn text_of(n: NodeInfo) -> Option<Seq<char>> {
    match n.text {
        Some(t) => Some(t@),
        None => None,
    }
}

/// The name of the attribute `ch`: the text of its first named child, which
/// has to be an attribute name.
pub open spec fn attr_name_of(ch: NodeInfo) -> Option<Seq<char>> {
    if ch.named_children@.len() >= 1 && ch.named_children@[0].kind@ == "attribute_name"@ {
        text_of(ch.named_children@[0])
    } else {
        None
    }
}

/// The value of the attribute `ch`: the text of its second named child where
/// that is an attribute value, or of the attribute value that stands first
/// within the second named child where that is a quoted one.
pub open spec fn attr_value_of(ch: NodeInfo) -> Option<Seq<char>> {
    if ch.named_children@.len() >= 2 {
        let c = ch.named_children@[1];
        if c.kind@ == "attribute_value"@ {
            text_of(c)
        } else if c.kind@ == "quoted_attribute_value"@ && c.named_children@.len() >= 1
            && c.named_children@[0].kind@ == "attribute_value"@ {
            text_of(c.named_children@[0])
        } else {
            None
        }
    } else {
        None
    }
}

/// What is known of an element.
#[derive(Clone, Copy, Debug)]
pub struct TrunkAttrState {
    /// Whether a `data-trunk` attribute is present.
    pub data_trunk: bool,
    /// The kind of asset that the `rel` attribute names: `rel=""` is `None`,
    /// `rel="css"` is `Some(AssetType::Css)`.
    pub rel: Option<AssetType>,
    pub tag_name: TagName,
}

impl Default for TrunkAttrState {
    fn default() -> (r: Self)
        ensures
            r == TrunkAttrState::fresh(TagName::Unknown),
    {
        TrunkAttrState { data_trunk: false, rel: None, tag_name: TagName::Unknown }
    }
}

impl TrunkAttrState {
    /// The state of an element with the tag `tag_name` of which no attribute
    /// has been seen.
    pub open spec fn fresh(tag_name: TagName) -> TrunkAttrState {
        TrunkAttrState { data_trunk: false, rel: None, tag_name }
    }

    /// The state after the child `ch` of the element was seen.
    ///
    /// A child without a readable attribute name changes nothing. The name
    /// `data-trunk` marks the element. The name `rel`, with a readable value,
    /// sets the kind of asset to what the value names, or to none where it
    /// names none.
    pub open spec fn seen(self, ch: NodeInfo) -> TrunkAttrState {
        match attr_name_of(ch) {
            None => self,
            Some(name) => {
                let data_trunk = self.data_trunk || name == "data-trunk"@;
                let rel = match attr_value_of(ch) {
                    Some(value) => if name == "rel"@ {
                        asset_of(value)
                    } else {
                        self.rel
                    },
                    None => self.rel,
                };
                TrunkAttrState { data_trunk, rel, tag_name: self.tag_name }
            },
        }
    }

    /// The state after the children `items` were seen, first to last.
    pub open spec fn seen_all(self, items: Seq<NodeInfo>) -> TrunkAttrState
        decreases items.len(),
    {
        if items.len() == 0 {
            self
        } else {
            self.seen_all(items.drop_last()).seen(items.last())
        }
    }

    /// The state of the element whose named children are `items`: the first
    /// has to be the tag name, with a readable text; the others are seen in
    /// order.
    pub open spec fn of_elem(items: Seq<NodeInfo>) -> Option<TrunkAttrState> {
        if items.len() >= 1 && items[0].kind@ == "tag_name"@ && items[0].text is Some {
            Some(
                Self::fresh(tag_of(items[0].text.unwrap()@)).seen_all(
                    items.subrange(1, items.len() as int),
                ),
            )
        } else {
            None
        }
    }

    pub fn with_tag_name(tag_name: TagName) -> (r: Self)
        ensures
            r == Self::fresh(tag_name),
    {
        TrunkAttrState { data_trunk: false, rel: None, tag_name }
    }

    /// Whether the value of a `rel` attribute is asked for: no kind of asset
    /// is set yet, and `attr_name`, the readable name of the attribute, is
    /// `rel`.
    pub fn is_rel_val(&self, attr_name: Option<&str>) -> (r: bool)
        ensures
            r == (self.rel is None && attr_name is Some && attr_name.unwrap()@ == "rel"@),
    {
        if self.rel.is_some() {
            return false;
        }
        match attr_name {
            Some(name) => str_eq(name, "rel"),
            None => false,
        }
    }

    /// Whether the `data-trunk` attribute itself is being typed: the element
    /// is not marked yet, the node is an attribute name, and its readable text
    /// starts with `data-`.
    pub fn is_data_trunk_attr(&self, kind: &str, text: Option<&str>) -> (r: bool)
        ensures
            r == (!self.data_trunk && kind@ == "attribute_name"@ && text is Some
                && "data-".spec_bytes().is_prefix_of(text.unwrap().spec_bytes())),
    {
        if self.data_trunk {
            return false;
        }
        if !str_eq(kind, "attribute_name") {
            return false;
        }
        match text {
            Some(t) => starts_with(t, "data-"),
            None => false,
        }
    }

    /// The state of the element whose named children are `elem_nodes`.
    pub fn from_elem_items(elem_nodes: &[NodeInfo]) -> (r: Option<Self>)
        ensures
            r == Self::of_elem(elem_nodes@),
    {
        if elem_nodes.len() == 0 {
            return None;
        }
        let first = &elem_nodes[0];
        if !str_eq(first.kind.as_str(), "tag_name") {
            return None;
        }
        let tag_name = match &first.text {
            Some(t) => TagName::from(t.as_str()),
            None => {
                return None;
            },
        };
        let mut attr_state = Self::with_tag_name(tag_name);
        let ghost start = attr_state;
        let n = elem_nodes.len();
        let mut i: usize = 1;
        proof {
            assert(elem_nodes@.subrange(1, 1).len() == 0);
        }
        while i < n
            invariant
                1 <= i <= n,
                n == elem_nodes@.len(),
                attr_state == start.seen_all(elem_nodes@.subrange(1, i as int)),
            decreases n - i,
        {
            let ch = &elem_nodes[i];
            proof {
                let upto = elem_nodes@.subrange(1, i + 1);
                assert(upto.drop_last() =~= elem_nodes@.subrange(1, i as int));
                assert(upto.last() == elem_nodes@[i as int]);
            }
            attr_state = attr_state.see(ch);
            i = i + 1;
        }
        Some(attr_state)
    }

    /// The state after the child `ch` of the element was seen.
    fn see(self, ch: &NodeInfo) -> (r: Self)
        ensures
            r == self.seen(*ch),
    {
        let mut state = self;
        if ch.named_children.len() < 1 {
            return state;
        }
        let name_node = &ch.named_children[0];
        if !str_eq(name_node.kind.as_str(), "attribute_name") {
            return state;
        }
        let name = match &name_node.text {
            Some(t) => t.as_str(),
            None => {
                return state;
            },
        };
        if !state.data_trunk && str_eq(name, "data-trunk") {
            state.data_trunk = true;
        }
        if ch.named_children.len() < 2 {
            return state;
        }
        let c = &ch.named_children[1];
        let value_node = if str_eq(c.kind.as_str(), "attribute_value") {
            c
        } else if str_eq(c.kind.as_str(), "quoted_attribute_value") && c.named_children.len() >= 1
            && str_eq(c.named_children[0].kind.as_str(), "attribute_value") {
            &c.named_children[0]
        } else {
            return state;
        };
        let value = match &value_node.text {
            Some(t) => t.as_str(),
            None => {
                return state;
            },
        };
        if str_eq(name, "rel") {
            state.rel = match AssetType::from_str(value) {
                Ok(asset) => Some(asset),
                Err(_) => None,
            };
        }
        state
    }
}

} // verus!
