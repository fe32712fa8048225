//! What to offer where a name or a value of an attribute is being typed.

use vstd::prelude::*;
use vstd::string::{StringExecFns, StringSliceAdditionalSpecFns};
use vstd::utf8::encode_utf8;
use crate::attr_state::{attr_name_of, text_of, AssetType, NodeInfo, TagName, TrunkAttrState};
use crate::lsp::docs::{
    asset_attrs, models, script_attrs, script_info, AttrInfo, AttrModel, ValueRequirment,
};
use crate::strs::{starts_with, str_eq};
use crate::utils::{
    attr_above, attr_name_kind, attr_value_kind, find_attr, is_attr_name_completion,
    is_attr_value_completion, text_in,
};

verus! {

/// The name of an attribute as it is offered.
#[derive(Debug)]
pub struct NameItem {
    /// What is shown and put in.
    pub label: String,
    /// The name of the attribute.
    pub name: &'static str,
    /// Whether `label` is a template with a place left for the value.
    pub snippet: bool,
}

/// An offered name as the contracts see it.
pub struct NameModel {
    pub label: Seq<char>,
    pub name: Seq<char>,
    pub snippet: bool,
}

impl View for NameItem {
    type V = NameModel;

    open spec fn view(&self) -> NameModel {
        NameModel { label: self.label@, name: self.name@, snippet: self.snippet }
    }
}

/// The items in `items` as the contracts see them.
pub open spec fn name_models(items: Seq<NameItem>) -> Seq<NameModel> {
    items.map_values(|i: NameItem| i@)
}

/// The texts in `names`.
pub open spec fn texts(names: Seq<String>) -> Seq<Seq<char>> {
    names.map_values(|n: String| n@)
}

/// The texts in `values`.
pub open spec fn value_texts(values: Seq<&'static str>) -> Seq<Seq<char>> {
    values.map_values(|v: &'static str| v@)
}

/// Whether the attribute cannot stand without a value.
pub open spec fn must_have(req: ValueRequirment) -> bool {
    req == ValueRequirment::Requires(true) || req == ValueRequirment::Values(true)
}

/// The attribute `a` is to be offered: its name starts with what was typed,
/// byte for byte, and the element does not have it yet.
pub open spec fn to_offer(a: AttrModel, typed: Seq<char>, present: Seq<Seq<char>>) -> bool {
    encode_utf8(typed).is_prefix_of(encode_utf8(a.name)) && !present.contains(a.name)
}

/// How the attribute `a` is offered. Where `templates` is set and the
/// attribute has to have a value, the label is the name with `="$0"` behind
/// it, a template; else the label is the name.
pub open spec fn offer(a: AttrModel, templates: bool) -> NameModel {
    if templates && must_have(a.req) {
        NameModel { label: a.name + "=\"$0\""@, name: a.name, snippet: true }
    } else {
        NameModel { label: a.name, name: a.name, snippet: false }
    }
}

/// The names offered of the first `n` attributes of `attrs`, in their order.
pub open spec fn offered(
    attrs: Seq<AttrModel>,
    n: int,
    typed: Seq<char>,
    present: Seq<Seq<char>>,
    templates: bool,
) -> Seq<NameModel>
    decreases n,
{
    if n <= 0 {
        Seq::empty()
    } else {
        let before = offered(attrs, n - 1, typed, present, templates);
        if to_offer(attrs[n - 1], typed, present) {
            before.push(offer(attrs[n - 1], templates))
        } else {
            before
        }
    }
}

/// The values that the attributes named `name` among the first `n` of `attrs`
/// take, where they take a fixed set, in their order.
pub open spec fn fixed_values(attrs: Seq<AttrModel>, n: int, name: Seq<char>) -> Seq<Seq<char>>
    decreases n,
{
    if n <= 0 {
        Seq::empty()
    } else {
        let before = fixed_values(attrs, n - 1, name);
        let a = attrs[n - 1];
        if a.name == name && a.req is Values {
            before + a.values
        } else {
            before
        }
    }
}

/// The place of the first attribute named `name` among those of `attrs` from
/// `from` on.
pub open spec fn first_named(attrs: Seq<AttrModel>, from: int, name: Seq<char>) -> Option<int>
    decreases attrs.len() - from,
{
    if from < 0 || from >= attrs.len() {
        None
    } else if attrs[from].name == name {
        Some(from)
    } else {
        first_named(attrs, from + 1, name)
    }
}

/// Whether `names` holds `name`.
pub fn holds_name(names: &[String], name: &str) -> (r: bool)
    ensures
        r == texts(names@).contains(name@),
{
    let n = names.len();
    let mut i: usize = 0;
    while i < n
        invariant
            i <= n,
            n == names@.len(),
            forall|k: int| 0 <= k < i ==> texts(names@)[k] != name@,
        decreases n - i,
    {
        if str_eq(names[i].as_str(), name) {
            assert(texts(names@)[i as int] == name@);
            return true;
        }
        i = i + 1;
    }
    false
}

/// The names to offer of the attributes `infos`, where `typed` has been typed
/// and the element has the attributes `present` already.
pub fn offer_names(infos: &[AttrInfo], typed: &str, present: &[String], templates: bool) -> (r:
    Vec<NameItem>)
    ensures
        name_models(r@) == offered(
            models(infos@),
            infos@.len() as int,
            typed@,
            texts(present@),
            templates,
        ),
{
    let mut out: Vec<NameItem> = Vec::new();
    let n = infos.len();
    let mut i: usize = 0;
    assert(name_models(out@) =~= Seq::empty());
    while i < n
        invariant
            i <= n,
            n == infos@.len(),
            name_models(out@) == offered(
                models(infos@),
                i as int,
                typed@,
                texts(present@),
                templates,
            ),
        decreases n - i,
    {
        let info = &infos[i];
        let ghost before = name_models(out@);
        assert(models(infos@)[i as int] == info@);
        if starts_with(info.name, typed) && !holds_name(present, info.name) {
            let item = if templates && info.req.must_have_value() {
                let mut label = String::from_str(info.name);
                label.append("=\"$0\"");
                NameItem { label, name: info.name, snippet: true }
            } else {
                NameItem { label: String::from_str(info.name), name: info.name, snippet: false }
            };
            out.push(item);
            assert(name_models(out@) =~= before.push(offer(info@, templates)));
        }
        i = i + 1;
    }
    out
}

/// The values to offer for the attribute named `attr_name`, among the
/// attributes `infos`: the fixed values of every attribute of that name.
pub fn offer_values(infos: &[AttrInfo], attr_name: &str) -> (r: Vec<&'static str>)
    ensures
        value_texts(r@) == fixed_values(models(infos@), infos@.len() as int, attr_name@),
{
    let mut out: Vec<&'static str> = Vec::new();
    let n = infos.len();
    let mut i: usize = 0;
    assert(value_texts(out@) =~= Seq::empty());
    while i < n
        invariant
            i <= n,
            n == infos@.len(),
            value_texts(out@) == fixed_values(models(infos@), i as int, attr_name@),
        decreases n - i,
    {
        let info = &infos[i];
        assert(models(infos@)[i as int] == info@);
        let takes_fixed = match info.req {
            ValueRequirment::Values(_) => true,
            _ => false,
        };
        if str_eq(info.name, attr_name) && takes_fixed {
            let ghost before = value_texts(out@);
            let m = info.values.len();
            let mut j: usize = 0;
            while j < m
                invariant
                    j <= m,
                    m == info.values@.len(),
                    value_texts(out@) == before + info@.values.subrange(0, j as int),
                decreases m - j,
            {
                let ghost so_far = value_texts(out@);
                out.push(info.values[j]);
                assert(value_texts(out@) =~= so_far.push(info@.values[j as int]));
                assert(before + info@.values.subrange(0, j + 1) =~= (before
                    + info@.values.subrange(0, j as int)).push(info@.values[j as int]));
                j = j + 1;
            }
            assert(info@.values.subrange(0, m as int) =~= info@.values);
        }
        i = i + 1;
    }
    out
}

/// The place among `infos` of the first attribute named `name`.
pub fn find_named(infos: &[AttrInfo], name: &str) -> (r: Option<usize>)
    ensures
        match r {
            Some(i) => first_named(models(infos@), 0, name@) == Some(i as int) && i < infos@.len(),
            None => first_named(models(infos@), 0, name@) is None,
        },
{
    let n = infos.len();
    let mut i: usize = 0;
    while i < n
        invariant
            i <= n,
            n == infos@.len(),
            first_named(models(infos@), 0, name@) == first_named(models(infos@), i as int, name@),
        decreases n - i,
    {
        assert(models(infos@)[i as int] == infos@[i as int]@);
        if str_eq(infos[i].name, name) {
            return Some(i);
        }
        i = i + 1;
    }
    None
}

/// The names to offer on a link that carries an asset of the kind
/// `asset_type`, where `typed` has been typed and the link has the attributes
/// `attr_names` already. An attribute that has to have a value is offered as
/// a template.
pub fn complete_link_attr_name(typed: &str, attr_names: &[String], asset_type: AssetType) -> (r:
    Vec<NameItem>)
    ensures
        name_models(r@) == offered(
            asset_attrs(asset_type),
            asset_attrs(asset_type).len() as int,
            typed@,
            texts(attr_names@),
            true,
        ),
{
    let infos = asset_type.to_info();
    offer_names(infos.as_slice(), typed, attr_names, true)
}

/// The values to offer for the attribute `attr_name` of a link that carries
/// an asset of the kind `asset_type`.
pub fn complete_link_attr_value(attr_name: &str, asset_type: AssetType) -> (r: Vec<&'static str>)
    ensures
        value_texts(r@) == fixed_values(
            asset_attrs(asset_type),
            asset_attrs(asset_type).len() as int,
            attr_name@,
        ),
{
    let infos = asset_type.to_info();
    offer_values(infos.as_slice(), attr_name)
}

/// The names to offer on a script, where `typed` has been typed and the
/// script has the attributes `attr_names` already.
pub fn complete_script_attr_name(typed: &str, attr_names: &[String]) -> (r: Vec<NameItem>)
    ensures
        name_models(r@) == offered(
            script_attrs(),
            script_attrs().len() as int,
            typed@,
            texts(attr_names@),
            false,
        ),
{
    let infos = script_info();
    offer_names(infos.as_slice(), typed, attr_names, false)
}

/// The values that the first attribute of a script named `attr_name` takes,
/// where it takes a fixed set.
pub open spec fn script_values(attr_name: Seq<char>) -> Option<Seq<Seq<char>>> {
    match first_named(script_attrs(), 0, attr_name) {
        Some(i) => if script_attrs()[i].req is Values {
            Some(script_attrs()[i].values)
        } else {
            None
        },
        None => None,
    }
}

/// The values to offer for the attribute `attr_name` of a script, if it is an
/// attribute of scripts that takes a fixed set of values.
pub fn complete_script_attr_value(attr_name: &str) -> (r: Option<Vec<&'static str>>)
    ensures
        match r {
            Some(values) => script_values(attr_name@) == Some(value_texts(values@)),
            None => script_values(attr_name@) is None,
        },
{
    let mut infos = script_info();
    let i = match find_named(infos.as_slice(), attr_name) {
        Some(i) => i,
        None => {
            return None;
        },
    };
    assert(models(infos@)[i as int] == infos@[i as int]@);
    let info = infos.swap_remove(i);
    match info.req {
        ValueRequirment::Values(_) => Some(info.values),
        _ => None,
    }
}

/// What is offered at a place.
#[derive(Debug)]
pub enum Completion {
    /// The attribute that marks an element for the bundler.
    DataTrunk,
    /// The kinds of asset, as values of `rel`.
    RelValues,
    /// Names of attributes.
    Names(Vec<NameItem>),
    /// Values of an attribute.
    Values(Vec<&'static str>),
}

/// What is offered at a place, as the contracts see it.
pub enum CompletionModel {
    DataTrunk,
    RelValues,
    Names(Seq<NameModel>),
    Values(Seq<Seq<char>>),
}

impl View for Completion {
    type V = CompletionModel;

    open spec fn view(&self) -> CompletionModel {
        match self {
            Completion::DataTrunk => CompletionModel::DataTrunk,
            Completion::RelValues => CompletionModel::RelValues,
            Completion::Names(items) => CompletionModel::Names(name_models(items@)),
            Completion::Values(values) => CompletionModel::Values(value_texts(values@)),
        }
    }
}

/// What is offered, if anything is.
pub open spec fn offer_model(c: Option<Completion>) -> Option<CompletionModel> {
    match c {
        Some(c) => Some(c@),
        None => None,
    }
}

/// The kind of the node `i` steps up the chain, if the chain is that long.
pub open spec fn kind_at(chain: Seq<NodeInfo>, i: int) -> Option<Seq<char>> {
    if 0 <= i < chain.len() {
        Some(chain[i].kind@)
    } else {
        None
    }
}

/// The names of the attributes among the first `n` of the nodes `children`:
/// of each attribute whose name can be read, the name.
pub open spec fn present_names(children: Seq<NodeInfo>, n: int) -> Seq<Seq<char>>
    decreases n,
{
    if n <= 0 {
        Seq::empty()
    } else {
        let before = present_names(children, n - 1);
        let ch = children[n - 1];
        if ch.kind@ == "attribute"@ && attr_name_of(ch) is Some {
            before.push(attr_name_of(ch).unwrap())
        } else {
            before
        }
    }
}

/// The names of the attributes that the tag `tag` has.
pub open spec fn names_on(tag: NodeInfo) -> Seq<Seq<char>> {
    present_names(tag.named_children@, tag.named_children@.len() as int)
}

/// The node that names the attribute `attr`: its first named child, which has
/// to be an attribute name.
pub open spec fn name_node_of(attr: NodeInfo) -> Option<NodeInfo> {
    if attr.named_children@.len() >= 1 && attr.named_children@[0].kind@ == "attribute_name"@ {
        Some(attr.named_children@[0])
    } else {
        None
    }
}

/// The element is not marked yet and the node is an attribute name whose text
/// starts with `data-`.
pub open spec fn types_data_trunk(state: TrunkAttrState, node: NodeInfo) -> bool {
    &&& !state.data_trunk
    &&& node.kind@ == "attribute_name"@
    &&& node.text is Some
    &&& "data-".spec_bytes().is_prefix_of(encode_utf8(node.text.unwrap()@))
}

/// What is offered on a link.
///
/// `chain` holds the node under the cursor, then its parent, and so on
/// upwards. Where the mark of the bundler is being typed, the mark is offered.
/// Else the attribute that the node belongs to decides: where it is `rel` and
/// no kind of asset is set, the kinds are offered; where a kind is set and the
/// node is one at which names are completed, the names of that kind are,
/// for what the attribute's name node reads; where it is one at which values
/// are completed, the values of the attribute are.
pub open spec fn link_offer(state: TrunkAttrState, chain: Seq<NodeInfo>) -> Option<CompletionModel> {
    if chain.len() == 0 {
        None
    } else if types_data_trunk(state, chain[0]) {
        Some(CompletionModel::DataTrunk)
    } else {
        match attr_above(chain[0].kind@, kind_at(chain, 1), kind_at(chain, 2)) {
            None => None,
            Some(level) => match name_node_of(chain[level as int]) {
                None => None,
                Some(name_node) => if state.rel is None && text_of(name_node) == Some("rel"@) {
                    Some(CompletionModel::RelValues)
                } else {
                    match (state.rel, text_of(name_node)) {
                        (Some(asset), Some(name)) => if attr_name_kind(chain[0].kind@) {
                            if level + 1 < chain.len() {
                                Some(
                                    CompletionModel::Names(
                                        offered(
                                            asset_attrs(asset),
                                            asset_attrs(asset).len() as int,
                                            name,
                                            names_on(chain[level + 1]),
                                            true,
                                        ),
                                    ),
                                )
                            } else {
                                None
                            }
                        } else if attr_value_kind(chain[0].kind@) {
                            Some(
                                CompletionModel::Values(
                                    fixed_values(
                                        asset_attrs(asset),
                                        asset_attrs(asset).len() as int,
                                        name,
                                    ),
                                ),
                            )
                        } else {
                            None
                        },
                        (Some(asset), None) => None,
                        (None, _) => None,
                    }
                },
            },
        }
    }
}

/// What is offered on a script.
///
/// Where the mark of the bundler is being typed, the mark is offered. Else,
/// where the node under the cursor belongs to an attribute: at a node at which
/// names are completed, the names of the attributes of scripts are offered
/// for what the node itself reads; at one at which values are completed, the
/// values of the attribute that the first child of the attribute names are.
pub open spec fn script_offer(state: TrunkAttrState, chain: Seq<NodeInfo>) -> Option<
    CompletionModel,
> {
    if chain.len() == 0 {
        None
    } else if types_data_trunk(state, chain[0]) {
        Some(CompletionModel::DataTrunk)
    } else {
        match attr_above(chain[0].kind@, kind_at(chain, 1), kind_at(chain, 2)) {
            None => None,
            Some(level) => if attr_name_kind(chain[0].kind@) {
                if level + 1 < chain.len() && chain[0].text is Some {
                    Some(
                        CompletionModel::Names(
                            offered(
                                script_attrs(),
                                script_attrs().len() as int,
                                chain[0].text.unwrap()@,
                                names_on(chain[level + 1]),
                                false,
                            ),
                        ),
                    )
                } else {
                    None
                }
            } else if attr_value_kind(chain[0].kind@) {
                let attr = chain[level as int];
                if attr.named_children@.len() >= 1 && attr.named_children@[0].text is Some {
                    match script_values(attr.named_children@[0].text.unwrap()@) {
                        Some(values) => Some(CompletionModel::Values(values)),
                        None => None,
                    }
                } else {
                    None
                }
            } else {
                None
            },
        }
    }
}

/// The kind of the node `i` steps up the chain, if the chain is that long.
fn kind_in(chain: &[NodeInfo], i: usize) -> (r: Option<&str>)
    ensures
        text_in(r) == kind_at(chain@, i as int),
{
    if i < chain.len() {
        Some(chain[i].kind.as_str())
    } else {
        None
    }
}

/// The names of the attributes that the tag `tag` has.
pub fn attr_names(tag: &NodeInfo) -> (r: Vec<String>)
    ensures
        texts(r@) == names_on(*tag),
{
    let mut out: Vec<String> = Vec::new();
    let n = tag.named_children.len();
    let mut i: usize = 0;
    assert(texts(out@) =~= Seq::empty());
    while i < n
        invariant
            i <= n,
            n == tag.named_children@.len(),
            texts(out@) == present_names(tag.named_children@, i as int),
        decreases n - i,
    {
        let ch = &tag.named_children[i];
        let ghost before = texts(out@);
        if str_eq(ch.kind.as_str(), "attribute") && ch.named_children.len() >= 1 && str_eq(
            ch.named_children[0].kind.as_str(),
            "attribute_name",
        ) {
            match &ch.named_children[0].text {
                Some(name) => {
                    out.push(name.clone());
                    assert(texts(out@) =~= before.push(name@));
                },
                None => {},
            }
        }
        i = i + 1;
    }
    out
}

/// The text of `n`, if it has one.
fn text_at(n: &NodeInfo) -> (r: Option<&str>)
    ensures
        text_in(r) == text_of(*n),
{
    match &n.text {
        Some(t) => Some(t.as_str()),
        None => None,
    }
}

impl TrunkAttrState {
    /// What is offered at the node that `chain` starts with, on the element
    /// of this state. `chain` holds the node under the cursor, then its
    /// parent, and so on upwards.
    pub fn to_completion(&self, chain: &[NodeInfo]) -> (r: Option<Completion>)
        ensures
            offer_model(r) == (match self.tag_name {
                TagName::Link => link_offer(*self, chain@),
                TagName::Script => script_offer(*self, chain@),
                TagName::Unknown => None,
            }),
    {
        match self.tag_name {
            TagName::Link => self.link_to_completion(chain),
            TagName::Script => self.script_to_completion(chain),
            TagName::Unknown => None,
        }
    }

    /// What is offered on a script at the node that `chain` starts with.
    pub fn script_to_completion(&self, chain: &[NodeInfo]) -> (r: Option<Completion>)
        ensures
            offer_model(r) == script_offer(*self, chain@),
    {
        if chain.len() == 0 {
            return None;
        }
        let under_cursor = &chain[0];
        let kind = under_cursor.kind.as_str();
        if self.is_data_trunk_attr(kind, text_at(under_cursor)) {
            return Some(Completion::DataTrunk);
        }
        let level = match find_attr(kind, kind_in(chain, 1), kind_in(chain, 2)) {
            Some(level) => level,
            None => {
                return None;
            },
        };
        if is_attr_name_completion(kind) {
            if level + 1 >= chain.len() {
                return None;
            }
            let present = attr_names(&chain[level + 1]);
            let typed = match text_at(under_cursor) {
                Some(t) => t,
                None => {
                    return None;
                },
            };
            return Some(Completion::Names(complete_script_attr_name(typed, present.as_slice())));
        }
        if is_attr_value_completion(kind) {
            let attr = &chain[level];
            if attr.named_children.len() < 1 {
                return None;
            }
            let name = match text_at(&attr.named_children[0]) {
                Some(t) => t,
                None => {
                    return None;
                },
            };
            return match complete_script_attr_value(name) {
                Some(values) => Some(Completion::Values(values)),
                None => None,
            };
        }
        None
    }

    /// What is offered on a link at the node that `chain` starts with.
    pub fn link_to_completion(&self, chain: &[NodeInfo]) -> (r: Option<Completion>)
        ensures
            offer_model(r) == link_offer(*self, chain@),
    {
        if chain.len() == 0 {
            return None;
        }
        let under_cursor = &chain[0];
        let kind = under_cursor.kind.as_str();
        if self.is_data_trunk_attr(kind, text_at(under_cursor)) {
            return Some(Completion::DataTrunk);
        }
        let level = match find_attr(kind, kind_in(chain, 1), kind_in(chain, 2)) {
            Some(level) => level,
            None => {
                return None;
            },
        };
        let attr = &chain[level];
        if attr.named_children.len() < 1 || !str_eq(
            attr.named_children[0].kind.as_str(),
            "attribute_name",
        ) {
            return None;
        }
        let name_node = &attr.named_children[0];
        if self.is_rel_val(text_at(name_node)) {
            return Some(Completion::RelValues);
        }
        let asset_type = match self.rel {
            Some(asset) => asset,
            None => {
                return None;
            },
        };
        if is_attr_name_completion(kind) {
            if level + 1 >= chain.len() {
                return None;
            }
            let present = attr_names(&chain[level + 1]);
            let typed = match text_at(name_node) {
                Some(t) => t,
                None => {
                    return None;
                },
            };
            return Some(
                Completion::Names(complete_link_attr_name(typed, present.as_slice(), asset_type)),
            );
        }
        if is_attr_value_completion(kind) {
            let name = match text_at(name_node) {
                Some(t) => t,
                None => {
                    return None;
                },
            };
            return Some(Completion::Values(complete_link_attr_value(name, asset_type)));
        }
        None
    }
}

/// Whether nothing is offered at a node whatever its element is.
///
/// `kind` is the kind of the node under the cursor, `first_byte` the byte
/// that the node starts with, `prev_byte` the byte before the cursor, and
/// `at_end` says whether the cursor stands at the end of the node. Nothing is
/// offered in a tag that does not start with a blank, nor behind the closing
/// quote of a quoted value.
pub fn offers_nothing(kind: &str, first_byte: u8, prev_byte: u8, at_end: bool) -> (r: bool)
    ensures
        r == ((first_byte != 0x20 && (kind@ == "self_closing_tag"@ || kind@ == "start_tag"@)) || ((
        prev_byte == 0x27 || prev_byte == 0x22) && kind@ == "quoted_attribute_value"@ && at_end)),
{
    if first_byte != 0x20 && (str_eq(kind, "self_closing_tag") || str_eq(kind, "start_tag")) {
        return true;
    }
    (prev_byte == 0x27 || prev_byte == 0x22) && str_eq(kind, "quoted_attribute_value") && at_end
}

/// The kinds of asset as they are offered for `rel`, in the order in which
/// they are offered.
pub fn rel_values() -> (r: Vec<AssetType>)
    ensures
        r@ == seq![
            AssetType::Rust,
            AssetType::Sass,
            AssetType::Scss,
            AssetType::Css,
            AssetType::Tailwind,
            AssetType::Icon,
            AssetType::Inline,
            AssetType::CopyFile,
            AssetType::CopyDir,
        ],
{
    let mut r: Vec<AssetType> = Vec::new();
    r.push(AssetType::Rust);
    r.push(AssetType::Sass);
    r.push(AssetType::Scss);
    r.push(AssetType::Css);
    r.push(AssetType::Tailwind);
    r.push(AssetType::Icon);
    r.push(AssetType::Inline);
    r.push(AssetType::CopyFile);
    r.push(AssetType::CopyDir);
    assert(r@ =~= seq![
        AssetType::Rust,
        AssetType::Sass,
        AssetType::Scss,
        AssetType::Css,
        AssetType::Tailwind,
        AssetType::Icon,
        AssetType::Inline,
        AssetType::CopyFile,
        AssetType::CopyDir,
    ]);
    r
}

} // verus!
