//! What is offered and explained at a place in a page.

use trunkls::attr_state::{AssetType, NodeInfo, TagName, TrunkAttrState};
use trunkls::lsp::completions::{
    attr_names, complete_link_attr_name, complete_link_attr_value, complete_script_attr_name,
    complete_script_attr_value, offers_nothing, rel_values, Completion,
};
use trunkls::lsp::docs::{script_info, ValueRequirment};
use trunkls::lsp::hover::HoverOf;

fn leaf(kind: &str, text: &str) -> NodeInfo {
    NodeInfo { kind: kind.to_string(), text: Some(text.to_string()), named_children: vec![] }
}

fn node(kind: &str, text: &str, named_children: Vec<NodeInfo>) -> NodeInfo {
    NodeInfo { kind: kind.to_string(), text: Some(text.to_string()), named_children }
}

fn attribute(name: &str, value: Option<&str>) -> NodeInfo {
    let mut children = vec![leaf("attribute_name", name)];
    let mut text = name.to_string();
    if let Some(value) = value {
        children.push(node(
            "quoted_attribute_value",
            &format!("\"{value}\""),
            vec![leaf("attribute_value", value)],
        ));
        text = format!("{name}=\"{value}\"");
    }
    node("attribute", &text, children)
}

fn tag(children: Vec<NodeInfo>) -> NodeInfo {
    node("start_tag", "<link ...>", children)
}

fn labels(c: Option<Completion>) -> Vec<(String, bool)> {
    match c {
        Some(Completion::Names(items)) => {
            items.into_iter().map(|i| (i.label, i.snippet)).collect()
        }
        other => panic!("names were expected, not {other:?}"),
    }
}

fn names(present: &[&str]) -> Vec<String> {
    present.iter().map(|n| n.to_string()).collect()
}

#[test]
fn the_attributes_of_each_kind_of_asset() {
    let of = |asset: AssetType| -> Vec<&'static str> {
        asset.to_info().iter().map(|i| i.name).collect()
    };
    assert_eq!(of(AssetType::Css), ["href", "data-no-minify", "data-target-path", "data-integrity"]);
    assert_eq!(of(AssetType::Icon), of(AssetType::Css));
    assert_eq!(
        of(AssetType::Tailwind),
        ["href", "data-inline", "data-no-minify", "data-target-path", "data-integrity"]
    );
    assert_eq!(of(AssetType::Sass), ["href", "data-inline", "data-target-path", "data-integrity"]);
    assert_eq!(of(AssetType::Scss), of(AssetType::Sass));
    assert_eq!(of(AssetType::Inline), ["href", "type"]);
    assert_eq!(of(AssetType::CopyFile), ["href", "data-target-path"]);
    assert_eq!(of(AssetType::CopyDir), of(AssetType::CopyFile));
    let rust = of(AssetType::Rust);
    assert_eq!(rust.len(), 17);
    assert_eq!(rust[0], "href");
    assert_eq!(rust[3], "data-type");
    assert_eq!(rust[16], "data-cross-origin");
    let script: Vec<_> = script_info().iter().map(|i| i.name).collect();
    assert_eq!(script, ["src", "data-no-minify", "data-target-path"]);
}

#[test]
fn what_the_attributes_ask_of_their_values() {
    let css = AssetType::Css.to_info();
    assert_eq!(css[0].req, ValueRequirment::Requires(true));
    assert_eq!(css[1].req, ValueRequirment::Requires(false));
    assert_eq!(css[3].req, ValueRequirment::Values(true));
    assert_eq!(css[3].values, ["none", "sha256", "sha384", "sha512"]);
    assert!(css[0].values.is_empty());
    let rust = AssetType::Rust.to_info();
    assert_eq!(rust[3].values, ["main", "worker"]);
    assert_eq!(rust[5].req, ValueRequirment::Allows);
    let inline = AssetType::Inline.to_info();
    assert_eq!(inline[1].values, ["html", "svg", "js", "mjs", "module", "css"]);
}

#[test]
fn names_are_offered_by_what_was_typed() {
    let items = complete_link_attr_name("data-", &names(&["href", "data-target-path"]), AssetType::Css);
    let got: Vec<_> = items.iter().map(|i| (i.label.as_str(), i.name, i.snippet)).collect();
    assert_eq!(
        got,
        [
            ("data-no-minify", "data-no-minify", false),
            ("data-integrity=\"$0\"", "data-integrity", true),
        ]
    );
    let items = complete_link_attr_name("", &[], AssetType::CopyDir);
    let got: Vec<_> = items.iter().map(|i| i.label.as_str()).collect();
    assert_eq!(got, ["href=\"$0\"", "data-target-path=\"$0\""]);
    assert!(complete_link_attr_name("x", &[], AssetType::Rust).is_empty());

    let items = complete_script_attr_name("", &names(&["data-no-minify"]));
    let got: Vec<_> = items.iter().map(|i| (i.label.as_str(), i.snippet)).collect();
    assert_eq!(got, [("src", false), ("data-target-path", false)]);
}

#[test]
fn values_are_offered_for_attributes_with_a_fixed_set() {
    assert_eq!(
        complete_link_attr_value("data-integrity", AssetType::Sass),
        ["none", "sha256", "sha384", "sha512"]
    );
    assert_eq!(complete_link_attr_value("data-type", AssetType::Rust), ["main", "worker"]);
    assert!(complete_link_attr_value("href", AssetType::Rust).is_empty());
    assert!(complete_link_attr_value("data-type", AssetType::Css).is_empty());
    assert_eq!(complete_script_attr_value("src"), None);
    assert_eq!(complete_script_attr_value("nothing"), None);
}

#[test]
fn the_kinds_of_asset_in_the_order_they_are_offered() {
    assert_eq!(
        rel_values(),
        [
            AssetType::Rust,
            AssetType::Sass,
            AssetType::Scss,
            AssetType::Css,
            AssetType::Tailwind,
            AssetType::Icon,
            AssetType::Inline,
            AssetType::CopyFile,
            AssetType::CopyDir,
        ]
    );
}

#[test]
fn the_names_on_a_tag() {
    let t = tag(vec![
        leaf("tag_name", "link"),
        attribute("data-trunk", None),
        leaf("text", "stray"),
        attribute("rel", Some("css")),
        node("attribute", "?", vec![leaf("text", "odd")]),
    ]);
    assert_eq!(attr_names(&t), ["data-trunk", "rel"]);
}

#[test]
fn a_link_offers_by_the_node_under_the_cursor() {
    let mut state = TrunkAttrState::with_tag_name(TagName::Link);
    let element = tag(vec![
        leaf("tag_name", "link"),
        attribute("data-trunk", None),
        attribute("hr", None),
    ]);

    // The mark itself is being typed.
    let chain = [leaf("attribute_name", "data-tr"), attribute("data-tr", None), tag(vec![])];
    assert!(matches!(state.to_completion(&chain), Some(Completion::DataTrunk)));
    state.data_trunk = true;

    // No kind of asset yet: only `rel` leads anywhere.
    let chain = [leaf("attribute_name", "rel"), attribute("rel", None), tag(vec![])];
    assert!(matches!(state.to_completion(&chain), Some(Completion::RelValues)));
    let chain = [leaf("attribute_name", "hr"), attribute("hr", None), tag(vec![])];
    assert!(state.to_completion(&chain).is_none());

    state.rel = Some(AssetType::CopyFile);
    let chain = [leaf("attribute_name", "hr"), attribute("hr", None), element];
    assert_eq!(labels(state.to_completion(&chain)), [("href=\"$0\"".to_string(), true)]);

    // Without the tag above the attribute nothing is offered.
    let chain = [leaf("attribute_name", "hr"), attribute("hr", None)];
    assert!(state.to_completion(&chain).is_none());

    state.rel = Some(AssetType::Css);
    let chain = [
        leaf("attribute_value", "sha"),
        node("quoted_attribute_value", "\"sha\"", vec![leaf("attribute_value", "sha")]),
        attribute("data-integrity", Some("sha")),
        tag(vec![]),
    ];
    match state.to_completion(&chain) {
        Some(Completion::Values(values)) => {
            assert_eq!(values, ["none", "sha256", "sha384", "sha512"])
        }
        other => panic!("values were expected, not {other:?}"),
    }

    // A node that belongs to no attribute.
    let chain = [leaf("text", "x"), tag(vec![])];
    assert!(state.to_completion(&chain).is_none());
    assert!(state.to_completion(&[]).is_none());
}

#[test]
fn a_script_offers_by_the_node_under_the_cursor() {
    let mut state = TrunkAttrState::with_tag_name(TagName::Script);
    state.data_trunk = true;
    let element = tag(vec![leaf("tag_name", "script"), attribute("src", Some("a.js"))]);
    let chain = [leaf("attribute_name", "data-"), attribute("data-", None), element];
    assert_eq!(
        labels(state.to_completion(&chain)),
        [("data-no-minify".to_string(), false), ("data-target-path".to_string(), false)]
    );
    let chain = [
        leaf("attribute_value", "x"),
        attribute("src", None),
        tag(vec![]),
    ];
    assert!(state.to_completion(&chain).is_none());

    let state = TrunkAttrState::with_tag_name(TagName::Unknown);
    let chain = [leaf("attribute_name", "rel"), attribute("rel", None), tag(vec![])];
    assert!(state.to_completion(&chain).is_none());
}

#[test]
fn where_nothing_is_offered_at_all() {
    assert!(offers_nothing("start_tag", b'<', b'k', false));
    assert!(offers_nothing("self_closing_tag", b'<', b' ', true));
    assert!(!offers_nothing("start_tag", b' ', b' ', false));
    assert!(!offers_nothing("attribute_name", b'h', b'h', false));
    assert!(offers_nothing("quoted_attribute_value", b'"', b'"', true));
    assert!(offers_nothing("quoted_attribute_value", b'\'', b'\'', true));
    assert!(!offers_nothing("quoted_attribute_value", b'"', b'"', false));
    assert!(!offers_nothing("quoted_attribute_value", b'"', b'a', true));
    assert!(!offers_nothing("attribute_value", b'a', b'"', true));
}

#[test]
fn what_is_explained_under_the_cursor() {
    let mut state = TrunkAttrState::with_tag_name(TagName::Link);
    assert_eq!(state.hover_attribute_name("data-trunk"), Some(HoverOf::DataTrunk));
    assert_eq!(state.hover_attribute_name("href"), None);
    state.rel = Some(AssetType::Tailwind);
    assert_eq!(
        state.hover_attribute_name("data-no-minify"),
        Some(HoverOf::Attr { asset: AssetType::Tailwind, attr: 2 })
    );
    assert_eq!(state.hover_attribute_name("data-bin"), None);
    assert_eq!(
        state.hover_attribute_value("data-integrity", "sha384"),
        Some(HoverOf::Value { asset: AssetType::Tailwind, attr: 4, value: 2 })
    );
    assert_eq!(state.hover_attribute_value("data-integrity", "md5"), None);
    assert_eq!(state.hover_attribute_value("href", "none"), None);
    assert_eq!(state.hover_attribute_value("nothing", "none"), None);

    let chain = [leaf("attribute_name", "href"), attribute("href", None)];
    assert_eq!(
        state.hover(&chain),
        Some(HoverOf::Attr { asset: AssetType::Tailwind, attr: 0 })
    );
    let chain = [
        leaf("attribute_value", "none"),
        node("quoted_attribute_value", "\"none\"", vec![leaf("attribute_value", "none")]),
        attribute("data-integrity", Some("none")),
    ];
    assert_eq!(
        state.hover(&chain),
        Some(HoverOf::Value { asset: AssetType::Tailwind, attr: 4, value: 0 })
    );
    let chain = [leaf("attribute_value", "none"), leaf("text", "x")];
    assert_eq!(state.hover(&chain), None);
    let chain = [tag(vec![])];
    assert_eq!(state.hover(&chain), None);
    assert_eq!(state.hover(&[]), None);
}
