//! What is read off an element.

use trunkls::attr_state::{AssetType, NodeInfo, TagName, TrunkAttrState};
use trunkls::lsp::docs::ValueRequirment;
use trunkls::utils::{find_attr, find_elem, is_attr_name_completion, is_attr_value_completion};

#[test]
fn asset_type_from_str() {
    assert_eq!(AssetType::from_str("rust"), Ok(AssetType::Rust));
    assert_eq!(AssetType::from_str("css"), Ok(AssetType::Css));
    assert_eq!(AssetType::from_str("tailwind-css"), Ok(AssetType::Tailwind));
    assert_eq!(AssetType::from_str("sass"), Ok(AssetType::Sass));
    assert_eq!(AssetType::from_str("scss"), Ok(AssetType::Scss));
    assert_eq!(AssetType::from_str("icon"), Ok(AssetType::Icon));
    assert_eq!(AssetType::from_str("inline"), Ok(AssetType::Inline));
    assert_eq!(AssetType::from_str("copy-file"), Ok(AssetType::CopyFile));
    assert_eq!(AssetType::from_str("copy-dir"), Ok(AssetType::CopyDir));
    assert_eq!(AssetType::from_str("lol"), Err(()));
}

#[test]
fn asset_type_parses_through_the_trait_too() {
    assert_eq!("sass".parse::<AssetType>(), Ok(AssetType::Sass));
    assert_eq!("Sass".parse::<AssetType>(), Err(()));
    assert_eq!("".parse::<AssetType>(), Err(()));
}

#[test]
fn tag_names() {
    assert_eq!(TagName::from("link"), TagName::Link);
    assert_eq!(TagName::from("script"), TagName::Script);
    assert_eq!(TagName::from("a"), TagName::Unknown);
    assert_eq!(TagName::from("links"), TagName::Unknown);
    assert_eq!(TagName::default(), TagName::Unknown);
}

fn leaf(kind: &str, text: &str) -> NodeInfo {
    NodeInfo { kind: kind.to_string(), text: Some(text.to_string()), named_children: vec![] }
}

fn attribute(name: &str, value: Option<&str>, quoted: bool) -> NodeInfo {
    let mut named_children = vec![leaf("attribute_name", name)];
    if let Some(value) = value {
        let inner = leaf("attribute_value", value);
        named_children.push(if quoted {
            NodeInfo {
                kind: "quoted_attribute_value".to_string(),
                text: Some(format!("\"{value}\"")),
                named_children: vec![inner],
            }
        } else {
            inner
        });
    }
    NodeInfo { kind: "attribute".to_string(), text: None, named_children }
}

fn state(items: &[NodeInfo]) -> Option<(bool, Option<AssetType>, TagName)> {
    TrunkAttrState::from_elem_items(items).map(|s| (s.data_trunk, s.rel, s.tag_name))
}

#[test]
fn an_element_is_read_from_its_children() {
    let items = [
        leaf("tag_name", "link"),
        attribute("data-trunk", None, false),
        attribute("rel", Some("sass"), true),
        attribute("href", Some("a.sass"), false),
    ];
    assert_eq!(state(&items), Some((true, Some(AssetType::Sass), TagName::Link)));
}

#[test]
fn an_element_without_a_tag_name_is_not_read() {
    assert_eq!(state(&[]), None);
    assert_eq!(state(&[attribute("rel", Some("css"), true)]), None);
    let unreadable =
        NodeInfo { kind: "tag_name".to_string(), text: None, named_children: vec![] };
    assert_eq!(state(&[unreadable]), None);
}

#[test]
fn the_last_rel_with_a_value_decides() {
    let items = [
        leaf("tag_name", "script"),
        attribute("rel", Some("css"), false),
        attribute("rel", None, false),
        leaf("text", "rel"),
    ];
    assert_eq!(state(&items), Some((false, Some(AssetType::Css), TagName::Script)));

    let items = [
        leaf("tag_name", "div"),
        attribute("rel", Some("css"), false),
        attribute("rel", Some("nonsense"), true),
    ];
    assert_eq!(state(&items), Some((false, None, TagName::Unknown)));
}

#[test]
fn a_value_of_another_kind_does_not_count() {
    let odd = NodeInfo {
        kind: "attribute".to_string(),
        text: None,
        named_children: vec![leaf("attribute_name", "rel"), leaf("text", "css")],
    };
    let empty_quotes = NodeInfo {
        kind: "attribute".to_string(),
        text: None,
        named_children: vec![
            leaf("attribute_name", "rel"),
            NodeInfo {
                kind: "quoted_attribute_value".to_string(),
                text: Some("\"\"".to_string()),
                named_children: vec![],
            },
        ],
    };
    let items = [leaf("tag_name", "link"), odd, empty_quotes, attribute("data-trunk", None, true)];
    assert_eq!(state(&items), Some((true, None, TagName::Link)));
}

#[test]
fn a_fresh_state_knows_its_tag_only() {
    let s = TrunkAttrState::with_tag_name(TagName::Script);
    assert_eq!((s.data_trunk, s.rel, s.tag_name), (false, None, TagName::Script));
    let s = TrunkAttrState::default();
    assert_eq!((s.data_trunk, s.rel, s.tag_name), (false, None, TagName::Unknown));
}

#[test]
fn the_value_of_rel_is_asked_for_once() {
    let mut s = TrunkAttrState::with_tag_name(TagName::Link);
    assert!(s.is_rel_val(Some("rel")));
    assert!(!s.is_rel_val(Some("href")));
    assert!(!s.is_rel_val(None));
    s.rel = Some(AssetType::Css);
    assert!(!s.is_rel_val(Some("rel")));
}

#[test]
fn data_trunk_is_typed_while_it_is_missing() {
    let mut s = TrunkAttrState::with_tag_name(TagName::Link);
    assert!(s.is_data_trunk_attr("attribute_name", Some("data-")));
    assert!(s.is_data_trunk_attr("attribute_name", Some("data-tr")));
    assert!(!s.is_data_trunk_attr("attribute_name", Some("data")));
    assert!(!s.is_data_trunk_attr("attribute_name", Some("xdata-")));
    assert!(!s.is_data_trunk_attr("attribute_name", None));
    assert!(!s.is_data_trunk_attr("attribute_value", Some("data-")));
    s.data_trunk = true;
    assert!(!s.is_data_trunk_attr("attribute_name", Some("data-")));
}

#[test]
fn what_has_to_have_a_value() {
    assert!(ValueRequirment::Requires(true).must_have_value());
    assert!(ValueRequirment::Values(true).must_have_value());
    assert!(!ValueRequirment::Requires(false).must_have_value());
    assert!(!ValueRequirment::Values(false).must_have_value());
    assert!(!ValueRequirment::Allows.must_have_value());
}

#[test]
fn kinds_at_which_to_complete() {
    for kind in ["self_closing_tag", "start_tag", "attribute_name", "attribute"] {
        assert!(is_attr_name_completion(kind));
        assert!(!is_attr_value_completion(kind));
    }
    for kind in ["quoted_attribute_value", "attribute_value"] {
        assert!(is_attr_value_completion(kind));
        assert!(!is_attr_name_completion(kind));
    }
    assert!(!is_attr_name_completion("element"));
    assert!(!is_attr_value_completion("text"));
}

#[test]
fn the_attribute_above_a_node() {
    assert_eq!(find_attr("attribute", None, None), Some(0));
    assert_eq!(find_attr("attribute_name", Some("attribute"), None), Some(1));
    assert_eq!(find_attr("attribute_name", Some("element"), None), None);
    assert_eq!(find_attr("attribute_name", None, None), None);
    assert_eq!(find_attr("quoted_attribute_value", Some("attribute"), Some("start_tag")), Some(1));
    assert_eq!(find_attr("attribute_value", Some("attribute"), None), Some(1));
    assert_eq!(
        find_attr("attribute_value", Some("quoted_attribute_value"), Some("attribute")),
        Some(2)
    );
    assert_eq!(
        find_attr("attribute_value", Some("quoted_attribute_value"), Some("element")),
        None
    );
    assert_eq!(find_attr("attribute_value", Some("quoted_attribute_value"), None), None);
    assert_eq!(find_attr("attribute_value", Some("text"), Some("attribute")), None);
    assert_eq!(find_attr("attribute_value", None, None), None);
    assert_eq!(find_attr("start_tag", Some("element"), None), None);
}

#[test]
fn the_tag_above_a_node() {
    let kinds = |names: &[&str]| names.iter().map(|k| k.to_string()).collect::<Vec<_>>();
    assert_eq!(find_elem(&kinds(&["attribute_name", "attribute", "start_tag", "element"])), Some(2));
    assert_eq!(find_elem(&kinds(&["self_closing_tag", "element", "start_tag"])), Some(0));
    assert_eq!(find_elem(&kinds(&["text", "element", "document"])), None);
    assert_eq!(find_elem(&kinds(&[])), None);
}
