//! The attributes that each kind of asset takes, and what they ask of their
//! values.

use vstd::prelude::*;
use crate::attr_state::AssetType;

verus! {

/// What an attribute asks of its value.
#[derive(Clone, Copy, Debug, PartialEq, Eq, Structural)]
pub enum ValueRequirment {
    /// Any value is taken; the flag says whether there has to be one.
    Requires(bool),
    /// The attribute stands alone or with any value.
    Allows,
    /// One of a fixed set of values is taken; the flag says whether there has
    /// to be one.
    Values(bool),
}

impl ValueRequirment {
    /// Whether the attribute cannot stand without a value.
    pub fn must_have_value(&self) -> (r: bool)
        ensures
            r == (*self == ValueRequirment::Requires(true) || *self == ValueRequirment::Values(
                true,
            )),
    {
        match self {
            ValueRequirment::Requires(true) => true,
            ValueRequirment::Values(true) => true,
            _ => false,
        }
    }
}

/// One attribute of an asset: its name, what it asks of its value, and the
/// values it takes where those are a fixed set.
#[derive(Debug)]
pub struct AttrInfo {
    pub name: &'static str,
    pub req: ValueRequirment,
    pub values: Vec<&'static str>,
}

/// An attribute of an asset as the contracts see it.
pub struct AttrModel {
    pub name: Seq<char>,
    pub req: ValueRequirment,
    pub values: Seq<Seq<char>>,
}

impl View for AttrInfo {
    type V = AttrModel;

    open spec fn view(&self) -> AttrModel {
        AttrModel {
            name: self.name@,
            req: self.req,
            values: self.values@.map_values(|v: &'static str| v@),
        }
    }
}

/// The attributes in `infos` as the contracts see them.
pub open spec fn models(infos: Seq<AttrInfo>) -> Seq<AttrModel> {
    infos.map_values(|i: AttrInfo| i@)
}

/// An attribute that takes any value.
pub open spec fn plain(name: Seq<char>, req: ValueRequirment) -> AttrModel {
    AttrModel { name, req, values: Seq::empty() }
}

/// The attribute that names the file of an asset.
pub open spec fn href() -> AttrModel {
    plain("href"@, ValueRequirment::Requires(true))
}

/// The attribute that names the hash to check an asset by.
pub open spec fn data_integrity() -> AttrModel {
    AttrModel {
        name: "data-integrity"@,
        req: ValueRequirment::Values(true),
        values: seq!["none"@, "sha256"@, "sha384"@, "sha512"@],
    }
}

/// The attribute that names where in the output an asset goes.
pub open spec fn data_target_path() -> AttrModel {
    plain("data-target-path"@, ValueRequirment::Requires(true))
}

/// The attribute that keeps an asset from being minified.
pub open spec fn data_no_minify() -> AttrModel {
    plain("data-no-minify"@, ValueRequirment::Requires(false))
}

/// The attribute that has an asset put into the page itself.
pub open spec fn data_inline() -> AttrModel {
    plain("data-inline"@, ValueRequirment::Allows)
}

/// The attributes of a Rust asset.
pub open spec fn rust_attrs() -> Seq<AttrModel> {
    seq![
        href(),
        plain("data-target-name"@, ValueRequirment::Requires(true)),
        plain("data-bin"@, ValueRequirment::Requires(true)),
        AttrModel {
            name: "data-type"@,
            req: ValueRequirment::Values(true),
            values: seq!["main"@, "worker"@],
        },
        plain("data-cargo-features"@, ValueRequirment::Requires(true)),
        plain("data-cargo-no-default-features"@, ValueRequirment::Allows),
        plain("data-cargo-all-features"@, ValueRequirment::Allows),
        plain("data-wasm-opt"@, ValueRequirment::Allows),
        plain("data-wasm-opt-params"@, ValueRequirment::Allows),
        plain("data-keep-debug"@, ValueRequirment::Allows),
        plain("data-no-demangle"@, ValueRequirment::Allows),
        plain("data-reference-types"@, ValueRequirment::Allows),
        plain("data-weak-refs"@, ValueRequirment::Allows),
        plain("data-typescript"@, ValueRequirment::Allows),
        plain("data-bindgen-target"@, ValueRequirment::Requires(true)),
        plain("data-loader-shim"@, ValueRequirment::Requires(false)),
        plain("data-cross-origin"@, ValueRequirment::Requires(true)),
    ]
}

/// The attributes that an asset of the kind `asset` takes, those it has to
/// have first.
pub open spec fn asset_attrs(asset: AssetType) -> Seq<AttrModel> {
    match asset {
        AssetType::Rust => rust_attrs(),
        AssetType::Css => seq![href(), data_no_minify(), data_target_path(), data_integrity()],
        AssetType::Icon => seq![href(), data_no_minify(), data_target_path(), data_integrity()],
        AssetType::Tailwind => seq![
            href(),
            data_inline(),
            data_no_minify(),
            data_target_path(),
            data_integrity(),
        ],
        AssetType::Sass => seq![href(), data_inline(), data_target_path(), data_integrity()],
        AssetType::Scss => seq![href(), data_inline(), data_target_path(), data_integrity()],
        AssetType::Inline => seq![
            href(),
            AttrModel {
                name: "type"@,
                req: ValueRequirment::Values(true),
                values: seq!["html"@, "svg"@, "js"@, "mjs"@, "module"@, "css"@],
            },
        ],
        AssetType::CopyFile => seq![href(), data_target_path()],
        AssetType::CopyDir => seq![href(), data_target_path()],
    }
}

/// The attributes that a script takes.
pub open spec fn script_attrs() -> Seq<AttrModel> {
    seq![
        plain("src"@, ValueRequirment::Requires(true)),
        data_no_minify(),
        data_target_path(),
    ]
}

/// An attribute that takes any value.
fn attr(name: &'static str, req: ValueRequirment) -> (r: AttrInfo)
    ensures
        r@ == plain(name@, req),
{
    let r = AttrInfo { name, req, values: Vec::new() };
    assert(r@.values =~= Seq::empty());
    r
}

fn href_attr() -> (r: AttrInfo)
    ensures
        r@ == href(),
{
    attr("href", ValueRequirment::Requires(true))
}

fn data_integrity_attr() -> (r: AttrInfo)
    ensures
        r@ == data_integrity(),
{
    let mut values: Vec<&'static str> = Vec::new();
    values.push("none");
    values.push("sha256");
    values.push("sha384");
    values.push("sha512");
    let r = AttrInfo { name: "data-integrity", req: ValueRequirment::Values(true), values };
    assert(r@.values =~= data_integrity().values);
    r
}

fn data_target_path_attr() -> (r: AttrInfo)
    ensures
        r@ == data_target_path(),
{
    attr("data-target-path", ValueRequirment::Requires(true))
}

fn data_no_minify_attr() -> (r: AttrInfo)
    ensures
        r@ == data_no_minify(),
{
    attr("data-no-minify", ValueRequirment::Requires(false))
}

fn data_inline_attr() -> (r: AttrInfo)
    ensures
        r@ == data_inline(),
{
    attr("data-inline", ValueRequirment::Allows)
}

fn rust_info() -> (r: Vec<AttrInfo>)
    ensures
        models(r@) == rust_attrs(),
{
    let mut r: Vec<AttrInfo> = Vec::new();
    r.push(href_attr());
    r.push(attr("data-target-name", ValueRequirment::Requires(true)));
    r.push(attr("data-bin", ValueRequirment::Requires(true)));
    let mut kinds: Vec<&'static str> = Vec::new();
    kinds.push("main");
    kinds.push("worker");
    let data_type = AttrInfo { name: "data-type", req: ValueRequirment::Values(true), values: kinds };
    assert(data_type@.values =~= seq!["main"@, "worker"@]);
    r.push(data_type);
    r.push(attr("data-cargo-features", ValueRequirment::Requires(true)));
    r.push(attr("data-cargo-no-default-features", ValueRequirment::Allows));
    r.push(attr("data-cargo-all-features", ValueRequirment::Allows));
    r.push(attr("data-wasm-opt", ValueRequirment::Allows));
    r.push(attr("data-wasm-opt-params", ValueRequirment::Allows));
    r.push(attr("data-keep-debug", ValueRequirment::Allows));
    r.push(attr("data-no-demangle", ValueRequirment::Allows));
    r.push(attr("data-reference-types", ValueRequirment::Allows));
    r.push(attr("data-weak-refs", ValueRequirment::Allows));
    r.push(attr("data-typescript", ValueRequirment::Allows));
    r.push(attr("data-bindgen-target", ValueRequirment::Requires(true)));
    r.push(attr("data-loader-shim", ValueRequirment::Requires(false)));
    r.push(attr("data-cross-origin", ValueRequirment::Requires(true)));
    assert(models(r@) =~= rust_attrs());
    r
}

impl AssetType {
    /// The attributes that an asset of this kind takes.
    pub fn to_info(self) -> (r: Vec<AttrInfo>)
        ensures
            models(r@) == asset_attrs(self),
    {
        let mut r: Vec<AttrInfo> = Vec::new();
        match self {
            AssetType::Rust => {
                return rust_info();
            },
            AssetType::Css | AssetType::Icon => {
                r.push(href_attr());
                r.push(data_no_minify_attr());
                r.push(data_target_path_attr());
                r.push(data_integrity_attr());
            },
            AssetType::Tailwind => {
                r.push(href_attr());
                r.push(data_inline_attr());
                r.push(data_no_minify_attr());
                r.push(data_target_path_attr());
                r.push(data_integrity_attr());
            },
            AssetType::Sass | AssetType::Scss => {
                r.push(href_attr());
                r.push(data_inline_attr());
                r.push(data_target_path_attr());
                r.push(data_integrity_attr());
            },
            AssetType::Inline => {
                let mut types: Vec<&'static str> = Vec::new();
                types.push("html");
                types.push("svg");
                types.push("js");
                types.push("mjs");
                types.push("module");
                types.push("css");
                let kind = AttrInfo {
                    name: "type",
                    req: ValueRequirment::Values(true),
                    values: types,
                };
                assert(kind@.values =~= seq!["html"@, "svg"@, "js"@, "mjs"@, "module"@, "css"@]);
                r.push(href_attr());
                r.push(kind);
            },
            AssetType::CopyFile | AssetType::CopyDir => {
                r.push(href_attr());
                r.push(data_target_path_attr());
            },
        }
        assert(models(r@) =~= asset_attrs(self));
        r
    }
}

/// The attributes that a script takes.
pub fn script_info() -> (r: Vec<AttrInfo>)
    ensures
        models(r@) == script_attrs(),
{
    let mut r: Vec<AttrInfo> = Vec::new();
    r.push(attr("src", ValueRequirment::Requires(true)));
    r.push(data_no_minify_attr());
    r.push(data_target_path_attr());
    assert(models(r@) =~= script_attrs());
    r
}

} // verus!
