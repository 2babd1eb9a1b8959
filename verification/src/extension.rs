//! What the package registers: one directive, and the one module that its output calls into.
use crate::expansion::TierSite;
use vstd::prelude::*;
use vstd::string::*;

verus! {

/// A type in a native function's signature.
#[derive(Debug, Clone, Copy, PartialEq, Eq, Structural)]
pub enum SigType {
    Str,
}

/// A native function.
#[derive(Debug)]
pub struct ExtFn {
    pub name: &'static str,
    pub params: Vec<SigType>,
    pub ret: SigType,
}

/// A native module.
#[derive(Debug)]
pub struct ExtModule {
    pub name: &'static str,
    pub functions: Vec<ExtFn>,
}

/// What runs when a directive is expanded.
#[derive(Debug, Clone, Copy, PartialEq, Eq, Structural)]
pub enum Hook {
    /// Generate a client from an OpenAPI document.
    OpenApi,
}

/// A directive.
#[derive(Debug)]
pub struct ExtDirective {
    /// The name that programs write after `@`.
    pub name: &'static str,
    /// The declarations that it may stand on.
    pub sites: Vec<TierSite>,
    /// The most positional arguments that it takes.
    pub max_args: Option<usize>,
    /// The named arguments that it takes.
    pub named_keys: Vec<&'static str>,
    /// The one-line usage.
    pub detail: &'static str,
    /// The prose.
    pub doc: &'static str,
    /// The names of its parameters, in order.
    pub params: Vec<&'static str>,
    /// What it generates, if anything.
    pub expand: Option<Hook>,
}

/// Whether a function has the given name, takes one string and gives one.
pub open spec fn is_string_function(function: ExtFn, name: Seq<char>) -> bool {
    &&& function.name@ == name
    &&& function.params@ == seq![SigType::Str]
    &&& function.ret == SigType::Str
}

/// The function with the given name that takes one string and gives one.
fn string_function(name: &'static str) -> (function: ExtFn)
    ensures
        is_string_function(function, name@),
{
    let mut params: Vec<SigType> = Vec::new();
    params.push(SigType::Str);
    assert(params@ == seq![SigType::Str]);
    ExtFn { name, params, ret: SigType::Str }
}

/// Whether a directive is `@openapi`: it stands on types alone, takes at most one argument and no
/// named ones, and generates a client.
pub open spec fn is_openapi(directive: ExtDirective) -> bool {
    &&& directive.name@ == "openapi"@
    &&& directive.sites@ == seq![TierSite::Type]
    &&& directive.max_args == Some(1usize)
    &&& directive.named_keys@.len() == 0
    &&& directive.detail@ == "@openapi(\"spec.json\") — generate a client from an OpenAPI document"@
    &&& directive.doc@
        == "Generates one method per operation in the named OpenAPI document, plus the `api` field they call through, a `new(api)` constructor, and `base_url()` from the spec's first server. The path is resolved against the file the directive is written in. Only JSON specs are read — convert a YAML spec first. Generated methods answer `Result<Response, HttpError>`; decode with `resp.json::<T>()`. Run `noeta expand` to see what it produced."@
    &&& directive.params@.len() == 1
    &&& directive.params@[0]@ == "spec"@
    &&& directive.expand == Some(Hook::OpenApi)
}

/// `@openapi("spec.json")`: generates a client from an OpenAPI document.
///
/// It belongs on a type alone, since the members that it generates are methods. It takes at most
/// one argument and no named ones: everything else that the generator needs it reads out of the
/// document.
pub fn openapi_directive() -> (directive: ExtDirective)
    ensures
        is_openapi(directive),
{
    let mut sites: Vec<TierSite> = Vec::new();
    sites.push(TierSite::Type);
    assert(sites@ == seq![TierSite::Type]);
    let mut params: Vec<&'static str> = Vec::new();
    params.push("spec");
    ExtDirective {
        name: "openapi",
        sites,
        max_args: Some(1),
        named_keys: Vec::new(),
        detail: "@openapi(\"spec.json\") — generate a client from an OpenAPI document",
        doc: "Generates one method per operation in the named OpenAPI document, plus the `api` field they call through, a `new(api)` constructor, and `base_url()` from the spec's first server. The path is resolved against the file the directive is written in. Only JSON specs are read — convert a YAML spec first. Generated methods answer `Result<Response, HttpError>`; decode with `resp.json::<T>()`. Run `noeta expand` to see what it produced.",
        params,
        expand: Some(Hook::OpenApi),
    }
}

/// The package's extension.
#[derive(Debug, Clone, Copy)]
pub struct ParaApiExtension;

impl ParaApiExtension {
    pub fn name(&self) -> (name: &'static str)
        ensures
            name@ == "para.api"@,
    {
        "para.api"
    }

    /// The namespace that the modules live under.
    pub fn root(&self) -> (root: &'static str)
        ensures
            root@ == "para"@,
    {
        "para"
    }

    /// The modules: `url`, with `encode` and its inverse `decode`.
    pub fn modules(&self) -> (modules: Vec<ExtModule>)
        ensures
            modules@.len() == 1,
            modules@[0].name@ == "url"@,
            modules@[0].functions@.len() == 2,
            is_string_function(modules@[0].functions@[0], "encode"@),
            is_string_function(modules@[0].functions@[1], "decode"@),
    {
        let mut functions: Vec<ExtFn> = Vec::new();
        functions.push(string_function("encode"));
        functions.push(string_function("decode"));
        let mut modules: Vec<ExtModule> = Vec::new();
        modules.push(ExtModule { name: "url", functions });
        modules
    }

    /// The directives: `@openapi`.
    pub fn directives(&self) -> (directives: Vec<ExtDirective>)
        ensures
            directives@.len() == 1,
            is_openapi(directives@[0]),
    {
        let mut directives: Vec<ExtDirective> = Vec::new();
        directives.push(openapi_directive());
        directives
    }
}

/// The directive stands on types alone, takes at most one argument, positional, and generates a
/// client.
pub proof fn the_directive_declares_only_what_it_honours(directive: ExtDirective)
    requires
        is_openapi(directive),
    ensures
        directive.name@ == "openapi"@,
        forall|site: TierSite| #[trigger]
            directive.sites@.contains(site) <==> site == TierSite::Type,
        directive.max_args == Some(1usize),
        directive.named_keys@.len() == 0,
        directive.params@.len() == 1,
        directive.params@[0]@ == "spec"@,
        directive.expand == Some(Hook::OpenApi),
{
    assert(directive.sites@[0] == TierSite::Type);
}

/// A function of the module takes one text and gives one.
pub proof fn functions_are_from_text_to_text(function: ExtFn, name: Seq<char>)
    requires
        is_string_function(function, name),
    ensures
        function.name@ == name,
        function.params@.len() == 1,
        function.params@[0] == SigType::Str,
        function.ret == SigType::Str,
{
}

} // verus!
