//! Turning what was read out of a document into the Noeta source of a client.
//!
//! Required parameters are typed and positional; optional query parameters arrive in a trailing
//! `query: Map<string, string> = {}`, and are listed in the generated comment instead. Every call
//! goes through `self.api.request(...)`, so that the middleware chain applies to it.
use crate::names::{snake, snake_case, unique, unique_name};
use crate::spec::{In, Operation, OperationView, Param, ParamView, Spec, SpecView};
use crate::spec::{operations_view, optional_view, params_view};
use crate::text::{chars_of, join, joined, split, split_at, trim, trimmed, uppercase, views};
use vstd::prelude::*;
use vstd::string::*;

verus! {

/// Names that the generated members own, which no operation may take.
pub open spec fn reserved_methods() -> Seq<Seq<char>> {
    seq!["new"@, "base_url"@, "api"@]
}

/// Identifiers that the generated signatures use, which no parameter may take.
pub open spec fn reserved_params() -> Seq<Seq<char>> {
    seq!["query"@, "body"@, "api"@, "self"@]
}

/// A character as it stands in a string literal.
pub open spec fn escaped_char(c: char) -> Seq<char> {
    if c == '"' {
        seq!['\\', '"']
    } else if c == '\\' {
        seq!['\\', '\\']
    } else if c == '\n' {
        seq!['\\', 'n']
    } else if c == '$' {
        seq!['\\', '$']
    } else {
        seq![c]
    }
}

/// A text as it stands in a string literal.
pub open spec fn escaped(s: Seq<char>) -> Seq<char>
    decreases s.len(),
{
    if s.len() == 0 {
        Seq::empty()
    } else {
        escaped_char(s.first()) + escaped(s.drop_first())
    }
}

/// Escapes a text for a string literal.
///
/// A spec is remote input: a quote, a backslash or a `${` in it would otherwise close the literal
/// or open an interpolation. A `$` is escaped wherever it stands: one rule instead of two.
pub fn escape(value: &str) -> (out: String)
    ensures
        out@ == escaped(value@),
{
    let chars: Vec<char> = chars_of(value);
    let mut out: String = String::new();
    assert(chars@.skip(0) == chars@);
    for i in 0..chars.len()
        invariant
            escaped(chars@) == out@ + escaped(chars@.skip(i as int)),
    {
        assert(chars@.skip(i as int).drop_first() == chars@.skip(i + 1));
        let ghost before = out@;
        let c: char = chars[i];
        if c == '"' {
            out.push('\\');
            out.push('"');
        } else if c == '\\' {
            out.push('\\');
            out.push('\\');
        } else if c == '\n' {
            out.push('\\');
            out.push('n');
        } else if c == '$' {
            out.push('\\');
            out.push('$');
        } else {
            out.push(c);
        }
        assert(out@ == before + escaped_char(c));
    }
    out
}

/// A text on one line, as a comment needs it: a line break is written as `\n`, and everything else
/// as it stands.
pub open spec fn one_line(s: Seq<char>) -> Seq<char> {
    joined(split(s, '\n'), "\\n"@)
}

/// Writes a text on one line. A spec is remote input here too: behind a line break, it would be
/// code.
fn one_line_of(value: &str) -> (out: String)
    ensures
        out@ == one_line(value@),
{
    join(&split_at(value, '\n'), "\\n")
}

/// The comment lines for the lines of a summary; an empty line gives none.
pub open spec fn comment_lines(lines: Seq<Seq<char>>) -> Seq<char>
    decreases lines.len(),
{
    if lines.len() == 0 {
        Seq::empty()
    } else {
        let before = comment_lines(lines.drop_last());
        let line = trimmed(lines.last());
        if line.len() == 0 {
            before
        } else {
            before + "// "@ + line + "\n"@
        }
    }
}

/// The comment for a summary. A summary may have several lines, and a comment may not, so each
/// line becomes a comment of its own.
pub open spec fn doc_comment(doc: Option<Seq<char>>) -> Seq<char> {
    match doc {
        Some(text) => comment_lines(split(text, '\n')),
        None => Seq::empty(),
    }
}

/// Writes the comment for a summary.
fn doc_comment_of(doc: &Option<String>) -> (out: String)
    ensures
        out@ == doc_comment(optional_view(*doc)),
{
    let mut out: String = String::new();
    match doc {
        Some(text) => {
            let lines: Vec<String> = split_at(text.as_str(), '\n');
            let ghost all = views(lines@);
            for i in 0..lines.len()
                invariant
                    all == views(lines@),
                    out@ == comment_lines(all.take(i as int)),
            {
                assert(all.take(i + 1).drop_last() == all.take(i as int));
                assert(all.take(i + 1).last() == lines@[i as int]@);
                let line: String = trim(lines[i].as_str());
                if !line.as_str().is_empty() {
                    out.append("// ");
                    out.append(line.as_str());
                    out.append("\n");
                }
            }
            assert(all.take(lines@.len() as int) == all);
        },
        None => {},
    }
    out
}

/// The optional parameters, each with its type.
pub open spec fn optional_keys(params: Seq<ParamView>) -> Seq<Seq<char>> {
    params.filter(|p: ParamView| !p.required).map_values(
        |p: ParamView| one_line(p.name) + " ("@ + p.ty + ")"@,
    )
}

/// The comment that lists the optional parameters, where there are any.
pub open spec fn optional_comment(params: Seq<ParamView>) -> Seq<char> {
    let keys = optional_keys(params);
    if keys.len() == 0 {
        Seq::empty()
    } else {
        "// Optional query parameters, by key: "@ + joined(keys, ", "@) + "\n"@
    }
}

/// Writes the comment that lists the optional parameters.
fn optional_comment_of(params: &Vec<Param>) -> (out: String)
    ensures
        out@ == optional_comment(params_view(params@)),
{
    let ghost all = params_view(params@);
    let mut keys: Vec<String> = Vec::new();
    proof {
        reveal(Seq::filter);
    }
    assert(views(keys@) == optional_keys(all.take(0)));
    for i in 0..params.len()
        invariant
            all == params_view(params@),
            views(keys@) == optional_keys(all.take(i as int)),
    {
        proof {
            reveal(Seq::filter);
        }
        assert(all.take(i + 1).drop_last() == all.take(i as int));
        assert(all.take(i + 1).last() == params@[i as int]@);
        let ghost before = views(keys@);
        if !params[i].required {
            let mut key: String = one_line_of(params[i].name.as_str());
            key.append(" (");
            key.append(params[i].ty);
            key.append(")");
            keys.push(key);
            assert(views(keys@) == before.push(key@));
            assert(optional_keys(all.take(i + 1)) == optional_keys(all.take(i as int)).push(key@));
        }
    }
    assert(all.take(params@.len() as int) == all);
    if keys.len() == 0 {
        return String::new();
    }
    let mut out: String = "// Optional query parameters, by key: ".to_owned();
    out.append(join(&keys, ", ").as_str());
    out.append("\n");
    out
}

/// The parameters that a signature binds.
pub open spec fn bound(params: Seq<ParamView>) -> Seq<ParamView> {
    params.filter(|p: ParamView| p.required)
}

/// The identifiers of the bound parameters: each its name in snake case, made unique against the
/// reserved ones and those before it.
pub open spec fn identifiers(bound: Seq<ParamView>) -> Seq<Seq<char>>
    decreases bound.len(),
{
    if bound.len() == 0 {
        Seq::empty()
    } else {
        let before = identifiers(bound.drop_last());
        before.push(unique_name(snake(bound.last().name), reserved_params() + before))
    }
}

/// The parameters of a generated method as its signature spells them.
pub open spec fn signature_params(bound: Seq<ParamView>, has_body: bool) -> Seq<Seq<char>> {
    let typed = Seq::new(bound.len(), |i: int| identifiers(bound)[i] + ": "@ + bound[i].ty);
    if has_body {
        typed.push("body: string = \"\""@).push("query: Map<string, string> = {}"@)
    } else {
        typed.push("query: Map<string, string> = {}"@)
    }
}

/// The signature line of a generated method.
pub open spec fn signature(name: Seq<char>, bound: Seq<ParamView>, has_body: bool) -> Seq<char> {
    "pub fn "@ + name + "("@ + joined(signature_params(bound, has_body), ", "@)
        + "): Result<Response, HttpError> {\n"@
}

/// The expression for the path: the template, with each placeholder substituted by the encoded
/// parameter.
pub open spec fn path_expression(path: Seq<char>, bound: Seq<ParamView>) -> Seq<char>
    decreases bound.len(),
{
    if bound.len() == 0 {
        "\""@ + escaped(path) + "\""@
    } else {
        let before = path_expression(path, bound.drop_last());
        if bound.last().loc == In::Path {
            before + ".replace(\"{"@ + escaped(bound.last().name) + "}\", Api.encode(\"${"@
                + identifiers(bound).last() + "}\"))"@
        } else {
            before
        }
    }
}

/// The expression for the query map: the caller's, with each required query parameter set in it.
pub open spec fn query_expression(bound: Seq<ParamView>) -> Seq<char>
    decreases bound.len(),
{
    if bound.len() == 0 {
        "query"@
    } else {
        let before = query_expression(bound.drop_last());
        if bound.last().loc == In::Query {
            before + ".set(\""@ + escaped(bound.last().name) + "\", \"${"@ + identifiers(
                bound,
            ).last() + "}\")"@
        } else {
            before
        }
    }
}

/// The body of a generated method, up to its closing brace.
pub open spec fn method_body(op: OperationView) -> Seq<char> {
    "    path = "@ + path_expression(op.path, bound(op.params))
        + "\n    return self.api.request(\""@ + op.method + "\", path ~ Api.query_string("@
        + query_expression(bound(op.params)) + ")"@ + (if op.has_body {
        ", body"@
    } else {
        ""@
    }) + ")\n}\n"@
}

/// The comment above a generated method: the summary, the verb and path, and the optional
/// parameters.
pub open spec fn method_comment(op: OperationView) -> Seq<char> {
    doc_comment(op.doc) + "// "@ + uppercase(op.method) + " "@ + one_line(op.path) + "\n"@
        + optional_comment(op.params)
}

/// One operation as one method.
pub open spec fn method_source(name: Seq<char>, op: OperationView) -> Seq<char> {
    method_comment(op) + signature(name, bound(op.params), op.has_body) + method_body(op)
}

/// The names of the generated methods: each operation's own, made unique against the reserved
/// ones and those before it.
pub open spec fn method_names(operations: Seq<OperationView>) -> Seq<Seq<char>>
    decreases operations.len(),
{
    if operations.len() == 0 {
        Seq::empty()
    } else {
        let before = method_names(operations.drop_last());
        before.push(unique_name(operations.last().name, reserved_methods() + before))
    }
}

/// The generated methods, one per operation and in order.
pub open spec fn methods_source(operations: Seq<OperationView>) -> Seq<char>
    decreases operations.len(),
{
    if operations.len() == 0 {
        Seq::empty()
    } else {
        methods_source(operations.drop_last()) + method_source(
            method_names(operations).last(),
            operations.last(),
        ) + "\n"@
    }
}

/// The last part of a dotted name.
pub open spec fn bare_name(target: Seq<char>) -> Seq<char> {
    split(target, '.').last()
}

/// The field that the generated methods call through.
pub open spec fn field_source() -> Seq<char> {
    "// The middleware chain every generated call goes through. Generated rather than required\n// of you, so the constructor below can be generated too.\napi: Api\n\n"@
}

/// The constructor of the declaration with the given bare name.
pub open spec fn constructor_source(name: Seq<char>) -> Seq<char> {
    "pub fn new(api: Api): "@ + name + " {\n    return "@ + name + " { api: api }\n}\n\n"@
}

/// The method that gives the first server's URL, where there is one.
pub open spec fn base_url_source(base_url: Option<Seq<char>>) -> Seq<char> {
    match base_url {
        Some(url) => "// The first server the spec names, so a client can be built without copying the URL.\npub fn base_url(): string {\n    return \""@
            + escaped(url) + "\"\n}\n\n"@,
        None => Seq::empty(),
    }
}

/// The members generated for a declaration: the field, the constructor, the base URL and one
/// method per operation.
pub open spec fn client_source(target: Seq<char>, api: SpecView) -> Seq<char> {
    field_source() + constructor_source(bare_name(target)) + base_url_source(api.base_url)
        + methods_source(api.operations)
}

/// The reserved parameter names, as strings.
fn reserved_param_names() -> (names: Vec<String>)
    ensures
        views(names@) == reserved_params(),
{
    let mut names: Vec<String> = Vec::new();
    names.push("query".to_owned());
    names.push("body".to_owned());
    names.push("api".to_owned());
    names.push("self".to_owned());
    assert(views(names@) == reserved_params());
    names
}

/// The reserved method names, as strings.
fn reserved_method_names() -> (names: Vec<String>)
    ensures
        views(names@) == reserved_methods(),
{
    let mut names: Vec<String> = Vec::new();
    names.push("new".to_owned());
    names.push("base_url".to_owned());
    names.push("api".to_owned());
    assert(views(names@) == reserved_methods());
    names
}

/// Writes one operation as one method.
pub fn method(name: &str, op: &Operation) -> (out: String)
    ensures
        out@ == method_source(name@, op@),
{
    let ghost all = params_view(op.params@);
    let mut taken: Vec<String> = reserved_param_names();
    let mut params: Vec<String> = Vec::new();
    let mut path: String = "\"".to_owned();
    path.append(escape(op.path.as_str()).as_str());
    path.append("\"");
    let mut map: String = "query".to_owned();
    proof {
        reveal(Seq::filter);
    }
    let ghost mut seen: Seq<ParamView> = Seq::empty();
    assert(seen == bound(all.take(0)));
    assert(views(taken@) == reserved_params() + identifiers(seen));
    assert(views(params@) == Seq::new(
        seen.len(),
        |i: int| identifiers(seen)[i] + ": "@ + seen[i].ty,
    ));
    for i in 0..op.params.len()
        invariant
            all == params_view(op.params@),
            seen == bound(all.take(i as int)),
            identifiers(seen).len() == seen.len(),
            views(taken@) == reserved_params() + identifiers(seen),
            views(params@) == Seq::new(
                seen.len(),
                |i: int| identifiers(seen)[i] + ": "@ + seen[i].ty,
            ),
            path@ == path_expression(op.path@, seen),
            map@ == query_expression(seen),
    {
        proof {
            reveal(Seq::filter);
        }
        assert(all.take(i + 1).drop_last() == all.take(i as int));
        assert(all.take(i + 1).last() == op.params@[i as int]@);
        let param: &Param = &op.params[i];
        if param.required {
            let ghost earlier = seen;
            let ghost listed = views(params@);
            let ident: String = unique(snake_case(param.name.as_str()).as_str(), &mut taken);
            proof {
                seen = earlier.push(param@);
                assert(seen.drop_last() == earlier);
                assert(seen == bound(all.take(i + 1)));
                assert(identifiers(seen) == identifiers(earlier).push(ident@));
                assert(views(taken@) == reserved_params() + identifiers(seen));
            }
            let mut typed: String = ident.clone();
            typed.append(": ");
            typed.append(param.ty);
            params.push(typed);
            assert(views(params@) == listed.push(typed@));
            assert(views(params@) == Seq::new(
                seen.len(),
                |i: int| identifiers(seen)[i] + ": "@ + seen[i].ty,
            ));
            let key: String = escape(param.name.as_str());
            if param.loc == In::Path {
                path.append(".replace(\"{");
                path.append(key.as_str());
                path.append("}\", Api.encode(\"${");
                path.append(ident.as_str());
                path.append("}\"))");
            } else {
                map.append(".set(\"");
                map.append(key.as_str());
                map.append("\", \"${");
                map.append(ident.as_str());
                map.append("}\")");
            }
        }
    }
    assert(all.take(op.params@.len() as int) == all);
    let ghost listed = views(params@);
    if op.has_body {
        params.push("body: string = \"\"".to_owned());
    }
    params.push("query: Map<string, string> = {}".to_owned());
    assert(views(params@) == signature_params(seen, op.has_body));

    let mut comment: String = doc_comment_of(&op.doc);
    comment.append("// ");
    comment.append(op.method.as_str().to_uppercase().as_str());
    comment.append(" ");
    comment.append(one_line_of(op.path.as_str()).as_str());
    comment.append("\n");
    comment.append(optional_comment_of(&op.params).as_str());
    assert(comment@ == method_comment(op@));

    let mut head: String = "pub fn ".to_owned();
    head.append(name);
    head.append("(");
    head.append(join(&params, ", ").as_str());
    head.append("): Result<Response, HttpError> {\n");
    assert(head@ == signature(name@, seen, op.has_body));

    let mut body: String = "    path = ".to_owned();
    body.append(path.as_str());
    body.append("\n    return self.api.request(\"");
    body.append(op.method.as_str());
    body.append("\", path ~ Api.query_string(");
    body.append(map.as_str());
    body.append(")");
    if op.has_body {
        body.append(", body");
    } else {
        body.append("");
    }
    body.append(")\n}\n");
    assert(body@ == method_body(op@));

    let mut out: String = comment;
    out.append(head.as_str());
    out.append(body.as_str());
    out
}

/// Generates the whole member list for a declaration.
///
/// `target` may be fully qualified (`shop.upstream.PetStore`). The generated source is spliced into
/// the declaration, so what it names is the bare identifier.
pub fn client(target: &str, api: &Spec) -> (out: String)
    ensures
        out@ == client_source(target@, api@),
{
    let parts: Vec<String> = split_at(target, '.');
    let bare: &str = parts[parts.len() - 1].as_str();
    assert(bare@ == views(parts@).last());

    let mut constructor: String = "pub fn new(api: Api): ".to_owned();
    constructor.append(bare);
    constructor.append(" {\n    return ");
    constructor.append(bare);
    constructor.append(" { api: api }\n}\n\n");

    let mut base: String = String::new();
    match &api.base_url {
        Some(url) => {
            base = "// The first server the spec names, so a client can be built without copying the URL.\npub fn base_url(): string {\n    return \"".to_owned();
            base.append(escape(url.as_str()).as_str());
            base.append("\"\n}\n\n");
        },
        None => {},
    }

    let ghost all = operations_view(api.operations@);
    let mut taken: Vec<String> = reserved_method_names();
    let mut methods: String = String::new();
    assert(views(taken@) == reserved_methods() + method_names(all.take(0)));
    for i in 0..api.operations.len()
        invariant
            all == operations_view(api.operations@),
            views(taken@) == reserved_methods() + method_names(all.take(i as int)),
            methods@ == methods_source(all.take(i as int)),
    {
        let ghost upto = all.take(i + 1);
        assert(upto.drop_last() == all.take(i as int));
        assert(upto.last() == api.operations@[i as int]@);
        let op: &Operation = &api.operations[i];
        let name: String = unique(op.name.as_str(), &mut taken);
        assert(method_names(upto) == method_names(all.take(i as int)).push(name@));
        assert(views(taken@) == reserved_methods() + method_names(upto));
        methods.append(method(name.as_str(), op).as_str());
        methods.append("\n");
        assert(methods@ == methods_source(upto)) by {
            let before = methods_source(all.take(i as int));
            assert(before + method_source(name@, op@) + "\n"@ == methods@);
        }
    }
    assert(all.take(api.operations@.len() as int) == all);

    let mut out: String = "// The middleware chain every generated call goes through. Generated rather than required\n// of you, so the constructor below can be generated too.\napi: Api\n\n".to_owned();
    out.append(constructor.as_str());
    out.append(base.as_str());
    out.append(methods.as_str());
    out
}

} // verus!
