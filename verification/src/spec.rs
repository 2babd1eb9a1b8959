//! The slice of an OpenAPI document that a client generator needs.
//!
//! Only what determines a call is read: the servers, and for each operation its method, path,
//! parameters and whether it carries a body. The rest of a document is ignored rather than
//! modelled, so that a key which nothing reads can never make a document unusable.
use crate::json::{
    json_document, lookup, member_of, members_view, object_view, pointed, Document, Json, Tree,
};
use crate::names::{derived, derived_name, snake};
pub use crate::names::snake_case;
use crate::spec_laws::{
    each_call_once, every_operation_is_read_once, is_usable, what_is_described_is_usable,
};
use crate::text::{chars_of, holds, occurs, same, views};
use vstd::prelude::*;
use vstd::string::*;

verus! {

/// Where a parameter is carried. Only the two places that shape a URL are modelled: `header` and
/// `cookie` parameters are ignored.
#[derive(Debug, Clone, Copy, PartialEq, Eq, Structural)]
pub enum In {
    Path,
    Query,
}

/// One parameter of one operation.
#[derive(Debug)]
pub struct Param {
    /// The wire name: the query key, or the `{placeholder}` in the path template.
    pub name: String,
    pub loc: In,
    /// A path parameter is required whatever the document says; a query parameter only if the
    /// document says so.
    pub required: bool,
    /// The Noeta type that this parameter is generated as.
    pub ty: &'static str,
}

/// One generated method's worth of the document.
#[derive(Debug)]
pub struct Operation {
    /// Lower-case HTTP verb.
    pub method: String,
    /// The path template, with its `{placeholder}`s intact.
    pub path: String,
    /// The generated method name.
    pub name: String,
    /// Path parameters first, then required query parameters, then optional ones.
    pub params: Vec<Param>,
    /// Whether the operation declares a request body.
    pub has_body: bool,
    /// The operation's `summary` or `description`, if any.
    pub doc: Option<String>,
}

/// Everything that the generator reads out of one document.
#[derive(Debug)]
pub struct Spec {
    /// The first `servers[].url`, if the document names one.
    pub base_url: Option<String>,
    pub operations: Vec<Operation>,
}

/// What a parameter is.
pub struct ParamView {
    pub name: Seq<char>,
    pub loc: In,
    pub required: bool,
    pub ty: Seq<char>,
}

/// What an operation is.
pub struct OperationView {
    pub method: Seq<char>,
    pub path: Seq<char>,
    pub name: Seq<char>,
    pub params: Seq<ParamView>,
    pub has_body: bool,
    pub doc: Option<Seq<char>>,
}

/// What is read out of a document.
pub struct SpecView {
    pub base_url: Option<Seq<char>>,
    pub operations: Seq<OperationView>,
}

/// The characters of a string that may be there.
pub open spec fn optional_view(s: Option<String>) -> Option<Seq<char>> {
    match s {
        Some(s) => Some(s@),
        None => None,
    }
}

pub open spec fn params_view(params: Seq<Param>) -> Seq<ParamView> {
    params.map_values(|p: Param| p@)
}

pub open spec fn operations_view(operations: Seq<Operation>) -> Seq<OperationView> {
    operations.map_values(|o: Operation| o@)
}

impl View for Param {
    type V = ParamView;

    open spec fn view(&self) -> ParamView {
        ParamView { name: self.name@, loc: self.loc, required: self.required, ty: self.ty@ }
    }
}

impl View for Operation {
    type V = OperationView;

    open spec fn view(&self) -> OperationView {
        OperationView {
            method: self.method@,
            path: self.path@,
            name: self.name@,
            params: params_view(self.params@),
            has_body: self.has_body,
            doc: optional_view(self.doc),
        }
    }
}

impl View for Spec {
    type V = SpecView;

    open spec fn view(&self) -> SpecView {
        SpecView {
            base_url: optional_view(self.base_url),
            operations: operations_view(self.operations@),
        }
    }
}

impl Clone for Param {
    fn clone(&self) -> (copy: Param)
        ensures
            copy@ == self@,
    {
        Param { name: self.name.clone(), loc: self.loc, required: self.required, ty: self.ty }
    }
}

impl Clone for Operation {
    fn clone(&self) -> (copy: Operation)
        ensures
            copy@ == self@,
    {
        Operation {
            method: self.method.clone(),
            path: self.path.clone(),
            name: self.name.clone(),
            params: copied(&self.params),
            has_body: self.has_body,
            doc: optional_copy(&self.doc),
        }
    }
}

impl Clone for Spec {
    fn clone(&self) -> (copy: Spec)
        ensures
            copy@ == self@,
    {
        let mut operations: Vec<Operation> = Vec::new();
        for i in 0..self.operations.len()
            invariant
                operations@.len() == i,
                forall|j: int|
                    0 <= j < i ==> (#[trigger] operations@[j])@ == self.operations@[j]@,
        {
            operations.push(self.operations[i].clone());
        }
        assert(operations_view(operations@) == operations_view(self.operations@));
        Spec { base_url: optional_copy(&self.base_url), operations }
    }
}

/// A copy of a string that may be there.
fn optional_copy(s: &Option<String>) -> (copy: Option<String>)
    ensures
        optional_view(copy) == optional_view(*s),
{
    match s {
        Some(s) => Some(s.clone()),
        None => None,
    }
}

/// A copy of a parameter list.
fn copied(params: &Vec<Param>) -> (copy: Vec<Param>)
    ensures
        params_view(copy@) == params_view(params@),
{
    let mut copy: Vec<Param> = Vec::new();
    for i in 0..params.len()
        invariant
            copy@.len() == i,
            forall|j: int| 0 <= j < i ==> (#[trigger] copy@[j])@ == params@[j]@,
    {
        copy.push(params[i].clone());
    }
    assert(params_view(copy@) == params_view(params@));
    copy
}

/// The Noeta type for a JSON Schema type; anything that is not scalar is a `string`.
pub open spec fn generated_type(schema: Option<Tree>) -> Seq<char> {
    let name = match schema {
        Some(tree) => tree.text_member("type"@),
        None => None,
    };
    if name == Some("integer"@) {
        "int"@
    } else if name == Some("number"@) {
        "float"@
    } else if name == Some("boolean"@) {
        "bool"@
    } else {
        "string"@
    }
}

/// The Noeta type that a parameter with the given schema is generated as.
pub fn noeta_type(schema: Option<&Json>) -> (ty: &'static str)
    ensures
        ty@ == generated_type(
            match schema {
                Some(json) => Some(json@),
                None => None,
            },
        ),
{
    match schema {
        Some(json) => match json.text_member("type") {
            Some(name) => if same(name.as_str(), "integer") {
                "int"
            } else if same(name.as_str(), "number") {
                "float"
            } else if same(name.as_str(), "boolean") {
                "bool"
            } else {
                "string"
            },
            None => "string",
        },
        None => "string",
    }
}

/// What an entry of a `parameters` array stands for: what its `$ref` leads to, where it has one,
/// and else itself. A reference to another file, or one that leads nowhere, is an error.
pub open spec fn resolved(entry: Tree, doc: Tree) -> Result<Tree, Seq<char>> {
    match entry.text_member("$ref"@) {
        Some(reference) => if reference.len() == 0 || reference.first() != '#' {
            Err(
                "`"@ + reference
                    + "` refers to another file, which is not supported yet — inline it, or bundle the spec first"@,
            )
        } else {
            match pointed(doc, reference.drop_first()) {
                Some(target) => Ok(target),
                None => Err("`"@ + reference + "` does not resolve inside the spec"@),
            }
        },
        None => Ok(entry),
    }
}

/// Follows an in-document `$ref`. `None` is for a value that has none and stands for itself.
pub fn resolve(entry: &Json, doc: &Document) -> (result: Result<Option<Json>, String>)
    ensures
        match result {
            Ok(Some(target)) => resolved(entry@, doc@) == Ok::<Tree, Seq<char>>(target@),
            Ok(None) => resolved(entry@, doc@) == Ok::<Tree, Seq<char>>(entry@),
            Err(message) => resolved(entry@, doc@) == Err::<Tree, Seq<char>>(message@),
        },
{
    match entry.text_member("$ref") {
        Some(reference) => {
            let chars: Vec<char> = chars_of(reference.as_str());
            let mut message: String = "`".to_owned();
            message.append(reference.as_str());
            if chars.len() == 0 || chars[0] != '#' {
                message.append(
                    "` refers to another file, which is not supported yet — inline it, or bundle the spec first",
                );
                return Err(message);
            }
            let pointer: String = crate::text::part(&chars, 1, chars.len());
            assert(pointer@ == reference@.drop_first());
            match doc.pointer(pointer.as_str()) {
                Some(target) => Ok(Some(target)),
                None => {
                    message.append("` does not resolve inside the spec");
                    Err(message)
                },
            }
        },
        None => Ok(None),
    }
}

/// Where a parameter's `in` says that it is carried.
pub open spec fn location(entry: Tree) -> Option<In> {
    let place = entry.text_member("in"@);
    if place == Some("path"@) {
        Some(In::Path)
    } else if place == Some("query"@) {
        Some(In::Query)
    } else {
        None
    }
}

/// A name as the placeholder that a path template has for it.
pub open spec fn placeholder(name: Seq<char>) -> Seq<char> {
    "{"@ + name + "}"@
}

/// The parameter that an entry declares for a path. An entry without a name, or one that is
/// carried neither in the path nor in the query, declares none; a path parameter whose
/// placeholder the path does not hold is an error.
pub open spec fn declared(entry: Tree, path: Seq<char>) -> Result<Option<ParamView>, Seq<char>> {
    match (entry.text_member("name"@), location(entry)) {
        (Some(name), Some(loc)) => if loc == In::Path && !occurs(placeholder(name), path) {
            Err(
                "`"@ + path + "` declares a path parameter `"@ + name
                    + "` that the path template does not contain"@,
            )
        } else {
            Ok(
                Some(
                    ParamView {
                        name,
                        loc,
                        required: loc == In::Path || entry.member("required"@) == Some(
                            Tree::Bool(true),
                        ),
                        ty: generated_type(entry.member("schema"@)),
                    },
                ),
            )
        },
        _ => Ok(None),
    }
}

/// Reads one entry of a `parameters` array, once its `$ref` has been followed.
pub fn parameter(entry: &Json, path: &str) -> (result: Result<Option<Param>, String>)
    ensures
        match result {
            Ok(Some(param)) => declared(entry@, path@) == Ok::<Option<ParamView>, Seq<char>>(
                Some(param@),
            ),
            Ok(None) => declared(entry@, path@) == Ok::<Option<ParamView>, Seq<char>>(None),
            Err(message) => declared(entry@, path@) == Err::<Option<ParamView>, Seq<char>>(
                message@,
            ),
        },
{
    let name: &String = match entry.text_member("name") {
        Some(name) => name,
        None => {
            return Ok(None);
        },
    };
    let loc: In = match entry.text_member("in") {
        Some(place) => if same(place.as_str(), "path") {
            In::Path
        } else if same(place.as_str(), "query") {
            In::Query
        } else {
            return Ok(None);
        },
        None => {
            return Ok(None);
        },
    };
    let flagged: bool = match entry.member("required") {
        Some(Json::Bool(flag)) => *flag,
        _ => false,
    };
    if loc == In::Path {
        let mut template: String = "{".to_owned();
        template.append(name.as_str());
        template.append("}");
        if !holds(path, template.as_str()) {
            let mut message: String = "`".to_owned();
            message.append(path);
            message.append("` declares a path parameter `");
            message.append(name.as_str());
            message.append("` that the path template does not contain");
            return Err(message);
        }
    }
    let ty: &'static str = noeta_type(entry.member("schema"));
    Ok(Some(Param { name: name.clone(), loc, required: loc == In::Path || flagged, ty }))
}

/// The parameter that an entry of a `parameters` array declares, after its `$ref` has been
/// followed.
pub open spec fn declared_by(entry: Tree, doc: Tree, path: Seq<char>) -> Result<
    Option<ParamView>,
    Seq<char>,
> {
    match resolved(entry, doc) {
        Ok(target) => declared(target, path),
        Err(message) => Err(message),
    }
}

/// The parameters that the entries declare, in order, or the first entry's error.
pub open spec fn declared_by_all(entries: Seq<Tree>, doc: Tree, path: Seq<char>) -> Result<
    Seq<ParamView>,
    Seq<char>,
>
    decreases entries.len(),
{
    if entries.len() == 0 {
        Ok(Seq::empty())
    } else {
        match (
            declared_by_all(entries.drop_last(), doc, path),
            declared_by(entries.last(), doc, path),
        ) {
            (Err(message), _) => Err(message),
            (Ok(_), Err(message)) => Err(message),
            (Ok(params), Ok(Some(param))) => Ok(params.push(param)),
            (Ok(params), Ok(None)) => Ok(params),
        }
    }
}

/// The parameters that a `parameters` key declares; a value that is no array declares none.
pub open spec fn params_in(list: Option<Tree>, doc: Tree, path: Seq<char>) -> Result<
    Seq<ParamView>,
    Seq<char>,
> {
    match list {
        Some(Tree::List(entries)) => declared_by_all(entries, doc, path),
        _ => Ok(Seq::empty()),
    }
}

proof fn first_error_of_entries(entries: Seq<Tree>, doc: Tree, path: Seq<char>, k: int)
    requires
        0 <= k <= entries.len(),
        declared_by_all(entries.take(k), doc, path) is Err,
    ensures
        declared_by_all(entries, doc, path) == declared_by_all(entries.take(k), doc, path),
    decreases entries.len(),
{
    if k < entries.len() {
        assert(entries.drop_last().take(k) == entries.take(k));
        first_error_of_entries(entries.drop_last(), doc, path, k);
    } else {
        assert(entries.take(k) == entries);
    }
}

/// Reads a `parameters` array, following each entry's `$ref` if it has one.
pub fn params_of(list: Option<&Json>, doc: &Document, path: &str) -> (result: Result<
    Vec<Param>,
    String,
>)
    ensures
        ({
            let expected = params_in(
                match list {
                    Some(json) => Some(json@),
                    None => None,
                },
                doc@,
                path@,
            );
            match result {
                Ok(params) => expected == Ok::<Seq<ParamView>, Seq<char>>(params_view(params@)),
                Err(message) => expected == Err::<Seq<ParamView>, Seq<char>>(message@),
            }
        }),
{
    let mut params: Vec<Param> = Vec::new();
    let items: &Vec<Json> = match list {
        Some(Json::List(items)) => items,
        _ => {
            assert(params_view(params@) == Seq::<ParamView>::empty());
            return Ok(params);
        },
    };
    let ghost entries = items@.map_values(|j: Json| j@);
    proof {
        object_view(*list->0);
    }
    assert(params_view(params@) == Seq::<ParamView>::empty());
    for i in 0..items.len()
        invariant
            entries == items@.map_values(|j: Json| j@),
            list is Some,
            list->0@ == Tree::List(entries),
            declared_by_all(entries.take(i as int), doc@, path@) == Ok::<
                Seq<ParamView>,
                Seq<char>,
            >(params_view(params@)),
    {
        let ghost upto = entries.take(i + 1);
        assert(upto.drop_last() == entries.take(i as int));
        assert(upto.last() == items@[i as int]@);
        let ghost before = params@;
        let entry: &Json = &items[i];
        let followed = match resolve(entry, doc) {
            Ok(followed) => followed,
            Err(message) => {
                proof {
                    first_error_of_entries(entries, doc@, path@, i + 1);
                }
                return Err(message);
            },
        };
        let read = match followed {
            Some(target) => parameter(&target, path),
            None => parameter(entry, path),
        };
        match read {
            Ok(Some(param)) => {
                params.push(param);
                assert(params_view(params@) == params_view(before).push(param@));
            },
            Ok(None) => {},
            Err(message) => {
                proof {
                    first_error_of_entries(entries, doc@, path@, i + 1);
                }
                return Err(message);
            },
        }
    }
    assert(entries.take(items@.len() as int) == entries);
    Ok(params)
}

/// Whether two declarations are of the same parameter: one name, in one place.
pub open spec fn same_parameter(a: ParamView, b: ParamView) -> bool {
    a.name == b.name && a.loc == b.loc
}

/// Whether a parameter is declared again.
pub open spec fn redeclared(param: ParamView, later: Seq<ParamView>) -> bool {
    exists|i: int| 0 <= i < later.len() && same_parameter(param, #[trigger] later[i])
}

/// The last declaration of each parameter, in order: a later declaration takes the place of an
/// earlier one.
pub open spec fn effective(params: Seq<ParamView>) -> Seq<ParamView>
    decreases params.len(),
{
    if params.len() == 0 {
        Seq::empty()
    } else if redeclared(params.first(), params.drop_first()) {
        effective(params.drop_first())
    } else {
        seq![params.first()] + effective(params.drop_first())
    }
}

pub open spec fn is_path_param(param: ParamView) -> bool {
    param.required && param.loc == In::Path
}

pub open spec fn is_required_query_param(param: ParamView) -> bool {
    param.required && param.loc == In::Query
}

pub open spec fn is_optional_param(param: ParamView) -> bool {
    !param.required
}

/// Path parameters, then required query parameters, then optional ones, each group in the order
/// that it came in.
pub open spec fn ordered(params: Seq<ParamView>) -> Seq<ParamView> {
    params.filter(|p: ParamView| is_path_param(p)) + params.filter(
        |p: ParamView| is_required_query_param(p),
    ) + params.filter(|p: ParamView| is_optional_param(p))
}

/// Keeps the last declaration of each parameter.
fn keep_effective(params: &Vec<Param>) -> (kept: Vec<Param>)
    ensures
        params_view(kept@) == effective(params_view(params@)),
{
    let mut kept: Vec<Param> = Vec::new();
    let ghost all = params_view(params@);
    assert(all.skip(0) == all);
    assert(params_view(kept@) + effective(all) == effective(all));
    for i in 0..params.len()
        invariant
            all == params_view(params@),
            effective(all) == params_view(kept@) + effective(all.skip(i as int)),
    {
        let ghost rest = all.skip(i as int);
        let ghost later = all.skip(i + 1);
        assert(rest.drop_first() == later);
        assert(rest.first() == params@[i as int]@);
        let mut again: bool = false;
        for j in i + 1..params.len()
            invariant
                i < params@.len(),
                all == params_view(params@),
                later == all.skip(i + 1),
                again == exists|k: int|
                    0 <= k < j - i - 1 && same_parameter(params@[i as int]@, #[trigger] later[k]),
        {
            let ghost was = again;
            assert(later[j - i - 1] == params@[j as int]@);
            if same(params[i].name.as_str(), params[j].name.as_str()) && params[i].loc
                == params[j].loc {
                again = true;
            }
            assert(same_parameter(params@[i as int]@, later[j - i - 1]) ==> again);
            assert(again == exists|k: int|
                0 <= k < j - i && same_parameter(params@[i as int]@, #[trigger] later[k])) by {
                if again && was {
                    let k = choose|k: int|
                        0 <= k < j - i - 1 && same_parameter(
                            params@[i as int]@,
                            #[trigger] later[k],
                        );
                    assert(same_parameter(params@[i as int]@, later[k]));
                }
            }
        }
        assert(again == redeclared(rest.first(), later));
        let ghost before = kept@;
        if !again {
            kept.push(params[i].clone());
            assert(params_view(kept@) == params_view(before).push(rest.first()));
            assert(params_view(kept@) + effective(later) == params_view(before) + (
            seq![rest.first()] + effective(later)));
        }
    }
    assert(all.skip(params@.len() as int).len() == 0);
    assert(effective(all) == params_view(kept@));
    kept
}

/// Puts parameters in the order that signatures need: defaulted ones last.
fn order(params: &Vec<Param>) -> (sorted: Vec<Param>)
    ensures
        params_view(sorted@) == ordered(params_view(params@)),
{
    let mut sorted: Vec<Param> = Vec::new();
    let mut query: Vec<Param> = Vec::new();
    let mut optional: Vec<Param> = Vec::new();
    let ghost all = params_view(params@);
    let ghost on_path = |p: ParamView| is_path_param(p);
    let ghost on_query = |p: ParamView| is_required_query_param(p);
    let ghost left = |p: ParamView| is_optional_param(p);
    proof {
        reveal(Seq::filter);
    }
    assert(params_view(sorted@) == all.take(0).filter(on_path));
    assert(params_view(query@) == all.take(0).filter(on_query));
    assert(params_view(optional@) == all.take(0).filter(left));
    for i in 0..params.len()
        invariant
            all == params_view(params@),
            on_path == (|p: ParamView| is_path_param(p)),
            on_query == (|p: ParamView| is_required_query_param(p)),
            left == (|p: ParamView| is_optional_param(p)),
            params_view(sorted@) == all.take(i as int).filter(on_path),
            params_view(query@) == all.take(i as int).filter(on_query),
            params_view(optional@) == all.take(i as int).filter(left),
    {
        proof {
            reveal(Seq::filter);
        }
        assert(all.take(i + 1).drop_last() == all.take(i as int));
        assert(all.take(i + 1).last() == params@[i as int]@);
        let ghost (s, q, o) = (params_view(sorted@), params_view(query@), params_view(optional@));
        let param: Param = params[i].clone();
        let ghost seen = param@;
        if !param.required {
            optional.push(param);
        } else if param.loc == In::Path {
            sorted.push(param);
        } else {
            query.push(param);
        }
        assert(params_view(sorted@) == if is_path_param(seen) { s.push(seen) } else { s });
        assert(params_view(query@) == if is_required_query_param(seen) { q.push(seen) } else { q });
        assert(params_view(optional@) == if is_optional_param(seen) { o.push(seen) } else { o });
    }
    assert(all.take(params@.len() as int) == all);
    let ghost (s, q, o) = (params_view(sorted@), params_view(query@), params_view(optional@));
    sorted.append(&mut query);
    sorted.append(&mut optional);
    assert(params_view(sorted@) == s + q + o);
    sorted
}

/// The HTTP verbs that a path item may carry, in the order in which their operations are read. The
/// other keys of a path item are no operations.
pub open spec fn verbs() -> Seq<Seq<char>> {
    seq![
        "get"@,
        "put"@,
        "post"@,
        "delete"@,
        "options"@,
        "head"@,
        "patch"@,
        "query"@,
    ]
}

/// The text under the first of the two keys that is there.
pub open spec fn text_under(
    members: Seq<(Seq<char>, Tree)>,
    key: Seq<char>,
    other: Seq<char>,
) -> Option<Seq<char>> {
    let value = match lookup(members, key) {
        Some(tree) => Some(tree),
        None => lookup(members, other),
    };
    match value {
        Some(tree) => tree.text(),
        None => None,
    }
}

/// An operation's name: its `operationId` in snake case, or one made of the verb and the path.
pub open spec fn operation_name(
    method: Seq<char>,
    path: Seq<char>,
    op: Seq<(Seq<char>, Tree)>,
) -> Seq<char> {
    match Tree::Object(op).text_member("operationId"@) {
        Some(id) => snake(id),
        None => derived(method, path),
    }
}

/// The operation that a verb of a path declares, given the parameters in force there, the path's
/// own first.
pub open spec fn operation_of(
    method: Seq<char>,
    path: Seq<char>,
    op: Seq<(Seq<char>, Tree)>,
    params: Seq<ParamView>,
) -> OperationView {
    OperationView {
        method,
        path,
        name: operation_name(method, path, op),
        params: ordered(effective(params)),
        has_body: lookup(op, "requestBody"@) is Some,
        doc: text_under(op, "summary"@, "description"@),
    }
}

/// Builds one operation, ordering its parameters and dropping the ones that are overridden.
pub fn operation(method: &str, path: &str, op: &Vec<(String, Json)>, params: &Vec<Param>) -> (built:
    Operation)
    ensures
        built@ == operation_of(method@, path@, members_view(op@), params_view(params@)),
{
    let name: String = match member_of(op, "operationId") {
        Some(Json::Text(id)) => snake_case(id.as_str()),
        _ => derived_name(method, path),
    };
    let has_body: bool = match member_of(op, "requestBody") {
        Some(_) => true,
        None => false,
    };
    let described: Option<&Json> = match member_of(op, "summary") {
        Some(summary) => Some(summary),
        None => member_of(op, "description"),
    };
    let doc: Option<String> = match described {
        Some(Json::Text(text)) => Some(text.clone()),
        _ => None,
    };
    Operation {
        method: method.to_owned(),
        path: path.to_owned(),
        name,
        params: order(&keep_effective(params)),
        has_body,
        doc,
    }
}

/// The operation that a path item has under a verb, if it has one.
pub open spec fn operation_under(
    method: Seq<char>,
    path: Seq<char>,
    item: Tree,
    shared: Seq<ParamView>,
    doc: Tree,
) -> Result<Option<OperationView>, Seq<char>> {
    match item.member(method) {
        Some(Tree::Object(op)) => match params_in(lookup(op, "parameters"@), doc, path) {
            Ok(own) => Ok(Some(operation_of(method, path, op, shared + own))),
            Err(message) => Err(message),
        },
        _ => Ok(None),
    }
}

/// The operations that a path item has under the given verbs, in order, or the first error.
pub open spec fn operations_under(
    methods: Seq<Seq<char>>,
    path: Seq<char>,
    item: Tree,
    shared: Seq<ParamView>,
    doc: Tree,
) -> Result<Seq<OperationView>, Seq<char>>
    decreases methods.len(),
{
    if methods.len() == 0 {
        Ok(Seq::empty())
    } else {
        match (
            operations_under(methods.drop_last(), path, item, shared, doc),
            operation_under(methods.last(), path, item, shared, doc),
        ) {
            (Err(message), _) => Err(message),
            (Ok(_), Err(message)) => Err(message),
            (Ok(operations), Ok(Some(operation))) => Ok(operations.push(operation)),
            (Ok(operations), Ok(None)) => Ok(operations),
        }
    }
}

/// The operations of one path. The parameters that the path item declares are shared by all of
/// them. A path item that is no object has none.
pub open spec fn operations_at(path: Seq<char>, item: Tree, doc: Tree) -> Result<
    Seq<OperationView>,
    Seq<char>,
> {
    match item {
        Tree::Object(members) => match params_in(lookup(members, "parameters"@), doc, path) {
            Ok(shared) => operations_under(verbs(), path, item, shared, doc),
            Err(message) => Err(message),
        },
        _ => Ok(Seq::empty()),
    }
}

/// The operations of all the paths, in document order, or the first error.
pub open spec fn operations_in(paths: Seq<(Seq<char>, Tree)>, doc: Tree) -> Result<
    Seq<OperationView>,
    Seq<char>,
>
    decreases paths.len(),
{
    if paths.len() == 0 {
        Ok(Seq::empty())
    } else {
        match (
            operations_in(paths.drop_last(), doc),
            operations_at(paths.last().0, paths.last().1, doc),
        ) {
            (Err(message), _) => Err(message),
            (Ok(_), Err(message)) => Err(message),
            (Ok(before), Ok(operations)) => Ok(before + operations),
        }
    }
}

/// The first `servers[].url`.
pub open spec fn first_server(doc: Tree) -> Option<Seq<char>> {
    match doc.member("servers"@) {
        Some(Tree::List(servers)) => if servers.len() > 0 {
            servers.first().text_member("url"@)
        } else {
            None
        },
        _ => None,
    }
}

/// What a document describes, or why no client can be made from it.
pub open spec fn described(doc: Tree) -> Result<SpecView, Seq<char>> {
    match doc.member("paths"@) {
        Some(Tree::Object(paths)) => match operations_in(paths, doc) {
            Ok(operations) => if operations.len() == 0 {
                Err("the spec declares no operations"@)
            } else {
                Ok(SpecView { base_url: first_server(doc), operations })
            },
            Err(message) => Err(message),
        },
        _ => Err("the spec has no `paths` object"@),
    }
}

proof fn first_error_of_verbs(
    methods: Seq<Seq<char>>,
    path: Seq<char>,
    item: Tree,
    shared: Seq<ParamView>,
    doc: Tree,
    k: int,
)
    requires
        0 <= k <= methods.len(),
        operations_under(methods.take(k), path, item, shared, doc) is Err,
    ensures
        operations_under(methods, path, item, shared, doc) == operations_under(
            methods.take(k),
            path,
            item,
            shared,
            doc,
        ),
    decreases methods.len(),
{
    if k < methods.len() {
        assert(methods.drop_last().take(k) == methods.take(k));
        first_error_of_verbs(methods.drop_last(), path, item, shared, doc, k);
    } else {
        assert(methods.take(k) == methods);
    }
}

proof fn first_error_of_paths(paths: Seq<(Seq<char>, Tree)>, doc: Tree, k: int)
    requires
        0 <= k <= paths.len(),
        operations_in(paths.take(k), doc) is Err,
    ensures
        operations_in(paths, doc) == operations_in(paths.take(k), doc),
    decreases paths.len(),
{
    if k < paths.len() {
        assert(paths.drop_last().take(k) == paths.take(k));
        first_error_of_paths(paths.drop_last(), doc, k);
    } else {
        assert(paths.take(k) == paths);
    }
}

/// The verbs, as strings.
fn methods() -> (methods: Vec<String>)
    ensures
        views(methods@) == verbs(),
{
    let mut methods: Vec<String> = Vec::new();
    methods.push("get".to_owned());
    methods.push("put".to_owned());
    methods.push("post".to_owned());
    methods.push("delete".to_owned());
    methods.push("options".to_owned());
    methods.push("head".to_owned());
    methods.push("patch".to_owned());
    methods.push("query".to_owned());
    assert(views(methods@) == verbs());
    methods
}

/// Reads the operations of one path.
pub fn path_operations(path: &str, item: &Json, doc: &Document) -> (result: Result<
    Vec<Operation>,
    String,
>)
    ensures
        match result {
            Ok(operations) => operations_at(path@, item@, doc@) == Ok::<
                Seq<OperationView>,
                Seq<char>,
            >(operations_view(operations@)),
            Err(message) => operations_at(path@, item@, doc@) == Err::<
                Seq<OperationView>,
                Seq<char>,
            >(message@),
        },
{
    let mut operations: Vec<Operation> = Vec::new();
    assert(operations_view(operations@) == Seq::<OperationView>::empty());
    let members: &Vec<(String, Json)> = match item {
        Json::Object(members) => members,
        _ => {
            return Ok(operations);
        },
    };
    proof {
        object_view(*item);
    }
    let shared: Vec<Param> = match params_of(member_of(members, "parameters"), doc, path) {
        Ok(shared) => shared,
        Err(message) => {
            return Err(message);
        },
    };
    let ghost common = params_view(shared@);
    let methods: Vec<String> = methods();
    let ghost all = views(methods@);
    for i in 0..methods.len()
        invariant
            all == views(methods@),
            all == verbs(),
            common == params_view(shared@),
            item@ == Tree::Object(members_view(members@)),
            operations_at(path@, item@, doc@) == operations_under(
                all,
                path@,
                item@,
                common,
                doc@,
            ),
            operations_under(all.take(i as int), path@, item@, common, doc@) == Ok::<
                Seq<OperationView>,
                Seq<char>,
            >(operations_view(operations@)),
    {
        let ghost upto = all.take(i + 1);
        assert(upto.drop_last() == all.take(i as int));
        assert(upto.last() == methods@[i as int]@);
        let ghost before = operations@;
        let method: &str = methods[i].as_str();
        match member_of(members, method) {
            Some(value) => {
                proof {
                    object_view(*value);
                }
                match value {
                    Json::Object(op) => {
                        let mut own: Vec<Param> = match params_of(
                            member_of(op, "parameters"),
                            doc,
                            path,
                        ) {
                            Ok(own) => own,
                            Err(message) => {
                                proof {
                                    first_error_of_verbs(
                                        all,
                                        path@,
                                        item@,
                                        common,
                                        doc@,
                                        i + 1,
                                    );
                                }
                                return Err(message);
                            },
                        };
                        let ghost extra = params_view(own@);
                        let mut params: Vec<Param> = copied(&shared);
                        params.append(&mut own);
                        assert(params_view(params@) == common + extra);
                        let built: Operation = operation(method, path, op, &params);
                        operations.push(built);
                        assert(operations_view(operations@) == operations_view(before).push(
                            built@,
                        ));
                    },
                    _ => {},
                }
            },
            None => {},
        }
    }
    assert(all.take(methods@.len() as int) == all);
    Ok(operations)
}

/// Reads the first server's URL.
fn server_url(root: &Json) -> (url: Option<String>)
    ensures
        optional_view(url) == first_server(root@),
{
    match root.member("servers") {
        Some(servers) => {
            proof {
                object_view(*servers);
            }
            match servers {
                Json::List(servers) => if servers.len() > 0 {
                    match servers[0].text_member("url") {
                        Some(url) => Some(url.clone()),
                        None => None,
                    }
                } else {
                    None
                },
                _ => None,
            }
        },
        None => None,
    }
}

/// Reads what the generator needs out of a document.
pub fn parse_document(doc: &Document) -> (result: Result<Spec, String>)
    ensures
        match result {
            Ok(api) => described(doc@) == Ok::<SpecView, Seq<char>>(api@),
            Err(message) => described(doc@) == Err::<SpecView, Seq<char>>(message@),
        },
        result matches Ok(api) ==> is_usable(api@) && each_call_once(api@.operations),
{
    let root: &Json = doc.root();
    proof {
        what_is_described_is_usable(doc@);
        every_operation_is_read_once(doc@);
    }
    let base_url: Option<String> = server_url(root);
    let found: Option<&Json> = root.member("paths");
    proof {
        if found is Some {
            object_view(*found->0);
        }
    }
    let paths: &Vec<(String, Json)> = match found {
        Some(Json::Object(paths)) => paths,
        _ => {
            return Err("the spec has no `paths` object".to_owned());
        },
    };
    let ghost all = members_view(paths@);
    let mut operations: Vec<Operation> = Vec::new();
    assert(operations_view(operations@) == Seq::<OperationView>::empty());
    for i in 0..paths.len()
        invariant
            all == members_view(paths@),
            doc@.member("paths"@) == Some(Tree::Object(all)),
            operations_in(all.take(i as int), doc@) == Ok::<Seq<OperationView>, Seq<char>>(
                operations_view(operations@),
            ),
    {
        assert(all.take(i + 1).drop_last() == all.take(i as int));
        assert(all.take(i + 1).last() == (paths@[i as int].0@, paths@[i as int].1@));
        let ghost before = operations@;
        match path_operations(paths[i].0.as_str(), &paths[i].1, doc) {
            Ok(mut found) => {
                let ghost more = found@;
                operations.append(&mut found);
                assert(operations_view(operations@) == operations_view(before) + operations_view(
                    more,
                ));
            },
            Err(message) => {
                proof {
                    first_error_of_paths(all, doc@, i + 1);
                }
                return Err(message);
            },
        }
    }
    assert(all.take(paths@.len() as int) == all);
    if operations.len() == 0 {
        return Err("the spec declares no operations".to_owned());
    }
    Ok(Spec { base_url, operations })
}

/// What a text describes: what its JSON document describes, where it is one.
pub open spec fn described_by_text(document: Result<Tree, Seq<char>>) -> Result<
    SpecView,
    Seq<char>,
> {
    match document {
        Ok(doc) => described(doc),
        Err(message) => Err(
            "the spec is not valid JSON: "@ + message
                + " (only JSON specs are read — convert a YAML spec first)"@,
        ),
    }
}

/// Parses a document.
///
/// Every error is phrased for the person who wrote the spec's name down: they can see their spec
/// and cannot see the generator.
pub fn parse(text: &str) -> (result: Result<Spec, String>)
    ensures
        match result {
            Ok(api) => described_by_text(json_document(text@)) == Ok::<SpecView, Seq<char>>(api@),
            Err(message) => described_by_text(json_document(text@)) == Err::<SpecView, Seq<char>>(
                message@,
            ),
        },
        result matches Ok(api) ==> is_usable(api@) && each_call_once(api@.operations),
{
    match Document::read(text) {
        Ok(doc) => parse_document(&doc),
        Err(reason) => {
            let mut message: String = "the spec is not valid JSON: ".to_owned();
            message.append(reason.as_str());
            message.append(" (only JSON specs are read — convert a YAML spec first)");
            Err(message)
        },
    }
}

} // verus!
