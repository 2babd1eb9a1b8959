//! What holds of every client that is generated.
use crate::codegen::{
    bare_name, base_url_source, bound, client_source, comment_lines, constructor_source, doc_comment,
    escaped, escaped_char, field_source, identifiers, method_body, method_comment, method_names,
    method_source, methods_source, one_line, optional_comment, optional_keys, path_expression,
    query_expression, reserved_methods, reserved_params, signature, signature_params,
};
use crate::names::{
    is_identifier, is_name_char, snake, snake_gives_identifiers, unique_name, unique_names_are_free,
    unique_names_stay_identifiers,
};
use crate::spec::{placeholder, In, OperationView, ParamView, SpecView};
use crate::spec_laws::{all_callable, is_callable, is_generated_type, verbs_are_identifiers};
use crate::text::{
    ascii_upper, is_white_space, joined, joining_puts_the_separator_between, occurs, split, split_at_a_separator,
    split_is_undone_by_joining, split_of_one_piece, stands_at, trimmed, uppercase,
};
use vstd::prelude::*;
use vstd::string::*;
use vstd::utf8::*;

verus! {

/// The character that a backslash and the given one stand for in a string literal.
pub open spec fn unescaped(c: char) -> Option<char> {
    if c == 'n' {
        Some('\n')
    } else if c == '"' || c == '\\' || c == '$' {
        Some(c)
    } else {
        None
    }
}

/// Reads a string literal from behind its opening quote: the text that it stands for, and what
/// follows its closing quote. A literal that does not close on its line, that interpolates a value
/// or that has an unknown escape stands for no text.
pub open spec fn literal(s: Seq<char>) -> Option<(Seq<char>, Seq<char>)>
    decreases s.len(),
{
    if s.len() == 0 || s[0] == '\n' || (s[0] == '$' && s.len() > 1 && s[1] == '{') {
        None
    } else if s[0] == '"' {
        Some((Seq::empty(), s.drop_first()))
    } else if s[0] == '\\' {
        if s.len() < 2 {
            None
        } else {
            match (unescaped(s[1]), literal(s.skip(2))) {
                (Some(c), Some((text, rest))) => Some((seq![c] + text, rest)),
                _ => None,
            }
        }
    } else {
        match literal(s.drop_first()) {
            Some((text, rest)) => Some((seq![s[0]] + text, rest)),
            None => None,
        }
    }
}

/// A text from a spec stays data: whatever it holds, and whatever follows, the literal that it is
/// escaped into ends where it should and stands for exactly that text.
pub proof fn escaped_text_reads_back(value: Seq<char>, rest: Seq<char>)
    ensures
        literal(escaped(value) + seq!['"'] + rest) == Some((value, rest)),
    decreases value.len(),
{
    let all = escaped(value) + seq!['"'] + rest;
    if value.len() == 0 {
        assert(all[0] == '"');
        assert(all.drop_first() == rest);
        assert(value == Seq::<char>::empty());
    } else {
        let c = value.first();
        let tail = value.drop_first();
        let next = escaped(tail) + seq!['"'] + rest;
        escaped_text_reads_back(tail, rest);
        let piece = escaped_char(c);
        assert(all == piece + next);
        assert(value == seq![c] + tail);
        assert(all[0] == piece[0]);
        if piece.len() == 2 {
            assert(all[1] == piece[1]);
            assert(all.skip(2) == next);
        } else {
            assert(all.drop_first() == next);
        }
    }
}

/// Escaped text stays on its line.
pub proof fn escaped_text_has_no_line_break(value: Seq<char>)
    ensures
        !escaped(value).contains('\n'),
    decreases value.len(),
{
    if value.len() > 0 {
        let piece = escaped_char(value.first());
        let rest = escaped(value.drop_first());
        escaped_text_has_no_line_break(value.drop_first());
        let all = escaped(value);
        assert forall|i: int| 0 <= i < all.len() implies all[i] != '\n' by {
            if i < piece.len() {
                assert(all[i] == piece[i]);
            } else {
                assert(all[i] == rest[i - piece.len()]);
            }
        }
    }
}

/// Texts are escaped character by character.
pub proof fn escaping_distributes(a: Seq<char>, b: Seq<char>)
    ensures
        escaped(a + b) == escaped(a) + escaped(b),
    decreases a.len(),
{
    if a.len() == 0 {
        assert(a + b == b);
        assert(escaped(a) + escaped(b) == escaped(b));
    } else {
        assert((a + b).drop_first() == a.drop_first() + b);
        escaping_distributes(a.drop_first(), b);
    }
}

/// What a generated path replaces is the parameter's placeholder, escaped: the literal for it
/// stands for the placeholder as the path template has it.
pub proof fn placeholder_literals_stand_for_placeholders(name: Seq<char>, rest: Seq<char>)
    ensures
        literal("{"@ + escaped(name) + "}"@ + seq!['"'] + rest) == Some((placeholder(name), rest)),
{
    reveal_strlit("{");
    reveal_strlit("}");
    let open = "{"@;
    let close = "}"@;
    assert(escaped(open) == open) by {
        assert(escaped(open.drop_first()) == Seq::<char>::empty());
        assert(escaped(open) == escaped_char('{') + escaped(open.drop_first()));
    }
    assert(escaped(close) == close) by {
        assert(escaped(close.drop_first()) == Seq::<char>::empty());
        assert(escaped(close) == escaped_char('}') + escaped(close.drop_first()));
    }
    escaping_distributes(open, name);
    escaping_distributes(open + name, close);
    escaped_text_reads_back(placeholder(name), rest);
}

/// Whether no text is in the list twice.
pub open spec fn all_different(names: Seq<Seq<char>>) -> bool {
    forall|i: int, j: int|
        0 <= i < j < names.len() ==> #[trigger] names[i] != #[trigger] names[j]
}

proof fn pushing_a_free_name(reserved: Seq<Seq<char>>, before: Seq<Seq<char>>, wanted: Seq<char>)
    requires
        all_different(before),
    ensures
        ({
            let name = unique_name(wanted, reserved + before);
            &&& all_different(before.push(name))
            &&& !reserved.contains(name)
            &&& !(reserved + before).contains(wanted) ==> name == wanted
        }),
{
    let taken = reserved + before;
    let name = unique_name(wanted, taken);
    unique_names_are_free(wanted, taken);
    assert forall|i: int| 0 <= i < reserved.len() implies reserved[i] != name by {
        assert(taken[i] == reserved[i]);
    }
    assert forall|i: int| 0 <= i < before.len() implies before[i] != name by {
        assert(taken[reserved.len() + i] == before[i]);
    }
    let all = before.push(name);
    assert forall|i: int, j: int| 0 <= i < j < all.len() implies #[trigger] all[i]
        != #[trigger] all[j] by {
        assert(all[i] == before[i]);
        if j < before.len() {
            assert(all[j] == before[j]);
        }
    }
}

/// No operation is lost to another's name: there is a method name for each, no two are the same,
/// and none is one that the generated members own. An operation whose name is still free gets it.
pub proof fn method_names_do_not_collide(operations: Seq<OperationView>)
    ensures
        method_names(operations).len() == operations.len(),
        all_different(method_names(operations)),
        forall|i: int|
            0 <= i < operations.len() ==> !reserved_methods().contains(
                #[trigger] method_names(operations)[i],
            ),
        forall|i: int|
            0 <= i < operations.len() && !(reserved_methods() + method_names(
                operations.take(i),
            )).contains(operations[i].name) ==> #[trigger] method_names(operations)[i]
                == operations[i].name,
    decreases operations.len(),
{
    if operations.len() > 0 {
        let front = operations.drop_last();
        method_names_do_not_collide(front);
        let before = method_names(front);
        let names = method_names(operations);
        pushing_a_free_name(reserved_methods(), before, operations.last().name);
        assert forall|i: int| 0 <= i < operations.len() implies !reserved_methods().contains(
            #[trigger] names[i],
        ) && (!(reserved_methods() + method_names(operations.take(i))).contains(operations[i].name)
            ==> names[i] == operations[i].name) by {
            if i < front.len() {
                assert(names[i] == before[i]);
                assert(front.take(i) == operations.take(i));
                assert(front[i] == operations[i]);
            } else {
                assert(operations.take(i) == front);
            }
        }
    }
}

/// The method name of an operation depends on the operations up to it alone, so that an operation
/// that is added behind them renames none.
pub proof fn later_operations_rename_nothing(
    operations: Seq<OperationView>,
    more: Seq<OperationView>,
)
    ensures
        method_names(operations + more).take(operations.len() as int) == method_names(operations),
    decreases more.len(),
{
    let all = operations + more;
    method_names_do_not_collide(operations);
    if more.len() == 0 {
        assert(all == operations);
        assert(method_names(all).take(operations.len() as int) == method_names(operations));
    } else {
        assert(all.drop_last() == operations + more.drop_last());
        later_operations_rename_nothing(operations, more.drop_last());
        method_names_do_not_collide(all.drop_last());
        assert(method_names(all).take(operations.len() as int) == method_names(
            all.drop_last(),
        ).take(operations.len() as int));
    }
}

/// Operations that are added behind the others only add methods behind the others.
pub proof fn later_operations_only_append(operations: Seq<OperationView>, more: Seq<OperationView>)
    ensures
        methods_source(operations + more).len() >= methods_source(operations).len(),
        methods_source(operations + more).take(methods_source(operations).len() as int)
            == methods_source(operations),
    decreases more.len(),
{
    let all = operations + more;
    let kept = methods_source(operations).len() as int;
    if more.len() == 0 {
        assert(all == operations);
        assert(methods_source(all).take(kept) == methods_source(operations));
    } else {
        assert(all.drop_last() == operations + more.drop_last());
        later_operations_only_append(operations, more.drop_last());
        assert(methods_source(all).take(kept) == methods_source(all.drop_last()).take(kept));
    }
}

/// Every generated method has an identifier for a name.
pub proof fn method_names_are_identifiers(operations: Seq<OperationView>)
    requires
        all_callable(operations),
    ensures
        forall|i: int|
            0 <= i < operations.len() ==> is_identifier(#[trigger] method_names(operations)[i]),
    decreases operations.len(),
{
    if operations.len() > 0 {
        let front = operations.drop_last();
        assert forall|i: int| 0 <= i < front.len() implies is_callable(#[trigger] front[i]) by {
            assert(front[i] == operations[i]);
        }
        method_names_are_identifiers(front);
        method_names_do_not_collide(front);
        let before = method_names(front);
        let names = method_names(operations);
        assert(is_callable(operations[operations.len() - 1]));
        unique_names_stay_identifiers(operations.last().name, reserved_methods() + before);
        assert forall|i: int| 0 <= i < operations.len() implies is_identifier(
            #[trigger] names[i],
        ) by {
            if i < front.len() {
                assert(names[i] == before[i]);
            }
        }
    }
}

/// No parameter shadows another, or a name that signatures use: there is an identifier for each,
/// no two are the same, and none is reserved. An interpolation of one is of nothing else.
pub proof fn parameter_identifiers_do_not_collide(bound: Seq<ParamView>)
    ensures
        identifiers(bound).len() == bound.len(),
        all_different(identifiers(bound)),
        forall|i: int|
            0 <= i < bound.len() ==> !reserved_params().contains(#[trigger] identifiers(bound)[i])
                && is_identifier(identifiers(bound)[i]),
    decreases bound.len(),
{
    if bound.len() > 0 {
        let front = bound.drop_last();
        parameter_identifiers_do_not_collide(front);
        let before = identifiers(front);
        let wanted = snake(bound.last().name);
        let names = identifiers(bound);
        pushing_a_free_name(reserved_params(), before, wanted);
        snake_gives_identifiers(bound.last().name);
        unique_names_stay_identifiers(wanted, reserved_params() + before);
        assert forall|i: int| 0 <= i < bound.len() implies !reserved_params().contains(
            #[trigger] names[i],
        ) && is_identifier(names[i]) by {
            if i < front.len() {
                assert(names[i] == before[i]);
            }
        }
    }
}

/// What a signature binds: first each required parameter, typed and in order, then the body where
/// there is one, and last the map of optional parameters.
pub proof fn required_parameters_are_positional(params: Seq<ParamView>, has_body: bool)
    ensures
        ({
            let bound = bound(params);
            let listed = signature_params(bound, has_body);
            &&& listed.len() == bound.len() + (if has_body {
                2int
            } else {
                1int
            })
            &&& forall|i: int|
                0 <= i < bound.len() ==> #[trigger] listed[i] == identifiers(bound)[i] + ": "@
                    + bound[i].ty
            &&& has_body ==> listed[bound.len() as int] == "body: string = \"\""@
            &&& listed.last() == "query: Map<string, string> = {}"@
            &&& forall|param: ParamView| #[trigger]
                bound.contains(param) <==> params.contains(param) && param.required
        }),
{
    let required = |p: ParamView| p.required;
    let bound = bound(params);
    assert forall|param: ParamView| #[trigger] bound.contains(param) <==> params.contains(param)
        && param.required by {
        if bound.contains(param) {
            params.lemma_filter_contains_rev(required, param);
            let i = choose|i: int| 0 <= i < bound.len() && bound[i] == param;
            params.lemma_filter_pred(required, i);
        }
        if params.contains(param) && param.required {
            let i = choose|i: int| 0 <= i < params.len() && params[i] == param;
            params.lemma_filter_contains(required, i);
        }
    }
}

proof fn occurs_inside(before: Seq<char>, needle: Seq<char>, after: Seq<char>)
    ensures
        occurs(needle, before + needle + after),
{
    let all = before + needle + after;
    let at = before.len() as int;
    assert(all.subrange(at, at + needle.len()) == needle);
    assert(stands_at(needle, all, at));
}

proof fn occurs_around(before: Seq<char>, inner: Seq<char>, after: Seq<char>, needle: Seq<char>)
    requires
        occurs(needle, inner),
    ensures
        occurs(needle, before + inner + after),
{
    let at = choose|at: int| stands_at(needle, inner, at);
    let all = before + inner + after;
    let from = before.len() + at;
    assert(all.subrange(from, from + needle.len()) == inner.subrange(at, at + needle.len()));
    assert(stands_at(needle, all, from));
}

proof fn methods_hold_each_method(operations: Seq<OperationView>, i: int)
    requires
        0 <= i < operations.len(),
    ensures
        occurs(
            method_source(method_names(operations)[i], operations[i]),
            methods_source(operations),
        ),
    decreases operations.len(),
{
    let front = operations.drop_last();
    method_names_do_not_collide(operations);
    method_names_do_not_collide(front);
    let needle = method_source(method_names(operations)[i], operations[i]);
    let all = methods_source(operations);
    let before = methods_source(front);
    let last = method_source(method_names(operations).last(), operations.last());
    assert(all == before + last + "\n"@);
    if i < front.len() {
        assert(method_names(operations)[i] == method_names(front)[i]);
        assert(front[i] == operations[i]);
        methods_hold_each_method(front, i);
        occurs_around(Seq::empty(), before, last + "\n"@, needle);
        assert(Seq::<char>::empty() + before + (last + "\n"@) == all);
    } else {
        occurs_inside(before, needle, "\n"@);
    }
}

/// Every operation becomes a method of the client.
pub proof fn every_operation_becomes_a_method(target: Seq<char>, api: SpecView, i: int)
    requires
        0 <= i < api.operations.len(),
    ensures
        occurs(
            method_source(method_names(api.operations)[i], api.operations[i]),
            client_source(target, api),
        ),
{
    methods_hold_each_method(api.operations, i);
    let needle = method_source(method_names(api.operations)[i], api.operations[i]);
    let before = field_source() + constructor_source(bare_name(target)) + base_url_source(
        api.base_url,
    );
    occurs_around(before, methods_source(api.operations), Seq::empty(), needle);
    assert(before + methods_source(api.operations) + Seq::<char>::empty() == client_source(
        target,
        api,
    ));
}

/// A client names its declaration by the bare name alone: how the name is qualified changes
/// nothing.
pub proof fn qualification_changes_nothing(target: Seq<char>, api: SpecView)
    ensures
        !bare_name(target).contains('.'),
        client_source(target, api) == client_source(bare_name(target), api),
{
    split_is_undone_by_joining(target, '.');
    let parts = split(target, '.');
    assert(!parts[parts.len() - 1].contains('.'));
    split_of_one_piece(bare_name(target), '.');
}

/// Every generated call goes through the middleware chain.
pub proof fn every_call_goes_through_the_chain(name: Seq<char>, op: OperationView)
    ensures
        occurs("return self.api.request(\""@, method_source(name, op)),
{
    reveal_strlit("return self.api.request(\"");
    reveal_strlit("\n    return self.api.request(\"");
    let call = "return self.api.request(\""@;
    let line = "\n    return self.api.request(\""@;
    assert(line.subrange(5, line.len() as int) == call);
    let indent = line.take(5);
    assert(line == indent + call + Seq::<char>::empty());
    occurs_inside(indent, call, Seq::empty());
    let before = method_comment(op) + signature(name, bound(op.params), op.has_body)
        + "    path = "@ + path_expression(op.path, bound(op.params));
    let after = op.method + "\", path ~ Api.query_string("@ + query_expression(bound(op.params))
        + ")"@ + (if op.has_body {
        ", body"@
    } else {
        ""@
    }) + ")\n}\n"@;
    occurs_around(before, line, after, call);
    assert(before + line + after == method_source(name, op));
}

/// What a generated path does for the `i`-th bound parameter.
pub open spec fn path_step(bound: Seq<ParamView>, i: int) -> Seq<char> {
    ".replace(\"{"@ + escaped(bound[i].name) + "}\", Api.encode(\"${"@ + identifiers(bound)[i]
        + "}\"))"@
}

/// What a generated query does for the `i`-th bound parameter.
pub open spec fn query_step(bound: Seq<ParamView>, i: int) -> Seq<char> {
    ".set(\""@ + escaped(bound[i].name) + "\", \"${"@ + identifiers(bound)[i] + "}\")"@
}

proof fn identifiers_of_the_front(bound: Seq<ParamView>, i: int)
    requires
        0 <= i < bound.len() - 1,
    ensures
        identifiers(bound.drop_last())[i] == identifiers(bound)[i],
        bound.drop_last()[i] == bound[i],
{
    parameter_identifiers_do_not_collide(bound);
    parameter_identifiers_do_not_collide(bound.drop_last());
}

proof fn path_expressions_grow(path: Seq<char>, bound: Seq<ParamView>) -> (step: Seq<char>)
    requires
        bound.len() > 0,
    ensures
        path_expression(path, bound) == path_expression(path, bound.drop_last()) + step,
        bound.last().loc == In::Path ==> step == path_step(bound, bound.len() - 1),
{
    parameter_identifiers_do_not_collide(bound);
    let before = path_expression(path, bound.drop_last());
    if bound.last().loc == In::Path {
        let step = path_step(bound, bound.len() - 1);
        assert(path_expression(path, bound) == before + step);
        step
    } else {
        assert(before + Seq::<char>::empty() == before);
        Seq::empty()
    }
}

proof fn query_expressions_grow(bound: Seq<ParamView>) -> (step: Seq<char>)
    requires
        bound.len() > 0,
    ensures
        query_expression(bound) == query_expression(bound.drop_last()) + step,
        bound.last().loc == In::Query ==> step == query_step(bound, bound.len() - 1),
{
    parameter_identifiers_do_not_collide(bound);
    let before = query_expression(bound.drop_last());
    if bound.last().loc == In::Query {
        let step = query_step(bound, bound.len() - 1);
        assert(query_expression(bound) == before + step);
        step
    } else {
        assert(before + Seq::<char>::empty() == before);
        Seq::empty()
    }
}

/// Every required parameter reaches the request: one of the path is substituted, encoded, and one
/// of the query is set.
pub proof fn every_bound_parameter_is_sent(path: Seq<char>, bound: Seq<ParamView>, i: int)
    requires
        0 <= i < bound.len(),
    ensures
        bound[i].loc == In::Path ==> occurs(path_step(bound, i), path_expression(path, bound)),
        bound[i].loc == In::Query ==> occurs(query_step(bound, i), query_expression(bound)),
    decreases bound.len(),
{
    let front = bound.drop_last();
    let paths = path_expression(path, front);
    let queries = query_expression(front);
    let on_path = path_expressions_grow(path, bound);
    let on_query = query_expressions_grow(bound);
    let none = Seq::<char>::empty();
    assert(none + paths + on_path == path_expression(path, bound));
    assert(paths + on_path + none == path_expression(path, bound));
    assert(none + queries + on_query == query_expression(bound));
    assert(queries + on_query + none == query_expression(bound));
    if i < front.len() {
        identifiers_of_the_front(bound, i);
        every_bound_parameter_is_sent(path, front, i);
        assert(path_step(front, i) == path_step(bound, i));
        assert(query_step(front, i) == query_step(bound, i));
        if bound[i].loc == In::Path {
            occurs_around(none, paths, on_path, path_step(bound, i));
        } else {
            occurs_around(none, queries, on_query, query_step(bound, i));
        }
    } else {
        if bound[i].loc == In::Path {
            occurs_inside(paths, on_path, none);
        } else {
            occurs_inside(queries, on_query, none);
        }
    }
}

/// The required parameters of the query join the caller's map.
pub proof fn queries_extend_the_callers_map(bound: Seq<ParamView>)
    ensures
        query_expression(bound).len() >= 5,
        query_expression(bound).take(5) == "query"@,
    decreases bound.len(),
{
    reveal_strlit("query");
    if bound.len() == 0 {
        assert("query"@.take(5) == "query"@);
    } else {
        let before = query_expression(bound.drop_last());
        queries_extend_the_callers_map(bound.drop_last());
        let step = query_expressions_grow(bound);
        assert((before + step).take(5) == before.take(5));
    }
}

proof fn joined_holds_each_part(parts: Seq<Seq<char>>, sep: Seq<char>, i: int)
    requires
        0 <= i < parts.len(),
    ensures
        occurs(parts[i], joined(parts, sep)),
    decreases parts.len(),
{
    let none = Seq::<char>::empty();
    let all = joined(parts, sep);
    if parts.len() == 1 {
        occurs_inside(none, parts[0], none);
        assert(none + parts[0] + none == all);
    } else {
        let front = joined(parts.drop_last(), sep);
        if i < parts.len() - 1 {
            joined_holds_each_part(parts.drop_last(), sep, i);
            assert(parts.drop_last()[i] == parts[i]);
            occurs_around(none, front, sep + parts.last(), parts[i]);
            assert(none + front + (sep + parts.last()) == all);
        } else {
            occurs_inside(front + sep, parts[i], none);
            assert(front + sep + parts[i] + none == all);
        }
    }
}

/// Every optional parameter is listed above its method, with its type: nothing else shows that it
/// exists.
pub proof fn optional_parameters_are_listed(name: Seq<char>, op: OperationView, i: int)
    requires
        0 <= i < op.params.len(),
        !op.params[i].required,
    ensures
        occurs(
            one_line(op.params[i].name) + " ("@ + op.params[i].ty + ")"@,
            method_source(name, op),
        ),
{
    let optional = |p: ParamView| !p.required;
    let kept = op.params.filter(optional);
    let keys = optional_keys(op.params);
    let key = one_line(op.params[i].name) + " ("@ + op.params[i].ty + ")"@;
    op.params.lemma_filter_contains(optional, i);
    let k = choose|k: int| 0 <= k < kept.len() && kept[k] == op.params[i];
    assert(keys[k] == key);
    joined_holds_each_part(keys, ", "@, k);
    let head = "// Optional query parameters, by key: "@;
    occurs_around(head, joined(keys, ", "@), "\n"@, key);
    let before = doc_comment(op.doc) + "// "@ + uppercase(op.method) + " "@ + one_line(op.path)
        + "\n"@;
    let after = signature(name, bound(op.params), op.has_body) + method_body(op);
    occurs_around(before, optional_comment(op.params), after, key);
    assert(before + optional_comment(op.params) + after == method_source(name, op));
}

/// Whether a line begins at a position.
pub open spec fn begins_a_line(s: Seq<char>, i: int) -> bool {
    i == 0 || s[i - 1] == '\n'
}

/// Whether a text is whole lines, each of them a comment.
pub open spec fn is_comment(s: Seq<char>) -> bool {
    &&& s.len() > 0 ==> s.last() == '\n'
    &&& forall|i: int|
        0 <= i < s.len() && #[trigger] begins_a_line(s, i) ==> i + 1 < s.len() && s[i] == '/' && s[i
            + 1] == '/'
}

proof fn comments_follow_comments(a: Seq<char>, b: Seq<char>)
    requires
        is_comment(a),
        is_comment(b),
    ensures
        is_comment(a + b),
{
    let all = a + b;
    assert forall|i: int| 0 <= i < all.len() && #[trigger] begins_a_line(all, i) implies i + 1
        < all.len() && all[i] == '/' && all[i + 1] == '/' by {
        if i < a.len() {
            assert(begins_a_line(a, i));
        } else {
            assert(begins_a_line(b, i - a.len()));
        }
    }
}

proof fn a_line_is_a_comment(line: Seq<char>)
    requires
        !line.contains('\n'),
    ensures
        is_comment("// "@ + line + "\n"@),
{
    reveal_strlit("// ");
    reveal_strlit("\n");
    let all = "// "@ + line + "\n"@;
    assert forall|i: int| 0 <= i < all.len() && #[trigger] begins_a_line(all, i) implies i + 1
        < all.len() && all[i] == '/' && all[i + 1] == '/' by {
        if i > 3 {
            assert(all[i - 1] == line[i - 4]);
        }
    }
}

proof fn trimming_adds_nothing(s: Seq<char>, c: char)
    requires
        !s.contains(c),
    ensures
        !trimmed(s).contains(c),
    decreases s.len(),
{
    if s.len() > 0 {
        if is_white_space(s.first()) {
            assert(!s.drop_first().contains(c)) by {
                assert forall|i: int| 0 <= i < s.drop_first().len() implies s.drop_first()[i]
                    != c by {
                    assert(s[i + 1] != c);
                }
            }
            trimming_adds_nothing(s.drop_first(), c);
        } else if is_white_space(s.last()) {
            assert(!s.drop_last().contains(c)) by {
                assert forall|i: int| 0 <= i < s.drop_last().len() implies s.drop_last()[i]
                    != c by {
                    assert(s[i] != c);
                }
            }
            trimming_adds_nothing(s.drop_last(), c);
        }
    }
}

proof fn lines_are_comments(lines: Seq<Seq<char>>)
    requires
        forall|i: int| 0 <= i < lines.len() ==> !(#[trigger] lines[i]).contains('\n'),
    ensures
        is_comment(comment_lines(lines)),
    decreases lines.len(),
{
    if lines.len() > 0 {
        let front = lines.drop_last();
        assert forall|i: int| 0 <= i < front.len() implies !(#[trigger] front[i]).contains(
            '\n',
        ) by {
            assert(front[i] == lines[i]);
        }
        lines_are_comments(front);
        let line = lines[lines.len() - 1];
        assert(!line.contains('\n'));
        trimming_adds_nothing(line, '\n');
        a_line_is_a_comment(trimmed(line));
        comments_follow_comments(comment_lines(front), "// "@ + trimmed(line) + "\n"@);
        assert(comment_lines(front) + ("// "@ + trimmed(line) + "\n"@) == comment_lines(front)
            + "// "@ + trimmed(line) + "\n"@);
    }
}

/// A summary of any number of lines becomes comments and nothing else.
pub proof fn summaries_become_comments(doc: Option<Seq<char>>)
    ensures
        is_comment(doc_comment(doc)),
{
    match doc {
        Some(text) => {
            split_is_undone_by_joining(text, '\n');
            lines_are_comments(split(text, '\n'));
        },
        None => {},
    }
}

proof fn concatenation_adds_nothing(a: Seq<char>, b: Seq<char>, c: char)
    requires
        !a.contains(c),
        !b.contains(c),
    ensures
        !(a + b).contains(c),
{
    assert forall|i: int| 0 <= i < (a + b).len() implies (a + b)[i] != c by {
        if i < a.len() {
            assert(a[i] != c);
        } else {
            assert(b[i - a.len()] != c);
        }
    }
}

proof fn joining_adds_nothing(parts: Seq<Seq<char>>, sep: Seq<char>, c: char)
    requires
        !sep.contains(c),
        forall|i: int| 0 <= i < parts.len() ==> !(#[trigger] parts[i]).contains(c),
    ensures
        !joined(parts, sep).contains(c),
    decreases parts.len(),
{
    if parts.len() == 1 {
        assert(!parts[0].contains(c));
    } else if parts.len() > 1 {
        let front = parts.drop_last();
        assert forall|i: int| 0 <= i < front.len() implies !(#[trigger] front[i]).contains(c) by {
            assert(front[i] == parts[i]);
        }
        joining_adds_nothing(front, sep, c);
        assert(!parts[parts.len() - 1].contains(c));
        concatenation_adds_nothing(joined(front, sep), sep, c);
        concatenation_adds_nothing(joined(front, sep) + sep, parts.last(), c);
    }
}

proof fn uppercase_identifiers_stay_on_their_line(name: Seq<char>)
    requires
        is_identifier(name),
    ensures
        !uppercase(name).contains('\n'),
{
    assert forall|i: int| 0 <= i < name.len() implies '\0' <= #[trigger] name[i] <= '\u{7f}' by {
        assert(is_name_char(name[i]));
    }
    assert(is_ascii_chars(name));
    assert forall|i: int| 0 <= i < uppercase(name).len() implies uppercase(name)[i] != '\n' by {
        assert(is_name_char(name[i]));
        assert(uppercase(name)[i] == ascii_upper(name[i]));
    }
}

/// A text is put on one line whatever it holds, and stays as it is where it is on one line already.
pub proof fn texts_are_put_on_one_line(s: Seq<char>)
    ensures
        !one_line(s).contains('\n'),
        !s.contains('\n') ==> one_line(s) == s,
{
    reveal_strlit("\\n");
    split_is_undone_by_joining(s, '\n');
    joining_adds_nothing(split(s, '\n'), "\\n"@, '\n');
    if !s.contains('\n') {
        split_of_one_piece(s, '\n');
    }
}

/// Whatever a spec holds, the comment above a method is comments and nothing else: no text of the
/// spec becomes a line of code.
pub proof fn method_comments_are_comments(op: OperationView)
    requires
        is_callable(op),
    ensures
        is_comment(method_comment(op)),
{
    summaries_become_comments(op.doc);
    verbs_are_identifiers(op.method);
    uppercase_identifiers_stay_on_their_line(op.method);
    reveal_strlit(" ");
    reveal_strlit("\n");
    let call = uppercase(op.method) + " "@ + one_line(op.path);
    texts_are_put_on_one_line(op.path);
    concatenation_adds_nothing(uppercase(op.method), " "@, '\n');
    concatenation_adds_nothing(uppercase(op.method) + " "@, one_line(op.path), '\n');
    a_line_is_a_comment(call);
    let second = "// "@ + call + "\n"@;
    comments_follow_comments(doc_comment(op.doc), second);
    let keys = optional_keys(op.params);
    if keys.len() > 0 {
        optional_keys_stay_on_their_line(op);
        let list = joined(keys, ", "@);
        reveal_strlit(", ");
        joining_adds_nothing(keys, ", "@, '\n');
        reveal_strlit("// ");
        reveal_strlit("// Optional query parameters, by key: ");
        reveal_strlit("Optional query parameters, by key: ");
        let title = "Optional query parameters, by key: "@;
        assert("// Optional query parameters, by key: "@ == "// "@ + title);
        concatenation_adds_nothing(title, list, '\n');
        a_line_is_a_comment(title + list);
        assert(optional_comment(op.params) == "// "@ + (title + list) + "\n"@);
    }
    comments_follow_comments(doc_comment(op.doc) + second, optional_comment(op.params));
    assert(doc_comment(op.doc) + second + optional_comment(op.params) == method_comment(op));
}

proof fn optional_keys_stay_on_their_line(op: OperationView)
    requires
        is_callable(op),
    ensures
        forall|k: int|
            0 <= k < optional_keys(op.params).len() ==> !(#[trigger] optional_keys(
                op.params,
            )[k]).contains('\n'),
{
    reveal_strlit(" (");
    reveal_strlit(")");
    reveal_strlit("int");
    reveal_strlit("float");
    reveal_strlit("bool");
    reveal_strlit("string");
    let optional = |p: ParamView| !p.required;
    let kept = op.params.filter(optional);
    let keys = optional_keys(op.params);
    assert forall|k: int| 0 <= k < keys.len() implies !(#[trigger] keys[k]).contains('\n') by {
        let param = kept[k];
        op.params.lemma_filter_pred(optional, k);
        assert(kept.contains(param));
        op.params.lemma_filter_contains_rev(optional, param);
        let i = choose|i: int| 0 <= i < op.params.len() && op.params[i] == param;
        let name = one_line(param.name);
        texts_are_put_on_one_line(param.name);
        assert(is_generated_type(op.params[i].ty));
        concatenation_adds_nothing(name, " ("@, '\n');
        concatenation_adds_nothing(name + " ("@, param.ty, '\n');
        concatenation_adds_nothing(name + " ("@ + param.ty, ")"@, '\n');
        assert(keys[k] == name + " ("@ + param.ty + ")"@);
    }
}

/// The server's URL stays data: the literal that `base_url` returns stands for it, and the rest of
/// the method follows.
pub proof fn the_base_url_stays_data(url: Seq<char>)
    ensures
        ({
            let head =
                "// The first server the spec names, so a client can be built without copying the URL.\npub fn base_url(): string {\n    return \""@;
            let source = base_url_source(Some(url));
            &&& source.take(head.len() as int) == head
            &&& literal(source.skip(head.len() as int)) == Some((url, "\n}\n\n"@))
        }),
{
    let head =
        "// The first server the spec names, so a client can be built without copying the URL.\npub fn base_url(): string {\n    return \""@;
    let source = base_url_source(Some(url));
    reveal_strlit("\"\n}\n\n");
    reveal_strlit("\n}\n\n");
    assert("\"\n}\n\n"@ == seq!['"'] + "\n}\n\n"@);
    assert(source.take(head.len() as int) == head);
    assert(source.skip(head.len() as int) == escaped(url) + seq!['"'] + "\n}\n\n"@);
    escaped_text_reads_back(url, "\n}\n\n"@);
}

proof fn paths_begin_with_the_template(path: Seq<char>, bound: Seq<ParamView>) -> (steps: Seq<char>)
    ensures
        path_expression(path, bound) == "\""@ + escaped(path) + "\""@ + steps,
    decreases bound.len(),
{
    if bound.len() == 0 {
        assert("\""@ + escaped(path) + "\""@ + Seq::<char>::empty() == path_expression(path, bound));
        Seq::empty()
    } else {
        let before = paths_begin_with_the_template(path, bound.drop_last());
        let step = path_expressions_grow(path, bound);
        assert("\""@ + escaped(path) + "\""@ + (before + step) == path_expression(path, bound));
        before + step
    }
}

/// The path stays data: the literal that a generated path begins with stands for the template.
pub proof fn the_path_stays_data(path: Seq<char>, bound: Seq<ParamView>)
    ensures
        path_expression(path, bound).first() == '"',
        literal(path_expression(path, bound).drop_first()) matches Some((text, _)) && text == path,
{
    let steps = paths_begin_with_the_template(path, bound);
    reveal_strlit("\"");
    let all = path_expression(path, bound);
    assert("\""@ == seq!['"']);
    assert(all[0] == "\""@[0]);
    assert(all.drop_first() == escaped(path) + seq!['"'] + steps);
    escaped_text_reads_back(path, steps);
}

/// A parameter's name stays data: the literals for it stand for its placeholder in the path and for
/// its key in the query.
pub proof fn parameter_names_stay_data(bound: Seq<ParamView>, i: int)
    requires
        0 <= i < bound.len(),
    ensures
        path_step(bound, i).take(10) == ".replace(\""@,
        literal(path_step(bound, i).skip(10)) matches Some((text, _)) && text == placeholder(
            bound[i].name,
        ),
        query_step(bound, i).take(6) == ".set(\""@,
        literal(query_step(bound, i).skip(6)) matches Some((text, _)) && text == bound[i].name,
{
    let key = escaped(bound[i].name);
    let ident = identifiers(bound)[i];
    reveal_strlit(".replace(\"");
    reveal_strlit(".replace(\"{");
    reveal_strlit("{");
    reveal_strlit("}");
    reveal_strlit("}\", Api.encode(\"${");
    let on_path = path_step(bound, i);
    let call = "}\", Api.encode(\"${"@;
    let behind = call.skip(2) + ident + "}\"))"@;
    assert(call == "}"@ + seq!['"'] + call.skip(2));
    assert(on_path.take(10) == ".replace(\""@);
    assert(on_path.skip(10) == "{"@ + key + "}"@ + seq!['"'] + behind);
    placeholder_literals_stand_for_placeholders(bound[i].name, behind);
    reveal_strlit(".set(\"");
    reveal_strlit("\", \"${");
    let on_query = query_step(bound, i);
    let value = "\", \"${"@;
    let after = value.skip(1) + ident + "}\")"@;
    assert(value == seq!['"'] + value.skip(1));
    assert(on_query.take(6) == ".set(\""@);
    assert(on_query.skip(6) == key + seq!['"'] + after);
    escaped_text_reads_back(bound[i].name, after);
}

proof fn expressions_stay_on_their_line(path: Seq<char>, bound: Seq<ParamView>)
    ensures
        !path_expression(path, bound).contains('\n'),
        !query_expression(bound).contains('\n'),
    decreases bound.len(),
{
    if bound.len() == 0 {
        reveal_strlit("\"");
        reveal_strlit("query");
        escaped_text_has_no_line_break(path);
        concatenation_adds_nothing("\""@, escaped(path), '\n');
        concatenation_adds_nothing("\""@ + escaped(path), "\""@, '\n');
    } else {
        let i = bound.len() - 1;
        expressions_stay_on_their_line(path, bound.drop_last());
        steps_stay_on_their_line(bound, i);
        parameter_identifiers_do_not_collide(bound);
        let before = path_expression(path, bound.drop_last());
        let map = query_expression(bound.drop_last());
        if bound.last().loc == In::Path {
            concatenation_adds_nothing(before, path_step(bound, i), '\n');
            assert(before + path_step(bound, i) == path_expression(path, bound));
        } else {
            concatenation_adds_nothing(map, query_step(bound, i), '\n');
            assert(map + query_step(bound, i) == query_expression(bound));
        }
    }
}

proof fn identifiers_stay_on_their_line(name: Seq<char>)
    requires
        is_identifier(name),
    ensures
        !name.contains('\n'),
{
    assert forall|i: int| 0 <= i < name.len() implies name[i] != '\n' by {
        assert(is_name_char(name[i]));
    }
}

proof fn steps_stay_on_their_line(bound: Seq<ParamView>, i: int)
    requires
        0 <= i < bound.len(),
    ensures
        !path_step(bound, i).contains('\n'),
        !query_step(bound, i).contains('\n'),
{
    reveal_strlit(".replace(\"{");
    reveal_strlit("}\", Api.encode(\"${");
    reveal_strlit("}\"))");
    reveal_strlit(".set(\"");
    reveal_strlit("\", \"${");
    reveal_strlit("}\")");
    let key = escaped(bound[i].name);
    let ident = identifiers(bound)[i];
    escaped_text_has_no_line_break(bound[i].name);
    parameter_identifiers_do_not_collide(bound);
    identifiers_stay_on_their_line(ident);
    let a = ".replace(\"{"@ + key;
    concatenation_adds_nothing(".replace(\"{"@, key, '\n');
    concatenation_adds_nothing(a, "}\", Api.encode(\"${"@, '\n');
    concatenation_adds_nothing(a + "}\", Api.encode(\"${"@, ident, '\n');
    concatenation_adds_nothing(a + "}\", Api.encode(\"${"@ + ident, "}\"))"@, '\n');
    let b = ".set(\""@ + key;
    concatenation_adds_nothing(".set(\""@, key, '\n');
    concatenation_adds_nothing(b, "\", \"${"@, '\n');
    concatenation_adds_nothing(b + "\", \"${"@, ident, '\n');
    concatenation_adds_nothing(b + "\", \"${"@ + ident, "}\")"@, '\n');
}

proof fn signatures_stay_on_their_line(name: Seq<char>, op: OperationView)
    requires
        is_callable(op),
        is_identifier(name),
    ensures
        split(signature(name, bound(op.params), op.has_body), '\n').len() == 2,
{
    reveal_strlit(": ");
    reveal_strlit(", ");
    reveal_strlit("int");
    reveal_strlit("float");
    reveal_strlit("bool");
    reveal_strlit("string");
    reveal_strlit("body: string = \"\"");
    reveal_strlit("query: Map<string, string> = {}");
    reveal_strlit("pub fn ");
    reveal_strlit("(");
    reveal_strlit("): Result<Response, HttpError> {");
    reveal_strlit("): Result<Response, HttpError> {\n");
    let bound = bound(op.params);
    let listed = signature_params(bound, op.has_body);
    parameter_identifiers_do_not_collide(bound);
    required_parameters_are_positional(op.params, op.has_body);
    assert forall|i: int| 0 <= i < listed.len() implies !(#[trigger] listed[i]).contains('\n') by {
        if i < bound.len() {
            let ident = identifiers(bound)[i];
            identifiers_stay_on_their_line(ident);
            assert(bound.contains(bound[i]));
            let k = choose|k: int| 0 <= k < op.params.len() && op.params[k] == bound[i];
            assert(is_generated_type(op.params[k].ty));
            concatenation_adds_nothing(ident, ": "@, '\n');
            concatenation_adds_nothing(ident + ": "@, bound[i].ty, '\n');
        }
    }
    joining_adds_nothing(listed, ", "@, '\n');
    identifiers_stay_on_their_line(name);
    let list = joined(listed, ", "@);
    let end = "): Result<Response, HttpError> {"@;
    concatenation_adds_nothing("pub fn "@, name, '\n');
    concatenation_adds_nothing("pub fn "@ + name, "("@, '\n');
    concatenation_adds_nothing("pub fn "@ + name + "("@, list, '\n');
    concatenation_adds_nothing("pub fn "@ + name + "("@ + list, end, '\n');
    let line = "pub fn "@ + name + "("@ + list + end;
    let none = Seq::<char>::empty();
    split_at_a_separator(line, '\n', none);
    split_of_one_piece(line, '\n');
    split_of_one_piece(none, '\n');
    assert(line.push('\n') + none == signature(name, bound, op.has_body));
}

proof fn bodies_are_three_lines(op: OperationView)
    requires
        is_callable(op),
    ensures
        split(method_body(op), '\n').len() == 4,
{
    reveal_strlit("    path = ");
    reveal_strlit("\n    return self.api.request(\"");
    reveal_strlit("    return self.api.request(\"");
    reveal_strlit("\", path ~ Api.query_string(");
    reveal_strlit(")");
    reveal_strlit(", body");
    reveal_strlit("");
    reveal_strlit(")\n}\n");
    reveal_strlit("}");
    let params = bound(op.params);
    let body = if op.has_body {
        ", body"@
    } else {
        ""@
    };
    expressions_stay_on_their_line(op.path, params);
    verbs_are_identifiers(op.method);
    identifiers_stay_on_their_line(op.method);
    let first = "    path = "@ + path_expression(op.path, params);
    concatenation_adds_nothing("    path = "@, path_expression(op.path, params), '\n');
    let call = "    return self.api.request(\""@ + op.method;
    let query = call + "\", path ~ Api.query_string("@ + query_expression(params);
    concatenation_adds_nothing("    return self.api.request(\""@, op.method, '\n');
    concatenation_adds_nothing(call, "\", path ~ Api.query_string("@, '\n');
    concatenation_adds_nothing(
        call + "\", path ~ Api.query_string("@,
        query_expression(params),
        '\n',
    );
    concatenation_adds_nothing(query, ")"@, '\n');
    concatenation_adds_nothing(query + ")"@, body, '\n');
    concatenation_adds_nothing(query + ")"@ + body, ")"@, '\n');
    let second = query + ")"@ + body + ")"@;
    let none = Seq::<char>::empty();
    let last = "}"@.push('\n') + none;
    let rest = second.push('\n') + last;
    split_of_one_piece(first, '\n');
    split_of_one_piece(second, '\n');
    split_of_one_piece("}"@, '\n');
    split_of_one_piece(none, '\n');
    split_at_a_separator("}"@, '\n', none);
    split_at_a_separator(second, '\n', last);
    split_at_a_separator(first, '\n', rest);
    assert(first.push('\n') + rest == method_body(op));
}

/// Whatever a spec holds, a method is its comment and four lines: the signature, the path, the call
/// and the closing brace. No text of the spec adds a line.
pub proof fn a_method_is_comments_and_four_lines(name: Seq<char>, op: OperationView)
    requires
        is_callable(op),
        is_identifier(name),
    ensures
        method_source(name, op) == method_comment(op) + signature(
            name,
            bound(op.params),
            op.has_body,
        ) + method_body(op),
        is_comment(method_comment(op)),
        split(signature(name, bound(op.params), op.has_body), '\n').len() == 2,
        split(method_body(op), '\n').len() == 4,
{
    method_comments_are_comments(op);
    signatures_stay_on_their_line(name, op);
    bodies_are_three_lines(op);
}

/// A method is written line by line: its comment, its signature, the path, and one call with the
/// verb, the path and its query, and then, where the operation has a body and only there, the body.
pub proof fn methods_are_written_line_by_line(name: Seq<char>, op: OperationView)
    ensures
        method_source(name, op) == method_comment(op) + signature(
            name,
            bound(op.params),
            op.has_body,
        ) + ("    path = "@ + path_expression(op.path, bound(op.params)) + "\n"@) + (
        "    return self.api.request(\""@ + op.method + "\", path ~ Api.query_string("@
            + query_expression(bound(op.params)) + (if op.has_body {
            "), body)"@
        } else {
            "))"@
        }) + "\n"@) + "}\n"@,
{
    reveal_strlit("\n    return self.api.request(\"");
    reveal_strlit("    return self.api.request(\"");
    reveal_strlit("\n");
    reveal_strlit(")");
    reveal_strlit("))");
    reveal_strlit(", body");
    reveal_strlit("), body)");
    reveal_strlit("");
    reveal_strlit(")\n}\n");
    reveal_strlit("}\n");
    let params = bound(op.params);
    let path = "    path = "@ + path_expression(op.path, params);
    let call = op.method + "\", path ~ Api.query_string("@ + query_expression(params);
    let end = if op.has_body {
        "), body)"@
    } else {
        "))"@
    };
    assert("\n    return self.api.request(\""@ == "\n"@ + "    return self.api.request(\""@);
    assert(method_body(op) == path + "\n"@ + ("    return self.api.request(\""@ + call + end + "\n"@)
        + "}\n"@);
    assert("    return self.api.request(\""@ + op.method + "\", path ~ Api.query_string("@
        + query_expression(params) + end + "\n"@ == "    return self.api.request(\""@ + call + end
        + "\n"@);
    assert(method_comment(op) + signature(name, params, op.has_body) + (path + "\n"@ + (
    "    return self.api.request(\""@ + call + end + "\n"@) + "}\n"@) == method_comment(op)
        + signature(name, params, op.has_body) + (path + "\n"@) + ("    return self.api.request(\""@
        + call + end + "\n"@) + "}\n"@);
}

/// What generated paths do for the bound parameters, one after the other: those of the query do
/// nothing.
pub open spec fn path_steps(bound: Seq<ParamView>) -> Seq<Seq<char>> {
    Seq::new(
        bound.len(),
        |i: int|
            if bound[i].loc == In::Path {
                path_step(bound, i)
            } else {
                Seq::empty()
            },
    )
}

/// What generated queries do for the bound parameters, one after the other: those of the path do
/// nothing.
pub open spec fn query_steps(bound: Seq<ParamView>) -> Seq<Seq<char>> {
    Seq::new(
        bound.len(),
        |i: int|
            if bound[i].loc == In::Query {
                query_step(bound, i)
            } else {
                Seq::empty()
            },
    )
}

/// A generated path is the literal of its template and then a step for each parameter of the path,
/// in order; a generated query is the caller's map and then a step for each parameter of the query.
pub proof fn expressions_take_one_step_each(path: Seq<char>, bound: Seq<ParamView>)
    ensures
        path_expression(path, bound) == seq!['"'] + escaped(path) + seq!['"'] + path_steps(
            bound,
        ).flatten_alt(),
        query_expression(bound) == "query"@ + query_steps(bound).flatten_alt(),
    decreases bound.len(),
{
    reveal_strlit("\"");
    assert("\""@ == seq!['"']);
    let head = seq!['"'] + escaped(path) + seq!['"'];
    let none = Seq::<char>::empty();
    if bound.len() == 0 {
        assert(path_steps(bound).flatten_alt() == none);
        assert(query_steps(bound).flatten_alt() == none);
        assert(head + none == head);
        assert("query"@ + none == "query"@);
    } else {
        let front = bound.drop_last();
        let n = bound.len() - 1;
        expressions_take_one_step_each(path, front);
        parameter_identifiers_do_not_collide(bound);
        assert(path_steps(bound).drop_last() == path_steps(front)) by {
            assert forall|i: int| 0 <= i < front.len() implies path_steps(bound)[i] == path_steps(
                front,
            )[i] by {
                identifiers_of_the_front(bound, i);
            }
        }
        assert(query_steps(bound).drop_last() == query_steps(front)) by {
            assert forall|i: int| 0 <= i < front.len() implies query_steps(bound)[i] == query_steps(
                front,
            )[i] by {
                identifiers_of_the_front(bound, i);
            }
        }
        let paths = path_steps(front).flatten_alt();
        let queries = query_steps(front).flatten_alt();
        assert(path_steps(bound).flatten_alt() == paths + path_steps(bound)[n]);
        assert(query_steps(bound).flatten_alt() == queries + query_steps(bound)[n]);
        if bound[n].loc == In::Path {
            assert(path_expression(path, bound) == path_expression(path, front) + path_step(
                bound,
                n,
            ));
            assert(head + paths + path_step(bound, n) == head + (paths + path_step(bound, n)));
            assert(queries + none == queries);
        } else {
            assert(query_expression(bound) == query_expression(front) + query_step(bound, n));
            assert("query"@ + queries + query_step(bound, n) == "query"@ + (queries + query_step(
                bound,
                n,
            )));
            assert(paths + none == paths);
        }
    }
}

/// A signature is the name, the parameters, and what every generated method answers; it binds the
/// required parameters, all of them and in order.
pub proof fn signatures_bind_the_required_parameters(
    name: Seq<char>,
    params: Seq<ParamView>,
    has_body: bool,
)
    ensures
        bound(params) == params.filter(|p: ParamView| p.required),
        signature(name, bound(params), has_body) == "pub fn "@ + name + "("@ + joined(
            signature_params(bound(params), has_body),
            ", "@,
        ) + "): Result<Response, HttpError> {\n"@,
{
}

/// The identifier of a parameter is its own name in snake case, made unique against `query`, `body`,
/// `api`, `self` and the identifiers before it.
pub proof fn identifiers_are_the_parameters_names(bound: Seq<ParamView>, i: int)
    requires
        0 <= i < bound.len(),
    ensures
        identifiers(bound)[i] == unique_name(
            snake(bound[i].name),
            seq!["query"@, "body"@, "api"@, "self"@] + identifiers(bound).take(i),
        ),
        identifiers(bound)[i] != "query"@,
        identifiers(bound)[i] != "body"@,
        identifiers(bound)[i] != "api"@,
        identifiers(bound)[i] != "self"@,
    decreases bound.len(),
{
    let front = bound.drop_last();
    parameter_identifiers_do_not_collide(bound);
    parameter_identifiers_do_not_collide(front);
    let reserved = seq!["query"@, "body"@, "api"@, "self"@];
    assert(reserved_params() == reserved);
    assert(reserved[0] == "query"@ && reserved[1] == "body"@ && reserved[2] == "api"@ && reserved[3]
        == "self"@);
    let name = identifiers(bound)[i];
    assert(!reserved_params().contains(name));
    if i < front.len() {
        identifiers_are_the_parameters_names(front, i);
        identifiers_of_the_front(bound, i);
        assert(identifiers(bound).take(i) == identifiers(front).take(i));
    } else {
        assert(identifiers(bound).take(i) == identifiers(front));
    }
}

/// The name of a method is its operation's own, made unique against `new`, `base_url`, `api` and the
/// names before it.
pub proof fn method_names_are_the_operations_names(operations: Seq<OperationView>, i: int)
    requires
        0 <= i < operations.len(),
    ensures
        method_names(operations)[i] == unique_name(
            operations[i].name,
            seq!["new"@, "base_url"@, "api"@] + method_names(operations).take(i),
        ),
        method_names(operations)[i] != "new"@,
        method_names(operations)[i] != "base_url"@,
        method_names(operations)[i] != "api"@,
    decreases operations.len(),
{
    let front = operations.drop_last();
    method_names_do_not_collide(operations);
    method_names_do_not_collide(front);
    let reserved = seq!["new"@, "base_url"@, "api"@];
    assert(reserved_methods() == reserved);
    assert(reserved[0] == "new"@ && reserved[1] == "base_url"@ && reserved[2] == "api"@);
    assert(!reserved_methods().contains(method_names(operations)[i]));
    if i < front.len() {
        method_names_are_the_operations_names(front, i);
        assert(method_names(operations)[i] == method_names(front)[i]);
        assert(method_names(operations).take(i) == method_names(front).take(i));
    } else {
        assert(method_names(operations).take(i) == method_names(front));
    }
}

/// The comment lines of a summary, one for each line that is not blank.
pub open spec fn summary_lines(text: Seq<char>) -> Seq<Seq<char>> {
    split(text, '\n').map_values(
        |line: Seq<char>|
            if trimmed(line).len() == 0 {
                Seq::empty()
            } else {
                "// "@ + trimmed(line) + "\n"@
            },
    )
}

proof fn lines_are_written_in_turn(lines: Seq<Seq<char>>)
    ensures
        comment_lines(lines) == lines.map_values(
            |line: Seq<char>|
                if trimmed(line).len() == 0 {
                    Seq::empty()
                } else {
                    "// "@ + trimmed(line) + "\n"@
                },
        ).flatten_alt(),
    decreases lines.len(),
{
    let write = |line: Seq<char>|
        if trimmed(line).len() == 0 {
            Seq::empty()
        } else {
            "// "@ + trimmed(line) + "\n"@
        };
    let all = lines.map_values(write);
    if lines.len() > 0 {
        let front = lines.drop_last();
        lines_are_written_in_turn(front);
        assert(all.drop_last() == front.map_values(write));
        assert(all.last() == write(lines.last()));
        assert(comment_lines(front) + Seq::<char>::empty() == comment_lines(front));
        assert(comment_lines(front) + ("// "@ + trimmed(lines.last()) + "\n"@) == comment_lines(
            front,
        ) + "// "@ + trimmed(lines.last()) + "\n"@);
    }
}

/// The comment above a method is its summary, every line of it that is not blank; then the verb in
/// upper case and the path; and then, where there are optional parameters, a line with each of them
/// and its type.
pub proof fn comments_tell_what_a_method_is(op: OperationView)
    ensures
        ({
            let optional = op.params.filter(|p: ParamView| !p.required);
            let summary = match op.doc {
                Some(text) => summary_lines(text).flatten_alt(),
                None => Seq::empty(),
            };
            let keys = Seq::new(
                optional.len(),
                |i: int| one_line(optional[i].name) + " ("@ + optional[i].ty + ")"@,
            );
            method_comment(op) == summary + ("// "@ + uppercase(op.method) + " "@ + one_line(
                op.path,
            ) + "\n"@) + (if optional.len() == 0 {
                Seq::empty()
            } else {
                "// Optional query parameters, by key: "@ + joined(keys, ", "@) + "\n"@
            })
        }),
{
    let optional = op.params.filter(|p: ParamView| !p.required);
    let keys = Seq::new(
        optional.len(),
        |i: int| one_line(optional[i].name) + " ("@ + optional[i].ty + ")"@,
    );
    assert(optional_keys(op.params) == keys);
    match op.doc {
        Some(text) => {
            lines_are_written_in_turn(split(text, '\n'));
        },
        None => {},
    }
    let summary = doc_comment(op.doc);
    let line = "// "@ + uppercase(op.method) + " "@ + one_line(op.path) + "\n"@;
    assert(summary + "// "@ + uppercase(op.method) + " "@ + one_line(op.path) + "\n"@ == summary
        + line);
}

/// A line break is written as `\n`, wherever it stands, and what stands on either side is written on
/// its own.
pub proof fn line_breaks_are_spelled_out(a: Seq<char>, b: Seq<char>)
    ensures
        one_line(a + seq!['\n'] + b) == one_line(a) + seq!['\\', 'n'] + one_line(b),
{
    reveal_strlit("\\n");
    assert("\\n"@ == seq!['\\', 'n']);
    assert(a + seq!['\n'] + b == a.push('\n') + b);
    split_at_a_separator(a, '\n', b);
    split_is_undone_by_joining(a, '\n');
    split_is_undone_by_joining(b, '\n');
    joining_puts_the_separator_between(split(a, '\n'), split(b, '\n'), a, "\\n"@);
}

/// Each character is escaped by itself: a quote, a backslash and a dollar sign get a backslash before
/// them, a line break becomes `\n`, and every other character stays.
pub proof fn characters_are_escaped_one_by_one(c: char)
    ensures
        c == '"' || c == '\\' || c == '$' ==> escaped(seq![c]) == seq!['\\', c],
        c == '\n' ==> escaped(seq![c]) == seq!['\\', 'n'],
        c != '"' && c != '\\' && c != '$' && c != '\n' ==> escaped(seq![c]) == seq![c],
{
    assert(seq![c].drop_first() == Seq::<char>::empty());
    assert(escaped(seq![c].drop_first()) == Seq::<char>::empty());
    assert(escaped(seq![c]) == escaped_char(c) + Seq::<char>::empty());
}

/// The methods of a client, each with an empty line behind it.
pub open spec fn listed_methods(operations: Seq<OperationView>) -> Seq<Seq<char>> {
    Seq::new(
        operations.len(),
        |i: int| method_source(method_names(operations)[i], operations[i]) + seq!['\n'],
    )
}

proof fn methods_are_listed_in_turn(operations: Seq<OperationView>)
    ensures
        methods_source(operations) == listed_methods(operations).flatten_alt(),
    decreases operations.len(),
{
    reveal_strlit("\n");
    assert("\n"@ == seq!['\n']);
    if operations.len() > 0 {
        let front = operations.drop_last();
        let n = operations.len() - 1;
        methods_are_listed_in_turn(front);
        method_names_do_not_collide(operations);
        method_names_do_not_collide(front);
        let all = listed_methods(operations);
        assert(all.drop_last() == listed_methods(front)) by {
            assert forall|i: int| 0 <= i < front.len() implies all[i] == listed_methods(
                front,
            )[i] by {
                assert(method_names(operations)[i] == method_names(front)[i]);
                assert(operations[i] == front[i]);
            }
        }
        let last = method_source(method_names(operations)[n], operations[n]);
        assert(all.last() == last + seq!['\n']);
        assert(methods_source(front) + last + seq!['\n'] == methods_source(front) + (last + seq![
            '\n',
        ]));
    }
}

/// A client is the `api` field, the constructor of the declaration, the base URL where there is one,
/// and the methods of its operations, all of them and in order. The declaration is named by what
/// stands behind the last dot of its name, or by the name where it has none.
pub proof fn clients_are_their_members(target: Seq<char>, api: SpecView, name: Seq<char>)
    requires
        !name.contains('.'),
        target == name || exists|scope: Seq<char>| target == #[trigger] (scope + seq!['.'] + name),
    ensures
        client_source(target, api)
            == "// The middleware chain every generated call goes through. Generated rather than required\n// of you, so the constructor below can be generated too.\napi: Api\n\n"@
            + ("pub fn new(api: Api): "@ + name + " {\n    return "@ + name
            + " { api: api }\n}\n\n"@) + (match api.base_url {
            Some(url) =>
                "// The first server the spec names, so a client can be built without copying the URL.\npub fn base_url(): string {\n    return \""@
                + escaped(url) + "\"\n}\n\n"@,
            None => Seq::empty(),
        }) + listed_methods(api.operations).flatten_alt(),
{
    methods_are_listed_in_turn(api.operations);
    split_of_one_piece(name, '.');
    if target != name {
        let scope = choose|scope: Seq<char>| target == #[trigger] (scope + seq!['.'] + name);
        assert(target == scope.push('.') + name);
        split_at_a_separator(scope, '.', name);
        assert(split(target, '.').last() == name);
    } else {
        assert(split(target, '.').last() == name);
    }
    assert(bare_name(target) == name);
}

} // verus!
