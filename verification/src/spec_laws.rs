//! What holds of everything that is read out of a document.
use crate::codegen::bound;
use crate::json::{
    has_distinct_keys, keys_differ, lookup, members_have_distinct_keys,
    plain_tokens_stand_for_themselves, pointed, says, token_text, what_is_found_is_said, Tree,
};
use crate::names::{
    derived, derived_names_are_identifiers, is_identifier, snake, snake_gives_identifiers,
};
use crate::spec::{
    declared, declared_by, declared_by_all, described, described_by_text, effective, generated_type,
    is_optional_param, is_path_param, is_required_query_param, operation_of, operation_under,
    operations_at, operations_in, operations_under, ordered, params_in, placeholder, redeclared,
    resolved, same_parameter, verbs, In, Operation, OperationView, Param, ParamView, Spec, SpecView,
};
use crate::text::{
    occurs, split, split_at_a_separator, split_of_one_piece, what_occurs_has_two_sides,
};
use vstd::prelude::*;
use vstd::string::*;

verus! {

/// Whether two declarations have one name and one place.
pub open spec fn is_same(a: ParamView, b: ParamView) -> bool {
    a.name == b.name && a.loc == b.loc
}

/// Whether one of the declarations has the name and the place of the given one.
pub open spec fn is_again(param: ParamView, params: Seq<ParamView>) -> bool {
    exists|i: int| 0 <= i < params.len() && is_same(param, #[trigger] params[i])
}

proof fn repeating_is_redeclaring(param: ParamView, later: Seq<ParamView>)
    ensures
        is_again(param, later) == redeclared(param, later),
{
    if is_again(param, later) {
        let i = choose|i: int| 0 <= i < later.len() && is_same(param, #[trigger] later[i]);
        assert(same_parameter(param, later[i]));
    }
    if redeclared(param, later) {
        let i = choose|i: int| 0 <= i < later.len() && same_parameter(param, #[trigger] later[i]);
        assert(is_same(param, later[i]));
    }
}

/// Whether a text is one of the HTTP verbs that operations have.
pub open spec fn is_verb(method: Seq<char>) -> bool {
    ||| method == "get"@
    ||| method == "put"@
    ||| method == "post"@
    ||| method == "delete"@
    ||| method == "options"@
    ||| method == "head"@
    ||| method == "patch"@
    ||| method == "query"@
}

/// Where the operations of a verb stand among those of a path.
pub open spec fn verb_place(method: Seq<char>) -> int {
    if method == "get"@ {
        0
    } else if method == "put"@ {
        1
    } else if method == "post"@ {
        2
    } else if method == "delete"@ {
        3
    } else if method == "options"@ {
        4
    } else if method == "head"@ {
        5
    } else if method == "patch"@ {
        6
    } else {
        7
    }
}

proof fn verbs_are_the_verbs(method: Seq<char>)
    ensures
        is_verb(method) <==> verbs().contains(method),
{
    let all = verbs();
    assert(all.len() == 8);
    assert(all[0] == "get"@ && all[1] == "put"@ && all[2] == "post"@ && all[3] == "delete"@);
    assert(all[4] == "options"@ && all[5] == "head"@ && all[6] == "patch"@ && all[7] == "query"@);
}

/// Whether a path has a placeholder for a name.
pub open spec fn has_place_for(path: Seq<char>, name: Seq<char>) -> bool {
    exists|a: Seq<char>, b: Seq<char>| path == #[trigger] (a + (seq!['{'] + name + seq!['}']) + b)
}

proof fn places_are_placeholders(path: Seq<char>, name: Seq<char>)
    ensures
        has_place_for(path, name) <==> occurs(placeholder(name), path),
{
    reveal_strlit("{");
    reveal_strlit("}");
    assert(placeholder(name) == seq!['{'] + name + seq!['}']);
    what_occurs_has_two_sides(placeholder(name), path);
}

/// Whether a type is one that parameters are generated as.
pub open spec fn is_generated_type(ty: Seq<char>) -> bool {
    ty == "int"@ || ty == "float"@ || ty == "bool"@ || ty == "string"@
}

/// Whether a parameter fits its path: it has a type that parameters are generated as, and where it
/// is carried in the path it is required, and the path has a placeholder for it.
pub open spec fn fits(param: ParamView, path: Seq<char>) -> bool {
    &&& is_generated_type(param.ty)
    &&& param.loc == In::Path ==> param.required && has_place_for(path, param.name)
}

/// The group that a parameter belongs to, in the order in which signatures need them.
pub open spec fn rank(param: ParamView) -> int {
    if !param.required {
        2
    } else if param.loc == In::Path {
        0
    } else {
        1
    }
}

/// Whether no two of the parameters are the same one.
pub open spec fn are_distinct(params: Seq<ParamView>) -> bool {
    forall|i: int, j: int|
        0 <= i < j < params.len() ==> !is_same(#[trigger] params[i], #[trigger] params[j])
}

/// Whether the parameters stand in the order that signatures need.
pub open spec fn are_in_order(params: Seq<ParamView>) -> bool {
    forall|i: int, j: int|
        0 <= i < j < params.len() ==> rank(#[trigger] params[i]) <= rank(#[trigger] params[j])
}

/// Whether each of the parameters fits the path.
pub open spec fn all_fit(params: Seq<ParamView>, path: Seq<char>) -> bool {
    forall|i: int| 0 <= i < params.len() ==> fits(#[trigger] params[i], path)
}

/// Whether a method can be generated from an operation.
pub open spec fn is_callable(op: OperationView) -> bool {
    &&& is_verb(op.method)
    &&& is_identifier(op.name)
    &&& all_fit(op.params, op.path)
    &&& are_distinct(op.params)
    &&& are_in_order(op.params)
}

/// Whether each of the operations is callable.
pub open spec fn all_callable(operations: Seq<OperationView>) -> bool {
    forall|i: int| 0 <= i < operations.len() ==> is_callable(#[trigger] operations[i])
}

/// Whether a client can be generated: there is an operation, and all of them are callable.
pub open spec fn is_usable(api: SpecView) -> bool {
    api.operations.len() > 0 && all_callable(api.operations)
}

proof fn declared_parameters_fit(entries: Seq<Tree>, doc: Tree, path: Seq<char>)
    ensures
        declared_by_all(entries, doc, path) matches Ok(params) ==> all_fit(params, path),
    decreases entries.len(),
{
    if entries.len() > 0 {
        declared_parameters_fit(entries.drop_last(), doc, path);
        match (
            declared_by_all(entries.drop_last(), doc, path),
            declared_by(entries.last(), doc, path),
        ) {
            (Ok(before), Ok(Some(param))) => {
                places_are_placeholders(path, param.name);
                assert(fits(param, path));
                let params = before.push(param);
                assert forall|i: int| 0 <= i < params.len() implies fits(#[trigger] params[i], path) by {
                    if i < before.len() {
                        assert(params[i] == before[i]);
                    }
                }
            },
            _ => {},
        }
    }
}

proof fn listed_parameters_fit(list: Option<Tree>, doc: Tree, path: Seq<char>)
    ensures
        params_in(list, doc, path) matches Ok(params) ==> all_fit(params, path),
{
    match list {
        Some(Tree::List(entries)) => declared_parameters_fit(entries, doc, path),
        _ => {},
    }
}

/// Of several declarations of a parameter the last one wins: what stays in force are the
/// declarations that no later one repeats, each parameter stays in force, and none twice.
pub proof fn the_last_declaration_wins(params: Seq<ParamView>)
    ensures
        are_distinct(effective(params)),
        forall|i: int|
            0 <= i < params.len() && !is_again(params[i], params.skip(i + 1))
                ==> effective(params).contains(#[trigger] params[i]),
        forall|param: ParamView| #[trigger]
            effective(params).contains(param) ==> exists|i: int|
                0 <= i < params.len() && #[trigger] params[i] == param && !is_again(
                    param,
                    params.skip(i + 1),
                ),
        forall|i: int|
            0 <= i < params.len() ==> is_again(#[trigger] params[i], effective(params)),
    decreases params.len(),
{
    if params.len() > 0 {
        let first = params.first();
        let rest = params.drop_first();
        let kept = effective(rest);
        let all = effective(params);
        the_last_declaration_wins(rest);
        repeating_is_redeclaring(first, rest);
        let again = is_again(first, rest);
        let shift: int = if again { 0 } else { 1 };
        assert(all == if again { kept } else { seq![first] + kept });
        assert forall|i: int| 0 <= i < kept.len() implies #[trigger] kept[i] == all[i + shift] by {}
        assert(params.skip(1) == rest);
        assert forall|i: int| 0 < i < params.len() implies params.skip(i + 1) == #[trigger] rest.skip(i)
            && params[i] == rest[i - 1] by {}
        // Nothing is kept twice.
        assert forall|i: int, j: int| 0 <= i < j < all.len() implies !is_same(
            #[trigger] all[i],
            #[trigger] all[j],
        ) by {
            assert(all[j] == kept[j - shift]);
            if i >= shift {
                assert(all[i] == kept[i - shift]);
            } else if is_same(all[i], all[j]) {
                assert(kept.contains(kept[j - shift]));
                let k = choose|k: int|
                    0 <= k < rest.len() && #[trigger] rest[k] == kept[j - shift] && !is_again(
                        rest[k],
                        rest.skip(k + 1),
                    );
                assert(is_same(first, rest[k]));
            }
        }
        // A declaration that is not repeated is kept.
        assert forall|i: int|
            0 <= i < params.len() && !is_again(params[i], params.skip(i + 1)) implies all.contains(
            #[trigger] params[i],
        ) by {
            if i == 0 {
                assert(all[0] == first);
            } else {
                assert(params.skip(i + 1) == rest.skip(i));
                assert(!is_again(rest[i - 1], rest.skip((i - 1) + 1)));
                assert(kept.contains(rest[i - 1]));
                let k = choose|k: int| 0 <= k < kept.len() && kept[k] == rest[i - 1];
                assert(all[k + shift] == params[i]);
            }
        }
        // Nothing else is kept.
        assert forall|param: ParamView| #[trigger] all.contains(param) implies exists|i: int|
            0 <= i < params.len() && #[trigger] params[i] == param && !is_again(
                param,
                params.skip(i + 1),
            ) by {
            let k = choose|k: int| 0 <= k < all.len() && all[k] == param;
            if k < shift {
                assert(params[0] == param);
                assert(!is_again(param, params.skip(1)));
            } else {
                assert(kept[k - shift] == param);
                assert(kept.contains(param));
                let i = choose|i: int|
                    0 <= i < rest.len() && #[trigger] rest[i] == param && !is_again(
                        param,
                        rest.skip(i + 1),
                    );
                assert(params[i + 1] == param);
                assert(params.skip(i + 2) == rest.skip(i + 1));
                assert(!is_again(param, params.skip((i + 1) + 1)));
            }
        }
        // Every parameter stays.
        assert forall|i: int| 0 <= i < params.len() implies is_again(#[trigger] params[i], all) by {
            if i > 0 {
                assert(is_again(rest[i - 1], kept));
                let k = choose|k: int|
                    0 <= k < kept.len() && is_same(rest[i - 1], #[trigger] kept[k]);
                assert(is_same(params[i], all[k + shift]));
            } else if !again {
                assert(is_same(params[0], all[0]));
            } else {
                let j = choose|j: int| 0 <= j < rest.len() && is_same(first, #[trigger] rest[j]);
                assert(is_again(rest[j], kept));
                let k = choose|k: int|
                    0 <= k < kept.len() && is_same(rest[j], #[trigger] kept[k]);
                assert(is_same(params[0], all[k]));
            }
        }
    }
}

proof fn filtering_keeps_distinctness(params: Seq<ParamView>, pred: spec_fn(ParamView) -> bool)
    requires
        are_distinct(params),
    ensures
        are_distinct(params.filter(pred)),
    decreases params.len(),
{
    reveal(Seq::filter);
    if params.len() > 0 {
        let front = params.drop_last();
        assert forall|i: int, j: int| 0 <= i < j < front.len() implies !is_same(
            #[trigger] front[i],
            #[trigger] front[j],
        ) by {
            assert(front[i] == params[i] && front[j] == params[j]);
        }
        filtering_keeps_distinctness(front, pred);
        let kept = front.filter(pred);
        let all = params.filter(pred);
        if pred(params.last()) {
            assert(all == kept.push(params.last()));
            assert forall|i: int, j: int| 0 <= i < j < all.len() implies !is_same(
                #[trigger] all[i],
                #[trigger] all[j],
            ) by {
                assert(all[i] == kept[i]);
                if j < kept.len() {
                    assert(all[j] == kept[j]);
                } else {
                    assert(kept.contains(kept[i]));
                    front.lemma_filter_contains_rev(pred, kept[i]);
                    let k = choose|k: int| 0 <= k < front.len() && front[k] == kept[i];
                    assert(params[k] == kept[i]);
                    assert(params[params.len() - 1] == all[j]);
                }
            }
        } else {
            assert(all == kept);
        }
    }
}

/// Putting parameters in order loses none, adds none, and puts the ones that a call cannot do
/// without first: those of the path, then the required ones of the query.
pub proof fn ordering_only_moves_parameters(params: Seq<ParamView>)
    requires
        are_distinct(params),
    ensures
        are_in_order(ordered(params)),
        are_distinct(ordered(params)),
        ordered(params).len() == params.len(),
        forall|param: ParamView| #[trigger]
            ordered(params).contains(param) <==> params.contains(param),
{
    broadcast use vstd::seq_lib::group_filter_ensures;

    let on_path = |p: ParamView| is_path_param(p);
    let on_query = |p: ParamView| is_required_query_param(p);
    let left = |p: ParamView| is_optional_param(p);
    let (s, q, o) = (params.filter(on_path), params.filter(on_query), params.filter(left));
    let all = ordered(params);
    assert(all == s + q + o);
    assert forall|i: int| 0 <= i < all.len() implies rank(#[trigger] all[i]) == (if i < s.len() {
        0int
    } else if i < s.len() + q.len() {
        1int
    } else {
        2int
    }) by {
        if i < s.len() {
            assert(all[i] == s[i]);
            assert(on_path(s[i]));
        } else if i < s.len() + q.len() {
            assert(all[i] == q[i - s.len()]);
            assert(on_query(q[i - s.len()]));
        } else {
            assert(all[i] == o[i - s.len() - q.len()]);
            assert(left(o[i - s.len() - q.len()]));
        }
    }
    groups_cover(params);
    assert forall|i: int| 0 <= i < all.len() implies params.contains(#[trigger] all[i]) by {
        if i < s.len() {
            assert(s.contains(s[i]));
            params.lemma_filter_contains_rev(on_path, s[i]);
        } else if i < s.len() + q.len() {
            assert(q.contains(q[i - s.len()]));
            params.lemma_filter_contains_rev(on_query, q[i - s.len()]);
        } else {
            assert(o.contains(o[i - s.len() - q.len()]));
            params.lemma_filter_contains_rev(left, o[i - s.len() - q.len()]);
        }
    }
    assert forall|param: ParamView| #[trigger] all.contains(param) <==> params.contains(param) by {
        if params.contains(param) {
            let k = choose|k: int| 0 <= k < params.len() && params[k] == param;
            if on_path(param) {
                params.lemma_filter_contains(on_path, k);
                let i = choose|i: int| 0 <= i < s.len() && s[i] == param;
                assert(all[i] == param);
            } else if on_query(param) {
                params.lemma_filter_contains(on_query, k);
                let i = choose|i: int| 0 <= i < q.len() && q[i] == param;
                assert(all[s.len() + i] == param);
            } else {
                assert(param.loc == In::Path || param.loc == In::Query);
                params.lemma_filter_contains(left, k);
                let i = choose|i: int| 0 <= i < o.len() && o[i] == param;
                assert(all[s.len() + q.len() + i] == param);
            }
        }
    }
    filtering_keeps_distinctness(params, on_path);
    filtering_keeps_distinctness(params, on_query);
    filtering_keeps_distinctness(params, left);
    assert forall|i: int, j: int| 0 <= i < j < all.len() implies !is_same(
        #[trigger] all[i],
        #[trigger] all[j],
    ) by {
        if rank(all[i]) == rank(all[j]) {
            if j < s.len() {
                assert(!is_same(s[i], s[j]));
            } else if j < s.len() + q.len() {
                assert(!is_same(q[i - s.len()], q[j - s.len()]));
            } else {
                assert(!is_same(o[i - s.len() - q.len()], o[j - s.len() - q.len()]));
            }
        } else if is_same(all[i], all[j]) {
            let a = choose|a: int| 0 <= a < params.len() && params[a] == all[i];
            let b = choose|b: int| 0 <= b < params.len() && params[b] == all[j];
            assert(a != b);
            if a < b {
                assert(!is_same(params[a], params[b]));
            } else {
                assert(!is_same(params[b], params[a]));
            }
        }
    }
}

/// The three groups together are as many as the parameters.
proof fn groups_cover(params: Seq<ParamView>)
    ensures
        ordered(params).len() == params.len(),
    decreases params.len(),
{
    reveal(Seq::filter);
    if params.len() > 0 {
        groups_cover(params.drop_last());
        assert(params.last().loc == In::Path || params.last().loc == In::Query);
    }
}

pub proof fn verbs_are_identifiers(method: Seq<char>)
    requires
        is_verb(method),
    ensures
        is_identifier(method),
{
    reveal_strlit("get");
    reveal_strlit("put");
    reveal_strlit("post");
    reveal_strlit("delete");
    reveal_strlit("options");
    reveal_strlit("head");
    reveal_strlit("patch");
    reveal_strlit("query");
}

/// The parameters of an operation are those in force at it, moved into order: each parameter that is
/// declared for the path or for the operation is there, once; a declaration of the operation's own
/// that it does not repeat is there as it stands, whatever the path declares; and so is one of the
/// path's that neither repeats.
pub proof fn an_operation_has_the_parameters_in_force(
    method: Seq<char>,
    path: Seq<char>,
    op: Seq<(Seq<char>, Tree)>,
    shared: Seq<ParamView>,
    own: Seq<ParamView>,
)
    ensures
        ({
            let params = operation_of(method, path, op, shared + own).params;
            &&& are_distinct(params)
            &&& are_in_order(params)
            &&& forall|i: int| 0 <= i < shared.len() ==> is_again(#[trigger] shared[i], params)
            &&& forall|i: int| 0 <= i < own.len() ==> is_again(#[trigger] own[i], params)
            &&& forall|i: int|
                0 <= i < own.len() && !is_again(own[i], own.skip(i + 1)) ==> params.contains(
                    #[trigger] own[i],
                )
            &&& forall|i: int|
                0 <= i < shared.len() && !is_again(shared[i], shared.skip(i + 1)) && !is_again(
                    shared[i],
                    own,
                ) ==> params.contains(#[trigger] shared[i])
            &&& forall|param: ParamView| #[trigger]
                params.contains(param) ==> shared.contains(param) || own.contains(param)
        }),
{
    let all = shared + own;
    let kept = effective(all);
    let params = operation_of(method, path, op, all).params;
    the_last_declaration_wins(all);
    ordering_only_moves_parameters(kept);
    assert forall|i: int| 0 <= i < all.len() implies is_again(#[trigger] all[i], params) by {
        assert(is_again(all[i], kept));
        let k = choose|k: int| 0 <= k < kept.len() && is_same(all[i], #[trigger] kept[k]);
        assert(kept.contains(kept[k]));
        assert(params.contains(kept[k]));
        let j = choose|j: int| 0 <= j < params.len() && params[j] == kept[k];
        assert(is_same(all[i], params[j]));
    }
    assert forall|i: int| 0 <= i < shared.len() implies is_again(#[trigger] shared[i], params) by {
        assert(all[i] == shared[i]);
    }
    assert forall|i: int| 0 <= i < own.len() implies is_again(#[trigger] own[i], params) by {
        assert(all[shared.len() + i] == own[i]);
    }
    assert forall|i: int|
        0 <= i < own.len() && !is_again(own[i], own.skip(i + 1)) implies params.contains(
        #[trigger] own[i],
    ) by {
        assert(all[shared.len() + i] == own[i]);
        assert(all.skip(shared.len() + i + 1) == own.skip(i + 1));
        assert(kept.contains(own[i]));
    }
    assert forall|i: int|
        0 <= i < shared.len() && !is_again(shared[i], shared.skip(i + 1)) && !is_again(
            shared[i],
            own,
        ) implies params.contains(#[trigger] shared[i]) by {
        assert(all[i] == shared[i]);
        let later = all.skip(i + 1);
        assert(later == shared.skip(i + 1) + own);
        if is_again(shared[i], later) {
            let k = choose|k: int|
                0 <= k < later.len() && is_same(shared[i], #[trigger] later[k]);
            if k < shared.skip(i + 1).len() {
                assert(is_same(shared[i], shared.skip(i + 1)[k]));
            } else {
                assert(is_same(shared[i], own[k - shared.skip(i + 1).len()]));
            }
        }
        assert(kept.contains(shared[i]));
    }
    assert forall|param: ParamView| #[trigger] params.contains(param) implies shared.contains(param)
        || own.contains(param) by {
        assert(kept.contains(param));
        let k = choose|k: int|
            0 <= k < all.len() && #[trigger] all[k] == param && !is_again(param, all.skip(k + 1));
        if k < shared.len() {
            assert(shared[k] == param);
        } else {
            assert(own[k - shared.len()] == param);
        }
    }
}

proof fn built_operations_are_callable(
    method: Seq<char>,
    path: Seq<char>,
    op: Seq<(Seq<char>, Tree)>,
    shared: Seq<ParamView>,
    own: Seq<ParamView>,
)
    requires
        is_verb(method),
        all_fit(shared, path),
        all_fit(own, path),
    ensures
        is_callable(operation_of(method, path, op, shared + own)),
{
    let built = operation_of(method, path, op, shared + own);
    an_operation_has_the_parameters_in_force(method, path, op, shared, own);
    verbs_are_identifiers(method);
    match Tree::Object(op).text_member("operationId"@) {
        Some(id) => snake_gives_identifiers(id),
        None => derived_names_are_identifiers(method, path),
    }
    assert forall|i: int| 0 <= i < built.params.len() implies fits(
        #[trigger] built.params[i],
        path,
    ) by {
        let param = built.params[i];
        assert(built.params.contains(param));
        if shared.contains(param) {
            let k = choose|k: int| 0 <= k < shared.len() && shared[k] == param;
            assert(fits(shared[k], path));
        } else {
            let k = choose|k: int| 0 <= k < own.len() && own[k] == param;
            assert(fits(own[k], path));
        }
    }
}

proof fn operations_under_verbs_are_callable(
    methods: Seq<Seq<char>>,
    path: Seq<char>,
    item: Tree,
    shared: Seq<ParamView>,
    doc: Tree,
)
    requires
        forall|i: int| 0 <= i < methods.len() ==> verbs().contains(#[trigger] methods[i]),
        all_fit(shared, path),
    ensures
        operations_under(methods, path, item, shared, doc) matches Ok(operations) ==> all_callable(
            operations,
        ),
    decreases methods.len(),
{
    if methods.len() > 0 {
        let front = methods.drop_last();
        assert forall|i: int| 0 <= i < front.len() implies verbs().contains(#[trigger] front[i]) by {
            assert(front[i] == methods[i]);
        }
        operations_under_verbs_are_callable(front, path, item, shared, doc);
        let method = methods[methods.len() - 1];
        verbs_are_the_verbs(method);
        match item.member(method) {
            Some(Tree::Object(op)) => {
                let list = lookup(op, "parameters"@);
                listed_parameters_fit(list, doc, path);
                match params_in(list, doc, path) {
                    Ok(own) => built_operations_are_callable(method, path, op, shared, own),
                    Err(_) => {},
                }
            },
            _ => {},
        }
    }
}

proof fn operations_of_a_path_are_callable(path: Seq<char>, item: Tree, doc: Tree)
    ensures
        operations_at(path, item, doc) matches Ok(operations) ==> all_callable(operations),
{
    match item {
        Tree::Object(members) => {
            let list = lookup(members, "parameters"@);
            listed_parameters_fit(list, doc, path);
            match params_in(list, doc, path) {
                Ok(shared) => {
                    assert forall|i: int| 0 <= i < verbs().len() implies verbs().contains(
                        #[trigger] verbs()[i],
                    ) by {}
                    operations_under_verbs_are_callable(verbs(), path, item, shared, doc);
                },
                Err(_) => {},
            }
        },
        _ => {},
    }
}

proof fn operations_of_all_paths_are_callable(paths: Seq<(Seq<char>, Tree)>, doc: Tree)
    ensures
        operations_in(paths, doc) matches Ok(operations) ==> all_callable(operations),
    decreases paths.len(),
{
    if paths.len() > 0 {
        operations_of_all_paths_are_callable(paths.drop_last(), doc);
        operations_of_a_path_are_callable(paths.last().0, paths.last().1, doc);
    }
}

/// Whatever is read out of a document can be generated: there is an operation; every operation has
/// one of the verbs and an identifier for a name; its parameters have types that can be generated,
/// and those of the path are required and stand in the path; no parameter is there twice; and those of the path come first, then the required ones of
/// the query, then the optional ones.
pub proof fn what_is_described_is_usable(doc: Tree)
    ensures
        described(doc) matches Ok(api) ==> is_usable(api),
{
    match doc.member("paths"@) {
        Some(Tree::Object(paths)) => operations_of_all_paths_are_callable(paths, doc),
        _ => {},
    }
}

proof fn errors_under_a_verb_surface(
    methods: Seq<Seq<char>>,
    path: Seq<char>,
    item: Tree,
    shared: Seq<ParamView>,
    doc: Tree,
    k: int,
)
    requires
        0 <= k < methods.len(),
    ensures
        operation_under(methods[k], path, item, shared, doc) is Err ==> operations_under(
            methods,
            path,
            item,
            shared,
            doc,
        ) is Err,
        operations_under(methods, path, item, shared, doc) matches Ok(operations) ==> (
        operation_under(methods[k], path, item, shared, doc) matches Ok(Some(op))
            ==> operations.contains(op)),
    decreases methods.len(),
{
    let front = methods.drop_last();
    if k < front.len() {
        assert(front[k] == methods[k]);
        errors_under_a_verb_surface(front, path, item, shared, doc, k);
        match (
            operations_under(front, path, item, shared, doc),
            operation_under(methods[k], path, item, shared, doc),
            operation_under(methods.last(), path, item, shared, doc),
        ) {
            (Ok(before), Ok(Some(op)), Ok(Some(last))) => {
                let i = choose|i: int| 0 <= i < before.len() && before[i] == op;
                assert(before.push(last)[i] == op);
            },
            _ => {},
        }
    } else {
        match (
            operations_under(front, path, item, shared, doc),
            operation_under(methods.last(), path, item, shared, doc),
        ) {
            (Ok(before), Ok(Some(last))) => {
                assert(before.push(last)[before.len() as int] == last);
            },
            _ => {},
        }
    }
}

proof fn errors_at_a_path_surface(paths: Seq<(Seq<char>, Tree)>, doc: Tree, k: int)
    requires
        0 <= k < paths.len(),
    ensures
        operations_at(paths[k].0, paths[k].1, doc) is Err ==> operations_in(paths, doc) is Err,
        operations_in(paths, doc) matches Ok(operations) ==> (operations_at(
            paths[k].0,
            paths[k].1,
            doc,
        ) matches Ok(here) ==> forall|op: OperationView| #[trigger]
            here.contains(op) ==> operations.contains(op)),
    decreases paths.len(),
{
    let front = paths.drop_last();
    match (
        operations_in(front, doc),
        operations_at(paths.last().0, paths.last().1, doc),
        operations_at(paths[k].0, paths[k].1, doc),
    ) {
        (Ok(before), Ok(last), Ok(here)) => {
            let all = before + last;
            if k < front.len() {
                assert(front[k] == paths[k]);
                errors_at_a_path_surface(front, doc, k);
            }
            assert forall|op: OperationView| #[trigger] here.contains(op) implies all.contains(
                op,
            ) by {
                if k < front.len() {
                    assert(before.contains(op));
                    let i = choose|i: int| 0 <= i < before.len() && before[i] == op;
                    assert(all[i] == op);
                } else {
                    let i = choose|i: int| 0 <= i < last.len() && last[i] == op;
                    assert(all[before.len() + i] == op);
                }
            }
        },
        _ => {
            if k < front.len() {
                assert(front[k] == paths[k]);
                errors_at_a_path_surface(front, doc, k);
            }
        },
    }
}

/// No operation is lost: where a client is made at all, each verb of each path that holds an object
/// is in it, with the path's parameters before its own.
pub proof fn every_operation_is_read(
    doc: Tree,
    paths: Seq<(Seq<char>, Tree)>,
    k: int,
    item: Seq<(Seq<char>, Tree)>,
    method: Seq<char>,
    op: Seq<(Seq<char>, Tree)>,
)
    requires
        doc.member("paths"@) == Some(Tree::Object(paths)),
        0 <= k < paths.len(),
        paths[k].1 == Tree::Object(item),
        is_verb(method),
        lookup(item, method) == Some(Tree::Object(op)),
    ensures
        described(doc) matches Ok(api) ==> {
            let path = paths[k].0;
            &&& params_in(lookup(item, "parameters"@), doc, path) matches Ok(shared)
            &&& params_in(lookup(op, "parameters"@), doc, path) matches Ok(own)
            &&& api.operations.contains(operation_of(method, path, op, shared + own))
        },
{
    let path = paths[k].0;
    errors_at_a_path_surface(paths, doc, k);
    match params_in(lookup(item, "parameters"@), doc, path) {
        Ok(shared) => {
            verbs_are_the_verbs(method);
            let v = choose|v: int| 0 <= v < verbs().len() && verbs()[v] == method;
            errors_under_a_verb_surface(verbs(), path, paths[k].1, shared, doc, v);
        },
        Err(_) => {},
    }
}

proof fn operations_under_verbs_come_from_them(
    methods: Seq<Seq<char>>,
    path: Seq<char>,
    item: Tree,
    shared: Seq<ParamView>,
    doc: Tree,
    op: OperationView,
)
    requires
        operations_under(methods, path, item, shared, doc) matches Ok(operations)
            && operations.contains(op),
    ensures
        op.path == path,
        exists|v: int|
            0 <= v < methods.len() && operation_under(
                #[trigger] methods[v],
                path,
                item,
                shared,
                doc,
            ) == Ok::<Option<OperationView>, Seq<char>>(Some(op)),
    decreases methods.len(),
{
    let operations = operations_under(methods, path, item, shared, doc)->Ok_0;
    if methods.len() > 0 {
        let front = methods.drop_last();
        let before = operations_under(front, path, item, shared, doc)->Ok_0;
        let i = choose|i: int| 0 <= i < operations.len() && operations[i] == op;
        if i < before.len() {
            assert(before[i] == op);
            operations_under_verbs_come_from_them(front, path, item, shared, doc, op);
            let v = choose|v: int|
                0 <= v < front.len() && operation_under(
                    #[trigger] front[v],
                    path,
                    item,
                    shared,
                    doc,
                ) == Ok::<Option<OperationView>, Seq<char>>(Some(op));
            assert(methods[v] == front[v]);
        } else {
            assert(operation_under(methods[methods.len() - 1], path, item, shared, doc) == Ok::<
                Option<OperationView>,
                Seq<char>,
            >(Some(op)));
        }
    }
}

/// A parameter that a path declares reaches every operation under it.
pub proof fn path_level_parameters_reach_every_operation(
    path: Seq<char>,
    item: Seq<(Seq<char>, Tree)>,
    doc: Tree,
)
    ensures
        operations_at(path, Tree::Object(item), doc) matches Ok(operations) ==> {
            &&& params_in(lookup(item, "parameters"@), doc, path) matches Ok(shared)
            &&& forall|i: int, j: int|
                0 <= i < operations.len() && 0 <= j < shared.len() ==> is_again(
                    #[trigger] shared[j],
                    (#[trigger] operations[i]).params,
                )
        },
{
    let whole = Tree::Object(item);
    match operations_at(path, whole, doc) {
        Ok(operations) => {
            let shared = params_in(lookup(item, "parameters"@), doc, path)->Ok_0;
            assert forall|i: int, j: int|
                0 <= i < operations.len() && 0 <= j < shared.len() implies is_again(
                #[trigger] shared[j],
                (#[trigger] operations[i]).params,
            ) by {
                let op = operations[i];
                assert(operations.contains(op));
                operations_under_verbs_come_from_them(verbs(), path, whole, shared, doc, op);
                let v = choose|v: int|
                    0 <= v < verbs().len() && operation_under(
                        #[trigger] verbs()[v],
                        path,
                        whole,
                        shared,
                        doc,
                    ) == Ok::<Option<OperationView>, Seq<char>>(Some(op));
                let members = lookup(item, verbs()[v])->0->Object_0;
                let own = params_in(lookup(members, "parameters"@), doc, path)->Ok_0;
                an_operation_has_the_parameters_in_force(verbs()[v], path, members, shared, own);
            }
        },
        Err(_) => {},
    }
}

/// An entry that cannot be read is never dropped: it fails the list that it stands in.
pub proof fn a_bad_entry_fails_its_list(entries: Seq<Tree>, doc: Tree, path: Seq<char>, i: int)
    requires
        0 <= i < entries.len(),
        declared_by(entries[i], doc, path) is Err,
    ensures
        params_in(Some(Tree::List(entries)), doc, path) is Err,
    decreases entries.len(),
{
    let front = entries.drop_last();
    if i < front.len() {
        assert(front[i] == entries[i]);
        a_bad_entry_fails_its_list(front, doc, path, i);
    }
}

/// Where the parameters that a path declares cannot be read, no client is made that lacks one of
/// them: the whole document fails.
pub proof fn a_bad_list_of_a_path_fails_the_document(
    doc: Tree,
    paths: Seq<(Seq<char>, Tree)>,
    k: int,
    item: Seq<(Seq<char>, Tree)>,
)
    requires
        doc.member("paths"@) == Some(Tree::Object(paths)),
        0 <= k < paths.len(),
        paths[k].1 == Tree::Object(item),
        params_in(lookup(item, "parameters"@), doc, paths[k].0) is Err,
    ensures
        described(doc) is Err,
{
    errors_at_a_path_surface(paths, doc, k);
}

/// Where the parameters that an operation declares cannot be read, the whole document fails too.
pub proof fn a_bad_list_of_an_operation_fails_the_document(
    doc: Tree,
    paths: Seq<(Seq<char>, Tree)>,
    k: int,
    item: Seq<(Seq<char>, Tree)>,
    method: Seq<char>,
    op: Seq<(Seq<char>, Tree)>,
)
    requires
        doc.member("paths"@) == Some(Tree::Object(paths)),
        0 <= k < paths.len(),
        paths[k].1 == Tree::Object(item),
        is_verb(method),
        lookup(item, method) == Some(Tree::Object(op)),
        params_in(lookup(op, "parameters"@), doc, paths[k].0) is Err,
    ensures
        described(doc) is Err,
{
    every_operation_is_read(doc, paths, k, item, method, op);
}

/// A reference to another file is refused, wherever it stands.
pub proof fn references_to_other_files_are_refused(
    entry: Tree,
    doc: Tree,
    path: Seq<char>,
    reference: Seq<char>,
)
    requires
        entry.text_member("$ref"@) == Some(reference),
        reference.len() == 0 || reference.first() != '#',
    ensures
        resolved(entry, doc) is Err,
        declared_by(entry, doc, path) is Err,
{
}

/// A reference to one of the document's own parameters stands for that parameter, or fails where
/// there is none.
pub proof fn references_lead_to_components(entry: Tree, doc: Tree, kind: Tree, key: Seq<char>)
    requires
        entry.text_member("$ref"@) == Some("#/components/parameters/"@ + key),
        !key.contains('/'),
        !key.contains('~'),
        doc.descend(seq!["components"@, "parameters"@]) == Some(kind),
        kind is Object,
    ensures
        match kind.member(key) {
            Some(target) => resolved(entry, doc) == Ok::<Tree, Seq<char>>(target),
            None => resolved(entry, doc) is Err,
        },
{
    let reference = "#/components/parameters/"@ + key;
    let pointer = reference.drop_first();
    let keys = seq!["components"@, "parameters"@, key];
    reveal_strlit("#/components/parameters/");
    reveal_strlit("components");
    reveal_strlit("parameters");
    let none = Seq::<char>::empty();
    let parameters = "parameters"@.push('/') + key;
    let components = "components"@.push('/') + parameters;
    assert(pointer == none.push('/') + components);
    split_at_a_separator(none, '/', components);
    split_at_a_separator("components"@, '/', parameters);
    split_at_a_separator("parameters"@, '/', key);
    split_of_one_piece(none, '/');
    split_of_one_piece("components"@, '/');
    split_of_one_piece("parameters"@, '/');
    split_of_one_piece(key, '/');
    assert(split(pointer, '/').drop_first() == keys);
    plain_tokens_stand_for_themselves("components"@);
    plain_tokens_stand_for_themselves("parameters"@);
    plain_tokens_stand_for_themselves(key);
    assert(keys.map_values(|token: Seq<char>| token_text(token)) == keys);
    let two = seq!["components"@, "parameters"@];
    assert(two.drop_first() == seq!["parameters"@]);
    assert(two.drop_first().drop_first() == Seq::<Seq<char>>::empty());
    assert(keys.drop_first() == seq!["parameters"@, key]);
    assert(keys.drop_first().drop_first() == seq![key]);
    assert(keys.drop_first().drop_first().drop_first() == Seq::<Seq<char>>::empty());
    reveal_with_fuel(Tree::descend, 4);
    assert(doc.descend(keys) == kind.member(key));
}

proof fn lookup_ignores_later_members(
    members: Seq<(Seq<char>, Tree)>,
    key: Seq<char>,
    value: Tree,
    other: Seq<char>,
)
    requires
        key != other,
    ensures
        lookup(members.push((key, value)), other) == lookup(members, other),
    decreases members.len(),
{
    let more = members.push((key, value));
    if members.len() > 0 {
        assert(more.drop_first() == members.drop_first().push((key, value)));
        assert(more.first() == members.first());
        lookup_ignores_later_members(members.drop_first(), key, value, other);
    } else {
        assert(lookup(more.drop_first(), other) is None);
    }
}

proof fn unread_keys_leave_verbs_alone(
    methods: Seq<Seq<char>>,
    path: Seq<char>,
    item: Seq<(Seq<char>, Tree)>,
    key: Seq<char>,
    value: Tree,
    shared: Seq<ParamView>,
    doc: Tree,
)
    requires
        !methods.contains(key),
    ensures
        operations_under(methods, path, Tree::Object(item.push((key, value))), shared, doc)
            == operations_under(methods, path, Tree::Object(item), shared, doc),
    decreases methods.len(),
{
    if methods.len() > 0 {
        let front = methods.drop_last();
        assert(methods[methods.len() - 1] != key);
        assert(!front.contains(key)) by {
            assert forall|i: int| 0 <= i < front.len() implies front[i] != key by {
                assert(front[i] == methods[i]);
            }
        }
        unread_keys_leave_verbs_alone(front, path, item, key, value, shared, doc);
        lookup_ignores_later_members(item, key, value, methods.last());
    }
}

/// A key of a path item that is neither a verb nor `parameters` changes nothing.
pub proof fn unread_keys_of_a_path_are_ignored(
    path: Seq<char>,
    item: Seq<(Seq<char>, Tree)>,
    key: Seq<char>,
    value: Tree,
    doc: Tree,
)
    requires
        key != "parameters"@,
        !is_verb(key),
    ensures
        operations_at(path, Tree::Object(item.push((key, value))), doc) == operations_at(
            path,
            Tree::Object(item),
            doc,
        ),
{
    verbs_are_the_verbs(key);
    lookup_ignores_later_members(item, key, value, "parameters"@);
    match params_in(lookup(item, "parameters"@), doc, path) {
        Ok(shared) => unread_keys_leave_verbs_alone(verbs(), path, item, key, value, shared, doc),
        Err(_) => {},
    }
}

/// A key of an operation that the generator does not read changes nothing.
pub proof fn unread_keys_of_an_operation_are_ignored(
    method: Seq<char>,
    path: Seq<char>,
    op: Seq<(Seq<char>, Tree)>,
    key: Seq<char>,
    value: Tree,
    params: Seq<ParamView>,
)
    requires
        key != "operationId"@,
        key != "parameters"@,
        key != "requestBody"@,
        key != "summary"@,
        key != "description"@,
    ensures
        operation_of(method, path, op.push((key, value)), params) == operation_of(
            method,
            path,
            op,
            params,
        ),
        lookup(op.push((key, value)), "parameters"@) == lookup(op, "parameters"@),
{
    lookup_ignores_later_members(op, key, value, "operationId"@);
    lookup_ignores_later_members(op, key, value, "parameters"@);
    lookup_ignores_later_members(op, key, value, "requestBody"@);
    lookup_ignores_later_members(op, key, value, "summary"@);
    lookup_ignores_later_members(op, key, value, "description"@);
}

proof fn filtering_skips_what_is_left_out(
    param: ParamView,
    rest: Seq<ParamView>,
    pred: spec_fn(ParamView) -> bool,
)
    requires
        !pred(param),
    ensures
        (seq![param] + rest).filter(pred) == rest.filter(pred),
{
    Seq::filter_distributes_over_add(seq![param], rest, pred);
    seq![param].lemma_all_neg_filter_empty(pred);
    assert(seq![param].filter(pred) == Seq::<ParamView>::empty());
    assert(Seq::<ParamView>::empty() + rest.filter(pred) == rest.filter(pred));
}

proof fn another_parameter_leaves_the_others(
    before: Seq<ParamView>,
    param: ParamView,
    after: Seq<ParamView>,
    pred: spec_fn(ParamView) -> bool,
)
    requires
        !pred(param),
        !is_again(param, before),
        !is_again(param, after),
    ensures
        effective(before + seq![param] + after).filter(pred) == effective(before + after).filter(
            pred,
        ),
    decreases before.len(),
{
    let with = before + seq![param] + after;
    let without = before + after;
    if before.len() == 0 {
        assert(with.drop_first() == after);
        assert(without == after);
        repeating_is_redeclaring(param, after);
        filtering_skips_what_is_left_out(param, effective(after), pred);
    } else {
        let first = before.first();
        let rest = before.drop_first();
        assert(with.drop_first() == rest + seq![param] + after);
        assert(without.drop_first() == rest + after);
        assert(!is_again(param, rest)) by {
            if is_again(param, rest) {
                let k = choose|k: int| 0 <= k < rest.len() && is_same(param, #[trigger] rest[k]);
                assert(is_same(param, before[k + 1]));
            }
        }
        another_parameter_leaves_the_others(rest, param, after, pred);
        let longer = rest + seq![param] + after;
        let shorter = rest + after;
        repeating_is_redeclaring(first, longer);
        repeating_is_redeclaring(first, shorter);
        assert(!is_same(first, param)) by {
            if is_same(first, param) {
                assert(is_same(param, before[0]));
            }
        }
        assert(is_again(first, longer) == is_again(first, shorter)) by {
            if is_again(first, longer) {
                let k = choose|k: int|
                    0 <= k < longer.len() && is_same(first, #[trigger] longer[k]);
                assert(k != rest.len());
                assert(longer[k] == shorter[if k < rest.len() { k } else { k - 1 }]);
            }
            if is_again(first, shorter) {
                let k = choose|k: int|
                    0 <= k < shorter.len() && is_same(first, #[trigger] shorter[k]);
                assert(shorter[k] == longer[if k < rest.len() { k } else { k + 1 }]);
            }
        }
        if !is_again(first, longer) {
            Seq::filter_distributes_over_add(seq![first], effective(longer), pred);
            Seq::filter_distributes_over_add(seq![first], effective(shorter), pred);
        }
    }
}

/// An optional parameter that is added to a spec, wherever it stands, moves none of the required
/// ones.
pub proof fn an_optional_parameter_moves_nothing(
    before: Seq<ParamView>,
    param: ParamView,
    after: Seq<ParamView>,
)
    requires
        !param.required,
        !is_again(param, before),
        !is_again(param, after),
    ensures
        bound(ordered(effective(before + seq![param] + after))) == bound(
            ordered(effective(before + after)),
        ),
{
    let on_path = |p: ParamView| is_path_param(p);
    let on_query = |p: ParamView| is_required_query_param(p);
    another_parameter_leaves_the_others(before, param, after, on_path);
    another_parameter_leaves_the_others(before, param, after, on_query);
    required_parameters_of(effective(before + seq![param] + after));
    required_parameters_of(effective(before + after));
}

proof fn required_parameters_of(params: Seq<ParamView>)
    ensures
        bound(ordered(params)) == params.filter(|p: ParamView| is_path_param(p)) + params.filter(
            |p: ParamView| is_required_query_param(p),
        ),
{
    broadcast use vstd::seq_lib::group_filter_ensures;

    let on_path = |p: ParamView| is_path_param(p);
    let on_query = |p: ParamView| is_required_query_param(p);
    let left = |p: ParamView| is_optional_param(p);
    let required = |p: ParamView| p.required;
    let (s, q, o) = (params.filter(on_path), params.filter(on_query), params.filter(left));
    Seq::filter_distributes_over_add(s + q, o, required);
    Seq::filter_distributes_over_add(s, q, required);
    assert forall|i: int| 0 <= i < s.len() implies required(#[trigger] s[i]) by {
        assert(on_path(s[i]));
    }
    assert forall|i: int| 0 <= i < q.len() implies required(#[trigger] q[i]) by {
        assert(on_query(q[i]));
    }
    assert forall|i: int| 0 <= i < o.len() implies !required(#[trigger] o[i]) by {
        assert(left(o[i]));
    }
    filtering_keeps_all(s, required);
    filtering_keeps_all(q, required);
    o.lemma_all_neg_filter_empty(required);
    assert(s + q + Seq::<ParamView>::empty() == s + q);
    assert(o.filter(required) == Seq::<ParamView>::empty());
}

proof fn filtering_keeps_all(params: Seq<ParamView>, pred: spec_fn(ParamView) -> bool)
    requires
        forall|i: int| 0 <= i < params.len() ==> pred(#[trigger] params[i]),
    ensures
        params.filter(pred) == params,
    decreases params.len(),
{
    reveal(Seq::filter);
    if params.len() > 0 {
        let front = params.drop_last();
        assert forall|i: int| 0 <= i < front.len() implies pred(#[trigger] front[i]) by {
            assert(front[i] == params[i]);
        }
        filtering_keeps_all(front, pred);
        assert(pred(params[params.len() - 1]));
        assert(front.push(params.last()) == params);
    }
}

/// Operations come in the order of the document: those of later paths stand behind those of earlier
/// ones.
pub proof fn operations_follow_the_document(
    earlier: Seq<(Seq<char>, Tree)>,
    later: Seq<(Seq<char>, Tree)>,
    doc: Tree,
)
    ensures
        operations_in(earlier + later, doc) matches Ok(all) ==> {
            &&& operations_in(earlier, doc) matches Ok(first)
            &&& operations_in(later, doc) matches Ok(second)
            &&& all == first + second
        },
    decreases later.len(),
{
    let paths = earlier + later;
    if later.len() == 0 {
        assert(paths == earlier);
        if operations_in(paths, doc) is Ok {
            let all = operations_in(paths, doc)->Ok_0;
            assert(all + Seq::<OperationView>::empty() == all);
        }
    } else {
        assert(paths.drop_last() == earlier + later.drop_last());
        operations_follow_the_document(earlier, later.drop_last(), doc);
        if operations_in(paths, doc) is Ok {
            let first = operations_in(earlier, doc)->Ok_0;
            let second = operations_in(later.drop_last(), doc)->Ok_0;
            let last = operations_at(later.last().0, later.last().1, doc)->Ok_0;
            assert(first + second + last == first + (second + last));
        }
    }
}

/// Whether an operation carries a body is for its `requestBody` to say, and not for its verb.
pub proof fn bodies_do_not_depend_on_the_verb(
    method: Seq<char>,
    path: Seq<char>,
    op: Seq<(Seq<char>, Tree)>,
    params: Seq<ParamView>,
)
    ensures
        operation_of(method, path, op, params).has_body <==> lookup(op, "requestBody"@) is Some,
{
}

/// A parameter that is carried in a header or in a cookie is ignored.
pub proof fn headers_and_cookies_are_ignored(entry: Tree, path: Seq<char>)
    requires
        entry.text_member("in"@) == Some("header"@) || entry.text_member("in"@) == Some("cookie"@),
    ensures
        declared(entry, path) == Ok::<Option<ParamView>, Seq<char>>(None),
{
    reveal_strlit("header");
    reveal_strlit("cookie");
    reveal_strlit("path");
    reveal_strlit("query");
    assert("header"@.len() != "path"@.len());
    assert("header"@.len() != "query"@.len());
    assert("cookie"@.len() != "path"@.len());
    assert("cookie"@.len() != "query"@.len());
}

/// Whether no two operations are the same verb of the same path.
pub open spec fn each_call_once(operations: Seq<OperationView>) -> bool {
    forall|i: int, j: int|
        0 <= i < j < operations.len() ==> (#[trigger] operations[i]).path != (
        #[trigger] operations[j]).path || operations[i].method != operations[j].method
}

proof fn verbs_differ()
    ensures
        forall|i: int, j: int|
            0 <= i < j < verbs().len() ==> #[trigger] verbs()[i] != #[trigger] verbs()[j],
{
    reveal_strlit("get");
    reveal_strlit("put");
    reveal_strlit("post");
    reveal_strlit("delete");
    reveal_strlit("options");
    reveal_strlit("head");
    reveal_strlit("patch");
    reveal_strlit("query");
    let all = verbs();
    assert(all[0][0] == 'g');
    assert(all[1][1] == 'u');
    assert(all[2][1] == 'o');
    assert(all[3][0] == 'd');
    assert(all[4][0] == 'o');
    assert(all[5][0] == 'h');
    assert(all[6][1] == 'a');
    assert(all[7][0] == 'q');
}

proof fn verbs_are_read_once(
    methods: Seq<Seq<char>>,
    path: Seq<char>,
    item: Tree,
    shared: Seq<ParamView>,
    doc: Tree,
)
    requires
        forall|i: int, j: int|
            0 <= i < j < methods.len() ==> #[trigger] methods[i] != #[trigger] methods[j],
    ensures
        operations_under(methods, path, item, shared, doc) matches Ok(operations) ==> {
            &&& each_call_once(operations)
            &&& forall|i: int|
                0 <= i < operations.len() ==> (#[trigger] operations[i]).path == path
                    && methods.contains(operations[i].method)
        },
    decreases methods.len(),
{
    if methods.len() > 0 && operations_under(methods, path, item, shared, doc) is Ok {
        let front = methods.drop_last();
        assert forall|i: int, j: int| 0 <= i < j < front.len() implies #[trigger] front[i]
            != #[trigger] front[j] by {
            assert(methods[i] != methods[j]);
        }
        verbs_are_read_once(front, path, item, shared, doc);
        let before = operations_under(front, path, item, shared, doc)->Ok_0;
        let all = operations_under(methods, path, item, shared, doc)->Ok_0;
        let last = methods[methods.len() - 1];
        assert forall|i: int| 0 <= i < before.len() implies methods.contains(
            (#[trigger] before[i]).method,
        ) && before[i].method != last && before[i].path == path by {
            let k = choose|k: int| 0 <= k < front.len() && front[k] == before[i].method;
            assert(methods[k] == before[i].method);
        }
        assert(methods.contains(last));
        assert forall|i: int| 0 <= i < all.len() implies (#[trigger] all[i]).path == path
            && methods.contains(all[i].method) by {
            if i < before.len() {
                assert(all[i] == before[i]);
            }
        }
        assert forall|i: int, j: int| 0 <= i < j < all.len() implies (#[trigger] all[i]).path != (
        #[trigger] all[j]).path || all[i].method != all[j].method by {
            assert(all[i] == before[i]);
            if j < before.len() {
                assert(all[j] == before[j]);
            }
        }
    }
}

proof fn paths_are_read_once(paths: Seq<(Seq<char>, Tree)>, doc: Tree)
    requires
        keys_differ(paths),
    ensures
        operations_in(paths, doc) matches Ok(operations) ==> {
            &&& each_call_once(operations)
            &&& forall|i: int|
                0 <= i < operations.len() ==> exists|k: int|
                    0 <= k < paths.len() && (#[trigger] paths[k]).0 == (
                    #[trigger] operations[i]).path
        },
    decreases paths.len(),
{
    if paths.len() > 0 && operations_in(paths, doc) is Ok {
        let front = paths.drop_last();
        assert(keys_differ(front)) by {
            assert forall|i: int, j: int| 0 <= i < j < front.len() implies (#[trigger] front[i]).0
                != (#[trigger] front[j]).0 by {
                assert(paths[i].0 != paths[j].0);
            }
        }
        paths_are_read_once(front, doc);
        let (path, item) = paths[paths.len() - 1];
        let before = operations_in(front, doc)->Ok_0;
        let here = operations_at(path, item, doc)->Ok_0;
        let all = before + here;
        match item {
            Tree::Object(members) => {
                let shared = params_in(lookup(members, "parameters"@), doc, path)->Ok_0;
                verbs_differ();
                verbs_are_read_once(verbs(), path, item, shared, doc);
            },
            _ => {},
        }
        assert forall|i: int| 0 <= i < all.len() implies exists|k: int|
            0 <= k < paths.len() && (#[trigger] paths[k]).0 == (#[trigger] all[i]).path by {
            if i < before.len() {
                assert(all[i] == before[i]);
                let k = choose|k: int|
                    0 <= k < front.len() && (#[trigger] front[k]).0 == before[i].path;
                assert(paths[k].0 == all[i].path);
            } else {
                assert(all[i] == here[i - before.len()]);
                assert(paths[paths.len() - 1].0 == all[i].path);
            }
        }
        assert forall|i: int, j: int| 0 <= i < j < all.len() implies (#[trigger] all[i]).path != (
        #[trigger] all[j]).path || all[i].method != all[j].method by {
            if j < before.len() {
                assert(all[i] == before[i] && all[j] == before[j]);
            } else if i >= before.len() {
                assert(all[i] == here[i - before.len()] && all[j] == here[j - before.len()]);
            } else {
                assert(all[i] == before[i] && all[j] == here[j - before.len()]);
                let k = choose|k: int|
                    0 <= k < front.len() && (#[trigger] front[k]).0 == before[i].path;
                assert(paths[k].0 != paths[paths.len() - 1].0);
            }
        }
    }
}

/// No verb of a path is read twice, in a document that has no key twice.
pub proof fn every_operation_is_read_once(doc: Tree)
    requires
        has_distinct_keys(doc),
    ensures
        described(doc) matches Ok(api) ==> each_call_once(api.operations),
{
    match doc.member("paths"@) {
        Some(Tree::Object(paths)) => {
            members_have_distinct_keys(doc, "paths"@);
            paths_are_read_once(paths, doc);
        },
        _ => {},
    }
}

/// The type of a parameter is decided by the `type` of its schema and by nothing else in it: an
/// integer is an `int`, a number a `float`, a boolean a `bool`, and everything else a `string`.
pub proof fn types_follow_the_schema(schema: Tree)
    ensures
        says(schema, "type"@, Tree::Text("integer"@)) ==> generated_type(Some(schema)) == "int"@,
        says(schema, "type"@, Tree::Text("number"@)) ==> generated_type(Some(schema)) == "float"@,
        says(schema, "type"@, Tree::Text("boolean"@)) ==> generated_type(Some(schema)) == "bool"@,
        !says(schema, "type"@, Tree::Text("integer"@)) && !says(
            schema,
            "type"@,
            Tree::Text("number"@),
        ) && !says(schema, "type"@, Tree::Text("boolean"@)) ==> generated_type(Some(schema))
            == "string"@,
        generated_type(None) == "string"@,
{
    what_is_found_is_said(schema, "type"@);
    reveal_strlit("integer");
    reveal_strlit("number");
    reveal_strlit("boolean");
    assert("integer"@.len() != "number"@.len());
    assert("integer"@[0] != "boolean"@[0]);
    assert("number"@.len() != "boolean"@.len());
    let integer = Tree::Text("integer"@);
    let number = Tree::Text("number"@);
    let boolean = Tree::Text("boolean"@);
    assert(says(schema, "type"@, integer) <==> schema.member("type"@) == Some(integer));
    assert(says(schema, "type"@, number) <==> schema.member("type"@) == Some(number));
    assert(says(schema, "type"@, boolean) <==> schema.member("type"@) == Some(boolean));
    match schema.member("type"@) {
        Some(Tree::Text(name)) => {
            assert(name == "integer"@ ==> Tree::Text(name) == integer);
            assert(name == "number"@ ==> Tree::Text(name) == number);
            assert(name == "boolean"@ ==> Tree::Text(name) == boolean);
        },
        _ => {},
    }
}

/// The base URL of a document that is read is the text under `url` of the first of its `servers`,
/// whatever else that server says and whatever servers follow; where there is no such text, there is
/// no base URL.
pub proof fn the_base_url_is_the_first_servers(doc: Tree, servers: Seq<Tree>, url: Seq<char>)
    ensures
        described(doc) matches Ok(api) ==> {
            &&& says(doc, "servers"@, Tree::List(servers)) && servers.len() > 0 && says(
                servers[0],
                "url"@,
                Tree::Text(url),
            ) ==> api.base_url == Some(url)
            &&& says(doc, "servers"@, Tree::List(servers)) && servers.len() == 0 ==> api.base_url
                is None
            &&& api.base_url matches Some(found) ==> exists|list: Seq<Tree>|
                #[trigger] says(doc, "servers"@, Tree::List(list)) && list.len() > 0 && says(
                    list[0],
                    "url"@,
                    Tree::Text(found),
                )
        },
{
    what_is_found_is_said(doc, "servers"@);
    assert(says(doc, "servers"@, Tree::List(servers)) <==> doc.member("servers"@) == Some(
        Tree::List(servers),
    ));
    if servers.len() > 0 {
        what_is_found_is_said(servers[0], "url"@);
        assert(says(servers[0], "url"@, Tree::Text(url)) <==> servers[0].member("url"@) == Some(
            Tree::Text(url),
        ));
    }
    match described(doc) {
        Ok(api) => match api.base_url {
            Some(found) => {
                let list = doc.member("servers"@)->0->List_0;
                assert(says(doc, "servers"@, Tree::List(list)));
                what_is_found_is_said(list[0], "url"@);
                assert(says(list[0], "url"@, Tree::Text(found)));
            },
            None => {},
        },
        Err(_) => {},
    }
}

/// Whether an entry says that the parameter which it declares is carried in the given place.
pub open spec fn is_carried_in(entry: Tree, place: In) -> bool {
    match place {
        In::Path => says(entry, "in"@, Tree::Text("path"@)),
        In::Query => says(entry, "in"@, Tree::Text("query"@)),
    }
}

/// What an entry declares is what it says: a parameter with the text under its `name`, in the place
/// under its `in`, with the type of its `schema`; a parameter of the path is required, and fails
/// where the path has no placeholder for it, and one of the query is required where `required` is
/// true. An entry that lacks a name, or that names another place, declares nothing.
pub proof fn entries_declare_what_they_say(
    entry: Tree,
    path: Seq<char>,
    name: Seq<char>,
    schema: Tree,
)
    requires
        says(entry, "name"@, Tree::Text(name)),
    ensures
        is_carried_in(entry, In::Path) && !has_place_for(path, name) ==> declared(entry, path)
            == Err::<Option<ParamView>, Seq<char>>(
            "`"@ + path + "` declares a path parameter `"@ + name
                + "` that the path template does not contain"@,
        ),
        is_carried_in(entry, In::Path) && has_place_for(path, name) ==> (declared(entry, path)
            matches Ok(Some(p)) && p.name == name && p.loc == In::Path && p.required),
        is_carried_in(entry, In::Query) ==> (declared(entry, path) matches Ok(Some(p)) && p.name
            == name && p.loc == In::Query && (p.required <==> says(
            entry,
            "required"@,
            Tree::Bool(true),
        ))),
        !is_carried_in(entry, In::Path) && !is_carried_in(entry, In::Query) ==> declared(
            entry,
            path,
        ) == Ok::<Option<ParamView>, Seq<char>>(None),
        says(entry, "schema"@, schema) ==> (declared(entry, path) matches Ok(Some(p)) ==> p.ty
            == generated_type(Some(schema))),
        (forall|any: Tree| !says(entry, "schema"@, any)) ==> (declared(entry, path) matches Ok(
            Some(p),
        ) ==> p.ty == "string"@),
{
    what_is_found_is_said(entry, "name"@);
    what_is_found_is_said(entry, "in"@);
    what_is_found_is_said(entry, "required"@);
    what_is_found_is_said(entry, "schema"@);
    places_are_placeholders(path, name);
    reveal_strlit("path");
    reveal_strlit("query");
    assert("path"@.len() != "query"@.len());
    let on_path = Tree::Text("path"@);
    let on_query = Tree::Text("query"@);
    assert(entry.member("name"@) == Some(Tree::Text(name)));
    assert(says(entry, "in"@, on_path) <==> entry.member("in"@) == Some(on_path));
    assert(says(entry, "in"@, on_query) <==> entry.member("in"@) == Some(on_query));
    assert(says(entry, "required"@, Tree::Bool(true)) <==> entry.member("required"@) == Some(
        Tree::Bool(true),
    ));
    match entry.member("in"@) {
        Some(Tree::Text(place)) => {
            assert(place == "path"@ ==> Tree::Text(place) == on_path);
            assert(place == "query"@ ==> Tree::Text(place) == on_query);
        },
        _ => {},
    }
    match entry.member("schema"@) {
        Some(found) => {
            assert(says(entry, "schema"@, found));
        },
        None => types_follow_the_schema(entry),
    }
}

/// An entry without a text for a name declares nothing, whatever else it says.
pub proof fn nameless_entries_declare_nothing(entry: Tree, path: Seq<char>)
    requires
        forall|name: Seq<char>| !(#[trigger] says(entry, "name"@, Tree::Text(name))),
    ensures
        declared(entry, path) == Ok::<Option<ParamView>, Seq<char>>(None),
{
    what_is_found_is_said(entry, "name"@);
    match entry.member("name"@) {
        Some(Tree::Text(name)) => {
            assert(says(entry, "name"@, Tree::Text(name)));
        },
        _ => {},
    }
}

/// An entry stands for itself, unless it has a text under `$ref`: then it stands for what the pointer
/// behind a `#` leads to in the document, or fails, and says which reference it was that failed.
pub proof fn entries_stand_for_what_they_refer_to(entry: Tree, doc: Tree, reference: Seq<char>)
    ensures
        (forall|text: Seq<char>| !(#[trigger] says(entry, "$ref"@, Tree::Text(text)))) ==> resolved(
            entry,
            doc,
        ) == Ok::<Tree, Seq<char>>(entry),
        says(entry, "$ref"@, Tree::Text(reference)) ==> match resolved(entry, doc) {
            Ok(target) => reference.len() > 0 && reference[0] == '#' && pointed(
                doc,
                reference.skip(1),
            ) == Some(target),
            Err(message) => {
                &&& reference.len() > 0 && reference[0] == '#' ==> pointed(doc, reference.skip(1))
                    is None && message == "`"@ + reference + "` does not resolve inside the spec"@
                &&& reference.len() == 0 || reference[0] != '#' ==> message == "`"@ + reference
                    + "` refers to another file, which is not supported yet — inline it, or bundle the spec first"@
            },
        },
{
    what_is_found_is_said(entry, "$ref"@);
    assert(says(entry, "$ref"@, Tree::Text(reference)) <==> entry.member("$ref"@) == Some(
        Tree::Text(reference),
    ));
    if reference.len() > 0 {
        assert(reference.drop_first() == reference.skip(1));
    }
    match entry.member("$ref"@) {
        Some(Tree::Text(text)) => {
            assert(says(entry, "$ref"@, Tree::Text(text)));
        },
        _ => {},
    }
}

/// A list of entries is read entry by entry: each declares what it stands for declares, in order,
/// and the first that fails, fails the list. What is no list declares nothing.
pub proof fn lists_are_read_entry_by_entry(
    a: Seq<Tree>,
    b: Seq<Tree>,
    entry: Tree,
    doc: Tree,
    path: Seq<char>,
)
    ensures
        params_in(None, doc, path) == Ok::<Seq<ParamView>, Seq<char>>(Seq::empty()),
        entry !is List ==> params_in(Some(entry), doc, path) == Ok::<Seq<ParamView>, Seq<char>>(
            Seq::empty(),
        ),
        params_in(Some(Tree::List(seq![entry])), doc, path) == match resolved(entry, doc) {
            Err(message) => Err::<Seq<ParamView>, Seq<char>>(message),
            Ok(target) => match declared(target, path) {
                Err(message) => Err(message),
                Ok(Some(param)) => Ok(seq![param]),
                Ok(None) => Ok(Seq::empty()),
            },
        },
        params_in(Some(Tree::List(a + b)), doc, path) == match (
            params_in(Some(Tree::List(a)), doc, path),
            params_in(Some(Tree::List(b)), doc, path),
        ) {
            (Ok(x), Ok(y)) => Ok::<Seq<ParamView>, Seq<char>>(x + y),
            (Err(message), _) => Err(message),
            (Ok(_), Err(message)) => Err(message),
        },
    decreases b.len(),
{
    let one = seq![entry];
    assert(one.drop_last() == Seq::<Tree>::empty());
    assert(declared_by_all(one.drop_last(), doc, path) == Ok::<Seq<ParamView>, Seq<char>>(
        Seq::empty(),
    ));
    match declared_by(entry, doc, path) {
        Ok(Some(param)) => {
            assert(Seq::<ParamView>::empty().push(param) == seq![param]);
        },
        _ => {},
    }
    let all = a + b;
    if b.len() == 0 {
        assert(all == a);
        if declared_by_all(a, doc, path) is Ok {
            let x = declared_by_all(a, doc, path)->Ok_0;
            assert(x + Seq::<ParamView>::empty() == x);
        }
    } else {
        assert(all.drop_last() == a + b.drop_last());
        lists_are_read_entry_by_entry(a, b.drop_last(), entry, doc, path);
        match (
            declared_by_all(a, doc, path),
            declared_by_all(b.drop_last(), doc, path),
            declared_by(b.last(), doc, path),
        ) {
            (Ok(x), Ok(y), Ok(Some(param))) => {
                assert((x + y).push(param) == x + y.push(param));
            },
            _ => {},
        }
    }
}

/// Places moved by one, with a place before them unless there is none.
spec fn moved_places(later: Seq<int>, first: bool) -> Seq<int> {
    let moved = Seq::new(later.len(), |k: int| later[k] + 1);
    if first {
        seq![0int] + moved
    } else {
        moved
    }
}

proof fn places_move(later: Seq<int>, first: bool)
    requires
        forall|k: int| 0 <= k < later.len() ==> 0 <= #[trigger] later[k],
        forall|k: int, l: int| 0 <= k < l < later.len() ==> #[trigger] later[k] < #[trigger] later[l],
    ensures
        forall|k: int, l: int|
            0 <= k < l < moved_places(later, first).len() ==> #[trigger] moved_places(later, first)[k]
                < #[trigger] moved_places(later, first)[l],
        moved_places(later, first).contains(0) <==> first,
        forall|i: int| #[trigger]
            later.contains(i) && i >= 0 ==> moved_places(later, first).contains(i + 1),
        forall|i: int|
            i > 0 && #[trigger] moved_places(later, first).contains(i) ==> later.contains(i - 1),
{
    let at = moved_places(later, first);
    let shift: int = if first {
        1
    } else {
        0
    };
    assert forall|i: int| #[trigger] later.contains(i) && i >= 0 implies at.contains(i + 1) by {
        let k = choose|k: int| 0 <= k < later.len() && later[k] == i;
        assert(at[k + shift] == i + 1);
    }
    assert forall|i: int| i > 0 && #[trigger] at.contains(i) implies later.contains(i - 1) by {
        let k = choose|k: int| 0 <= k < at.len() && at[k] == i;
        assert(later[k - shift] == i - 1);
    }
    if first {
        assert(at[0] == 0);
    } else if at.contains(0) {
        let k = choose|k: int| 0 <= k < at.len() && at[k] == 0;
        assert(later[k] == -1);
    }
}

/// What is in force are the declarations that no later one repeats, each where it stood: `at` are
/// their places.
pub proof fn declarations_in_force_keep_their_order(params: Seq<ParamView>) -> (at: Seq<int>)
    ensures
        effective(params).len() == at.len(),
        forall|k: int|
            0 <= k < at.len() ==> 0 <= #[trigger] at[k] < params.len() && effective(params)[k]
                == params[at[k]],
        forall|k: int, l: int| 0 <= k < l < at.len() ==> #[trigger] at[k] < #[trigger] at[l],
        forall|i: int|
            0 <= i < params.len() ==> (at.contains(i) <==> !is_again(
                #[trigger] params[i],
                params.skip(i + 1),
            )),
    decreases params.len(),
{
    if params.len() == 0 {
        Seq::empty()
    } else {
        let rest = params.drop_first();
        let later = declarations_in_force_keep_their_order(rest);
        repeating_is_redeclaring(params[0], rest);
        let first = !is_again(params[0], rest);
        let at = moved_places(later, first);
        places_move(later, first);
        let shift: int = if first {
            1
        } else {
            0
        };
        let all = effective(params);
        let kept = effective(rest);
        assert(all == if first {
            seq![params[0]] + kept
        } else {
            kept
        });
        assert(params.skip(1) == rest);
        assert forall|k: int| 0 <= k < at.len() implies 0 <= #[trigger] at[k] < params.len()
            && all[k] == params[at[k]] by {
            if k >= shift {
                assert(at[k] == later[k - shift] + 1);
                assert(all[k] == kept[k - shift]);
            }
        }
        assert forall|i: int| 0 <= i < params.len() implies (at.contains(i) <==> !is_again(
            #[trigger] params[i],
            params.skip(i + 1),
        )) by {
            if i > 0 {
                assert(rest[i - 1] == params[i]);
                assert(rest.skip(i) == params.skip(i + 1));
                assert(later.contains(i - 1) <==> !is_again(rest[i - 1], rest.skip((i - 1) + 1)));
                assert(later.contains(i - 1) ==> at.contains((i - 1) + 1));
            }
        }
        at
    }
}

/// Parameters are put in order group by group, and within a group they keep their order.
pub proof fn groups_keep_their_order(params: Seq<ParamView>)
    ensures
        ({
            let on_path = |p: ParamView| p.required && p.loc == In::Path;
            let on_query = |p: ParamView| p.required && p.loc == In::Query;
            let optional = |p: ParamView| !p.required;
            ordered(params) == params.filter(on_path) + params.filter(on_query) + params.filter(
                optional,
            )
        }),
{
    let on_path = |p: ParamView| p.required && p.loc == In::Path;
    let on_query = |p: ParamView| p.required && p.loc == In::Query;
    let optional = |p: ParamView| !p.required;
    same_filters(params, on_path, |p: ParamView| is_path_param(p));
    same_filters(params, on_query, |p: ParamView| is_required_query_param(p));
    same_filters(params, optional, |p: ParamView| is_optional_param(p));
}

proof fn same_filters(
    params: Seq<ParamView>,
    a: spec_fn(ParamView) -> bool,
    b: spec_fn(ParamView) -> bool,
)
    requires
        forall|p: ParamView| #[trigger] a(p) == b(p),
    ensures
        params.filter(a) == params.filter(b),
    decreases params.len(),
{
    reveal(Seq::filter);
    if params.len() > 0 {
        same_filters(params.drop_last(), a, b);
        assert(a(params.last()) == b(params.last()));
    }
}

/// An operation is what its object says: named by the text under `operationId`, or by its verb and
/// path where there is none; with a body where there is a `requestBody`; described by the text under
/// `summary`, or under `description` where there is no `summary`.
pub proof fn operations_are_what_they_say(
    method: Seq<char>,
    path: Seq<char>,
    op: Seq<(Seq<char>, Tree)>,
    params: Seq<ParamView>,
    text: Seq<char>,
    value: Tree,
)
    ensures
        ({
            let built = operation_of(method, path, op, params);
            let tree = Tree::Object(op);
            &&& built.method == method
            &&& built.path == path
            &&& built.params == ordered(effective(params))
            &&& says(tree, "operationId"@, Tree::Text(text)) ==> built.name == snake(text)
            &&& (forall|id: Seq<char>| !(#[trigger] says(tree, "operationId"@, Tree::Text(id))))
                ==> built.name == derived(method, path)
            &&& says(tree, "requestBody"@, value) ==> built.has_body
            &&& built.has_body ==> exists|any: Tree| says(tree, "requestBody"@, any)
            &&& says(tree, "summary"@, Tree::Text(text)) ==> built.doc == Some(text)
            &&& says(tree, "summary"@, value) && value !is Text ==> built.doc is None
            &&& (forall|any: Tree| !says(tree, "summary"@, any)) && says(
                tree,
                "description"@,
                Tree::Text(text),
            ) ==> built.doc == Some(text)
            &&& built.doc matches Some(found) ==> says(tree, "summary"@, Tree::Text(found)) || says(
                tree,
                "description"@,
                Tree::Text(found),
            )
        }),
{
    let tree = Tree::Object(op);
    what_is_found_is_said(tree, "operationId"@);
    what_is_found_is_said(tree, "requestBody"@);
    what_is_found_is_said(tree, "summary"@);
    what_is_found_is_said(tree, "description"@);
    assert(says(tree, "operationId"@, Tree::Text(text)) <==> tree.member("operationId"@) == Some(
        Tree::Text(text),
    ));
    assert(says(tree, "summary"@, Tree::Text(text)) <==> tree.member("summary"@) == Some(
        Tree::Text(text),
    ));
    assert(says(tree, "description"@, Tree::Text(text)) <==> tree.member("description"@) == Some(
        Tree::Text(text),
    ));
    match tree.member("operationId"@) {
        Some(Tree::Text(id)) => {
            assert(says(tree, "operationId"@, Tree::Text(id)));
        },
        _ => {},
    }
    match tree.member("requestBody"@) {
        Some(any) => {
            assert(says(tree, "requestBody"@, any));
        },
        None => {},
    }
    match tree.member("summary"@) {
        Some(any) => {
            assert(says(tree, "summary"@, any));
            if any is Text {
                assert(any == Tree::Text(any->Text_0));
            }
        },
        None => match tree.member("description"@) {
            Some(any) => {
                assert(says(tree, "description"@, any));
                if any is Text {
                    assert(any == Tree::Text(any->Text_0));
                }
            },
            None => {},
        },
    }
}

/// What a path item gives under the verbs: the operations are in the order of the verbs, `get`,
/// `put`, `post`, `delete`, `options`, `head`, `patch` and `query`, all of this path, and each is
/// built of the object under its verb, with the path's parameters before its own.
pub proof fn operations_follow_the_verbs(path: Seq<char>, item: Seq<(Seq<char>, Tree)>, doc: Tree)
    ensures
        operations_at(path, Tree::Object(item), doc) matches Ok(operations) ==> {
            &&& params_in(lookup(item, "parameters"@), doc, path) matches Ok(shared)
            &&& forall|i: int, j: int|
                0 <= i < j < operations.len() ==> verb_place((#[trigger] operations[i]).method)
                    < verb_place((#[trigger] operations[j]).method)
            &&& forall|i: int|
                0 <= i < operations.len() ==> {
                    let op = #[trigger] operations[i];
                    &&& op.path == path
                    &&& is_verb(op.method)
                    &&& lookup(item, op.method) matches Some(Tree::Object(members)) && (params_in(
                        lookup(members, "parameters"@),
                        doc,
                        path,
                    ) matches Ok(own) && op == operation_of(
                        op.method,
                        path,
                        members,
                        shared + own,
                    ))
                }
        },
{
    match params_in(lookup(item, "parameters"@), doc, path) {
        Ok(shared) => {
            let whole = Tree::Object(item);
            match operations_under(verbs(), path, whole, shared, doc) {
                Ok(operations) => {
                    verbs_are_read_in_order(verbs(), path, whole, shared, doc);
                    assert forall|i: int| 0 <= i < operations.len() implies is_verb(
                        (#[trigger] operations[i]).method,
                    ) by {
                        verbs_are_the_verbs(operations[i].method);
                    }
                    assert forall|i: int, j: int| 0 <= i < j < operations.len() implies verb_place(
                        (#[trigger] operations[i]).method,
                    ) < verb_place((#[trigger] operations[j]).method) by {
                        let (a, b) = choose|a: int, b: int|
                            0 <= a < b < verbs().len() && #[trigger] verbs()[a]
                                == operations[i].method && #[trigger] verbs()[b]
                                == operations[j].method;
                        verbs_are_placed(a);
                        verbs_are_placed(b);
                    }
                },
                Err(_) => {},
            }
        },
        Err(_) => {},
    }
}

proof fn verbs_are_placed(i: int)
    requires
        0 <= i < 8,
    ensures
        verb_place(verbs()[i]) == i,
{
    verbs_differ();
    let all = verbs();
    assert(all[0] == "get"@ && all[1] == "put"@ && all[2] == "post"@ && all[3] == "delete"@);
    assert(all[4] == "options"@ && all[5] == "head"@ && all[6] == "patch"@ && all[7] == "query"@);
}

proof fn verbs_are_read_in_order(
    methods: Seq<Seq<char>>,
    path: Seq<char>,
    item: Tree,
    shared: Seq<ParamView>,
    doc: Tree,
)
    requires
        operations_under(methods, path, item, shared, doc) is Ok,
    ensures
        ({
            let operations = operations_under(methods, path, item, shared, doc)->Ok_0;
            &&& forall|i: int|
                0 <= i < operations.len() ==> methods.contains((#[trigger] operations[i]).method)
                    && operation_under(operations[i].method, path, item, shared, doc) == Ok::<
                    Option<OperationView>,
                    Seq<char>,
                >(Some(operations[i]))
            &&& forall|i: int, j: int|
                0 <= i < j < operations.len() ==> exists|a: int, b: int|
                    0 <= a < b < methods.len() && #[trigger] methods[a] == (
                    #[trigger] operations[i]).method && #[trigger] methods[b] == (
                    #[trigger] operations[j]).method
        }),
    decreases methods.len(),
{
    if methods.len() > 0 {
        let front = methods.drop_last();
        verbs_are_read_in_order(front, path, item, shared, doc);
        let before = operations_under(front, path, item, shared, doc)->Ok_0;
        let all = operations_under(methods, path, item, shared, doc)->Ok_0;
        let n = methods.len() - 1;
        assert forall|i: int| 0 <= i < all.len() implies methods.contains(
            (#[trigger] all[i]).method,
        ) && operation_under(all[i].method, path, item, shared, doc) == Ok::<
            Option<OperationView>,
            Seq<char>,
        >(Some(all[i])) by {
            if i < before.len() {
                assert(all[i] == before[i]);
                let k = choose|k: int| 0 <= k < front.len() && front[k] == before[i].method;
                assert(methods[k] == before[i].method);
            } else {
                assert(methods[n] == all[i].method);
            }
        }
        assert forall|i: int, j: int| 0 <= i < j < all.len() implies exists|a: int, b: int|
            0 <= a < b < methods.len() && #[trigger] methods[a] == (#[trigger] all[i]).method
                && #[trigger] methods[b] == (#[trigger] all[j]).method by {
            assert(all[i] == before[i]);
            if j < before.len() {
                assert(all[j] == before[j]);
                let (a, b) = choose|a: int, b: int|
                    0 <= a < b < front.len() && #[trigger] front[a] == before[i].method
                        && #[trigger] front[b] == before[j].method;
                assert(methods[a] == front[a] && methods[b] == front[b]);
            } else {
                let a = choose|a: int| 0 <= a < front.len() && front[a] == before[i].method;
                assert(methods[a] == all[i].method && methods[n] == all[j].method);
            }
        }
    }
}

/// What a document gives: the operations under its `paths`, path by path, or the first failure; and
/// it fails where it has no `paths`, or no operation under them.
pub proof fn documents_give_their_paths(
    doc: Tree,
    paths: Seq<(Seq<char>, Tree)>,
    one: (Seq<char>, Tree),
)
    ensures
        (forall|any: Seq<(Seq<char>, Tree)>| !(#[trigger] says(doc, "paths"@, Tree::Object(any))))
            ==> described(doc) == Err::<SpecView, Seq<char>>("the spec has no `paths` object"@),
        says(doc, "paths"@, Tree::Object(paths)) ==> match operations_in(paths, doc) {
            Err(message) => described(doc) == Err::<SpecView, Seq<char>>(message),
            Ok(operations) => if operations.len() == 0 {
                described(doc) == Err::<SpecView, Seq<char>>("the spec declares no operations"@)
            } else {
                described(doc) matches Ok(api) && api.operations == operations
            },
        },
        operations_in(Seq::empty(), doc) == Ok::<Seq<OperationView>, Seq<char>>(Seq::empty()),
        operations_in(seq![one], doc) == operations_at(one.0, one.1, doc),
        one.1 !is Object ==> operations_at(one.0, one.1, doc) == Ok::<
            Seq<OperationView>,
            Seq<char>,
        >(Seq::empty()),
{
    what_is_found_is_said(doc, "paths"@);
    assert(says(doc, "paths"@, Tree::Object(paths)) <==> doc.member("paths"@) == Some(
        Tree::Object(paths),
    ));
    match doc.member("paths"@) {
        Some(Tree::Object(any)) => {
            assert(says(doc, "paths"@, Tree::Object(any)));
        },
        _ => {},
    }
    assert(seq![one].drop_last() == Seq::<(Seq<char>, Tree)>::empty());
    match operations_at(one.0, one.1, doc) {
        Ok(operations) => {
            assert(Seq::<OperationView>::empty() + operations == operations);
        },
        Err(_) => {},
    }
}

/// The first path that fails, fails the document, with its own message.
pub proof fn the_first_failure_is_reported(
    earlier: Seq<(Seq<char>, Tree)>,
    later: Seq<(Seq<char>, Tree)>,
    doc: Tree,
)
    ensures
        operations_in(earlier + later, doc) == match (
            operations_in(earlier, doc),
            operations_in(later, doc),
        ) {
            (Ok(first), Ok(second)) => Ok::<Seq<OperationView>, Seq<char>>(first + second),
            (Err(message), _) => Err(message),
            (Ok(_), Err(message)) => Err(message),
        },
    decreases later.len(),
{
    let paths = earlier + later;
    if later.len() == 0 {
        assert(paths == earlier);
        if operations_in(earlier, doc) is Ok {
            let all = operations_in(earlier, doc)->Ok_0;
            assert(all + Seq::<OperationView>::empty() == all);
        }
    } else {
        assert(paths.drop_last() == earlier + later.drop_last());
        the_first_failure_is_reported(earlier, later.drop_last(), doc);
        match (
            operations_in(earlier, doc),
            operations_in(later.drop_last(), doc),
            operations_at(later.last().0, later.last().1, doc),
        ) {
            (Ok(first), Ok(second), Ok(last)) => {
                assert(first + second + last == first + (second + last));
            },
            _ => {},
        }
    }
}

/// Why the operation that a path item has under a verb cannot be read, where that is so.
pub open spec fn failure_under(
    method: Seq<char>,
    path: Seq<char>,
    item: Seq<(Seq<char>, Tree)>,
    doc: Tree,
) -> Option<Seq<char>> {
    match lookup(item, method) {
        Some(Tree::Object(op)) => match params_in(lookup(op, "parameters"@), doc, path) {
            Err(message) => Some(message),
            Ok(_) => None,
        },
        _ => None,
    }
}

/// A path fails where its own parameters fail, with their message; and else exactly where those of a
/// verb fail, with the message of the first such verb.
pub proof fn failures_of_a_path_are_its_lists(
    path: Seq<char>,
    item: Seq<(Seq<char>, Tree)>,
    doc: Tree,
)
    ensures
        ({
            let shared = params_in(lookup(item, "parameters"@), doc, path);
            let result = operations_at(path, Tree::Object(item), doc);
            &&& shared matches Err(message) ==> result == Err::<Seq<OperationView>, Seq<char>>(
                message,
            )
            &&& shared is Ok && result is Ok ==> forall|method: Seq<char>|
                is_verb(method) ==> (#[trigger] failure_under(method, path, item, doc)) is None
            &&& shared is Ok && result is Err ==> exists|method: Seq<char>|
                {
                    &&& is_verb(method)
                    &&& #[trigger] failure_under(method, path, item, doc) == Some(result->Err_0)
                    &&& forall|other: Seq<char>|
                        is_verb(other) && verb_place(other) < verb_place(method) ==> (
                        #[trigger] failure_under(other, path, item, doc)) is None
                }
        }),
{
    match params_in(lookup(item, "parameters"@), doc, path) {
        Ok(shared) => {
            let whole = Tree::Object(item);
            match operations_under(verbs(), path, whole, shared, doc) {
                Err(message) => {
                    let v = failing_verb(verbs(), path, whole, shared, doc);
                    let method = verbs()[v];
                    verbs_are_the_verbs(method);
                    verbs_are_placed(v);
                    assert(failure_under(method, path, item, doc) == Some(message));
                    assert forall|other: Seq<char>|
                        is_verb(other) && verb_place(other) < verb_place(method) implies (
                    #[trigger] failure_under(other, path, item, doc)) is None by {
                        verbs_are_the_verbs(other);
                        let k = choose|k: int| 0 <= k < verbs().len() && verbs()[k] == other;
                        verbs_are_placed(k);
                        assert(operation_under(verbs()[k], path, whole, shared, doc) is Ok);
                    }
                },
                Ok(_) => {
                    assert forall|method: Seq<char>| is_verb(method) implies (
                    #[trigger] failure_under(method, path, item, doc)) is None by {
                        verbs_are_the_verbs(method);
                        let k = choose|k: int| 0 <= k < verbs().len() && verbs()[k] == method;
                        errors_under_a_verb_surface(verbs(), path, whole, shared, doc, k);
                    }
                },
            }
        },
        Err(_) => {},
    }
}

proof fn failing_verb(
    methods: Seq<Seq<char>>,
    path: Seq<char>,
    item: Tree,
    shared: Seq<ParamView>,
    doc: Tree,
) -> (v: int)
    requires
        operations_under(methods, path, item, shared, doc) is Err,
    ensures
        0 <= v < methods.len(),
        operation_under(methods[v], path, item, shared, doc) is Err,
        operation_under(methods[v], path, item, shared, doc)->Err_0 == operations_under(
            methods,
            path,
            item,
            shared,
            doc,
        )->Err_0,
        forall|k: int|
            0 <= k < v ==> operation_under(#[trigger] methods[k], path, item, shared, doc) is Ok,
    decreases methods.len(),
{
    let front = methods.drop_last();
    if operations_under(front, path, item, shared, doc) is Err {
        let v = failing_verb(front, path, item, shared, doc);
        assert(front[v] == methods[v]);
        assert forall|k: int| 0 <= k < v implies operation_under(
            #[trigger] methods[k],
            path,
            item,
            shared,
            doc,
        ) is Ok by {
            assert(front[k] == methods[k]);
        }
        v
    } else {
        assert forall|k: int| 0 <= k < front.len() implies operation_under(
            #[trigger] methods[k],
            path,
            item,
            shared,
            doc,
        ) is Ok by {
            assert(front[k] == methods[k]);
            errors_under_a_verb_surface(front, path, item, shared, doc, k);
        }
        methods.len() - 1
    }
}

/// A text that is no JSON fails with the reader's message; one that is gives what its document gives.
pub proof fn texts_give_their_documents(text: Result<Tree, Seq<char>>)
    ensures
        text matches Ok(doc) ==> described_by_text(text) == described(doc),
        text matches Err(reason) ==> described_by_text(text) == Err::<SpecView, Seq<char>>(
            "the spec is not valid JSON: "@ + reason
                + " (only JSON specs are read — convert a YAML spec first)"@,
        ),
{
}

/// Parameters, operations and specs show as what their fields are.
pub proof fn views_show_the_fields(param: Param, op: Operation, api: Spec)
    ensures
        param@.name == param.name@,
        param@.loc == param.loc,
        param@.required == param.required,
        param@.ty == param.ty@,
        op@.method == op.method@,
        op@.path == op.path@,
        op@.name == op.name@,
        op@.has_body == op.has_body,
        op@.params.len() == op.params@.len(),
        forall|i: int| 0 <= i < op.params@.len() ==> #[trigger] op@.params[i] == op.params@[i]@,
        op@.doc == match op.doc {
            Some(doc) => Some(doc@),
            None => None,
        },
        api@.base_url == match api.base_url {
            Some(url) => Some(url@),
            None => None,
        },
        api@.operations.len() == api.operations@.len(),
        forall|i: int|
            0 <= i < api.operations@.len() ==> #[trigger] api@.operations[i]
                == api.operations@[i]@,
{
}

} // verus!
