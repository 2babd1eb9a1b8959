//! Names for generated members: every spelling in the wild lands on one, and always on an
//! identifier.
use crate::text::{
    chars_of, decimal, decimal_is_digits, decimal_is_injective, decimal_of, join, joined, listed, part,
    split, split_at, split_at_a_separator, split_of_one_piece, string_of, views,
};
use vstd::prelude::*;
use vstd::string::*;

verus! {

pub open spec fn is_upper(c: char) -> bool {
    'A' <= c <= 'Z'
}

pub open spec fn is_digit(c: char) -> bool {
    '0' <= c <= '9'
}

pub open spec fn is_lower_or_digit(c: char) -> bool {
    'a' <= c <= 'z' || is_digit(c)
}

pub open spec fn is_alphanumeric(c: char) -> bool {
    is_upper(c) || is_lower_or_digit(c)
}

/// The lower-case form of an upper-case letter.
pub open spec fn lower(c: char) -> char
    recommends
        is_upper(c),
{
    (c as u32 + 32) as char
}

/// What the character at `at` adds to a name: an upper-case letter its lower-case form, after a
/// `_` where it begins a new word; any other letter or digit itself; and a separator a `_`, where
/// it is the first after a word.
pub open spec fn snake_piece(id: Seq<char>, at: int) -> Seq<char> {
    let c = id[at];
    if is_upper(c) {
        if at > 0 && is_lower_or_digit(id[at - 1]) {
            seq!['_', lower(c)]
        } else {
            seq![lower(c)]
        }
    } else if is_lower_or_digit(c) {
        seq![c]
    } else if at > 0 && is_alphanumeric(id[at - 1]) {
        seq!['_']
    } else {
        Seq::empty()
    }
}

/// What the characters of `id` add to a name, in order.
pub open spec fn snake_words(id: Seq<char>) -> Seq<char>
    decreases id.len(),
{
    if id.len() == 0 {
        Seq::empty()
    } else {
        snake_words(id.drop_last()) + snake_piece(id, id.len() - 1)
    }
}

/// The words of `id` without the `_` that a separator at the end leaves.
pub open spec fn snake_stem(id: Seq<char>) -> Seq<char> {
    let words = snake_words(id);
    if words.len() > 0 && words.last() == '_' {
        words.drop_last()
    } else {
        words
    }
}

/// The snake-case identifier for `id`: its words, after `op_` where they alone would be no
/// identifier.
pub open spec fn snake(id: Seq<char>) -> Seq<char> {
    let stem = snake_stem(id);
    if stem.len() == 0 || is_digit(stem.first()) {
        "op_"@ + stem
    } else {
        stem
    }
}

/// Whether a character may stand in a generated name.
pub open spec fn is_name_char(c: char) -> bool {
    is_lower_or_digit(c) || c == '_'
}

/// Whether a text is a snake-case identifier: lower-case letters, digits and underscores, with a
/// letter first.
pub open spec fn is_identifier(s: Seq<char>) -> bool {
    &&& s.len() > 0
    &&& 'a' <= s.first() <= 'z'
    &&& forall|i: int| 0 <= i < s.len() ==> is_name_char(#[trigger] s[i])
}

/// Whether a path segment is a `{placeholder}`.
pub open spec fn is_placeholder(segment: Seq<char>) -> bool {
    segment.len() >= 2 && segment.first() == '{' && segment.last() == '}'
}

/// A path segment as part of a name; a placeholder is spelled `by_` and its name.
pub open spec fn segment_name(segment: Seq<char>) -> Seq<char> {
    if is_placeholder(segment) {
        "by_"@ + snake(segment.subrange(1, segment.len() - 1))
    } else {
        snake(segment)
    }
}

/// The verb and then the name of each segment that is not empty.
pub open spec fn name_parts(method: Seq<char>, segments: Seq<Seq<char>>) -> Seq<Seq<char>>
    decreases segments.len(),
{
    if segments.len() == 0 {
        seq![method]
    } else {
        let before = name_parts(method, segments.drop_last());
        if segments.last().len() == 0 {
            before
        } else {
            before.push(segment_name(segments.last()))
        }
    }
}

/// The name for an operation that has none of its own.
pub open spec fn derived(method: Seq<char>, path: Seq<char>) -> Seq<char> {
    joined(name_parts(method, split(path, '/')), "_"@)
}

fn upper(c: char) -> (yes: bool)
    ensures
        yes == is_upper(c),
{
    'A' <= c && c <= 'Z'
}

fn lower_or_digit(c: char) -> (yes: bool)
    ensures
        yes == is_lower_or_digit(c),
{
    ('a' <= c && c <= 'z') || ('0' <= c && c <= '9')
}

fn lower_of(c: char) -> (l: char)
    requires
        is_upper(c),
    ensures
        l == lower(c),
{
    (c as u8 + 32) as char
}

/// `listPets`, `list-pets` and `List Pets` all become `list_pets`.
///
/// The result is always an identifier, whatever went in.
pub fn snake_case(id: &str) -> (name: String)
    ensures
        name@ == snake(id@),
        is_identifier(name@),
{
    let chars: Vec<char> = chars_of(id);
    let mut out: Vec<char> = Vec::new();
    for i in 0..chars.len()
        invariant
            out@ == snake_words(chars@.take(i as int)),
    {
        let ghost upto = chars@.take(i + 1);
        assert(upto.drop_last() == chars@.take(i as int));
        assert(snake_piece(upto, i as int) == snake_piece(chars@, i as int));
        let ghost before = out@;
        let c: char = chars[i];
        if upper(c) {
            if i > 0 && lower_or_digit(chars[i - 1]) {
                out.push('_');
            }
            out.push(lower_of(c));
        } else if lower_or_digit(c) {
            out.push(c);
        } else if i > 0 && (upper(chars[i - 1]) || lower_or_digit(chars[i - 1])) {
            out.push('_');
        }
        assert(out@ == before + snake_piece(chars@, i as int));
    }
    assert(chars@.take(chars@.len() as int) == id@);
    if out.len() > 0 && out[out.len() - 1] == '_' {
        let _ = out.pop();
    }
    proof {
        snake_gives_identifiers(id@);
    }
    if out.len() == 0 || (lower_or_digit(out[0]) && out[0] <= '9') {
        let mut name: String = "op_".to_owned();
        name.append(string_of(&out).as_str());
        name
    } else {
        string_of(&out)
    }
}

/// The name for an operation that has none of its own: the verb, then the path with each
/// `{placeholder}` spelled `by_<name>`, so that two paths that differ only in a parameter do not
/// collide.
pub fn derived_name(method: &str, path: &str) -> (name: String)
    ensures
        name@ == derived(method@, path@),
        is_identifier(method@) ==> is_identifier(name@),
{
    let segments: Vec<String> = split_at(path, '/');
    let mut parts: Vec<String> = Vec::new();
    parts.push(method.to_owned());
    let ghost all = views(segments@);
    assert(views(parts@) == name_parts(method@, all.take(0)));
    for i in 0..segments.len()
        invariant
            all == views(segments@),
            views(parts@) == name_parts(method@, all.take(i as int)),
    {
        assert(all.take(i + 1).drop_last() == all.take(i as int));
        assert(all.take(i + 1).last() == segments@[i as int]@);
        let ghost before = views(parts@);
        let segment: Vec<char> = chars_of(segments[i].as_str());
        if segment.len() > 0 {
            if segment.len() >= 2 && segment[0] == '{' && segment[segment.len() - 1] == '}' {
                let inner: String = part(&segment, 1, segment.len() - 1);
                let mut name: String = "by_".to_owned();
                name.append(snake_case(inner.as_str()).as_str());
                parts.push(name);
            } else {
                parts.push(snake_case(segments[i].as_str()));
            }
            assert(views(parts@) == before.push(segment_name(segments@[i as int]@)));
        }
    }
    assert(all.take(segments@.len() as int) == all);
    proof {
        if is_identifier(method@) {
            derived_names_are_identifiers(method@, path@);
        }
    }
    join(&parts, "_")
}

/// What [`snake_words`] looks like: name characters, no `_` first, no two in a row, and one last
/// only after a separator.
proof fn shape_of_words(id: Seq<char>)
    ensures
        id.len() > 0 && is_alphanumeric(id.last()) ==> snake_words(id).len() > 0
            && snake_words(id).last() != '_',
        snake_words(id).len() > 0 ==> snake_words(id).first() != '_',
        forall|i: int|
            0 <= i < snake_words(id).len() ==> is_name_char(#[trigger] snake_words(id)[i]),
        forall|i: int|
            0 < i < snake_words(id).len() && snake_words(id)[i - 1] == '_'
                ==> #[trigger] snake_words(id)[i] != '_',
    decreases id.len(),
{
    if id.len() > 0 {
        let front = id.drop_last();
        shape_of_words(front);
        let words = snake_words(front);
        let all = snake_words(id);
        let piece = snake_piece(id, id.len() - 1);
        assert(id.len() > 1 ==> id[id.len() - 2] == front.last());
        assert(all == words + piece);
        assert forall|i: int| 0 <= i < all.len() implies is_name_char(#[trigger] all[i]) by {
            if i < words.len() {
                assert(all[i] == words[i]);
            } else {
                assert(all[i] == piece[i - words.len()]);
            }
        }
        assert forall|i: int| 0 < i < all.len() && all[i - 1] == '_' implies #[trigger] all[i]
            != '_' by {
            if i < words.len() {
                assert(all[i] == words[i]);
                assert(all[i - 1] == words[i - 1]);
            } else if i == words.len() {
                assert(all[i] == piece[0]);
                assert(all[i - 1] == words.last());
            } else {
                assert(all[i] == piece[i - words.len()]);
            }
        }
    }
}

/// Whatever goes in, a name is an identifier, and never one with two underscores in a row.
pub proof fn snake_gives_identifiers(id: Seq<char>)
    ensures
        is_identifier(snake(id)),
        forall|i: int|
            0 < i < snake(id).len() && snake(id)[i - 1] == '_' ==> #[trigger] snake(id)[i] != '_',
{
    shape_of_words(id);
    reveal_strlit("op_");
    let words = snake_words(id);
    let stem = snake_stem(id);
    assert forall|i: int| 0 <= i < stem.len() implies #[trigger] stem[i] == words[i] by {}
    let name = snake(id);
    if stem.len() == 0 || is_digit(stem.first()) {
        assert(name == "op_"@ + stem);
        assert forall|i: int| 0 <= i < name.len() implies is_name_char(#[trigger] name[i]) by {
            if i >= 3 {
                assert(name[i] == stem[i - 3]);
            }
        }
        assert forall|i: int| 0 < i < name.len() && name[i - 1] == '_' implies #[trigger] name[i]
            != '_' by {
            if i >= 3 {
                assert(name[i] == stem[i - 3]);
                if i > 3 {
                    assert(name[i - 1] == stem[i - 4]);
                }
            }
        }
    } else {
        assert(is_name_char(stem[0]));
    }
}

proof fn joined_identifiers(parts: Seq<Seq<char>>)
    requires
        parts.len() > 0,
        forall|i: int| 0 <= i < parts.len() ==> is_identifier(#[trigger] parts[i]),
    ensures
        is_identifier(joined(parts, "_"@)),
    decreases parts.len(),
{
    reveal_strlit("_");
    assert(is_identifier(parts[0]));
    if parts.len() > 1 {
        let front = parts.drop_last();
        assert forall|i: int| 0 <= i < front.len() implies is_identifier(#[trigger] front[i]) by {
            assert(front[i] == parts[i]);
        }
        joined_identifiers(front);
        let head = joined(front, "_"@);
        let last = parts[parts.len() - 1];
        assert(is_identifier(last));
        let all = joined(parts, "_"@);
        assert(all == head + "_"@ + last);
        assert forall|i: int| 0 <= i < all.len() implies is_name_char(#[trigger] all[i]) by {
            if i < head.len() {
                assert(all[i] == head[i]);
            } else if i > head.len() {
                assert(all[i] == last[i - head.len() - 1]);
            }
        }
        assert(all.first() == head.first());
    }
}

proof fn parts_are_identifiers(method: Seq<char>, segments: Seq<Seq<char>>)
    requires
        is_identifier(method),
    ensures
        name_parts(method, segments).len() > 0,
        forall|i: int|
            0 <= i < name_parts(method, segments).len() ==> is_identifier(
                #[trigger] name_parts(method, segments)[i],
            ),
    decreases segments.len(),
{
    if segments.len() > 0 {
        parts_are_identifiers(method, segments.drop_last());
        let segment = segments.last();
        if segment.len() > 0 {
            let name = segment_name(segment);
            assert(is_identifier(name)) by {
                if is_placeholder(segment) {
                    let inner = snake(segment.subrange(1, segment.len() - 1));
                    snake_gives_identifiers(segment.subrange(1, segment.len() - 1));
                    reveal_strlit("by_");
                    assert forall|i: int| 0 <= i < name.len() implies is_name_char(
                        #[trigger] name[i],
                    ) by {
                        if i >= 3 {
                            assert(name[i] == inner[i - 3]);
                        }
                    }
                } else {
                    snake_gives_identifiers(segment);
                }
            }
        }
    }
}

/// The name derived from a verb and a path is an identifier, whatever the path.
pub proof fn derived_names_are_identifiers(method: Seq<char>, path: Seq<char>)
    requires
        is_identifier(method),
    ensures
        is_identifier(derived(method, path)),
{
    parts_are_identifiers(method, split(path, '/'));
    joined_identifiers(name_parts(method, split(path, '/')));
}

proof fn words_of_a_name(name: Seq<char>)
    requires
        forall|i: int| 0 <= i < name.len() ==> is_name_char(#[trigger] name[i]),
        forall|i: int| 0 < i < name.len() && name[i - 1] == '_' ==> #[trigger] name[i] != '_',
        name.len() > 0 ==> name.first() != '_',
    ensures
        snake_words(name) == name,
    decreases name.len(),
{
    if name.len() > 0 {
        let front = name.drop_last();
        assert forall|i: int| 0 <= i < front.len() implies is_name_char(#[trigger] front[i]) by {
            assert(front[i] == name[i]);
        }
        assert forall|i: int| 0 < i < front.len() && front[i - 1] == '_' implies #[trigger] front[i]
            != '_' by {
            assert(front[i] == name[i] && front[i - 1] == name[i - 1]);
        }
        words_of_a_name(front);
        assert(is_name_char(name[name.len() - 1]));
        if name.len() > 1 {
            assert(is_name_char(name[name.len() - 2]));
        }
        assert(snake_piece(name, name.len() - 1) == seq![name.last()]);
        assert(name == front + seq![name.last()]);
    }
}

/// A name that is in snake case already stays as it is.
pub proof fn snake_names_stay(name: Seq<char>)
    requires
        is_identifier(name),
        name.last() != '_',
        forall|i: int| 0 < i < name.len() && name[i - 1] == '_' ==> #[trigger] name[i] != '_',
    ensures
        snake(name) == name,
{
    words_of_a_name(name);
}

proof fn derived_with_another_segment(method: Seq<char>, path: Seq<char>, segment: Seq<char>)
    requires
        !segment.contains('/'),
    ensures
        derived(method, path.push('/') + segment) == if segment.len() == 0 {
            derived(method, path)
        } else {
            derived(method, path) + "_"@ + segment_name(segment)
        },
{
    split_at_a_separator(path, '/', segment);
    split_of_one_piece(segment, '/');
    let before = split(path, '/');
    let all = before.push(segment);
    assert(split(path.push('/') + segment, '/') == all);
    assert(all.drop_last() == before);
    parts_are_not_empty(method, before);
    let parts = name_parts(method, before);
    if segment.len() > 0 {
        assert(parts.push(segment_name(segment)).drop_last() == parts);
    }
}

proof fn parts_are_not_empty(method: Seq<char>, segments: Seq<Seq<char>>)
    ensures
        name_parts(method, segments).len() > 0,
    decreases segments.len(),
{
    if segments.len() > 0 {
        parts_are_not_empty(method, segments.drop_last());
    }
}

/// Derived names tell a path with a parameter at its end from the path without it, and from the path
/// with the parameter's name as a plain segment.
pub proof fn parameters_keep_derived_names_apart(
    method: Seq<char>,
    path: Seq<char>,
    name: Seq<char>,
)
    requires
        !name.contains('/'),
        !is_placeholder(name),
    ensures
        derived(method, path.push('/') + ("{"@ + name + "}"@)) != derived(method, path),
        derived(method, path.push('/') + ("{"@ + name + "}"@)) != derived(
            method,
            path.push('/') + name,
        ),
{
    reveal_strlit("{");
    reveal_strlit("}");
    reveal_strlit("_");
    reveal_strlit("by_");
    let segment = "{"@ + name + "}"@;
    assert(!segment.contains('/')) by {
        assert forall|i: int| 0 <= i < segment.len() implies segment[i] != '/' by {
            if 0 < i < segment.len() - 1 {
                assert(segment[i] == name[i - 1]);
            }
        }
    }
    assert(segment.subrange(1, segment.len() - 1) == name);
    derived_with_another_segment(method, path, segment);
    derived_with_another_segment(method, path, name);
    let with = derived(method, path.push('/') + segment);
    assert(with.len() == derived(method, path).len() + 1 + 3 + snake(name).len());
}

/// What segments add to a derived name behind those before them.
spec fn names_behind(segments: Seq<Seq<char>>) -> Seq<char>
    decreases segments.len(),
{
    if segments.len() == 0 {
        Seq::empty()
    } else if segments.last().len() == 0 {
        names_behind(segments.drop_last())
    } else {
        names_behind(segments.drop_last()) + "_"@ + segment_name(segments.last())
    }
}

proof fn parts_of_more_segments(
    method: Seq<char>,
    before: Seq<Seq<char>>,
    after: Seq<Seq<char>>,
)
    ensures
        joined(name_parts(method, before + after), "_"@) == joined(
            name_parts(method, before),
            "_"@,
        ) + names_behind(after),
    decreases after.len(),
{
    let all = before + after;
    let start = joined(name_parts(method, before), "_"@);
    if after.len() == 0 {
        assert(all == before);
        assert(start + names_behind(after) == start);
    } else {
        let front = after.drop_last();
        assert(all.drop_last() == before + front);
        parts_of_more_segments(method, before, front);
        parts_are_not_empty(method, all.drop_last());
        let parts = name_parts(method, all.drop_last());
        if after.last().len() > 0 {
            let name = segment_name(after.last());
            assert(parts.push(name).drop_last() == parts);
            assert(start + names_behind(front) + "_"@ + name == start + (names_behind(front) + "_"@
                + name));
        }
    }
}

/// Two paths that differ only in the name of a parameter, wherever in the path it stands, have
/// different derived names, unless the two names are the same in snake case.
pub proof fn different_parameters_keep_derived_names_apart(
    method: Seq<char>,
    path: Seq<char>,
    a: Seq<char>,
    b: Seq<char>,
    tail: Seq<char>,
)
    requires
        !a.contains('/'),
        !b.contains('/'),
        snake(a) != snake(b),
        tail.len() > 0 ==> tail.first() == '/',
    ensures
        derived(method, path.push('/') + ("{"@ + a + "}"@) + tail) != derived(
            method,
            path.push('/') + ("{"@ + b + "}"@) + tail,
        ),
{
    let start = derived(method, path) + "_by_"@;
    let end: Seq<char> = if tail.len() == 0 {
        Seq::empty()
    } else {
        names_behind(split(tail.drop_first(), '/'))
    };
    derived_with_a_parameter(method, path, a, tail);
    derived_with_a_parameter(method, path, b, tail);
    let one = start + snake(a) + end;
    let other = start + snake(b) + end;
    if one == other {
        assert(one.len() == start.len() + snake(a).len() + end.len());
        assert(other.len() == start.len() + snake(b).len() + end.len());
        let to = start.len() + snake(a).len() as int;
        assert(one.subrange(start.len() as int, to) == snake(a));
        assert(other.subrange(start.len() as int, to) == snake(b));
    }
}

proof fn derived_with_a_parameter(
    method: Seq<char>,
    path: Seq<char>,
    name: Seq<char>,
    tail: Seq<char>,
)
    requires
        !name.contains('/'),
        tail.len() > 0 ==> tail.first() == '/',
    ensures
        derived(method, path.push('/') + ("{"@ + name + "}"@) + tail) == derived(method, path)
            + "_by_"@ + snake(name) + (if tail.len() == 0 {
            Seq::empty()
        } else {
            names_behind(split(tail.drop_first(), '/'))
        }),
{
    reveal_strlit("{");
    reveal_strlit("}");
    reveal_strlit("_");
    reveal_strlit("by_");
    reveal_strlit("_by_");
    let segment = "{"@ + name + "}"@;
    assert(!segment.contains('/')) by {
        assert forall|i: int| 0 <= i < segment.len() implies segment[i] != '/' by {
            if 0 < i < segment.len() - 1 {
                assert(segment[i] == name[i - 1]);
            }
        }
    }
    assert(segment.subrange(1, segment.len() - 1) == name);
    derived_with_another_segment(method, path, segment);
    let front = path.push('/') + segment;
    assert("_by_"@ == "_"@ + "by_"@);
    assert(derived(method, front) == derived(method, path) + "_by_"@ + snake(name));
    if tail.len() == 0 {
        assert(front + tail == front);
    } else {
        let rest = tail.drop_first();
        assert(front + tail == front.push('/') + rest);
        split_at_a_separator(front, '/', rest);
        parts_of_more_segments(method, split(front, '/'), split(rest, '/'));
    }
}

/// A name with a number behind it.
pub open spec fn numbered(name: Seq<char>, n: nat) -> Seq<char> {
    name + "_"@ + decimal(n)
}

/// Whether `n` is the least number from two on that makes a name which is not taken.
pub open spec fn is_first_free(name: Seq<char>, taken: Seq<Seq<char>>, n: nat) -> bool {
    &&& n >= 2
    &&& !taken.contains(numbered(name, n))
    &&& forall|m: nat| 2 <= m < n ==> taken.contains(#[trigger] numbered(name, m))
}

/// A name that is not taken: the one that is wanted, or else that name with the least number from
/// two on that makes it free.
pub open spec fn unique_name(name: Seq<char>, taken: Seq<Seq<char>>) -> Seq<char> {
    if taken.contains(name) {
        numbered(name, choose|n: nat| is_first_free(name, taken, n))
    } else {
        name
    }
}

/// Of the names numbered from two up to `n`, no more can be taken than there are taken names.
proof fn taken_numbers_are_few(name: Seq<char>, taken: Seq<Seq<char>>, n: nat)
    requires
        n >= 2,
        forall|m: nat| 2 <= m < n ==> taken.contains(#[trigger] numbered(name, m)),
    ensures
        n - 2 <= taken.len(),
{
    let candidates = Seq::new((n - 2) as nat, |i: int| numbered(name, (i + 2) as nat));
    assert forall|i: int, j: int|
        0 <= i < candidates.len() && 0 <= j < candidates.len() && i != j implies candidates[i]
        != candidates[j] by {
        if candidates[i] == candidates[j] {
            same_number((i + 2) as nat, (j + 2) as nat, name);
        }
    }
    candidates.unique_seq_to_set();
    taken.lemma_cardinality_of_set();
    assert(candidates.to_set().subset_of(taken.to_set())) by {
        assert forall|x: Seq<char>| candidates.to_set().contains(x) implies taken.to_set().contains(
            x,
        ) by {
            let i = choose|i: int| 0 <= i < candidates.len() && candidates[i] == x;
            assert(x == numbered(name, (i + 2) as nat));
        }
    }
    vstd::seq_lib::seq_to_set_is_finite(taken);
    vstd::set_lib::lemma_len_subset(candidates.to_set(), taken.to_set());
}

proof fn same_number(a: nat, b: nat, name: Seq<char>)
    requires
        numbered(name, a) == numbered(name, b),
    ensures
        a == b,
{
    let stem = name + "_"@;
    assert(numbered(name, a).skip(stem.len() as int) == decimal(a));
    assert(numbered(name, b).skip(stem.len() as int) == decimal(b));
    decimal_is_injective(a, b);
}

/// A name that is taken gets the least number from two on that makes it free.
pub proof fn first_free_is_chosen(name: Seq<char>, taken: Seq<Seq<char>>, n: nat)
    requires
        taken.contains(name),
        is_first_free(name, taken, n),
    ensures
        unique_name(name, taken) == numbered(name, n),
{
    let m = choose|m: nat| is_first_free(name, taken, m);
    assert(is_first_free(name, taken, m));
    if m < n {
        assert(taken.contains(numbered(name, m)));
    } else if n < m {
        assert(taken.contains(numbered(name, n)));
    }
}

proof fn search_first_free(name: Seq<char>, taken: Seq<Seq<char>>, from: nat) -> (n: nat)
    requires
        from >= 2,
        forall|m: nat| 2 <= m < from ==> taken.contains(#[trigger] numbered(name, m)),
    ensures
        is_first_free(name, taken, n),
    decreases taken.len() + 2 - from,
{
    taken_numbers_are_few(name, taken, from);
    if taken.contains(numbered(name, from)) {
        taken_numbers_are_few(name, taken, from + 1);
        search_first_free(name, taken, from + 1)
    } else {
        from
    }
}

/// A unique name is never one that is taken, and it is the wanted name where that is free.
pub proof fn unique_names_are_free(name: Seq<char>, taken: Seq<Seq<char>>)
    ensures
        !taken.contains(unique_name(name, taken)),
        !taken.contains(name) ==> unique_name(name, taken) == name,
        taken.contains(name) ==> exists|n: nat|
            is_first_free(name, taken, n) && unique_name(name, taken) == #[trigger] numbered(
                name,
                n,
            ),
{
    if taken.contains(name) {
        let n = search_first_free(name, taken, 2);
        first_free_is_chosen(name, taken, n);
    }
}

/// A unique name is an identifier where the wanted name is one.
pub proof fn unique_names_stay_identifiers(name: Seq<char>, taken: Seq<Seq<char>>)
    requires
        is_identifier(name),
    ensures
        is_identifier(unique_name(name, taken)),
{
    unique_names_are_free(name, taken);
    if taken.contains(name) {
        let n = choose|n: nat|
            is_first_free(name, taken, n) && unique_name(name, taken) == #[trigger] numbered(
                name,
                n,
            );
        reveal_strlit("_");
        decimal_is_digits(n);
        let all = numbered(name, n);
        assert forall|i: int| 0 <= i < all.len() implies is_name_char(#[trigger] all[i]) by {
            if i < name.len() {
                assert(all[i] == name[i]);
            } else if i > name.len() {
                assert(all[i] == decimal(n)[i - name.len() - 1]);
            }
        }
        assert(all.first() == name.first());
    }
}

/// Makes a name unique against those that are taken, and records it.
///
/// The first collision gives `get_pet_2`, which reads as "the second get_pet".
pub fn unique(name: &str, taken: &mut Vec<String>) -> (free: String)
    ensures
        free@ == unique_name(name@, views(old(taken)@)),
        !views(old(taken)@).contains(free@),
        views(final(taken)@) == views(old(taken)@).push(free@),
{
    let ghost before = views(taken@);
    proof {
        unique_names_are_free(name@, before);
    }
    if !listed(name, taken) {
        let free: String = name.to_owned();
        taken.push(free.clone());
        assert(views(taken@) == before.push(free@));
        return free;
    }
    let mut n: u128 = 2;
    loop
        invariant
            views(taken@) == before,
            before.len() == taken@.len(),
            before.contains(name@),
            !before.contains(unique_name(name@, before)),
            taken@ == old(taken)@,
            2 <= n <= before.len() + 2,
            forall|m: nat| 2 <= m < n ==> before.contains(#[trigger] numbered(name@, m)),
        decreases before.len() + 2 - n,
    {
        let mut candidate: String = name.to_owned();
        candidate.append("_");
        candidate.append(decimal_of(n).as_str());
        assert(candidate@ == numbered(name@, n as nat));
        if !listed(candidate.as_str(), taken) {
            proof {
                assert(is_first_free(name@, before, n as nat));
                first_free_is_chosen(name@, before, n as nat);
            }
            taken.push(candidate.clone());
            assert(views(taken@) == before.push(candidate@));
            return candidate;
        }
        proof {
            taken_numbers_are_few(name@, before, (n + 1) as nat);
        }
        assert(taken.len() == before.len());
        n = n + 1;
    }
}

/// Whether a character is an ASCII letter or digit, upper-case letters included.
pub open spec fn is_kept(c: char) -> bool {
    ('0' <= c <= '9') || ('A' <= c <= 'Z') || ('a' <= c <= 'z')
}

/// The same letter in lower case; any other character as it is.
pub open spec fn lowered(c: char) -> char {
    if 'A' <= c <= 'Z' {
        (c as int - 'A' as int + 'a' as int) as char
    } else {
        c
    }
}

/// The letters and digits of a text, in order, and in lower case.
pub open spec fn letters_of(s: Seq<char>) -> Seq<char> {
    s.filter(|c: char| is_kept(c)).map_values(|c: char| lowered(c))
}

/// Where the letters and digits of a text stand.
pub open spec fn places(id: Seq<char>) -> Seq<int>
    decreases id.len(),
{
    if id.len() == 0 {
        Seq::empty()
    } else if is_kept(id.last()) {
        places(id.drop_last()).push(id.len() - 1)
    } else {
        places(id.drop_last())
    }
}

/// Whether two neighbours among the letters and digits of a text belong to different words: there is
/// something between them, or the first is no upper-case letter and the second is one.
pub open spec fn are_parted(id: Seq<char>, first: int, second: int) -> bool {
    second - first > 1 || (!('A' <= id[first] <= 'Z') && 'A' <= id[second] <= 'Z')
}

/// The letters and digits at the given places, in lower case, with `_` between words.
pub open spec fn words_at(id: Seq<char>, at: Seq<int>) -> Seq<char>
    decreases at.len(),
{
    if at.len() == 0 {
        Seq::empty()
    } else {
        words_at(id, at.drop_last()) + (if at.len() > 1 && are_parted(
            id,
            at[at.len() - 2],
            at.last(),
        ) {
            seq!['_']
        } else {
            Seq::empty()
        }) + seq![lowered(id[at.last()])]
    }
}

proof fn places_are_in_range(id: Seq<char>)
    ensures
        forall|k: int|
            0 <= k < places(id).len() ==> 0 <= #[trigger] places(id)[k] < id.len() && is_kept(
                id[places(id)[k]],
            ),
        id.len() > 0 && is_kept(id.last()) ==> places(id).len() > 0 && places(id).last() == id.len()
            - 1,
    decreases id.len(),
{
    if id.len() > 0 {
        let front = id.drop_last();
        places_are_in_range(front);
        assert forall|k: int| 0 <= k < places(id).len() implies 0 <= #[trigger] places(id)[k]
            < id.len() && is_kept(id[places(id)[k]]) by {
            if k < places(front).len() {
                assert(places(id)[k] == places(front)[k]);
                assert(front[places(front)[k]] == id[places(front)[k]]);
            }
        }
    }
}

proof fn words_look_at_their_places_only(a: Seq<char>, b: Seq<char>, at: Seq<int>)
    requires
        forall|k: int| 0 <= k < at.len() ==> a[#[trigger] at[k]] == b[at[k]],
    ensures
        words_at(a, at) == words_at(b, at),
    decreases at.len(),
{
    if at.len() > 0 {
        let front = at.drop_last();
        assert forall|k: int| 0 <= k < front.len() implies a[#[trigger] front[k]] == b[front[k]] by {
            assert(front[k] == at[k]);
        }
        words_look_at_their_places_only(a, b, front);
        assert(a[at[at.len() - 1]] == b[at[at.len() - 1]]);
        if at.len() > 1 {
            assert(a[at[at.len() - 2]] == b[at[at.len() - 2]]);
        }
    }
}

proof fn words_are_at_their_places(id: Seq<char>)
    ensures
        snake_words(id) == words_at(id, places(id)) + (if id.len() > 0 && !is_kept(id.last())
            && places(id).len() > 0 {
            seq!['_']
        } else {
            Seq::empty()
        }),
        places(id).len() > 0 ==> words_at(id, places(id)).len() > 0 && words_at(
            id,
            places(id),
        ).last() != '_',
    decreases id.len(),
{
    if id.len() > 0 {
        let front = id.drop_last();
        let at = places(front);
        let c = id.last();
        words_are_at_their_places(front);
        places_are_in_range(front);
        assert forall|k: int| 0 <= k < at.len() implies front[#[trigger] at[k]] == id[at[k]] by {}
        words_look_at_their_places_only(front, id, at);
        let before = words_at(id, at);
        assert(is_kept(c) == is_alphanumeric(c));
        if front.len() > 0 {
            assert(id[id.len() - 2] == front.last());
            assert(is_kept(front.last()) == is_alphanumeric(front.last()));
        }
        if is_kept(c) {
            let all = at.push(id.len() - 1);
            assert(places(id) == all);
            assert(all.drop_last() == at);
            assert(lowered(c) == if is_upper(c) {
                lower(c)
            } else {
                c
            });
            if at.len() > 0 {
                assert(all[all.len() - 2] == at.last());
                assert(is_kept(id[at[at.len() - 1]]));
                if is_kept(front.last()) {
                    assert(at.last() == front.len() - 1);
                } else {
                    assert(at.last() < front.len());
                    assert(front[at.last()] != front.last());
                    assert(at.last() != front.len() - 1);
                }
            } else if front.len() > 0 {
                assert(!is_kept(front.last()));
            }
            assert(snake_words(id) == words_at(id, all));
        } else {
            assert(places(id) == at);
        }
    }
}

/// A name is the words of what it was made of: its letters and digits, all of them and in order, in
/// lower case, with a `_` exactly where something else stood between two of them, or where an
/// upper-case letter follows a lower-case one or a digit; after `op_`, where that would be no
/// identifier.
pub proof fn names_are_made_of_words(id: Seq<char>)
    ensures
        ({
            let words = words_at(id, places(id));
            snake(id) == if words.len() == 0 || '0' <= words[0] <= '9' {
                seq!['o', 'p', '_'] + words
            } else {
                words
            }
        }),
{
    words_are_at_their_places(id);
    reveal_strlit("op_");
    let words = words_at(id, places(id));
    assert("op_"@ == seq!['o', 'p', '_']);
    assert(snake_stem(id) == words) by {
        if id.len() > 0 && !is_kept(id.last()) && places(id).len() > 0 {
            assert(snake_words(id).drop_last() == words);
        } else {
            assert(snake_words(id) == words);
        }
    }
}

proof fn words_keep_letters(id: Seq<char>)
    ensures
        words_at(id, places(id)).filter(|c: char| c != '_') == letters_of(id),
    decreases id.len(),
{
    reveal(Seq::filter);
    let bare = |c: char| c != '_';
    let kept = |c: char| is_kept(c);
    if id.len() > 0 {
        let front = id.drop_last();
        let at = places(front);
        words_keep_letters(front);
        places_are_in_range(front);
        assert forall|k: int| 0 <= k < at.len() implies front[#[trigger] at[k]] == id[at[k]] by {}
        words_look_at_their_places_only(front, id, at);
        if is_kept(id.last()) {
            let all = at.push(id.len() - 1);
            assert(all.drop_last() == at);
            let before = words_at(id, at);
            let c = lowered(id.last());
            assert(c != '_');
            if words_at(id, all).len() == before.len() + 2 {
                let mid = before.push('_');
                assert(words_at(id, all) == mid.push(c));
                assert(mid.push(c).drop_last() == mid);
                assert(mid.drop_last() == before);
                assert(mid.filter(bare) == before.filter(bare));
                assert(mid.push(c).filter(bare) == before.filter(bare).push(c));
            } else {
                assert(words_at(id, all) == before.push(c));
                assert(before.push(c).drop_last() == before);
                assert(before.push(c).filter(bare) == before.filter(bare).push(c));
            }
            assert(id.filter(kept) == front.filter(kept).push(id.last()));
            assert(letters_of(id) == letters_of(front).push(c));
        } else {
            assert(id.filter(kept) == front.filter(kept));
        }
    } else {
        assert(words_at(id, places(id)).filter(bare) == letters_of(id));
    }
}

/// No letter or digit is lost, added or moved: the name without its underscores, and without the
/// `op_` that is put where a name would begin with a digit or be empty, is the letters and digits of
/// what it was made of.
pub proof fn names_keep_every_letter(id: Seq<char>)
    ensures
        ({
            let letters = letters_of(id);
            let bare = |c: char| c != '_';
            if letters.len() == 0 || '0' <= letters[0] <= '9' {
                snake(id).len() >= 3 && snake(id).take(3) == seq!['o', 'p', '_'] && snake(id).skip(
                    3,
                ).filter(bare) == letters
            } else {
                snake(id).filter(bare) == letters
            }
        }),
{
    names_are_made_of_words(id);
    words_keep_letters(id);
    let bare = |c: char| c != '_';
    let words = words_at(id, places(id));
    let name = seq!['o', 'p', '_'] + words;
    assert(name.take(3) == seq!['o', 'p', '_']);
    assert(name.skip(3) == words);
    words_begin_with_their_first_letter(id);
}

proof fn words_begin_with_their_first_letter(id: Seq<char>)
    ensures
        words_at(id, places(id)).len() == 0 <==> letters_of(id).len() == 0,
        letters_of(id).len() > 0 ==> words_at(id, places(id))[0] == letters_of(id)[0],
    decreases id.len(),
{
    reveal(Seq::filter);
    let kept = |c: char| is_kept(c);
    if id.len() > 0 {
        let front = id.drop_last();
        let at = places(front);
        words_begin_with_their_first_letter(front);
        places_are_in_range(front);
        assert forall|k: int| 0 <= k < at.len() implies front[#[trigger] at[k]] == id[at[k]] by {}
        words_look_at_their_places_only(front, id, at);
        if is_kept(id.last()) {
            let all = at.push(id.len() - 1);
            assert(all.drop_last() == at);
            assert(id.filter(kept) == front.filter(kept).push(id.last()));
            assert(letters_of(id) == letters_of(front).push(lowered(id.last())));
            if at.len() == 0 {
                assert(words_at(id, all) == seq![lowered(id.last())]);
            } else {
                words_are_at_their_places(front);
            }
        } else {
            assert(id.filter(kept) == front.filter(kept));
        }
    }
}

/// The name for an operation without one grows with its path, segment by segment: it begins as the
/// verb, an empty segment adds nothing, a parameter adds `_by_` and its name, and any other segment
/// adds `_` and itself.
pub proof fn derived_names_follow_the_path(
    method: Seq<char>,
    path: Seq<char>,
    segment: Seq<char>,
    name: Seq<char>,
)
    requires
        !segment.contains('/'),
        !name.contains('/'),
        segment.len() > 1 ==> !(segment.first() == '{' && segment.last() == '}'),
    ensures
        derived(method, Seq::empty()) == method,
        derived(method, path.push('/')) == derived(method, path),
        segment.len() > 0 ==> derived(method, path.push('/') + segment) == derived(method, path)
            + seq!['_'] + snake(segment),
        segment.len() > 0 ==> derived(method, segment) == method + seq!['_'] + snake(segment),
        derived(method, path.push('/') + (seq!['{'] + name + seq!['}'])) == derived(method, path)
            + seq!['_', 'b', 'y', '_'] + snake(name),
        derived(method, seq!['{'] + name + seq!['}']) == method + seq!['_', 'b', 'y', '_'] + snake(
            name,
        ),
{
    reveal_strlit("_");
    reveal_strlit("by_");
    let none = Seq::<char>::empty();
    let param = seq!['{'] + name + seq!['}'];
    assert(!param.contains('/')) by {
        assert forall|i: int| 0 <= i < param.len() implies param[i] != '/' by {
            if 0 < i < param.len() - 1 {
                assert(param[i] == name[i - 1]);
            }
        }
    }
    assert(param.subrange(1, param.len() - 1) == name);
    assert("_"@ == seq!['_']);
    derived_with_another_segment(method, path, none);
    assert(path.push('/') + none == path.push('/'));
    derived_with_another_segment(method, path, segment);
    derived_with_another_segment(method, path, param);
    assert(derived(method, path) + "_"@ + ("by_"@ + snake(name)) == derived(method, path) + seq![
        '_',
        'b',
        'y',
        '_',
    ] + snake(name));
    derived_from_one_segment(method, none);
    derived_from_one_segment(method, segment);
    derived_from_one_segment(method, param);
    assert(method + "_"@ + ("by_"@ + snake(name)) == method + seq!['_', 'b', 'y', '_'] + snake(
        name,
    ));
}

proof fn derived_from_one_segment(method: Seq<char>, segment: Seq<char>)
    requires
        !segment.contains('/'),
    ensures
        derived(method, segment) == if segment.len() == 0 {
            method
        } else {
            method + "_"@ + segment_name(segment)
        },
{
    split_of_one_piece(segment, '/');
    let segments = seq![segment];
    assert(segments.drop_last() == Seq::<Seq<char>>::empty());
    assert(name_parts(method, segments.drop_last()) == seq![method]);
    if segment.len() > 0 {
        let parts = seq![method].push(segment_name(segment));
        assert(parts.drop_last() == seq![method]);
        assert(joined(seq![method], "_"@) == method);
    } else {
        assert(joined(seq![method], "_"@) == method);
    }
}

/// A name that is free is kept; one that is taken gets a `_` and a number behind it, the least from
/// two on with which it is free.
pub proof fn taken_names_are_numbered(name: Seq<char>, taken: Seq<Seq<char>>)
    ensures
        !taken.contains(name) ==> unique_name(name, taken) == name,
        taken.contains(name) ==> exists|n: nat|
            {
                &&& n >= 2
                &&& unique_name(name, taken) == name + seq!['_'] + #[trigger] decimal(n)
                &&& !taken.contains(name + seq!['_'] + decimal(n))
                &&& forall|m: nat|
                    2 <= m < n ==> taken.contains(name + seq!['_'] + #[trigger] decimal(m))
            },
{
    reveal_strlit("_");
    assert("_"@ == seq!['_']);
    unique_names_are_free(name, taken);
    if taken.contains(name) {
        let n = choose|n: nat|
            is_first_free(name, taken, n) && unique_name(name, taken) == #[trigger] numbered(
                name,
                n,
            );
        assert(unique_name(name, taken) == name + seq!['_'] + decimal(n));
        assert forall|m: nat| 2 <= m < n implies taken.contains(
            name + seq!['_'] + #[trigger] decimal(m),
        ) by {
            assert(taken.contains(numbered(name, m)));
        }
    }
}

} // verus!
