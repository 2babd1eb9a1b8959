//! JSON documents: the tree that the generator walks, and the pointers that lead into it.
//!
//! A document is read by `serde_json` and then held as a [`Json`] tree. A JSON pointer is looked up
//! by `serde_json` too, in the value that the tree was made from.
use crate::text::{
    decimal, decimal_is_injective, same, split, split_at_a_separator, split_is_undone_by_joining,
    split_of_one_piece,
};
use vstd::prelude::*;
use vstd::string::*;

verus! {

/// A JSON value. The members of an object stand in document order. A number is only known to be
/// one: nothing reads its value.
#[derive(Debug)]
pub enum Json {
    Null,
    Bool(bool),
    Number,
    Text(String),
    List(Vec<Json>),
    Object(Vec<(String, Json)>),
}

/// What a JSON value is.
pub enum Tree {
    Null,
    Bool(bool),
    Number,
    Text(Seq<char>),
    List(Seq<Tree>),
    Object(Seq<(Seq<char>, Tree)>),
}

impl Json {
    pub open spec fn tree(self) -> Tree
        decreases self,
    {
        match self {
            Json::Null => Tree::Null,
            Json::Bool(b) => Tree::Bool(b),
            Json::Number => Tree::Number,
            Json::Text(s) => Tree::Text(s@),
            Json::List(items) => Tree::List(
                Seq::new(
                    items@.len(),
                    |i: int|
                        if 0 <= i < items@.len() {
                            items@[i].tree()
                        } else {
                            Tree::Null
                        },
                ),
            ),
            Json::Object(members) => Tree::Object(
                Seq::new(
                    members@.len(),
                    |i: int|
                        if 0 <= i < members@.len() {
                            (members@[i].0@, members@[i].1.tree())
                        } else {
                            (Seq::empty(), Tree::Null)
                        },
                ),
            ),
        }
    }
}

impl View for Json {
    type V = Tree;

    open spec fn view(&self) -> Tree {
        self.tree()
    }
}

/// What the members of an object are.
pub open spec fn members_view(members: Seq<(String, Json)>) -> Seq<(Seq<char>, Tree)> {
    members.map_values(|m: (String, Json)| (m.0@, m.1@))
}

/// The value of the first member with the given key.
pub open spec fn lookup(members: Seq<(Seq<char>, Tree)>, key: Seq<char>) -> Option<Tree>
    decreases members.len(),
{
    if members.len() == 0 {
        None
    } else if members.first().0 == key {
        Some(members.first().1)
    } else {
        lookup(members.drop_first(), key)
    }
}

impl Tree {
    /// The value under a key, where the tree is an object that has the key.
    pub open spec fn member(self, key: Seq<char>) -> Option<Tree> {
        match self {
            Tree::Object(members) => lookup(members, key),
            _ => None,
        }
    }

    /// The text, where the tree is one.
    pub open spec fn text(self) -> Option<Seq<char>> {
        match self {
            Tree::Text(s) => Some(s),
            _ => None,
        }
    }

    /// The text under a key.
    pub open spec fn text_member(self, key: Seq<char>) -> Option<Seq<char>> {
        match self.member(key) {
            Some(tree) => tree.text(),
            None => None,
        }
    }

    /// What one token of a pointer leads to: the member of an object under it, or the item of a list
    /// whose index it is in decimal.
    pub open spec fn step(self, token: Seq<char>) -> Option<Tree> {
        match self {
            Tree::Object(members) => lookup(members, token),
            Tree::List(items) => if exists|i: nat| i < items.len() && token == #[trigger] decimal(i) {
                let i = choose|i: nat| i < items.len() && token == #[trigger] decimal(i);
                Some(items[i as int])
            } else {
                None
            },
            _ => None,
        }
    }

    /// What the given tokens lead to, one value below the other.
    pub open spec fn descend(self, tokens: Seq<Seq<char>>) -> Option<Tree>
        decreases tokens.len(),
    {
        if tokens.len() == 0 {
            Some(self)
        } else {
            match self.step(tokens.first()) {
                Some(tree) => tree.descend(tokens.drop_first()),
                None => None,
            }
        }
    }
}

/// Whether no two members have the same key.
pub open spec fn keys_differ(members: Seq<(Seq<char>, Tree)>) -> bool {
    forall|i: int, j: int|
        0 <= i < j < members.len() ==> (#[trigger] members[i]).0 != (#[trigger] members[j]).0
}

/// Whether no object in a tree has a key twice.
pub open spec fn has_distinct_keys(tree: Tree) -> bool
    decreases tree,
{
    match tree {
        Tree::List(items) => forall|i: int|
            0 <= i < items.len() ==> has_distinct_keys(#[trigger] items[i]),
        Tree::Object(members) => {
            &&& keys_differ(members)
            &&& forall|i: int|
                0 <= i < members.len() ==> has_distinct_keys((#[trigger] members[i]).1)
        },
        _ => true,
    }
}

/// A text with `by` in place of each `~` that `c` stands behind, and of that `c`.
pub open spec fn unescape(s: Seq<char>, c: char, by: char) -> Seq<char>
    decreases s.len(),
{
    if s.len() < 2 {
        s
    } else if s[0] == '~' && s[1] == c {
        seq![by] + unescape(s.skip(2), c, by)
    } else {
        seq![s[0]] + unescape(s.skip(1), c, by)
    }
}

/// A token of a pointer without its escapes: `~1` stands for `/`, and then `~0` for `~`.
pub open spec fn token_text(token: Seq<char>) -> Seq<char> {
    unescape(unescape(token, '1', '/'), '0', '~')
}

/// What a JSON pointer leads to: the document itself where it is empty, nowhere where it does not
/// begin with `/`, and else what its tokens lead to.
pub open spec fn pointed(doc: Tree, pointer: Seq<char>) -> Option<Tree> {
    if pointer.len() == 0 {
        Some(doc)
    } else if pointer.first() != '/' {
        None
    } else {
        doc.descend(
            split(pointer, '/').drop_first().map_values(|token: Seq<char>| token_text(token)),
        )
    }
}

proof fn found_members_are_members(members: Seq<(Seq<char>, Tree)>, key: Seq<char>)
    ensures
        lookup(members, key) matches Some(tree) ==> exists|i: int|
            0 <= i < members.len() && (#[trigger] members[i]).1 == tree,
    decreases members.len(),
{
    if members.len() > 0 {
        let rest = members.drop_first();
        found_members_are_members(rest, key);
        match lookup(members, key) {
            Some(tree) => {
                if members.first().0 == key {
                    assert(members[0].1 == tree);
                } else {
                    let i = choose|i: int| 0 <= i < rest.len() && (#[trigger] rest[i]).1 == tree;
                    assert(members[i + 1].1 == tree);
                }
            },
            None => {},
        }
    }
}

/// In a tree that has no key twice, no value under a key has one twice.
pub proof fn members_have_distinct_keys(tree: Tree, key: Seq<char>)
    requires
        has_distinct_keys(tree),
    ensures
        tree.member(key) matches Some(value) ==> has_distinct_keys(value),
{
    match tree {
        Tree::Object(members) => found_members_are_members(members, key),
        _ => {},
    }
}

/// A token without a `~` stands for itself.
pub proof fn plain_tokens_stand_for_themselves(token: Seq<char>)
    requires
        !token.contains('~'),
    ensures
        token_text(token) == token,
{
    nothing_to_unescape(token, '1', '/');
    nothing_to_unescape(token, '0', '~');
}

proof fn nothing_to_unescape(s: Seq<char>, c: char, by: char)
    requires
        !s.contains('~'),
    ensures
        unescape(s, c, by) == s,
    decreases s.len(),
{
    if s.len() >= 2 {
        assert(s[0] != '~');
        let rest = s.skip(1);
        assert forall|i: int| 0 <= i < rest.len() implies rest[i] != '~' by {
            assert(s[i + 1] != '~');
        }
        nothing_to_unescape(rest, c, by);
        assert(s == seq![s[0]] + rest);
    }
}

/// The index of an item, in decimal, leads to that item and to no other.
pub proof fn indices_lead_to_items(items: Seq<Tree>, i: nat)
    requires
        i < items.len(),
    ensures
        Tree::List(items).step(decimal(i)) == Some(items[i as int]),
{
    let j = choose|j: nat| j < items.len() && decimal(i) == #[trigger] decimal(j);
    assert(j < items.len() && decimal(i) == decimal(j));
    decimal_is_injective(i, j);
}

#[verifier::external_type_specification]
#[verifier::external_body]
pub struct ExValue(serde_json::Value);

/// What a `serde_json::Value` holds.
pub uninterp spec fn contents(value: serde_json::Value) -> Tree;

/// What `serde_json::from_str` makes of a text: a value, or the message of its error.
pub uninterp spec fn json_document(text: Seq<char>) -> Result<Tree, Seq<char>>;

/// One level of a `serde_json::Value`.
enum Node<'a> {
    Null,
    Bool(bool),
    Number,
    Text(&'a String),
    List(&'a Vec<serde_json::Value>),
    Object(Vec<(&'a String, &'a serde_json::Value)>),
}

impl Node<'_> {
    spec fn tree(self) -> Tree {
        match self {
            Node::Null => Tree::Null,
            Node::Bool(b) => Tree::Bool(b),
            Node::Number => Tree::Number,
            Node::Text(s) => Tree::Text(s@),
            Node::List(items) => Tree::List(
                items@.map_values(|v: serde_json::Value| contents(v)),
            ),
            Node::Object(members) => Tree::Object(
                members@.map_values(|m: (&String, &serde_json::Value)| (m.0@, contents(*m.1))),
            ),
        }
    }
}

/// `serde_json::from_str`, for a `Value`: the value or the error's message, a function of the text
/// alone.
#[verifier::external_body]
fn from_str(text: &str) -> (result: Result<serde_json::Value, String>)
    ensures
        match result {
            Ok(value) => json_document(text@) == Ok::<Tree, Seq<char>>(contents(value)),
            Err(message) => json_document(text@) == Err::<Tree, Seq<char>>(message@),
        },
{
    serde_json::from_str::<serde_json::Value>(text).map_err(|e| e.to_string())
}

/// The variants of `serde_json::Value`, told apart: what the value holds is what its variant and
/// the values in it hold. The members of an object come as `Map::iter` gives them, which is
/// document order under the `preserve_order` feature; a `Map` has no key twice.
#[verifier::external_body]
fn open_value(value: &serde_json::Value) -> (node: Node<'_>)
    ensures
        node.tree() == contents(*value),
        node.tree() matches Tree::Object(members) ==> keys_differ(members),
{
    match value {
        serde_json::Value::Null => Node::Null,
        serde_json::Value::Bool(b) => Node::Bool(*b),
        serde_json::Value::Number(_) => Node::Number,
        serde_json::Value::String(s) => Node::Text(s),
        serde_json::Value::Array(items) => Node::List(items),
        serde_json::Value::Object(map) => Node::Object(map.iter().collect()),
    }
}

/// What a value that may have been found holds.
spec fn found(value: Option<&serde_json::Value>) -> Option<Tree> {
    match value {
        Some(v) => Some(contents(*v)),
        None => None,
    }
}

/// `serde_json::Value::pointer`: the empty pointer finds the value itself, and one that does not
/// begin with `/` finds nothing. Any other is split at each `/`, and each token, its `~1` and then
/// its `~0` replaced, leads from an object to the member under it and from a list to the item whose
/// index it is, written without a sign and without leading zeros.
#[verifier::external_body]
fn find_pointer<'a>(value: &'a serde_json::Value, pointer: &str) -> (target: Option<
    &'a serde_json::Value,
>)
    ensures
        found(target) == pointed(contents(*value), pointer@),
{
    value.pointer(pointer)
}

/// The tree of a `serde_json::Value`.
fn tree_of(value: &serde_json::Value) -> (json: Json)
    ensures
        json@ == contents(*value),
        has_distinct_keys(json@),
    decreases contents(*value),
{
    match open_value(value) {
        Node::Null => Json::Null,
        Node::Bool(b) => Json::Bool(b),
        Node::Number => Json::Number,
        Node::Text(s) => Json::Text(s.clone()),
        Node::List(values) => {
            let mut items: Vec<Json> = Vec::new();
            for i in 0..values.len()
                invariant
                    contents(*value) == (Tree::List(
                        values@.map_values(|v: serde_json::Value| contents(v)),
                    )),
                    items@.len() == i,
                    forall|j: int|
                        0 <= j < i ==> (#[trigger] items@[j])@ == contents(values@[j])
                            && has_distinct_keys(items@[j]@),
            {
                assert(contents(*value)->List_0[i as int] == contents(values@[i as int]));
                items.push(tree_of(&values[i]));
            }
            let json = Json::List(items);
            assert(json@->List_0 == contents(*value)->List_0);
            assert forall|i: int| 0 <= i < json@->List_0.len() implies has_distinct_keys(
                #[trigger] json@->List_0[i],
            ) by {
                assert(json@->List_0[i] == items@[i]@);
            }
            json
        },
        Node::Object(values) => {
            let mut members: Vec<(String, Json)> = Vec::new();
            for i in 0..values.len()
                invariant
                    contents(*value) == (Tree::Object(
                        values@.map_values(
                            |m: (&String, &serde_json::Value)| (m.0@, contents(*m.1)),
                        ),
                    )),
                    keys_differ(contents(*value)->Object_0),
                    members@.len() == i,
                    forall|j: int|
                        0 <= j < i ==> (#[trigger] members@[j]).0@ == values@[j].0@
                            && members@[j].1@ == contents(*values@[j].1) && has_distinct_keys(
                            members@[j].1@,
                        ),
            {
                assert(contents(*value)->Object_0[i as int].1 == contents(*values@[i as int].1));
                members.push((values[i].0.clone(), tree_of(values[i].1)));
            }
            let json = Json::Object(members);
            assert(json@->Object_0 == contents(*value)->Object_0);
            assert forall|i: int| 0 <= i < json@->Object_0.len() implies has_distinct_keys(
                (#[trigger] json@->Object_0[i]).1,
            ) by {
                assert(json@->Object_0[i].1 == members@[i].1@);
            }
            json
        },
    }
}

impl Json {
    /// The value under a key, where this is an object that has the key.
    pub fn member(&self, key: &str) -> (value: Option<&Json>)
        ensures
            match value {
                Some(v) => self@.member(key@) == Some(v@),
                None => self@.member(key@) is None,
            },
    {
        match self {
            Json::Object(members) => {
                proof {
                    object_view(*self);
                }
                member_of(members, key)
            },
            _ => None,
        }
    }

    /// The text, where this is one.
    pub fn text(&self) -> (text: Option<&String>)
        ensures
            match text {
                Some(s) => self@.text() == Some(s@),
                None => self@.text() is None,
            },
    {
        match self {
            Json::Text(s) => Some(s),
            _ => None,
        }
    }

    /// The text under a key.
    pub fn text_member(&self, key: &str) -> (text: Option<&String>)
        ensures
            match text {
                Some(s) => self@.text_member(key@) == Some(s@),
                None => self@.text_member(key@) is None,
            },
    {
        match self.member(key) {
            Some(value) => value.text(),
            None => None,
        }
    }
}

/// An object's view is the view of its members, and a list's view that of its items.
pub proof fn object_view(json: Json)
    ensures
        json matches Json::Object(members) ==> json@ == Tree::Object(members_view(members@)),
        json matches Json::List(items) ==> json@ == Tree::List(items@.map_values(|j: Json| j@)),
{
    match json {
        Json::Object(members) => {
            assert(json@->Object_0 == members_view(members@));
        },
        Json::List(items) => {
            assert(json@->List_0 == items@.map_values(|j: Json| j@));
        },
        _ => {},
    }
}

/// The value of the first member with the given key.
pub fn member_of<'a>(members: &'a Vec<(String, Json)>, key: &str) -> (value: Option<&'a Json>)
    ensures
        match value {
            Some(v) => lookup(members_view(members@), key@) == Some(v@),
            None => lookup(members_view(members@), key@) is None,
        },
{
    let ghost all = members_view(members@);
    assert(all.skip(0) == all);
    for i in 0..members.len()
        invariant
            all == members_view(members@),
            lookup(all, key@) == lookup(all.skip(i as int), key@),
    {
        assert(all.skip(i as int).first() == (members@[i as int].0@, members@[i as int].1@));
        assert(all.skip(i as int).drop_first() == all.skip(i + 1));
        if same(members[i].0.as_str(), key) {
            return Some(&members[i].1);
        }
    }
    None
}

/// A JSON document.
pub struct Document {
    root: Json,
    value: serde_json::Value,
}

impl View for Document {
    type V = Tree;

    closed spec fn view(&self) -> Tree {
        self.root@
    }
}

impl Document {
    #[verifier::type_invariant]
    spec fn root_is_the_value(self) -> bool {
        self.root@ == contents(self.value) && has_distinct_keys(self.root@)
    }

    /// Reads a document; the error is the reader's own message.
    pub fn read(text: &str) -> (result: Result<Document, String>)
        ensures
            match result {
                Ok(doc) => json_document(text@) == Ok::<Tree, Seq<char>>(doc@) && has_distinct_keys(
                    doc@,
                ),
                Err(message) => json_document(text@) == Err::<Tree, Seq<char>>(message@),
            },
    {
        match from_str(text) {
            Ok(value) => {
                let root = tree_of(&value);
                Ok(Document { root, value })
            },
            Err(message) => Err(message),
        }
    }

    /// The whole document.
    pub fn root(&self) -> (root: &Json)
        ensures
            root@ == self@,
            has_distinct_keys(self@),
    {
        proof {
            use_type_invariant(&*self);
        }
        &self.root
    }

    /// What a JSON pointer leads to.
    pub fn pointer(&self, pointer: &str) -> (target: Option<Json>)
        ensures
            match target {
                Some(json) => pointed(self@, pointer@) == Some(json@),
                None => pointed(self@, pointer@) is None,
            },
    {
        proof {
            use_type_invariant(&*self);
        }
        match find_pointer(&self.value, pointer) {
            Some(value) => Some(tree_of(value)),
            None => None,
        }
    }
}

/// A key leads to the value of the first member with it, and to nothing where no member has it.
pub proof fn keys_lead_to_their_values(members: Seq<(Seq<char>, Tree)>, key: Seq<char>, i: int)
    requires
        0 <= i <= members.len(),
        forall|j: int| 0 <= j < i ==> (#[trigger] members[j]).0 != key,
        i < members.len() ==> members[i].0 == key,
    ensures
        lookup(members, key) == if i < members.len() {
            Some(members[i].1)
        } else {
            None
        },
        Tree::Object(members).member(key) == lookup(members, key),
    decreases i,
{
    if i > 0 {
        let rest = members.drop_first();
        assert(members[0].0 != key);
        assert forall|j: int| 0 <= j < i - 1 implies (#[trigger] rest[j]).0 != key by {
            assert(rest[j] == members[j + 1]);
        }
        keys_lead_to_their_values(rest, key, i - 1);
    }
}

/// Only an object has members, and only a text is one.
pub proof fn trees_are_one_thing(tree: Tree, key: Seq<char>)
    ensures
        tree !is Object ==> tree.member(key) is None,
        tree matches Tree::Text(s) ==> tree.text() == Some(s),
        tree !is Text ==> tree.text() is None,
        tree.text_member(key) == match tree.member(key) {
            Some(Tree::Text(s)) => Some(s),
            _ => None,
        },
{
}

/// A value shows as what it is, and its items and members as what they are, in order.
pub proof fn values_show_as_they_are(json: Json)
    ensures
        match json {
            Json::Null => json@ is Null,
            Json::Bool(b) => json@ == Tree::Bool(b),
            Json::Number => json@ is Number,
            Json::Text(s) => json@ == Tree::Text(s@),
            Json::List(items) => json@ is List && json@->List_0.len() == items@.len() && forall|i: int|
                0 <= i < items@.len() ==> #[trigger] json@->List_0[i] == items@[i]@,
            Json::Object(members) => json@ is Object && json@->Object_0.len() == members@.len()
                && forall|i: int|
                0 <= i < members@.len() ==> #[trigger] json@->Object_0[i] == (
                    members@[i].0@,
                    members@[i].1@,
                ),
        },
{
    object_view(json);
}

/// A key as a pointer spells it: `~0` for `~`, and `~1` for `/`.
pub open spec fn token_for(key: Seq<char>) -> Seq<char>
    decreases key.len(),
{
    if key.len() == 0 {
        Seq::empty()
    } else {
        (if key[0] == '~' {
            seq!['~', '0']
        } else if key[0] == '/' {
            seq!['~', '1']
        } else {
            seq![key[0]]
        }) + token_for(key.drop_first())
    }
}

/// A key with its `~` spelled `~0`, and nothing else changed.
spec fn half_token_for(key: Seq<char>) -> Seq<char>
    decreases key.len(),
{
    if key.len() == 0 {
        Seq::empty()
    } else {
        (if key[0] == '~' {
            seq!['~', '0']
        } else {
            seq![key[0]]
        }) + half_token_for(key.drop_first())
    }
}

proof fn unescaping_steps(c: char, escaped: char, by: char, rest: Seq<char>)
    ensures
        unescape(seq!['~', escaped] + rest, escaped, by) == seq![by] + unescape(rest, escaped, by),
        c != '~' ==> unescape(seq![c] + rest, escaped, by) == seq![c] + unescape(
            rest,
            escaped,
            by,
        ),
{
    let pair = seq!['~', escaped] + rest;
    assert(pair.skip(2) == rest);
    let one = seq![c] + rest;
    assert(one.skip(1) == rest);
    if rest.len() == 0 {
        assert(one == seq![c]);
        assert(unescape(rest, escaped, by) == Seq::<char>::empty());
    }
}

proof fn slashes_are_read_back(key: Seq<char>)
    ensures
        unescape(token_for(key), '1', '/') == half_token_for(key),
    decreases key.len(),
{
    if key.len() > 0 {
        let rest = key.drop_first();
        let tail = token_for(rest);
        slashes_are_read_back(rest);
        unescaping_steps(key[0], '1', '/', tail);
        if key[0] == '~' {
            let all = seq!['~', '0'] + tail;
            assert(all.skip(1) == seq!['0'] + tail);
            unescaping_steps('0', '1', '/', tail);
            assert(unescape(all, '1', '/') == seq!['~'] + unescape(all.skip(1), '1', '/'));
            assert(unescape(all, '1', '/') == seq!['~', '0'] + unescape(tail, '1', '/'));
        }
    }
}

proof fn tildes_are_read_back(key: Seq<char>)
    ensures
        unescape(half_token_for(key), '0', '~') == key,
    decreases key.len(),
{
    if key.len() > 0 {
        let rest = key.drop_first();
        tildes_are_read_back(rest);
        unescaping_steps(key[0], '0', '~', half_token_for(rest));
        assert(key == seq![key[0]] + rest);
    } else {
        assert(unescape(half_token_for(key), '0', '~') == key);
    }
}

/// A key that is spelled as pointers spell keys is read back as it was.
pub proof fn spelled_keys_read_back(key: Seq<char>)
    ensures
        token_text(token_for(key)) == key,
{
    slashes_are_read_back(key);
    tildes_are_read_back(key);
}

proof fn tokens_are_followed_in_turn(tree: Tree, tokens: Seq<Seq<char>>, last: Seq<char>)
    ensures
        tree.descend(tokens.push(last)) == match tree.descend(tokens) {
            Some(target) => target.step(last),
            None => None,
        },
    decreases tokens.len(),
{
    let all = tokens.push(last);
    if tokens.len() == 0 {
        assert(all.drop_first() == Seq::<Seq<char>>::empty());
        reveal_with_fuel(Tree::descend, 2);
    } else {
        assert(all.drop_first() == tokens.drop_first().push(last));
        assert(all.first() == tokens.first());
        match tree.step(tokens.first()) {
            Some(next) => tokens_are_followed_in_turn(next, tokens.drop_first(), last),
            None => {},
        }
    }
}

/// A pointer leads into a document key by key: the empty one to the document itself, and one with
/// another key behind it to the member under that key of what the pointer led to.
pub proof fn pointers_lead_from_key_to_key(
    doc: Tree,
    pointer: Seq<char>,
    members: Seq<(Seq<char>, Tree)>,
    key: Seq<char>,
)
    requires
        pointer.len() == 0 || pointer[0] == '/',
        pointed(doc, pointer) == Some(Tree::Object(members)),
    ensures
        pointed(doc, Seq::empty()) == Some(doc),
        pointed(doc, pointer + seq!['/'] + token_for(key)) == lookup(members, key),
{
    let token = token_for(key);
    let longer = pointer + seq!['/'] + token;
    tokens_hold_no_slash(key);
    assert(longer == pointer.push('/') + token);
    split_at_a_separator(pointer, '/', token);
    split_of_one_piece(token, '/');
    let parts = split(pointer, '/');
    split_is_undone_by_joining(pointer, '/');
    assert(split(longer, '/') == parts.push(token));
    let read = |t: Seq<char>| token_text(t);
    spelled_keys_read_back(key);
    assert(longer[0] == '/');
    assert(split(longer, '/').drop_first() == parts.drop_first().push(token));
    assert(parts.drop_first().push(token).map_values(read) == parts.drop_first().map_values(
        read,
    ).push(key));
    tokens_are_followed_in_turn(doc, parts.drop_first().map_values(read), key);
    if pointer.len() == 0 {
        assert(parts.drop_first().map_values(read) == Seq::<Seq<char>>::empty());
    }
}

proof fn tokens_hold_no_slash(key: Seq<char>)
    ensures
        !token_for(key).contains('/'),
    decreases key.len(),
{
    if key.len() > 0 {
        let rest = token_for(key.drop_first());
        tokens_hold_no_slash(key.drop_first());
        let all = token_for(key);
        let n = all.len() - rest.len();
        assert forall|i: int| 0 <= i < all.len() implies all[i] != '/' by {
            if i >= n {
                assert(all[i] == rest[i - n]);
            }
        }
    }
}

/// Whether a tree is an object whose first member with the given key has the given value.
pub open spec fn says(tree: Tree, key: Seq<char>, value: Tree) -> bool {
    tree matches Tree::Object(members) && exists|i: int|
        0 <= i < members.len() && #[trigger] members[i] == (key, value) && forall|j: int|
            0 <= j < i ==> (#[trigger] members[j]).0 != key
}

proof fn place_of(members: Seq<(Seq<char>, Tree)>, key: Seq<char>) -> (i: int)
    ensures
        0 <= i <= members.len(),
        forall|j: int| 0 <= j < i ==> (#[trigger] members[j]).0 != key,
        i < members.len() ==> members[i].0 == key,
    decreases members.len(),
{
    if members.len() == 0 || members[0].0 == key {
        0
    } else {
        let rest = members.drop_first();
        let i = place_of(rest, key);
        assert forall|j: int| 0 <= j < i + 1 implies (#[trigger] members[j]).0 != key by {
            if j > 0 {
                assert(rest[j - 1] == members[j]);
            }
        }
        i + 1
    }
}

/// What is found under a key is what the tree says of it.
pub proof fn what_is_found_is_said(tree: Tree, key: Seq<char>)
    ensures
        forall|value: Tree| #[trigger] says(tree, key, value) <==> tree.member(key) == Some(value),
{
    match tree {
        Tree::Object(members) => {
            let i = place_of(members, key);
            keys_lead_to_their_values(members, key, i);
            assert forall|value: Tree| #[trigger] says(tree, key, value) <==> tree.member(key)
                == Some(value) by {
                if says(tree, key, value) {
                    let k = choose|k: int|
                        0 <= k < members.len() && #[trigger] members[k] == (key, value)
                            && forall|j: int| 0 <= j < k ==> (#[trigger] members[j]).0 != key;
                    assert(members[k].0 == key);
                    if i < members.len() {
                        assert(members[i].0 == key);
                    }
                    assert(k == i);
                }
                if tree.member(key) == Some(value) {
                    assert(members[i] == (key, value));
                }
            }
        },
        _ => {},
    }
}

/// A pointer that is not empty leads nowhere where it does not begin with `/`, and a token leads from
/// a list only where it is an index in decimal, and from a value that holds nothing nowhere.
pub proof fn other_pointers_lead_nowhere(
    doc: Tree,
    pointer: Seq<char>,
    tree: Tree,
    token: Seq<char>,
)
    ensures
        pointer.len() > 0 && pointer[0] != '/' ==> pointed(doc, pointer) is None,
        tree matches Tree::List(items) ==> (tree.step(token) matches Some(item) ==> exists|i: nat|
            i < items.len() && item == items[i as int] && token == #[trigger] decimal(i)),
        tree !is List && tree !is Object ==> tree.step(token) is None,
{
    match tree {
        Tree::List(items) => {
            if exists|i: nat| i < items.len() && token == #[trigger] decimal(i) {
                let i = choose|i: nat| i < items.len() && token == #[trigger] decimal(i);
                assert(i < items.len() && token == decimal(i));
                indices_lead_to_items(items, i);
            }
        },
        _ => {},
    }
}

/// A `~` that begins no escape stands for itself.
pub proof fn other_tildes_stay(c: char, by: char, next: char, rest: Seq<char>)
    requires
        next != c,
    ensures
        unescape(seq!['~'], c, by) == seq!['~'],
        unescape(seq!['~', next] + rest, c, by) == seq!['~'] + unescape(
            seq![next] + rest,
            c,
            by,
        ),
{
    let all = seq!['~', next] + rest;
    assert(all.skip(1) == seq![next] + rest);
}

} // verus!
