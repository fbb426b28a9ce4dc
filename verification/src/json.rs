//! The structured value of a record.
//!
//! A `Json` is a tree of plain values. `serde_json` reads it from text; the
//! lookups and the compact rendering on it are verified here. Numbers are held
//! as the text `serde_json` writes for them, since text is all the slicer ever
//! asks of a number.

use crate::text::{append_chars, chars_of, parse_index, parse_usize};
use vstd::prelude::*;

verus! {

/// A structured value.
#[derive(Debug, PartialEq, Eq)]
pub enum Json {
    Null,
    Bool(bool),
    /// A number, as its canonical text.
    Number(String),
    String(String),
    Array(Vec<Json>),
    /// The members of an object, in order.
    Object(Vec<Member>),
}

/// One member of an object.
#[derive(Debug, PartialEq, Eq)]
pub struct Member {
    pub key: String,
    pub value: Json,
}

/// The mathematical value of a `Json`.
pub ghost enum JsonView {
    Null,
    Bool(bool),
    Number(Seq<char>),
    String(Seq<char>),
    Array(Seq<JsonView>),
    Object(Seq<MemberView>),
}

/// The mathematical value of a `Member`.
pub ghost struct MemberView {
    pub key: Seq<char>,
    pub value: JsonView,
}

impl View for Json {
    type V = JsonView;

    open spec fn view(&self) -> JsonView
        decreases self,
    {
        match self {
            Json::Null => JsonView::Null,
            Json::Bool(b) => JsonView::Bool(*b),
            Json::Number(t) => JsonView::Number(t@),
            Json::String(s) => JsonView::String(s@),
            Json::Array(items) => JsonView::Array(
                Seq::new(
                    items.len() as nat,
                    |i: int|
                        if 0 <= i < items.len() {
                            items[i]@
                        } else {
                            JsonView::Null
                        },
                ),
            ),
            Json::Object(members) => JsonView::Object(
                Seq::new(
                    members.len() as nat,
                    |i: int|
                        if 0 <= i < members.len() {
                            MemberView { key: members[i].key@, value: members[i].value@ }
                        } else {
                            MemberView { key: Seq::empty(), value: JsonView::Null }
                        },
                ),
            ),
        }
    }
}

impl Clone for Json {
    fn clone(&self) -> (r: Json)
        ensures
            r@ == self@,
    {
        self.copy()
    }
}

impl Clone for Member {
    fn clone(&self) -> (r: Member)
        ensures
            r.key@ == self.key@,
            r.value@ == self.value@,
    {
        Member { key: self.key.clone(), value: self.value.copy() }
    }
}

/// The views of the items of an array.
pub open spec fn items_view(items: Seq<Json>) -> Seq<JsonView> {
    Seq::new(items.len(), |i: int| items[i]@)
}

/// The views of the members of an object.
pub open spec fn members_view(members: Seq<Member>) -> Seq<MemberView> {
    Seq::new(
        members.len(),
        |i: int| MemberView { key: members[i].key@, value: members[i].value@ },
    )
}

/// What the constructors of `Json` mean for the view.
pub proof fn lemma_view_of_parts(j: Json)
    ensures
        j matches Json::Array(items) ==> j@ == JsonView::Array(items_view(items@)),
        j matches Json::Object(members) ==> j@ == JsonView::Object(members_view(members@)),
{
    match j {
        Json::Array(items) => {
            assert(j@->Array_0 =~= items_view(items@));
        },
        Json::Object(members) => {
            assert(j@->Object_0 =~= members_view(members@));
        },
        _ => {},
    }
}

/// `serde_json::Value`, carried from the parser to the conversion and not
/// looked into.
#[verifier::external_type_specification]
#[verifier::external_body]
pub struct ExValue(serde_json::Value);

/// The tree that a `serde_json::Value` holds: a node for each of its nodes,
/// of the same variant, a number by its `Display` text, the members of an
/// object in the order in which the value iterates them.
pub uninterp spec fn value_tree(v: serde_json::Value) -> JsonView;

/// What `serde_json::from_str` reads from `text`: the tree of the value, or
/// `None` where it reports an error.
pub uninterp spec fn json_parse(text: Seq<char>) -> Option<JsonView>;

/// Calls `serde_json::from_str` for a `Value`. The outcome depends on the
/// text alone; an error of the parser becomes `None`.
#[verifier::external_body]
fn value_from_str(s: &str) -> (r: Option<serde_json::Value>)
    ensures
        match r {
            Some(v) => json_parse(s@) == Some(value_tree(v)),
            None => json_parse(s@) is None,
        },
{
    serde_json::from_str::<serde_json::Value>(s).ok()
}

/// One node of a `serde_json::Value` taken apart: what a leaf holds, or the
/// children of an array or an object, still as values of `serde_json`.
enum Node<'a> {
    Null,
    Bool(bool),
    Number(String),
    String(String),
    Array(&'a Vec<serde_json::Value>),
    Object(Vec<(&'a String, &'a serde_json::Value)>),
}

/// The trees of the items of an array of `serde_json`.
spec fn item_trees(items: Seq<serde_json::Value>) -> Seq<JsonView> {
    Seq::new(items.len(), |i: int| value_tree(items[i]))
}

/// The trees of the members of an object of `serde_json`.
spec fn member_trees(members: Seq<(&String, &serde_json::Value)>) -> Seq<MemberView> {
    Seq::new(
        members.len(),
        |i: int| MemberView { key: members[i].0@, value: value_tree(*members[i].1) },
    )
}

/// The tree of a node, from its parts.
spec fn node_tree(node: Node<'_>) -> JsonView {
    match node {
        Node::Null => JsonView::Null,
        Node::Bool(b) => JsonView::Bool(b),
        Node::Number(t) => JsonView::Number(t@),
        Node::String(s) => JsonView::String(s@),
        Node::Array(items) => JsonView::Array(item_trees(items@)),
        Node::Object(members) => JsonView::Object(member_trees(members@)),
    }
}

/// Tells the variants of `serde_json::Value` apart and hands out what the
/// variant holds: a number as its `Display` text, the items of an array as
/// they are, the members of an object in the order in which
/// `serde_json::Map::iter` gives them. The tree of the value is made of
/// these parts.
#[verifier::external_body]
fn node_of(v: &serde_json::Value) -> (node: Node<'_>)
    ensures
        node_tree(node) == value_tree(*v),
{
    match v {
        serde_json::Value::Null => Node::Null,
        serde_json::Value::Bool(b) => Node::Bool(*b),
        serde_json::Value::Number(n) => Node::Number(n.to_string()),
        serde_json::Value::String(s) => Node::String(s.clone()),
        serde_json::Value::Array(a) => Node::Array(a),
        serde_json::Value::Object(m) => Node::Object(m.iter().collect()),
    }
}

/// Moves a `serde_json::Value` into a `Json`, node for node.
fn json_of_value(v: &serde_json::Value) -> (j: Json)
    ensures
        j@ == value_tree(*v),
    decreases value_tree(*v),
{
    let j = match node_of(v) {
        Node::Null => Json::Null,
        Node::Bool(b) => Json::Bool(b),
        Node::Number(t) => Json::Number(t),
        Node::String(s) => Json::String(s),
        Node::Array(items) => {
            let ghost trees = item_trees(items@);
            let mut out: Vec<Json> = Vec::new();
            let mut i: usize = 0;
            assert(items_view(out@) =~= trees.take(0));
            while i < items.len()
                invariant
                    i <= items.len(),
                    trees == item_trees(items@),
                    value_tree(*v) == JsonView::Array(trees),
                    items_view(out@) == trees.take(i as int),
                decreases items.len() - i,
            {
                let ghost before = out@;
                proof {
                    assert(trees[i as int] == value_tree(items[i as int]));
                    vstd::seq::axiom_seq_index_decreases(trees, i as int);
                    let whole = value_tree(*v);
                    assert(whole is Array && whole->Array_0 == trees);
                    assert(decreases_to!(whole => whole->Array_0));
                    assert(decreases_to!(whole => trees[i as int]));
                }
                let item = json_of_value(&items[i]);
                out.push(item);
                proof {
                    assert(items_view(out@) =~= items_view(before).push(item@));
                    assert(trees.take(i + 1) =~= trees.take(i as int).push(trees[i as int]));
                }
                i += 1;
            }
            assert(trees.take(items.len() as int) =~= trees);
            Json::Array(out)
        },
        Node::Object(members) => {
            let ghost trees = member_trees(members@);
            let mut out: Vec<Member> = Vec::new();
            let mut i: usize = 0;
            assert(members_view(out@) =~= trees.take(0));
            while i < members.len()
                invariant
                    i <= members.len(),
                    trees == member_trees(members@),
                    value_tree(*v) == JsonView::Object(trees),
                    members_view(out@) == trees.take(i as int),
                decreases members.len() - i,
            {
                let ghost before = out@;
                proof {
                    assert(trees[i as int].value == value_tree(*members[i as int].1));
                    vstd::seq::axiom_seq_index_decreases(trees, i as int);
                    let whole = value_tree(*v);
                    assert(whole is Object && whole->Object_0 == trees);
                    assert(decreases_to!(whole => whole->Object_0));
                    assert(decreases_to!(whole => trees[i as int]));
                    assert(decreases_to!(trees[i as int] => trees[i as int].value));
                    assert(decreases_to!(whole => trees[i as int].value));
                }
                let key = members[i].0.clone();
                let value = json_of_value(members[i].1);
                proof {
                    assert(trees[i as int] == MemberView { key: key@, value: value@ });
                }
                out.push(Member { key, value });
                proof {
                    assert(members_view(out@) =~= members_view(before).push(trees[i as int]));
                    assert(trees.take(i + 1) =~= trees.take(i as int).push(trees[i as int]));
                }
                i += 1;
            }
            assert(trees.take(members.len() as int) =~= trees);
            Json::Object(out)
        },
    };
    proof {
        lemma_view_of_parts(j);
    }
    j
}

/// Reads one JSON value from `s`.
pub fn parse(s: &str) -> (r: Option<Json>)
    ensures
        match r {
            Some(j) => json_parse(s@) == Some(j@),
            None => json_parse(s@) is None,
        },
{
    match value_from_str(s) {
        Some(v) => Some(json_of_value(&v)),
        None => None,
    }
}

/// The lower-case hexadecimal digit for `n`.
pub open spec fn hex_digit(n: int) -> char
    recommends
        0 <= n < 16,
{
    if n < 10 {
        (('0' as u32) + n) as char
    } else {
        (('a' as u32) + n - 10) as char
    }
}

/// How one character stands inside a JSON string: the quote, the backslash
/// and the control characters below U+0020 are escaped, every other
/// character stands for itself.
pub open spec fn escape(c: char) -> Seq<char> {
    if c == '"' {
        seq!['\\', '"']
    } else if c == '\\' {
        seq!['\\', '\\']
    } else if c == '\u{08}' {
        seq!['\\', 'b']
    } else if c == '\u{09}' {
        seq!['\\', 't']
    } else if c == '\u{0a}' {
        seq!['\\', 'n']
    } else if c == '\u{0c}' {
        seq!['\\', 'f']
    } else if c == '\u{0d}' {
        seq!['\\', 'r']
    } else if (c as u32) < 0x20 {
        seq!['\\', 'u', '0', '0', hex_digit((c as u32) as int / 16), hex_digit((c as u32) as int % 16)]
    } else {
        seq![c]
    }
}

/// The characters of `s`, each escaped.
pub open spec fn escaped(s: Seq<char>) -> Seq<char>
    decreases s.len(),
{
    if s.len() == 0 {
        Seq::<char>::empty()
    } else {
        escaped(s.drop_last()) + escape(s.last())
    }
}

/// `s` as a JSON string literal.
pub open spec fn quoted(s: Seq<char>) -> Seq<char> {
    seq!['"'] + escaped(s) + seq!['"']
}

/// Has `serde_json` write `s` as a JSON string, through `Display` of
/// `Value::String`: the escaped characters between two quotes.
#[verifier::external_body]
fn quote(s: &str) -> (r: String)
    ensures
        r@ == quoted(s@),
{
    serde_json::Value::from(s).to_string()
}

/// The compact text of a value: no white space, members and items
/// separated by commas, a number by the text it is held as.
pub open spec fn json_text(v: JsonView) -> Seq<char>
    decreases v, 0nat,
{
    match v {
        JsonView::Null => seq!['n', 'u', 'l', 'l'],
        JsonView::Bool(b) => if b {
            seq!['t', 'r', 'u', 'e']
        } else {
            seq!['f', 'a', 'l', 's', 'e']
        },
        JsonView::Number(t) => t,
        JsonView::String(s) => quoted(s),
        JsonView::Array(items) => seq!['['] + items_text(items, items.len()) + seq![']'],
        JsonView::Object(members) => seq!['{'] + members_text(members, members.len()) + seq![
            '}',
        ],
    }
}

/// The texts of the first `n` items, with commas between them.
pub open spec fn items_text(items: Seq<JsonView>, n: nat) -> Seq<char>
    decreases items, n,
{
    if n == 0 || n > items.len() {
        Seq::<char>::empty()
    } else if n == 1 {
        json_text(items[0])
    } else {
        items_text(items, (n - 1) as nat) + seq![','] + json_text(items[n - 1])
    }
}

/// The text of one member: the quoted key, a colon, the value.
pub open spec fn member_text(key: Seq<char>, value: JsonView) -> Seq<char>
    decreases value, 1nat,
{
    quoted(key) + seq![':'] + json_text(value)
}

/// The texts of the first `n` members, with commas between them.
pub open spec fn members_text(members: Seq<MemberView>, n: nat) -> Seq<char>
    decreases members, n,
{
    if n == 0 || n > members.len() {
        Seq::<char>::empty()
    } else if n == 1 {
        member_text(members[0].key, members[0].value)
    } else {
        members_text(members, (n - 1) as nat) + seq![','] + member_text(
            members[n - 1].key,
            members[n - 1].value,
        )
    }
}

/// The text a value shows as when it is read as a field: a string by its
/// characters, anything else by its compact text.
pub open spec fn leaf_text(v: JsonView) -> Seq<char> {
    match v {
        JsonView::String(s) => s,
        _ => json_text(v),
    }
}

/// The value of the first member named `key`.
pub open spec fn member(members: Seq<MemberView>, key: Seq<char>) -> Option<JsonView>
    decreases members.len(),
{
    if members.len() == 0 {
        None
    } else if members[0].key == key {
        Some(members[0].value)
    } else {
        member(members.skip(1), key)
    }
}

/// One step down from `v`: the member named `part` of an object, the item
/// with index `part` of an array, nothing of any other value.
pub open spec fn child(v: JsonView, part: Seq<char>) -> Option<JsonView> {
    match v {
        JsonView::Object(members) => member(members, part),
        JsonView::Array(items) => match parse_index(part) {
            Some(n) => if n < items.len() {
                Some(items[n as int])
            } else {
                None
            },
            None => None,
        },
        _ => None,
    }
}

/// The node reached from `v` by taking `parts` one after the other.
pub open spec fn descend(v: JsonView, parts: Seq<Seq<char>>) -> Option<JsonView>
    decreases parts.len(),
{
    if parts.len() == 0 {
        Some(v)
    } else {
        match child(v, parts[0]) {
            Some(c) => descend(c, parts.skip(1)),
            None => None,
        }
    }
}

/// Appends the quoted form of `s` to `out`.
fn push_quoted(out: &mut Vec<char>, s: &String)
    ensures
        final(out)@ == old(out)@ + quoted(s@),
{
    let q = quote(s.as_str());
    let chars = chars_of(q.as_str());
    append_chars(out, &chars);
}

/// The value of the first member of `members` named `key`.
pub fn find_member<'a>(members: &'a Vec<Member>, key: &String) -> (r: Option<&'a Json>)
    ensures
        match r {
            Some(j) => member(members_view(members@), key@) == Some(j@),
            None => member(members_view(members@), key@) is None,
        },
{
    let ghost all = members_view(members@);
    let mut i: usize = 0;
    proof {
        assert(all.skip(0) == all);
    }
    while i < members.len()
        invariant
            i <= members.len(),
            all == members_view(members@),
            member(all, key@) == member(all.skip(i as int), key@),
        decreases members.len() - i,
    {
        proof {
            assert(all.skip(i as int)[0] == all[i as int]);
            assert(all.skip(i as int).skip(1) == all.skip(i + 1));
        }
        if members[i].key == *key {
            return Some(&members[i].value);
        }
        i += 1;
    }
    None
}

/// Appends the texts of `items`, separated by commas, to `out`.
fn write_items(items: &Vec<Json>, out: &mut Vec<char>)
    ensures
        final(out)@ == old(out)@ + items_text(items_view(items@), items@.len()),
    decreases items, 1nat,
{
    let ghost all = items_view(items@);
    let mut i: usize = 0;
    assert(out@ == old(out)@ + items_text(all, 0));
    while i < items.len()
        invariant
            i <= items.len(),
            all == items_view(items@),
            out@ == old(out)@ + items_text(all, i as nat),
        decreases items.len() - i,
    {
        let ghost before = out@;
        if i > 0 {
            out.push(',');
        }
        let ghost sep = out@;
        items[i].write_text(out);
        proof {
            let one = json_text(all[i as int]);
            assert(all[i as int] == items[i as int]@);
            assert(out@ == sep + one);
            if i > 0 {
                assert(sep == before + seq![',']);
                assert(items_text(all, (i + 1) as nat) == items_text(all, i as nat) + seq![',']
                    + one);
                assert(out@ == old(out)@ + (items_text(all, i as nat) + seq![','] + one));
            } else {
                assert(items_text(all, 0) == Seq::<char>::empty());
                assert(items_text(all, 1) == one);
                assert(before == old(out)@);
                assert(out@ == old(out)@ + one);
            }
        }
        i += 1;
    }
}

/// Appends the texts of `members`, separated by commas, to `out`.
fn write_members(members: &Vec<Member>, out: &mut Vec<char>)
    ensures
        final(out)@ == old(out)@ + members_text(members_view(members@), members@.len()),
    decreases members, 1nat,
{
    let ghost all = members_view(members@);
    let mut i: usize = 0;
    assert(out@ == old(out)@ + members_text(all, 0));
    while i < members.len()
        invariant
            i <= members.len(),
            all == members_view(members@),
            out@ == old(out)@ + members_text(all, i as nat),
        decreases members.len() - i,
    {
        let ghost before = out@;
        if i > 0 {
            out.push(',');
        }
        let ghost sep = out@;
        push_quoted(out, &members[i].key);
        out.push(':');
        members[i].value.write_text(out);
        proof {
            assert(all[i as int].key == members[i as int].key@);
            assert(all[i as int].value == members[i as int].value@);
            let one = member_text(all[i as int].key, all[i as int].value);
            assert(out@ == sep + one);
            if i > 0 {
                assert(sep == before + seq![',']);
                assert(members_text(all, (i + 1) as nat) == members_text(all, i as nat) + seq![
                    ',',
                ] + one);
                assert(out@ == old(out)@ + (members_text(all, i as nat) + seq![','] + one));
            } else {
                assert(members_text(all, 0) == Seq::<char>::empty());
                assert(members_text(all, 1) == one);
                assert(before == old(out)@);
                assert(out@ == old(out)@ + one);
            }
        }
        i += 1;
    }
}

impl Json {
    /// The child of this value that `part` names.
    pub fn child<'a>(&'a self, part: &Vec<char>) -> (r: Option<&'a Json>)
        ensures
            match r {
                Some(j) => child(self@, part@) == Some(j@),
                None => child(self@, part@) is None,
            },
    {
        proof {
            lemma_view_of_parts(*self);
        }
        match self {
            Json::Object(members) => {
                let key = crate::text::string_of(part);
                find_member(members, &key)
            },
            Json::Array(items) => match parse_usize(part) {
                Some(n) => if n < items.len() {
                    Some(&items[n])
                } else {
                    None
                },
                None => None,
            },
            _ => None,
        }
    }

    /// Appends the compact text of this value to `out`.
    pub fn write_text(&self, out: &mut Vec<char>)
        ensures
            final(out)@ == old(out)@ + json_text(self@),
        decreases self, 0nat,
    {
        proof {
            lemma_view_of_parts(*self);
        }
        match self {
            Json::Null => {
                out.push('n');
                out.push('u');
                out.push('l');
                out.push('l');
                assert(out@ == old(out)@ + seq!['n', 'u', 'l', 'l']);
            },
            Json::Bool(b) => {
                if *b {
                    out.push('t');
                    out.push('r');
                    out.push('u');
                    out.push('e');
                    assert(out@ == old(out)@ + seq!['t', 'r', 'u', 'e']);
                } else {
                    out.push('f');
                    out.push('a');
                    out.push('l');
                    out.push('s');
                    out.push('e');
                    assert(out@ == old(out)@ + seq!['f', 'a', 'l', 's', 'e']);
                }
            },
            Json::Number(t) => {
                let chars = chars_of(t.as_str());
                append_chars(out, &chars);
            },
            Json::String(s) => {
                push_quoted(out, s);
            },
            Json::Array(items) => {
                out.push('[');
                write_items(items, out);
                out.push(']');
                assert(out@ == old(out)@ + (seq!['['] + items_text(
                    items_view(items@),
                    items_view(items@).len(),
                ) + seq![']']));
            },
            Json::Object(members) => {
                out.push('{');
                write_members(members, out);
                out.push('}');
                assert(out@ == old(out)@ + (seq!['{'] + members_text(
                    members_view(members@),
                    members_view(members@).len(),
                ) + seq!['}']));
            },
        }
    }

    /// The compact text of this value.
    pub fn text(&self) -> (r: String)
        ensures
            r@ == json_text(self@),
    {
        let mut out: Vec<char> = Vec::new();
        self.write_text(&mut out);
        assert(out@ == json_text(self@));
        crate::text::string_of(&out)
    }

    /// The text this value shows as when it is read as a field.
    pub fn leaf_text(&self) -> (r: String)
        ensures
            r@ == leaf_text(self@),
    {
        match self {
            Json::String(s) => s.clone(),
            _ => self.text(),
        }
    }

    /// A copy of this value.
    #[verifier::loop_isolation(false)]
    pub fn copy(&self) -> (r: Json)
        ensures
            r@ == self@,
        decreases self,
    {
        proof {
            lemma_view_of_parts(*self);
        }
        let r = match self {
            Json::Null => Json::Null,
            Json::Bool(b) => Json::Bool(*b),
            Json::Number(t) => Json::Number(t.clone()),
            Json::String(s) => Json::String(s.clone()),
            Json::Array(items) => {
                let mut out: Vec<Json> = Vec::new();
                let mut i: usize = 0;
                while i < items.len()
                    invariant
                        i <= items.len(),
                        items_view(out@) == items_view(items@).take(i as int),
                    decreases items.len() - i,
                {
                    let ghost before = out@;
                    let item = items[i].copy();
                    out.push(item);
                    proof {
                        assert(items_view(out@) == items_view(before).push(item@));
                        assert(items_view(items@).take(i + 1) == items_view(items@).take(
                            i as int,
                        ).push(items[i as int]@));
                    }
                    i += 1;
                }
                proof {
                    assert(items_view(items@).take(items.len() as int) == items_view(items@));
                }
                Json::Array(out)
            },
            Json::Object(members) => {
                let mut out: Vec<Member> = Vec::new();
                let mut i: usize = 0;
                while i < members.len()
                    invariant
                        i <= members.len(),
                        members_view(out@) == members_view(members@).take(i as int),
                    decreases members.len() - i,
                {
                    let ghost before = out@;
                    let key = members[i].key.clone();
                    let value = members[i].value.copy();
                    out.push(Member { key, value });
                    proof {
                        assert(members_view(out@) == members_view(before).push(
                            MemberView { key: key@, value: value@ },
                        ));
                        assert(members_view(members@).take(i + 1) == members_view(
                            members@,
                        ).take(i as int).push(
                            MemberView {
                                key: members[i as int].key@,
                                value: members[i as int].value@,
                            },
                        ));
                    }
                    i += 1;
                }
                proof {
                    assert(members_view(members@).take(members.len() as int) == members_view(
                        members@,
                    ));
                }
                Json::Object(out)
            },
        };
        proof {
            lemma_view_of_parts(r);
        }
        r
    }
}

} // verus!
