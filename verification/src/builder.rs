//! The tree builder: it turns a syntax tree into the value that it stands
//! for, and a text into its value.

use crate::chars::to_chars;
use crate::error::{ErrorView, JsonError};
use crate::grammar::true_text;
use crate::index::{index_places, new_index, place_of, set_place};
use crate::lexer::{lex, lex_outcome};
use crate::node::{
    collected, holds_first_places_and_last_values, index_of_key, keys_unique, lemma_collected,
    lemma_index_of_key, lemma_with_member_unique, members_of, values_of, with_member, JsonNode,
    JsonValue,
};
use crate::number::{
    chars_are_integer, decode_float, decode_integer, is_integer_text, parse_float, parse_integer,
};
use crate::places::placed_in;
use crate::strings::{decode_text, parse_string};
use crate::syntax::{Rule, SyntaxNode, SyntaxTree};
use vstd::prelude::*;
use vstd::string::*;

verus! {

/// The value that the syntax tree `t` stands for, or the first error in it.
///
/// Every value has the location of its node. An array holds the values of
/// its elements in their order. An object holds its members in the order in
/// which their keys first appear, each key with the value of its last
/// appearance.
pub open spec fn build_value(t: SyntaxTree) -> Result<JsonValue, ErrorView>
    decreases t, 0int,
{
    let location = Some(t.location);
    match t.rule {
        Rule::Null => Ok(JsonValue::Null(location)),
        Rule::Boolean => Ok(JsonValue::Bool(t.text == true_text(), location)),
        Rule::String | Rule::Identifier => match decode_text(t) {
            Ok(text) => Ok(JsonValue::String(text, location)),
            Err(e) => Err(e),
        },
        Rule::Number => if is_integer_text(t.text) {
            match decode_integer(t.text, t.location) {
                Ok(v) => Ok(JsonValue::Integer(v, location)),
                Err(e) => Err(e),
            }
        } else {
            match decode_float(t.text, t.location) {
                Ok(text) => Ok(JsonValue::Float(text, location)),
                Err(e) => Err(e),
            }
        },
        Rule::Array => match build_items(t.children, t.children.len() as int) {
            Ok(items) => Ok(JsonValue::Array(items, location)),
            Err(e) => Err(e),
        },
        Rule::Object => match build_members(t.children, t.children.len() as int) {
            Ok(members) => Ok(JsonValue::Object(members, location)),
            Err(e) => Err(e),
        },
        _ => arbitrary(),
    }
}

/// The values of the first `n` of the elements `ts`, or the first error
/// among them.
pub open spec fn build_items(ts: Seq<SyntaxTree>, n: int) -> Result<Seq<JsonValue>, ErrorView>
    decreases ts, n,
{
    if n <= 0 || n > ts.len() {
        Ok(Seq::empty())
    } else {
        match build_items(ts, n - 1) {
            Err(e) => Err(e),
            Ok(items) => match build_value(ts[n - 1]) {
                Err(e) => Err(e),
                Ok(v) => Ok(items.push(v)),
            },
        }
    }
}

/// The members that the first `n` of the member nodes `ts` give, or the
/// first error among them.
pub open spec fn build_members(ts: Seq<SyntaxTree>, n: int) -> Result<
    Seq<(Seq<char>, JsonValue)>,
    ErrorView,
>
    decreases ts, n,
{
    if n <= 0 || n > ts.len() {
        Ok(Seq::empty())
    } else if ts[n - 1].children.len() != 2 {
        arbitrary()
    } else {
        match build_members(ts, n - 1) {
            Err(e) => Err(e),
            Ok(members) => match decode_text(ts[n - 1].children[0]) {
                Err(e) => Err(e),
                Ok(key) => match build_value(ts[n - 1].children[1]) {
                    Err(e) => Err(e),
                    Ok(v) => Ok(with_member(members, key, v)),
                },
            },
        }
    }
}

/// In a value built from a syntax tree no object holds a key twice.
pub proof fn lemma_build_value_well_formed(t: SyntaxTree)
    requires
        t.is_value(),
    ensures
        build_value(t) matches Ok(v) ==> v.well_formed(),
    decreases t, 0int,
{
    match t.rule {
        Rule::Array => {
            lemma_build_items_well_formed(t.children, t.children.len() as int);
        },
        Rule::Object => {
            lemma_build_members_well_formed(t.children, t.children.len() as int);
        },
        _ => {},
    }
}

proof fn lemma_build_items_well_formed(ts: Seq<SyntaxTree>, n: int)
    requires
        forall|i: int| 0 <= i < ts.len() ==> (#[trigger] ts[i]).is_value(),
    ensures
        build_items(ts, n) matches Ok(items) ==> forall|i: int|
            0 <= i < items.len() ==> (#[trigger] items[i]).well_formed(),
    decreases ts, n,
{
    if 0 < n <= ts.len() {
        lemma_build_items_well_formed(ts, n - 1);
        lemma_build_value_well_formed(ts[n - 1]);
    }
}

proof fn lemma_build_members_well_formed(ts: Seq<SyntaxTree>, n: int)
    requires
        forall|i: int| 0 <= i < ts.len() ==> (#[trigger] ts[i]).is_member(),
    ensures
        build_members(ts, n) matches Ok(members) ==> keys_unique(members) && forall|i: int|
            0 <= i < members.len() ==> (#[trigger] members[i]).1.well_formed(),
    decreases ts, n,
{
    if 0 < n <= ts.len() {
        assert(ts[n - 1].is_member());
        lemma_build_members_well_formed(ts, n - 1);
        lemma_build_value_well_formed(ts[n - 1].children[1]);
        if let Ok(members) = build_members(ts, n - 1) {
            if let Ok(key) = decode_text(ts[n - 1].children[0]) {
                if let Ok(v) = build_value(ts[n - 1].children[1]) {
                    lemma_with_member_unique(members, key, v);
                    crate::node::lemma_index_of_key(members, key);
                    let after = with_member(members, key, v);
                    assert forall|i: int| 0 <= i < after.len() implies (#[trigger] after[i]).1.well_formed() by {
                        if i < members.len() && after[i] != (key, v) {
                            assert(after[i] == members[i]);
                        }
                    }
                }
            }
        }
    }
}

/// The key and the value that each of the member nodes `ts` gives, in the
/// order of the nodes.
pub open spec fn member_pairs(ts: Seq<SyntaxTree>) -> Seq<(Seq<char>, JsonValue)> {
    Seq::new(
        ts.len(),
        |i: int| (decode_text(ts[i].children[0])->Ok_0, build_value(ts[i].children[1])->Ok_0),
    )
}

/// Where members are built, every key and value among them is decoded, and
/// the members are what their keys and values leave when they are put into
/// an object one after the other.
proof fn lemma_build_members_collected(ts: Seq<SyntaxTree>, n: int)
    requires
        0 <= n <= ts.len(),
        forall|i: int| 0 <= i < ts.len() ==> (#[trigger] ts[i]).is_member(),
        build_members(ts, n) is Ok,
    ensures
        forall|i: int|
            0 <= i < n ==> decode_text((#[trigger] ts[i]).children[0]) is Ok && build_value(
                ts[i].children[1],
            ) is Ok,
        build_members(ts, n) == Ok::<_, ErrorView>(collected(member_pairs(ts).take(n))),
    decreases n,
{
    let pairs = member_pairs(ts).take(n);
    if n > 0 {
        assert(ts[n - 1].is_member());
        lemma_build_members_collected(ts, n - 1);
        assert(pairs.drop_last() =~= member_pairs(ts).take(n - 1));
        assert(pairs.last() == member_pairs(ts)[n - 1]);
    }
}

/// The members of an object are the keys of its member nodes, every key
/// once and in the order in which the keys first appear, each with the
/// value of the last member node that has the key.
pub proof fn lemma_object_members(t: SyntaxTree)
    requires
        t.is_value(),
        t.rule == Rule::Object,
        build_value(t) is Ok,
    ensures
        forall|i: int|
            0 <= i < t.children.len() ==> decode_text((#[trigger] t.children[i]).children[0]) is Ok
                && build_value(t.children[i].children[1]) is Ok,
        build_value(t) matches Ok(JsonValue::Object(members, location)) && location == Some(
            t.location,
        ) && holds_first_places_and_last_values(members, member_pairs(t.children)),
{
    let ts = t.children;
    lemma_build_members_collected(ts, ts.len() as int);
    assert(member_pairs(ts).take(ts.len() as int) =~= member_pairs(ts));
    lemma_collected(member_pairs(ts));
}

/// Whether the value `v` carries the locations of the tree `t` that it was
/// built from: the value has the location of the tree's node, which for an
/// array or object is where its bracket or brace stands; every element of
/// an array carries the locations of the node of that element; and every
/// value that an object holds carries the locations of the value node of
/// one of the object's member nodes.
pub open spec fn carries_locations(t: SyntaxTree, v: JsonValue) -> bool
    decreases t, 1int,
{
    &&& v.location() == Some(t.location)
    &&& t.rule == Rule::Array ==> (v matches JsonValue::Array(items, _) && items.len()
        == t.children.len() && forall|i: int|
        0 <= i < t.children.len() ==> carries_locations(#[trigger] t.children[i], items[i]))
    &&& t.rule == Rule::Object ==> (v matches JsonValue::Object(members, _) && forall|a: int|
        0 <= a < members.len() ==> carried_by_a_member(t.children, (#[trigger] members[a]).1))
}

/// Whether the value `v` carries the locations of the value node of one of
/// the member nodes `ts`.
pub open spec fn carried_by_a_member(ts: Seq<SyntaxTree>, v: JsonValue) -> bool
    decreases ts, 0int,
{
    exists|i: int|
        0 <= i < ts.len() && (#[trigger] ts[i]).children.len() == 2 && carries_locations(
            ts[i].children[1],
            v,
        )
}

/// Every value carries the location of the node that it was built from,
/// and so does every value below it: an element of an array that of its
/// own node, and a value in an object that of the member node that it came
/// from.
pub proof fn lemma_build_value_located(t: SyntaxTree)
    requires
        t.is_value(),
    ensures
        build_value(t) matches Ok(v) ==> carries_locations(t, v),
    decreases t, 0int,
{
    match t.rule {
        Rule::Array => {
            lemma_build_items_located(t.children, t.children.len() as int);
        },
        Rule::Object => {
            lemma_build_members_located(t.children, t.children.len() as int);
        },
        _ => {},
    }
}

proof fn lemma_build_items_located(ts: Seq<SyntaxTree>, n: int)
    requires
        0 <= n <= ts.len(),
        forall|i: int| 0 <= i < ts.len() ==> (#[trigger] ts[i]).is_value(),
    ensures
        build_items(ts, n) matches Ok(items) ==> items.len() == n && forall|i: int|
            0 <= i < n ==> carries_locations(#[trigger] ts[i], items[i]),
    decreases ts, n,
{
    if n > 0 {
        lemma_build_items_located(ts, n - 1);
        lemma_build_value_located(ts[n - 1]);
    }
}

proof fn lemma_build_members_located(ts: Seq<SyntaxTree>, n: int)
    requires
        0 <= n <= ts.len(),
        forall|i: int| 0 <= i < ts.len() ==> (#[trigger] ts[i]).is_member(),
    ensures
        build_members(ts, n) matches Ok(members) ==> forall|a: int|
            0 <= a < members.len() ==> carried_by_a_member(ts, (#[trigger] members[a]).1),
    decreases ts, n,
{
    if n > 0 {
        assert(ts[n - 1].is_member());
        lemma_build_members_located(ts, n - 1);
        lemma_build_value_located(ts[n - 1].children[1]);
        if let Ok(members) = build_members(ts, n) {
            let before = build_members(ts, n - 1)->Ok_0;
            let key = decode_text(ts[n - 1].children[0])->Ok_0;
            let v = build_value(ts[n - 1].children[1])->Ok_0;
            lemma_index_of_key(before, key);
            assert forall|a: int| 0 <= a < members.len() implies carried_by_a_member(
                ts,
                (#[trigger] members[a]).1,
            ) by {
                if members[a] == (key, v) {
                    assert(ts[n - 1].children.len() == 2 && carries_locations(
                        ts[n - 1].children[1],
                        members[a].1,
                    ));
                } else {
                    assert(a < before.len() && members[a] == before[a]);
                }
            }
        }
    }
}

/// The first error among elements is the error of all of them.
proof fn lemma_build_items_error(ts: Seq<SyntaxTree>, k: int, n: int)
    requires
        0 <= k <= n <= ts.len(),
        build_items(ts, k) is Err,
    ensures
        build_items(ts, n) == build_items(ts, k),
    decreases n - k,
{
    if k < n {
        lemma_build_items_error(ts, k, n - 1);
    }
}

/// The first error among members is the error of all of them.
proof fn lemma_build_members_error(ts: Seq<SyntaxTree>, k: int, n: int)
    requires
        0 <= k <= n <= ts.len(),
        forall|i: int| 0 <= i < ts.len() ==> (#[trigger] ts[i]).is_member(),
        build_members(ts, k) is Err,
    ensures
        build_members(ts, n) == build_members(ts, k),
    decreases n - k,
{
    if k < n {
        lemma_build_members_error(ts, k, n - 1);
        assert(ts[n - 1].is_member());
    }
}

/// Whether `places` is the index of `members`: it holds the keys of the
/// members and no others, each with the place of its member, and no key
/// comes twice.
pub open spec fn indexes(places: Map<Seq<char>, usize>, members: Seq<(Seq<char>, JsonValue)>) -> bool {
    &&& forall|j: int|
        0 <= j < members.len() ==> places.contains_key((#[trigger] members[j]).0) && places[members[j].0]
            == j
    &&& forall|k: Seq<char>| #[trigger]
        places.contains_key(k) ==> 0 <= places[k] < members.len() && members[places[k] as int].0 == k
}

/// The index tells where the member with a key stands.
proof fn lemma_indexes(places: Map<Seq<char>, usize>, members: Seq<(Seq<char>, JsonValue)>, key: Seq<char>)
    requires
        indexes(places, members),
    ensures
        index_of_key(members, key) == if places.contains_key(key) {
            Some(places[key] as int)
        } else {
            None
        },
{
    lemma_index_of_key(members, key);
    match index_of_key(members, key) {
        Some(i) => {
            assert(places.contains_key(members[i].0));
        },
        None => {
            if places.contains_key(key) {
                assert(members[places[key] as int].0 == key);
            }
        },
    }
}

/// A new value under a key that is there leaves the index as it is.
proof fn lemma_indexes_update(
    places: Map<Seq<char>, usize>,
    members: Seq<(Seq<char>, JsonValue)>,
    place: int,
    value: JsonValue,
)
    requires
        indexes(places, members),
        0 <= place < members.len(),
    ensures
        indexes(places, members.update(place, (members[place].0, value))),
{
    let after = members.update(place, (members[place].0, value));
    assert forall|j: int| 0 <= j < after.len() implies places.contains_key((#[trigger] after[j]).0)
        && places[after[j].0] == j by {
        assert(after[j].0 == members[j].0);
    }
    assert forall|k: Seq<char>| #[trigger] places.contains_key(k) implies 0 <= places[k]
        < after.len() && after[places[k] as int].0 == k by {
        assert(after[places[k] as int].0 == members[places[k] as int].0);
    }
}

/// A new key at the end gets the place at the end.
proof fn lemma_indexes_push(
    places: Map<Seq<char>, usize>,
    members: Seq<(Seq<char>, JsonValue)>,
    key: Seq<char>,
    value: JsonValue,
)
    requires
        indexes(places, members),
        !places.contains_key(key),
        members.len() < usize::MAX,
    ensures
        indexes(places.insert(key, members.len() as usize), members.push((key, value))),
{
    let after = members.push((key, value));
    let grown = places.insert(key, members.len() as usize);
    assert forall|j: int| 0 <= j < after.len() implies grown.contains_key((#[trigger] after[j]).0)
        && grown[after[j].0] == j by {
        if j < members.len() {
            assert(after[j] == members[j]);
            assert(places.contains_key(members[j].0));
        }
    }
    assert forall|k: Seq<char>| #[trigger] grown.contains_key(k) implies 0 <= grown[k] < after.len()
        && after[grown[k] as int].0 == k by {
        if k != key {
            assert(places.contains_key(k));
            assert(after[places[k] as int] == members[places[k] as int]);
        }
    }
}

/// Builds the value that a syntax node stands for: `null`, a truth value, a
/// string, an integer or floating-point number, an array or an object, with
/// the node's location. The first literal that cannot be decoded ends the
/// work, and its error is the result.
///
/// The node has to have the shape of a value, as every tree that `lex`
/// gives has it and as `SyntaxNode::is_value` tells of any other.
pub fn parse_pair(node: &SyntaxNode) -> (r: Result<JsonNode, JsonError>)
    requires
        node@.is_value(),
    ensures
        match build_value(node@) {
            Ok(v) => r matches Ok(n) && n@ == v,
            Err(e) => r matches Err(x) && x@ == e,
        },
    decreases node,
{
    let location = Some(node.location);
    proof {
        node.lemma_children();
    }
    match node.rule {
        Rule::Null => Ok(JsonNode::Null(location)),
        Rule::Boolean => {
            let text = to_chars(node.text.as_str());
            proof {
                reveal_strlit("true");
                assert("true"@ =~= true_text());
                assert(text@.subrange(0, text@.len() as int) =~= text@);
            }
            let truth = text.len() == 4 && crate::chars::has_prefix_at(&text, 0, "true");
            Ok(JsonNode::Bool(truth, location))
        },
        Rule::String | Rule::Identifier => match parse_string(node) {
            Ok(text) => Ok(JsonNode::String(text, location)),
            Err(e) => Err(e),
        },
        Rule::Number => {
            let text = to_chars(node.text.as_str());
            if chars_are_integer(&text) {
                match parse_integer(node) {
                    Ok(v) => Ok(JsonNode::Integer(v, location)),
                    Err(e) => Err(e),
                }
            } else {
                match parse_float(node) {
                    Ok(text) => Ok(JsonNode::Float(text, location)),
                    Err(e) => Err(e),
                }
            }
        },
        Rule::Array => {
            let ghost parts = node@.children;
            let mut items: Vec<JsonNode> = Vec::new();
            let mut i: usize = 0;
            assert(values_of(items@) =~= Seq::<JsonValue>::empty());
            while i < node.children.len()
                invariant
                    i <= node.children.len(),
                    node@.is_value(),
                    node.rule == Rule::Array,
                    parts == node@.children,
                    parts.len() == node.children.len(),
                    forall|j: int| 0 <= j < parts.len() ==> parts[j] == (#[trigger] node.children[j])@,
                    build_items(parts, i as int) == Ok::<_, ErrorView>(values_of(items@)),
                decreases node.children.len() - i,
            {
                assert(parts[i as int].is_value());
                match parse_pair(&node.children[i]) {
                    Ok(item) => {
                        assert(values_of(items@.push(item)) =~= values_of(items@).push(item@));
                        items.push(item);
                    },
                    Err(e) => {
                        proof {
                            lemma_build_items_error(parts, i + 1, parts.len() as int);
                        }
                        return Err(e);
                    },
                }
                i += 1;
            }
            let r = JsonNode::Array(items, location);
            proof {
                r.lemma_view();
            }
            Ok(r)
        },
        Rule::Object => {
            let ghost parts = node@.children;
            let mut entries: Vec<(String, JsonNode)> = Vec::new();
            let mut index = new_index();
            let mut i: usize = 0;
            assert(members_of(entries@) =~= Seq::<(Seq<char>, JsonValue)>::empty());
            while i < node.children.len()
                invariant
                    i <= node.children.len(),
                    node@.is_value(),
                    node.rule == Rule::Object,
                    parts == node@.children,
                    parts.len() == node.children.len(),
                    forall|j: int| 0 <= j < parts.len() ==> parts[j] == (#[trigger] node.children[j])@,
                    build_members(parts, i as int) == Ok::<_, ErrorView>(members_of(entries@)),
                    indexes(index_places(index), members_of(entries@)),
                    entries.len() <= i,
                decreases node.children.len() - i,
            {
                let member = &node.children[i];
                assert(parts[i as int].is_member());
                proof {
                    member.lemma_children();
                }
                let key = match parse_string(&member.children[0]) {
                    Ok(key) => key,
                    Err(e) => {
                        proof {
                            lemma_build_members_error(parts, i + 1, parts.len() as int);
                        }
                        return Err(e);
                    },
                };
                let value = match parse_pair(&member.children[1]) {
                    Ok(value) => value,
                    Err(e) => {
                        proof {
                            lemma_build_members_error(parts, i + 1, parts.len() as int);
                        }
                        return Err(e);
                    },
                };
                let ghost before = members_of(entries@);
                let ghost places = index_places(index);
                proof {
                    lemma_indexes(places, before, key@);
                }
                match place_of(&index, &key) {
                    Some(place) => {
                        entries[place] = (key, value);
                        proof {
                            assert(members_of(entries@) =~= before.update(
                                place as int,
                                (key@, value@),
                            ));
                            lemma_indexes_update(places, before, place as int, value@);
                        }
                    },
                    None => {
                        set_place(&mut index, key.clone(), entries.len());
                        entries.push((key, value));
                        proof {
                            assert(members_of(entries@) =~= before.push((key@, value@)));
                            lemma_indexes_push(places, before, key@, value@);
                        }
                    },
                }
                i += 1;
            }
            let r = JsonNode::Object(entries, location);
            proof {
                r.lemma_view();
            }
            Ok(r)
        },
        _ => {
            assert(false);
            Ok(JsonNode::Null(location))
        },
    }
}

/// What `parse` gives for the text `text`: its value, or the first error
/// in it, which is the syntax error where the text leaves the grammar and
/// else the error of the first number or escape that cannot be decoded.
pub open spec fn parse_outcome(text: Seq<char>) -> Result<JsonValue, ErrorView> {
    match lex_outcome(text) {
        Ok(tree) => build_value(tree),
        Err(e) => Err(e),
    }
}

/// Parses a JSON5 text into the tree of its values, each with the line and
/// column at which it begins.
///
/// A text that does not follow the grammar is a syntax error at the place
/// where it leaves the grammar. A text that follows it is read value by
/// value, and the first number or escape that cannot be decoded is the
/// error. In the value of a text no object holds a key twice, and every
/// value in it carries the location of the node of the syntax tree that it
/// was built from, which is where its text begins.
pub fn parse(input: &str) -> (r: Result<JsonNode, JsonError>)
    ensures
        match parse_outcome(input@) {
            Ok(v) => r matches Ok(n) && n@ == v && v.well_formed() && (lex_outcome(
                input@,
            ) matches Ok(tree) && placed_in(input@, tree) && carries_locations(tree, v)),
            Err(e) => r matches Err(x) && x@ == e,
        },
{
    match lex(input) {
        Ok(tree) => {
            proof {
                lemma_build_value_well_formed(tree@);
                lemma_build_value_located(tree@);
            }
            parse_pair(&tree)
        },
        Err(e) => Err(e),
    }
}

} // verus!
