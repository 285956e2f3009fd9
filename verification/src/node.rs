//! The value tree: what a JSON5 text means, each value with the place it
//! was read from.

use crate::error::Location;
use vstd::prelude::*;

verus! {

/// A JSON5 value together with its location in the text it was read from.
/// A value that was not read from a text has no location.
///
/// A floating-point number is held as its decimal text. An object holds its
/// members in the order in which their keys first appeared; in a well-formed
/// value no key occurs twice.
#[derive(Debug, PartialEq, Eq)]
pub enum JsonNode {
    Null(Option<Location>),
    Bool(bool, Option<Location>),
    Integer(i64, Option<Location>),
    Float(String, Option<Location>),
    String(String, Option<Location>),
    Array(Vec<JsonNode>, Option<Location>),
    Object(Vec<(String, JsonNode)>, Option<Location>),
}

/// The mathematical value of a [`JsonNode`].
pub enum JsonValue {
    Null(Option<Location>),
    Bool(bool, Option<Location>),
    Integer(i64, Option<Location>),
    Float(Seq<char>, Option<Location>),
    String(Seq<char>, Option<Location>),
    Array(Seq<JsonValue>, Option<Location>),
    Object(Seq<(Seq<char>, JsonValue)>, Option<Location>),
}

/// The value that `node` stands for.
pub open spec fn value_of(node: JsonNode) -> JsonValue
    decreases node,
{
    match node {
        JsonNode::Null(l) => JsonValue::Null(l),
        JsonNode::Bool(b, l) => JsonValue::Bool(b, l),
        JsonNode::Integer(i, l) => JsonValue::Integer(i, l),
        JsonNode::Float(t, l) => JsonValue::Float(t@, l),
        JsonNode::String(s, l) => JsonValue::String(s@, l),
        JsonNode::Array(a, l) => JsonValue::Array(
            Seq::new(
                a.len() as nat,
                |i: int|
                    if 0 <= i < a.len() {
                        value_of(a[i])
                    } else {
                        arbitrary()
                    },
            ),
            l,
        ),
        JsonNode::Object(o, l) => JsonValue::Object(
            Seq::new(
                o.len() as nat,
                |i: int|
                    if 0 <= i < o.len() {
                        (o[i].0@, value_of(o[i].1))
                    } else {
                        arbitrary()
                    },
            ),
            l,
        ),
    }
}

impl View for JsonNode {
    type V = JsonValue;

    open spec fn view(&self) -> JsonValue {
        value_of(*self)
    }
}

/// The values of the nodes `nodes`, in order.
pub open spec fn values_of(nodes: Seq<JsonNode>) -> Seq<JsonValue> {
    Seq::new(nodes.len(), |i: int| nodes[i]@)
}

/// The members that `entries` stand for, in order.
pub open spec fn members_of(entries: Seq<(String, JsonNode)>) -> Seq<(Seq<char>, JsonValue)> {
    Seq::new(entries.len(), |i: int| (entries[i].0@, entries[i].1@))
}

/// The index of the member of `members` with the key `key`, if there is one.
pub open spec fn index_of_key(members: Seq<(Seq<char>, JsonValue)>, key: Seq<char>) -> Option<int>
    decreases members.len(),
{
    if members.len() == 0 {
        None
    } else if index_of_key(members.drop_last(), key) is Some {
        index_of_key(members.drop_last(), key)
    } else if members.last().0 == key {
        Some(members.len() - 1)
    } else {
        None
    }
}

/// `members` with `value` under `key`: in the place of the member that has
/// the key, or at the end where none has it.
pub open spec fn with_member(
    members: Seq<(Seq<char>, JsonValue)>,
    key: Seq<char>,
    value: JsonValue,
) -> Seq<(Seq<char>, JsonValue)> {
    match index_of_key(members, key) {
        Some(i) => members.update(i, (key, value)),
        None => members.push((key, value)),
    }
}

/// The index of the last member of `members` with the key `key`, if there
/// is one.
pub open spec fn last_index_of_key(members: Seq<(Seq<char>, JsonValue)>, key: Seq<char>) -> Option<
    int,
>
    decreases members.len(),
{
    if members.len() == 0 {
        None
    } else if members.last().0 == key {
        Some(members.len() - 1)
    } else {
        last_index_of_key(members.drop_last(), key)
    }
}

/// What an object holds when the members `pairs` are put into it one after
/// the other.
pub open spec fn collected(pairs: Seq<(Seq<char>, JsonValue)>) -> Seq<(Seq<char>, JsonValue)>
    decreases pairs.len(),
{
    if pairs.len() == 0 {
        Seq::empty()
    } else {
        with_member(collected(pairs.drop_last()), pairs.last().0, pairs.last().1)
    }
}

/// Whether no key occurs twice among `members`.
pub open spec fn keys_unique(members: Seq<(Seq<char>, JsonValue)>) -> bool {
    forall|i: int, j: int|
        0 <= i < j < members.len() ==> (#[trigger] members[i]).0 != (#[trigger] members[j]).0
}

impl JsonValue {
    /// The location that the value was read from.
    pub open spec fn location(self) -> Option<Location> {
        match self {
            JsonValue::Null(l) => l,
            JsonValue::Bool(_, l) => l,
            JsonValue::Integer(_, l) => l,
            JsonValue::Float(_, l) => l,
            JsonValue::String(_, l) => l,
            JsonValue::Array(_, l) => l,
            JsonValue::Object(_, l) => l,
        }
    }

    /// Whether no object in the value holds a key twice.
    pub open spec fn well_formed(self) -> bool
        decreases self,
    {
        match self {
            JsonValue::Array(items, _) => forall|i: int|
                0 <= i < items.len() ==> (#[trigger] items[i]).well_formed(),
            JsonValue::Object(members, _) => keys_unique(members) && forall|i: int|
                0 <= i < members.len() ==> (#[trigger] members[i]).1.well_formed(),
            _ => true,
        }
    }

    /// The value without any location.
    pub open spec fn unlocated(self) -> JsonValue
        decreases self,
    {
        match self {
            JsonValue::Null(_) => JsonValue::Null(None),
            JsonValue::Bool(b, _) => JsonValue::Bool(b, None),
            JsonValue::Integer(i, _) => JsonValue::Integer(i, None),
            JsonValue::Float(t, _) => JsonValue::Float(t, None),
            JsonValue::String(s, _) => JsonValue::String(s, None),
            JsonValue::Array(items, _) => JsonValue::Array(
                Seq::new(
                    items.len(),
                    |i: int|
                        if 0 <= i < items.len() {
                            items[i].unlocated()
                        } else {
                            arbitrary()
                        },
                ),
                None,
            ),
            JsonValue::Object(members, _) => JsonValue::Object(
                Seq::new(
                    members.len(),
                    |i: int|
                        if 0 <= i < members.len() {
                            (members[i].0, members[i].1.unlocated())
                        } else {
                            arbitrary()
                        },
                ),
                None,
            ),
        }
    }
}

/// The index of a key is the place of the first member that has it, and
/// there is none where no member has it.
pub proof fn lemma_index_of_key(members: Seq<(Seq<char>, JsonValue)>, key: Seq<char>)
    ensures
        match index_of_key(members, key) {
            Some(i) => 0 <= i < members.len() && members[i].0 == key && forall|j: int|
                0 <= j < i ==> (#[trigger] members[j]).0 != key,
            None => forall|j: int| 0 <= j < members.len() ==> (#[trigger] members[j]).0 != key,
        },
    decreases members.len(),
{
    if members.len() > 0 {
        let front = members.drop_last();
        lemma_index_of_key(front, key);
        assert forall|j: int| 0 <= j < front.len() implies #[trigger] front[j] == members[j] by {}
        match index_of_key(front, key) {
            Some(i) => {
                assert(front[i] == members[i]);
                assert forall|j: int| 0 <= j < i implies (#[trigger] members[j]).0 != key by {
                    assert(front[j] == members[j]);
                }
            },
            None => {
                assert forall|j: int| 0 <= j < members.len() - 1 implies (#[trigger] members[j]).0
                    != key by {
                    assert(front[j] == members[j]);
                }
            },
        }
    }
}

/// The last index of a key is the place of the last member that has it,
/// and there is none where no member has it.
pub proof fn lemma_last_index_of_key(members: Seq<(Seq<char>, JsonValue)>, key: Seq<char>)
    ensures
        match last_index_of_key(members, key) {
            Some(i) => 0 <= i < members.len() && members[i].0 == key && forall|j: int|
                i < j < members.len() ==> (#[trigger] members[j]).0 != key,
            None => forall|j: int| 0 <= j < members.len() ==> (#[trigger] members[j]).0 != key,
        },
    decreases members.len(),
{
    if members.len() > 0 && members.last().0 != key {
        let front = members.drop_last();
        lemma_last_index_of_key(front, key);
        assert forall|j: int| 0 <= j < front.len() implies #[trigger] front[j] == members[j] by {}
        match last_index_of_key(front, key) {
            Some(i) => {
                assert(front[i] == members[i]);
                assert forall|j: int| i < j < members.len() implies (#[trigger] members[j]).0
                    != key by {
                    if j < front.len() {
                        assert(front[j] == members[j]);
                    }
                }
            },
            None => {
                assert forall|j: int| 0 <= j < members.len() implies (#[trigger] members[j]).0
                    != key by {
                    if j < front.len() {
                        assert(front[j] == members[j]);
                    }
                }
            },
        }
    }
}

/// Whether `members` hold what the members `pairs` leave when they are put
/// into an object one after the other: every key of the pairs once, the
/// keys in the order in which they first appear among the pairs, and each
/// key with the value of its last appearance.
pub open spec fn holds_first_places_and_last_values(
    members: Seq<(Seq<char>, JsonValue)>,
    pairs: Seq<(Seq<char>, JsonValue)>,
) -> bool {
    &&& keys_unique(members)
    &&& forall|i: int|
        0 <= i < pairs.len() ==> index_of_key(members, (#[trigger] pairs[i]).0) is Some
    &&& forall|a: int|
        0 <= a < members.len() ==> index_of_key(pairs, (#[trigger] members[a]).0) is Some && (
        last_index_of_key(pairs, members[a].0) matches Some(l) && members[a].1 == pairs[l].1)
    &&& forall|a: int, b: int|
        0 <= a < b < members.len() ==> index_of_key(pairs, (#[trigger] members[a]).0)->0
            < index_of_key(pairs, (#[trigger] members[b]).0)->0
}

/// Members that are put into an object one after the other leave every key
/// once, in the place of its first appearance and with the value of its
/// last appearance.
pub proof fn lemma_collected(pairs: Seq<(Seq<char>, JsonValue)>)
    ensures
        holds_first_places_and_last_values(collected(pairs), pairs),
    decreases pairs.len(),
{
    let ms = collected(pairs);
    if pairs.len() == 0 {
        return ;
    }
    let front = pairs.drop_last();
    let p = pairs.last();
    let old = collected(front);
    lemma_collected(front);
    lemma_index_of_key(old, p.0);
    lemma_with_member_unique(old, p.0, p.1);
    lemma_index_of_key(front, p.0);
    assert forall|i: int| 0 <= i < front.len() implies #[trigger] front[i] == pairs[i] by {}
    // The keys of the members stay where they are.
    assert forall|a: int| 0 <= a < old.len() implies (#[trigger] ms[a]).0 == old[a].0 by {}
    // The key of the last pair is new exactly where no pair before has it.
    if index_of_key(old, p.0) is None {
        if let Some(i) = index_of_key(front, p.0) {
            assert(index_of_key(old, front[i].0) is Some);
        }
    }
    assert forall|i: int| 0 <= i < pairs.len() implies index_of_key(ms, (#[trigger] pairs[i]).0)
        is Some by {
        lemma_index_of_key(ms, pairs[i].0);
        if i < front.len() {
            assert(front[i] == pairs[i]);
            let x = index_of_key(old, front[i].0)->0;
            lemma_index_of_key(old, front[i].0);
            assert(ms[x].0 == pairs[i].0);
        } else {
            match index_of_key(old, p.0) {
                Some(j) => {
                    assert(ms[j].0 == p.0);
                },
                None => {
                    assert(ms[old.len() as int].0 == p.0);
                },
            }
        }
    }
    assert forall|a: int| 0 <= a < ms.len() implies index_of_key(pairs, (#[trigger] ms[a]).0)
        is Some && (last_index_of_key(pairs, ms[a].0) matches Some(l) && ms[a].1 == pairs[l].1) by {
        if a < old.len() {
            assert(ms[a].0 == old[a].0);
            assert(index_of_key(front, old[a].0) is Some);
            if ms[a].0 == p.0 {
                assert(index_of_key(old, p.0) == Some(a)) by {
                    if index_of_key(old, p.0) is None {
                        assert(old[a].0 != p.0);
                    }
                }
            } else {
                assert(ms[a] == old[a]);
                let l = last_index_of_key(front, old[a].0)->0;
                lemma_last_index_of_key(front, old[a].0);
                assert(front[l] == pairs[l]);
            }
        }
    }
    assert forall|a: int, b: int| 0 <= a < b < ms.len() implies index_of_key(
        pairs,
        (#[trigger] ms[a]).0,
    )->0 < index_of_key(pairs, (#[trigger] ms[b]).0)->0 by {
        assert(ms[a].0 == old[a].0);
        assert(index_of_key(front, old[a].0) is Some);
        lemma_index_of_key(front, old[a].0);
        if b < old.len() {
            assert(ms[b].0 == old[b].0);
            assert(index_of_key(front, old[b].0) is Some);
        }
    }
}

/// Putting a member into members with unique keys leaves the keys unique.
pub proof fn lemma_with_member_unique(
    members: Seq<(Seq<char>, JsonValue)>,
    key: Seq<char>,
    value: JsonValue,
)
    requires
        keys_unique(members),
    ensures
        keys_unique(with_member(members, key, value)),
{
    lemma_index_of_key(members, key);
    let after = with_member(members, key, value);
    assert forall|i: int, j: int| 0 <= i < j < after.len() implies (#[trigger] after[i]).0 != (
    #[trigger] after[j]).0 by {
        match index_of_key(members, key) {
            Some(k) => {
                if i != k {
                    assert(after[i] == members[i]);
                }
                if j != k {
                    assert(after[j] == members[j]);
                }
                assert(members[k].0 == key);
            },
            None => {
                assert(after[i] == members[i]);
                if j < members.len() {
                    assert(after[j] == members[j]);
                }
            },
        }
    }
}

impl JsonNode {
    /// The node's array holds the values of its elements, and its object the
    /// members of its entries.
    pub proof fn lemma_view(&self)
        ensures
            self matches JsonNode::Array(a, l) ==> self@ == JsonValue::Array(values_of(a@), *l),
            self matches JsonNode::Object(o, l) ==> self@ == JsonValue::Object(members_of(o@), *l),
    {
        match self {
            JsonNode::Array(a, l) => {
                assert(self@->Array_0 =~= values_of(a@));
            },
            JsonNode::Object(o, l) => {
                assert(self@->Object_0 =~= members_of(o@));
            },
            _ => {},
        }
    }

    /// The location that the node was read from.
    pub fn location(&self) -> (r: Option<Location>)
        ensures
            r == self@.location(),
    {
        match self {
            JsonNode::Null(l) => *l,
            JsonNode::Bool(_, l) => *l,
            JsonNode::Integer(_, l) => *l,
            JsonNode::Float(_, l) => *l,
            JsonNode::String(_, l) => *l,
            JsonNode::Array(_, l) => *l,
            JsonNode::Object(_, l) => *l,
        }
    }

    /// A copy of the tree without any location: the value as it is when it
    /// is not read from a text.
    pub fn unlocated(&self) -> (r: JsonNode)
        ensures
            r@ == self@.unlocated(),
        decreases self,
    {
        match self {
            JsonNode::Null(_) => JsonNode::Null(None),
            JsonNode::Bool(b, _) => JsonNode::Bool(*b, None),
            JsonNode::Integer(i, _) => JsonNode::Integer(*i, None),
            JsonNode::Float(t, _) => JsonNode::Float(t.clone(), None),
            JsonNode::String(s, _) => JsonNode::String(s.clone(), None),
            JsonNode::Array(a, _) => {
                let mut items: Vec<JsonNode> = Vec::new();
                let mut i: usize = 0;
                while i < a.len()
                    invariant
                        self matches JsonNode::Array(x, _) && x == a,
                        i <= a.len(),
                        items.len() == i,
                        forall|j: int| 0 <= j < i ==> (#[trigger] items[j])@ == a[j]@.unlocated(),
                    decreases a.len() - i,
                {
                    let c = a[i].unlocated();
                    items.push(c);
                    i += 1;
                }
                let r = JsonNode::Array(items, None);
                proof {
                    r.lemma_view();
                    self.lemma_view();
                    assert(r@->Array_0 =~= self@.unlocated()->Array_0);
                }
                r
            },
            JsonNode::Object(o, _) => {
                let mut entries: Vec<(String, JsonNode)> = Vec::new();
                let mut i: usize = 0;
                while i < o.len()
                    invariant
                        self matches JsonNode::Object(x, _) && x == o,
                        i <= o.len(),
                        entries.len() == i,
                        forall|j: int|
                            0 <= j < i ==> (#[trigger] entries[j]).0@ == o[j].0@ && entries[j].1@
                                == o[j].1@.unlocated(),
                    decreases o.len() - i,
                {
                    let c = o[i].1.unlocated();
                    entries.push((o[i].0.clone(), c));
                    i += 1;
                }
                let r = JsonNode::Object(entries, None);
                proof {
                    r.lemma_view();
                    self.lemma_view();
                    assert(r@->Object_0 =~= self@.unlocated()->Object_0);
                }
                r
            },
        }
    }

    /// Puts `value` under `key` into the members `entries`: in the place of
    /// the member that has the key, whose value is given up, or at the end
    /// where none has it.
    pub fn insert(entries: &mut Vec<(String, JsonNode)>, key: String, value: JsonNode)
        ensures
            members_of(final(entries)@) == with_member(members_of(old(entries)@), key@, value@),
    {
        let ghost before = members_of(entries@);
        let mut i: usize = 0;
        while i < entries.len()
            invariant
                i <= entries.len(),
                members_of(entries@) == before,
                before == members_of(old(entries)@),
                forall|j: int| 0 <= j < i ==> (#[trigger] before[j]).0 != key@,
            decreases entries.len() - i,
        {
            assert(before[i as int].0 == entries[i as int].0@);
            if entries[i].0 == key {
                proof {
                    lemma_index_of_key(before, key@);
                    match index_of_key(before, key@) {
                        Some(k) => {
                            if k < i {
                                assert(before[k].0 != key@);
                            }
                            if i < k {
                                assert(before[i as int].0 != key@);
                            }
                        },
                        None => {
                            assert(before[i as int].0 != key@);
                        },
                    }
                }
                entries[i] = (key, value);
                assert(members_of(entries@) =~= before.update(i as int, (key@, value@)));
                return ;
            }
            i += 1;
        }
        proof {
            lemma_index_of_key(before, key@);
            if let Some(k) = index_of_key(before, key@) {
                assert(before[k].0 != key@);
            }
        }
        entries.push((key, value));
        assert(members_of(entries@) =~= before.push((key@, value@)));
    }
}

impl Clone for JsonNode {
    /// A copy of the whole tree.
    fn clone(&self) -> (r: Self)
        ensures
            r@ == self@,
        decreases self,
    {
        match self {
            JsonNode::Null(l) => JsonNode::Null(*l),
            JsonNode::Bool(b, l) => JsonNode::Bool(*b, *l),
            JsonNode::Integer(i, l) => JsonNode::Integer(*i, *l),
            JsonNode::Float(t, l) => JsonNode::Float(t.clone(), *l),
            JsonNode::String(s, l) => JsonNode::String(s.clone(), *l),
            JsonNode::Array(a, l) => {
                let mut items: Vec<JsonNode> = Vec::new();
                let mut i: usize = 0;
                while i < a.len()
                    invariant
                        self matches JsonNode::Array(x, _) && x == a,
                        i <= a.len(),
                        items.len() == i,
                        forall|j: int| 0 <= j < i ==> (#[trigger] items[j])@ == a[j]@,
                    decreases a.len() - i,
                {
                    let c = a[i].clone();
                    items.push(c);
                    i += 1;
                }
                let r = JsonNode::Array(items, *l);
                proof {
                    r.lemma_view();
                    self.lemma_view();
                    assert(values_of(items@) =~= values_of(a@));
                }
                r
            },
            JsonNode::Object(o, l) => {
                let mut entries: Vec<(String, JsonNode)> = Vec::new();
                let mut i: usize = 0;
                while i < o.len()
                    invariant
                        self matches JsonNode::Object(x, _) && x == o,
                        i <= o.len(),
                        entries.len() == i,
                        forall|j: int|
                            0 <= j < i ==> (#[trigger] entries[j]).0@ == o[j].0@ && entries[j].1@
                                == o[j].1@,
                    decreases o.len() - i,
                {
                    let c = o[i].1.clone();
                    entries.push((o[i].0.clone(), c));
                    i += 1;
                }
                let r = JsonNode::Object(entries, *l);
                proof {
                    r.lemma_view();
                    self.lemma_view();
                    assert(members_of(entries@) =~= members_of(o@));
                }
                r
            },
        }
    }
}

} // verus!
