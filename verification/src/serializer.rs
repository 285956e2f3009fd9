//! The canonical serializer: it renders a value as the most compact JSON5
//! text.

use crate::chars::{to_chars, is_white_space};
use crate::node::{members_of, values_of, JsonNode, JsonValue};
use vstd::prelude::*;
use vstd::string::*;

verus! {

/// The character of the decimal digit `d`.
pub open spec fn digit_char(d: int) -> char {
    ('0' as int + d) as char
}

/// The decimal digits of the natural number `n`, without leading zeros.
pub open spec fn natural_text(n: int) -> Seq<char>
    decreases n,
{
    if n < 10 {
        seq![digit_char(n)]
    } else {
        natural_text(n / 10).push(digit_char(n % 10))
    }
}

/// The decimal text of the integer `i`: its digits, behind a minus sign
/// where it is negative.
pub open spec fn integer_text(i: int) -> Seq<char> {
    if i < 0 {
        seq!['-'] + natural_text(-i)
    } else {
        natural_text(i)
    }
}

/// Whether `s` holds a white space character.
pub open spec fn has_white_space(s: Seq<char>) -> bool {
    exists|i: int| 0 <= i < s.len() && is_white_space(#[trigger] s[i])
}

/// `s` between double quotes.
pub open spec fn quoted(s: Seq<char>) -> Seq<char> {
    seq!['"'] + s + seq!['"']
}

/// The text of an object key: the key itself, between double quotes where
/// it holds white space.
pub open spec fn render_key(key: Seq<char>) -> Seq<char> {
    if has_white_space(key) {
        quoted(key)
    } else {
        key
    }
}

/// The canonical text of the value `v`.
///
/// `null`, `true` and `false` are written as such, an integer in decimal, a
/// floating-point number as the text that it holds, and a string between
/// double quotes, its characters as they are. An array is its elements
/// between brackets and an object its members between braces, each member
/// as key, colon and value; elements and members are parted by commas, and
/// nothing else is added.
pub open spec fn render(v: JsonValue) -> Seq<char>
    decreases v, 0int,
{
    match v {
        JsonValue::Null(_) => seq!['n', 'u', 'l', 'l'],
        JsonValue::Bool(b, _) => if b {
            seq!['t', 'r', 'u', 'e']
        } else {
            seq!['f', 'a', 'l', 's', 'e']
        },
        JsonValue::Integer(i, _) => integer_text(i as int),
        JsonValue::Float(text, _) => text,
        JsonValue::String(s, _) => quoted(s),
        JsonValue::Array(items, _) => seq!['['] + render_items(items, items.len() as int) + seq![
            ']',
        ],
        JsonValue::Object(members, _) => seq!['{'] + render_members(members, members.len() as int)
            + seq!['}'],
    }
}

/// The texts of the first `n` of `items`, parted by commas.
pub open spec fn render_items(items: Seq<JsonValue>, n: int) -> Seq<char>
    decreases items, n,
{
    if n <= 0 || n > items.len() {
        Seq::empty()
    } else if n == 1 {
        render(items[0])
    } else {
        render_items(items, n - 1) + seq![','] + render(items[n - 1])
    }
}

/// The text of the member `key: value`.
pub open spec fn render_member(key: Seq<char>, value: Seq<char>) -> Seq<char> {
    render_key(key) + seq![':'] + value
}

/// The texts of the first `n` of `members`, parted by commas.
pub open spec fn render_members(members: Seq<(Seq<char>, JsonValue)>, n: int) -> Seq<char>
    decreases members, n,
{
    if n <= 0 || n > members.len() {
        Seq::empty()
    } else if n == 1 {
        render_member(members[0].0, render(members[0].1))
    } else {
        render_members(members, n - 1) + seq![','] + render_member(
            members[n - 1].0,
            render(members[n - 1].1),
        )
    }
}

fn write_natural(n: u64, out: &mut String)
    ensures
        final(out)@ == old(out)@ + natural_text(n as int),
    decreases n,
{
    if n >= 10 {
        write_natural(n / 10, out);
    }
    let d: u8 = (n % 10) as u8;
    let c: char = (d + 48u8) as char;
    assert(c == digit_char(n as int % 10));
    let ghost before = out@;
    out.push(c);
    assert(out@ =~= old(out)@ + natural_text(n as int));
}

fn write_integer(i: i64, out: &mut String)
    ensures
        final(out)@ == old(out)@ + integer_text(i as int),
{
    if i < 0 {
        out.push('-');
        let m: u64 = if i == i64::MIN {
            0x8000_0000_0000_0000
        } else {
            (-i) as u64
        };
        let ghost before = out@;
        write_natural(m, out);
        assert(out@ =~= old(out)@ + (seq!['-'] + natural_text(-(i as int))));
    } else {
        write_natural(i as u64, out);
    }
}

fn key_has_white_space(key: &String) -> (r: bool)
    ensures
        r == has_white_space(key@),
{
    let s = to_chars(key.as_str());
    let mut i: usize = 0;
    while i < s.len()
        invariant
            i <= s.len(),
            s@ == key@,
            forall|j: int| 0 <= j < i ==> !is_white_space(#[trigger] s@[j]),
        decreases s.len() - i,
    {
        if s[i].is_whitespace() {
            assert(is_white_space(key@[i as int]));
            return true;
        }
        i += 1;
    }
    false
}

fn write_key(key: &String, out: &mut String)
    ensures
        final(out)@ == old(out)@ + render_key(key@),
{
    if key_has_white_space(key) {
        out.push('"');
        out.append(key.as_str());
        out.push('"');
        assert(out@ =~= old(out)@ + quoted(key@));
    } else {
        out.append(key.as_str());
    }
}

/// Appends the canonical text of `node` to `out`.
pub fn write_node(node: &JsonNode, out: &mut String)
    ensures
        final(out)@ == old(out)@ + render(node@),
    decreases node,
{
    proof {
        node.lemma_view();
    }
    match node {
        JsonNode::Null(_) => {
            proof {
                reveal_strlit("null");
            }
            out.append("null");
            assert(out@ =~= old(out)@ + render(node@));
        },
        JsonNode::Bool(b, _) => {
            proof {
                reveal_strlit("true");
                reveal_strlit("false");
            }
            if *b {
                out.append("true");
            } else {
                out.append("false");
            }
            assert(out@ =~= old(out)@ + render(node@));
        },
        JsonNode::Integer(i, _) => {
            write_integer(*i, out);
        },
        JsonNode::Float(text, _) => {
            out.append(text.as_str());
        },
        JsonNode::String(s, _) => {
            out.push('"');
            out.append(s.as_str());
            out.push('"');
            assert(out@ =~= old(out)@ + quoted(s@));
        },
        JsonNode::Array(a, _) => {
            let ghost items = values_of(a@);
            out.push('[');
            let mut i: usize = 0;
            while i < a.len()
                invariant
                    node matches JsonNode::Array(x, _) && x == a,
                    i <= a.len(),
                    items == values_of(a@),
                    out@ == old(out)@ + seq!['['] + render_items(items, i as int),
                decreases a.len() - i,
            {
                let ghost before = out@;
                if i > 0 {
                    out.push(',');
                }
                write_node(&a[i], out);
                i += 1;
                assert(out@ =~= old(out)@ + seq!['['] + render_items(items, i as int));
            }
            out.push(']');
            assert(out@ =~= old(out)@ + render(node@));
        },
        JsonNode::Object(o, _) => {
            let ghost members = members_of(o@);
            out.push('{');
            let mut i: usize = 0;
            while i < o.len()
                invariant
                    node matches JsonNode::Object(x, _) && x == o,
                    i <= o.len(),
                    members == members_of(o@),
                    out@ == old(out)@ + seq!['{'] + render_members(members, i as int),
                decreases o.len() - i,
            {
                if i > 0 {
                    out.push(',');
                }
                write_key(&o[i].0, out);
                out.push(':');
                write_node(&o[i].1, out);
                i += 1;
                assert(out@ =~= old(out)@ + seq!['{'] + render_members(members, i as int));
            }
            out.push('}');
            assert(out@ =~= old(out)@ + render(node@));
        },
    }
}

} // verus!
