//! Where the nodes of a syntax tree stand in their text: every node is
//! located at the first character of what it was matched to.

use crate::chars::{is_identifier_part, is_identifier_start, starts_with};
use crate::grammar::{
    branch_at, four_hex_digits_at, identifier_parts, is_at, leaf_at, lemma_lex_key,
    lemma_lex_value, lemma_number_end, lemma_trivia_end, lex_items, lex_key, lex_members,
    lex_text, lex_value, location_at, string_parts, string_piece, trivia_end, Piece,
};
use crate::syntax::{Rule, SyntaxTree};
use vstd::prelude::*;

verus! {

/// Whether the node `t` begins at the position `pos` of the text `s`: it
/// is located there, and there stands what the node was matched to, which
/// is the quote of a string, the bracket of an array, the brace of an
/// object, and the text of a literal or string component.
pub open spec fn begins_at(s: Seq<char>, t: SyntaxTree, pos: int) -> bool {
    &&& 0 <= pos < s.len()
    &&& t.location == location_at(s, pos)
    &&& match t.rule {
        Rule::String => s[pos] == '"' || s[pos] == '\'',
        Rule::Array => s[pos] == '[',
        Rule::Object => s[pos] == '{',
        Rule::Identifier | Rule::Pair => true,
        _ => t.text.len() > 0 && starts_with(s, pos, t.text),
    }
}

/// Whether the node `t` and every node below it begin at a position of the
/// text `s`.
pub open spec fn placed_in(s: Seq<char>, t: SyntaxTree) -> bool
    decreases t,
{
    &&& exists|pos: int| begins_at(s, t, pos)
    &&& forall|i: int| 0 <= i < t.children.len() ==> placed_in(s, #[trigger] t.children[i])
}

proof fn lemma_leaf_placed(rule: Rule, s: Seq<char>, from: int, to: int)
    requires
        0 <= from < to <= s.len(),
        rule != Rule::String && rule != Rule::Array && rule != Rule::Object,
    ensures
        begins_at(s, leaf_at(rule, s, from, to), from),
        placed_in(s, leaf_at(rule, s, from, to)),
{
    let t = leaf_at(rule, s, from, to);
    assert(s.subrange(from, from + t.text.len()) =~= t.text);
    assert(begins_at(s, t, from));
}

proof fn lemma_string_parts_placed(s: Seq<char>, pos: int, quote: char)
    requires
        0 <= pos <= s.len(),
    ensures
        string_parts(s, pos, quote) matches Ok((parts, end)) ==> forall|i: int|
            0 <= i < parts.len() ==> placed_in(s, #[trigger] parts[i]),
    decreases s.len() - pos,
{
    match string_piece(s, pos, quote) {
        Piece::Part(t, next) => {
            lemma_string_parts_placed(s, next, quote);
            if s[pos] == '\\' {
                if s[pos + 1] == 'x' && t.rule == Rule::HexEscapeSequence {
                    lemma_leaf_placed(Rule::HexEscapeSequence, s, pos + 2, pos + 4);
                } else if s[pos + 1] == 'u' && t.rule == Rule::UnicodeEscapeSequence {
                    lemma_leaf_placed(Rule::UnicodeEscapeSequence, s, pos + 2, pos + 6);
                } else {
                    lemma_leaf_placed(t.rule, s, pos + 1, pos + 2);
                }
            } else {
                lemma_leaf_placed(Rule::CharLiteral, s, pos, pos + 1);
            }
            assert(placed_in(s, t));
            if let Ok((rest, end)) = string_parts(s, next, quote) {
                let parts = seq![t] + rest;
                assert forall|i: int| 0 <= i < parts.len() implies placed_in(
                    s,
                    #[trigger] parts[i],
                ) by {
                    if i > 0 {
                        assert(parts[i] == rest[i - 1]);
                    }
                }
            }
        },
        Piece::Skip(next) => {
            lemma_string_parts_placed(s, next, quote);
        },
        _ => {},
    }
}

proof fn lemma_identifier_parts_placed(s: Seq<char>, pos: int, first: bool)
    requires
        0 <= pos <= s.len(),
    ensures
        forall|i: int|
            0 <= i < identifier_parts(s, pos, first).0.len() ==> placed_in(
                s,
                #[trigger] identifier_parts(s, pos, first).0[i],
            ),
    decreases s.len() - pos,
{
    if pos < s.len() {
        let parts = identifier_parts(s, pos, first).0;
        if s[pos] == '\\' && is_at(s, pos + 1, 'u') && four_hex_digits_at(s, pos + 2) {
            lemma_identifier_parts_placed(s, pos + 6, false);
            lemma_leaf_placed(Rule::UnicodeEscapeSequence, s, pos + 2, pos + 6);
            let rest = identifier_parts(s, pos + 6, false).0;
            assert forall|i: int| 0 <= i < parts.len() implies placed_in(s, #[trigger] parts[i]) by {
                if i > 0 {
                    assert(parts[i] == rest[i - 1]);
                }
            }
        } else if (first && is_identifier_start(s[pos])) || (!first && is_identifier_part(s[pos])) {
            lemma_identifier_parts_placed(s, pos + 1, false);
            lemma_leaf_placed(Rule::CharLiteral, s, pos, pos + 1);
            let rest = identifier_parts(s, pos + 1, false).0;
            assert forall|i: int| 0 <= i < parts.len() implies placed_in(s, #[trigger] parts[i]) by {
                if i > 0 {
                    assert(parts[i] == rest[i - 1]);
                }
            }
        }
    }
}

proof fn lemma_lex_key_placed(s: Seq<char>, pos: int)
    requires
        0 <= pos <= s.len(),
    ensures
        lex_key(s, pos) matches Ok((t, end)) ==> begins_at(s, t, pos) && placed_in(s, t),
{
    if is_at(s, pos, '"') || is_at(s, pos, '\'') {
        lemma_string_parts_placed(s, pos + 1, s[pos]);
    } else {
        lemma_identifier_parts_placed(s, pos, true);
    }
    if let Ok((t, end)) = lex_key(s, pos) {
        lemma_lex_key(s, pos);
        assert(begins_at(s, t, pos));
    }
}

/// A matched value begins where it was matched, and every node below it
/// begins at a position of the text: each node of a syntax tree is located
/// at the first character of what it was matched to.
pub proof fn lemma_lex_value_placed(s: Seq<char>, pos: int)
    requires
        0 <= pos <= s.len(),
    ensures
        lex_value(s, pos) matches Ok((t, end)) ==> begins_at(s, t, pos) && placed_in(s, t),
    decreases s.len() - pos, 0int,
{
    if let Ok((t, end)) = lex_value(s, pos) {
        lemma_lex_value(s, pos);
        if t.rule == Rule::String {
            lemma_string_parts_placed(s, pos + 1, s[pos]);
        } else if t.rule == Rule::Array {
            lemma_trivia_end(s, pos + 1);
            lemma_lex_items_placed(s, trivia_end(s, pos + 1));
        } else if t.rule == Rule::Object {
            lemma_trivia_end(s, pos + 1);
            lemma_lex_members_placed(s, trivia_end(s, pos + 1));
        } else {
            lemma_number_end(s, pos);
            lemma_leaf_placed(t.rule, s, pos, end);
        }
        assert(begins_at(s, t, pos));
    }
}

proof fn lemma_lex_items_placed(s: Seq<char>, pos: int)
    requires
        0 <= pos <= s.len(),
    ensures
        lex_items(s, pos) matches Ok((items, end)) ==> forall|i: int|
            0 <= i < items.len() ==> placed_in(s, #[trigger] items[i]),
    decreases s.len() - pos, 1int,
{
    if !is_at(s, pos, ']') {
        lemma_lex_value(s, pos);
        lemma_lex_value_placed(s, pos);
        if let Ok((item, end)) = lex_value(s, pos) {
            let next = trivia_end(s, end);
            lemma_trivia_end(s, end);
            if is_at(s, next, ',') {
                lemma_trivia_end(s, next + 1);
                lemma_lex_items_placed(s, trivia_end(s, next + 1));
                if let Ok((rest, last)) = lex_items(s, trivia_end(s, next + 1)) {
                    let items = seq![item] + rest;
                    assert forall|i: int| 0 <= i < items.len() implies placed_in(
                        s,
                        #[trigger] items[i],
                    ) by {
                        if i > 0 {
                            assert(items[i] == rest[i - 1]);
                        }
                    }
                }
            }
        }
    }
}

proof fn lemma_lex_members_placed(s: Seq<char>, pos: int)
    requires
        0 <= pos <= s.len(),
    ensures
        lex_members(s, pos) matches Ok((members, end)) ==> forall|i: int|
            0 <= i < members.len() ==> placed_in(s, #[trigger] members[i]),
    decreases s.len() - pos, 1int,
{
    if !is_at(s, pos, '}') {
        lemma_lex_key(s, pos);
        lemma_lex_key_placed(s, pos);
        if let Ok((key, key_end)) = lex_key(s, pos) {
            let colon = trivia_end(s, key_end);
            lemma_trivia_end(s, key_end);
            if is_at(s, colon, ':') {
                lemma_trivia_end(s, colon + 1);
                let start = trivia_end(s, colon + 1);
                lemma_lex_value(s, start);
                lemma_lex_value_placed(s, start);
                if let Ok((value, end)) = lex_value(s, start) {
                    let member = branch_at(Rule::Pair, s, pos, seq![key, value]);
                    assert(begins_at(s, member, pos));
                    assert forall|i: int| 0 <= i < member.children.len() implies placed_in(
                        s,
                        #[trigger] member.children[i],
                    ) by {}
                    assert(placed_in(s, member));
                    let next = trivia_end(s, end);
                    lemma_trivia_end(s, end);
                    if is_at(s, next, ',') {
                        lemma_trivia_end(s, next + 1);
                        lemma_lex_members_placed(s, trivia_end(s, next + 1));
                        if let Ok((rest, last)) = lex_members(s, trivia_end(s, next + 1)) {
                            let members = seq![member] + rest;
                            assert forall|i: int| 0 <= i < members.len() implies placed_in(
                                s,
                                #[trigger] members[i],
                            ) by {
                                if i > 0 {
                                    assert(members[i] == rest[i - 1]);
                                }
                            }
                        }
                    }
                }
            }
        }
    }
}

/// Every node of the syntax tree of a text is located at the first
/// character of what it was matched to.
pub proof fn lemma_lex_text_placed(s: Seq<char>)
    ensures
        lex_text(s) matches Ok(t) ==> placed_in(s, t),
{
    lemma_trivia_end(s, 0);
    lemma_lex_value_placed(s, trivia_end(s, 0));
}

} // verus!
