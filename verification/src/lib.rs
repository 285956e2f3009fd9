//! JSON5 text to a tree of located values, and back to canonical text.
//!
//! [`parse`] reads a JSON5 text into a [`JsonNode`] tree in which every
//! value remembers the line and column at which its text begins, and
//! [`stringify`] renders such a tree as the most compact JSON5 text.
//!
//! Parsing goes in two steps. [`lex`] reads the text into a syntax tree by
//! the grammar of the `grammar` module, and [`parse_pair`] builds the values
//! from that tree, decoding the strings ([`parse_string`]) and the numbers
//! ([`parse_integer`], [`parse_float`]) on its way. Every step comes with the
//! mathematical function that it computes, and the `roundtrip` module proves
//! that the text of a canonical value is parsed as that value.
//!
//! A floating-point number is held as its decimal text, which is checked to
//! be finite as a double-precision number but is not turned into one here.
//! Nested arrays and objects are read and written by recursion: how deep a
//! value may nest is limited by the stack only.

pub mod builder;
pub mod chars;
pub mod decimal;
pub mod error;
pub mod grammar;
pub mod index;
pub mod lexer;
pub mod limit;
pub mod node;
pub mod number;
pub mod places;
pub mod range;
pub mod roundtrip;
pub mod serializer;
pub mod strings;
pub mod syntax;

pub use builder::{parse, parse_pair};
pub use error::{ErrorView, JsonError, Location};
pub use lexer::lex;
pub use node::{JsonNode, JsonValue};
pub use number::{is_hex_literal, is_infinite, is_int, is_nan, parse_float, parse_integer};
pub use strings::parse_string;
pub use syntax::{Rule, SyntaxNode, SyntaxTree};

use vstd::prelude::*;

verus! {

/// Renders a value as canonical JSON5 text: the most compact text that
/// stands for it. Locations play no part.
///
/// Strings and keys are written as they are, without escapes: a string
/// that holds a double quote, a backslash or a line terminator is not read
/// back from its text.
pub fn stringify(node: &JsonNode) -> (r: String)
    ensures
        r@ == serializer::render(node@),
{
    let mut out = String::new();
    serializer::write_node(node, &mut out);
    assert(out@ =~= serializer::render(node@));
    out
}

} // verus!
