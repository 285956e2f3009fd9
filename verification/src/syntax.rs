//! The syntax tree that the grammar produces: one node for every value,
//! object member and string component, each with the rule that matched it
//! and the place where its text begins.

use crate::error::Location;
use vstd::prelude::*;

verus! {

/// The grammar rule that a node of the syntax tree was matched by.
#[derive(Copy, Clone, Debug, PartialEq, Eq, Structural)]
pub enum Rule {
    /// The literal `null`.
    Null,
    /// One of the literals `true` and `false`.
    Boolean,
    /// A quoted string; its children are its components.
    String,
    /// An unquoted object key; its children are its components.
    Identifier,
    /// A numeric literal.
    Number,
    /// An array; its children are its elements.
    Array,
    /// An object; its children are its members.
    Object,
    /// An object member; its children are the key and the value.
    Pair,
    /// A character that stands for itself.
    CharLiteral,
    /// The character behind a backslash, where it is none of `0`, `x`, `u`.
    CharEscapeSequence,
    /// The `0` of the escape `\0`.
    NulEscapeSequence,
    /// The two digits of an escape `\xHH`.
    HexEscapeSequence,
    /// The four digits of an escape `\uHHHH`.
    UnicodeEscapeSequence,
}

/// A node of the syntax tree.
#[derive(Debug, PartialEq, Eq)]
pub struct SyntaxNode {
    /// The rule that matched.
    pub rule: Rule,
    /// The text of a literal or of a string component; empty for strings,
    /// identifiers, arrays, objects and members, which their children describe.
    pub text: String,
    /// Where the node's text begins.
    pub location: Location,
    /// The nodes matched inside this one, in the order of the text.
    pub children: Vec<SyntaxNode>,
}

/// The mathematical value of a [`SyntaxNode`].
pub struct SyntaxTree {
    pub rule: Rule,
    pub text: Seq<char>,
    pub location: Location,
    pub children: Seq<SyntaxTree>,
}

/// The tree that `node` stands for.
pub open spec fn tree_of(node: SyntaxNode) -> SyntaxTree
    decreases node,
{
    SyntaxTree {
        rule: node.rule,
        text: node.text@,
        location: node.location,
        children: Seq::new(
            node.children.len() as nat,
            |i: int|
                if 0 <= i < node.children.len() {
                    tree_of(node.children[i])
                } else {
                    arbitrary()
                },
        ),
    }
}

impl View for SyntaxNode {
    type V = SyntaxTree;

    open spec fn view(&self) -> SyntaxTree {
        tree_of(*self)
    }
}

/// The trees of the nodes of `nodes`, in order.
pub open spec fn trees_of(nodes: Seq<SyntaxNode>) -> Seq<SyntaxTree> {
    Seq::new(nodes.len(), |i: int| nodes[i]@)
}

impl SyntaxTree {
    /// A node without children.
    pub open spec fn leaf(rule: Rule, text: Seq<char>, location: Location) -> SyntaxTree {
        SyntaxTree { rule, text, location, children: Seq::empty() }
    }

    /// A node without text of its own.
    pub open spec fn branch(rule: Rule, location: Location, children: Seq<SyntaxTree>) -> SyntaxTree {
        SyntaxTree { rule, text: Seq::empty(), location, children }
    }

    /// Whether the node is a string component: a literal run or an escape.
    pub open spec fn is_component(self) -> bool {
        self.rule == Rule::CharLiteral || self.rule == Rule::CharEscapeSequence || self.rule
            == Rule::NulEscapeSequence || self.rule == Rule::HexEscapeSequence || self.rule
            == Rule::UnicodeEscapeSequence
    }

    /// Whether the node is a string or an identifier made of components.
    pub open spec fn is_text(self) -> bool {
        &&& self.rule == Rule::String || self.rule == Rule::Identifier
        &&& forall|i: int| 0 <= i < self.children.len() ==> (#[trigger] self.children[i]).is_component()
    }

    /// Whether the node is an object member: a key and a value.
    pub open spec fn is_member(self) -> bool
        decreases self, 0int,
    {
        &&& self.rule == Rule::Pair
        &&& self.children.len() == 2
        &&& self.children[0].is_text()
        &&& self.children[1].is_value()
    }

    /// Whether the node has the shape of a value: a literal, a string, or an
    /// array or object whose parts have the shape of values and members.
    pub open spec fn is_value(self) -> bool
        decreases self, 1int,
    {
        match self.rule {
            Rule::Null | Rule::Boolean | Rule::Number => true,
            Rule::String | Rule::Identifier => self.is_text(),
            Rule::Array => forall|i: int|
                0 <= i < self.children.len() ==> (#[trigger] self.children[i]).is_value(),
            Rule::Object => forall|i: int|
                0 <= i < self.children.len() ==> (#[trigger] self.children[i]).is_member(),
            _ => false,
        }
    }
}

impl SyntaxNode {
    /// A node without children.
    pub fn leaf(rule: Rule, text: String, location: Location) -> (r: SyntaxNode)
        ensures
            r@ == SyntaxTree::leaf(rule, text@, location),
    {
        let r = SyntaxNode { rule, text, location, children: Vec::new() };
        proof {
            r.lemma_children();
        }
        assert(r@.children =~= Seq::empty());
        r
    }

    /// A node without text of its own.
    pub fn branch(rule: Rule, location: Location, children: Vec<SyntaxNode>) -> (r: SyntaxNode)
        ensures
            r@ == SyntaxTree::branch(rule, location, trees_of(children@)),
    {
        let ghost trees = trees_of(children@);
        let r = SyntaxNode { rule, text: String::new(), location, children };
        proof {
            r.lemma_children();
        }
        r
    }

    /// Tells whether the node is a string component: a literal run or an
    /// escape.
    pub fn is_component(&self) -> (r: bool)
        ensures
            r == self@.is_component(),
    {
        match self.rule {
            Rule::CharLiteral
            | Rule::CharEscapeSequence
            | Rule::NulEscapeSequence
            | Rule::HexEscapeSequence
            | Rule::UnicodeEscapeSequence => true,
            _ => false,
        }
    }

    /// Tells whether the node is a string or an identifier made of
    /// components.
    pub fn is_text(&self) -> (r: bool)
        ensures
            r == self@.is_text(),
    {
        proof {
            self.lemma_children();
        }
        if !(self.rule == Rule::String || self.rule == Rule::Identifier) {
            return false;
        }
        let mut i: usize = 0;
        while i < self.children.len()
            invariant
                i <= self.children.len(),
                self@.children.len() == self.children.len(),
                forall|j: int|
                    0 <= j < self.children.len() ==> self@.children[j] == (#[trigger] self.children[j])@,
                forall|j: int| 0 <= j < i ==> (#[trigger] self@.children[j]).is_component(),
            decreases self.children.len() - i,
        {
            if !self.children[i].is_component() {
                assert(!self@.children[i as int].is_component());
                return false;
            }
            i += 1;
        }
        true
    }

    /// Tells whether the node is an object member: a key and a value.
    pub fn is_member(&self) -> (r: bool)
        ensures
            r == self@.is_member(),
        decreases self, 0int,
    {
        proof {
            self.lemma_children();
        }
        self.rule == Rule::Pair && self.children.len() == 2 && self.children[0].is_text()
            && self.children[1].is_value()
    }

    /// Tells whether the node has the shape of a value, which the tree
    /// builder asks of the nodes that it is given.
    pub fn is_value(&self) -> (r: bool)
        ensures
            r == self@.is_value(),
        decreases self, 1int,
    {
        proof {
            self.lemma_children();
        }
        match self.rule {
            Rule::Null | Rule::Boolean | Rule::Number => true,
            Rule::String | Rule::Identifier => self.is_text(),
            Rule::Array => {
                let mut i: usize = 0;
                while i < self.children.len()
                    invariant
                        i <= self.children.len(),
                        self.rule == Rule::Array,
                        self@.children.len() == self.children.len(),
                        forall|j: int|
                            0 <= j < self.children.len() ==> self@.children[j] == (
                            #[trigger] self.children[j])@,
                        forall|j: int| 0 <= j < i ==> (#[trigger] self@.children[j]).is_value(),
                    decreases self.children.len() - i,
                {
                    if !self.children[i].is_value() {
                        assert(!self@.children[i as int].is_value());
                        return false;
                    }
                    i += 1;
                }
                true
            },
            Rule::Object => {
                let mut i: usize = 0;
                while i < self.children.len()
                    invariant
                        i <= self.children.len(),
                        self.rule == Rule::Object,
                        self@.children.len() == self.children.len(),
                        forall|j: int|
                            0 <= j < self.children.len() ==> self@.children[j] == (
                            #[trigger] self.children[j])@,
                        forall|j: int| 0 <= j < i ==> (#[trigger] self@.children[j]).is_member(),
                    decreases self.children.len() - i,
                {
                    if !self.children[i].is_member() {
                        assert(!self@.children[i as int].is_member());
                        return false;
                    }
                    i += 1;
                }
                true
            },
            _ => false,
        }
    }

    /// The tree's children are the trees of the node's children.
    pub proof fn lemma_children(&self)
        ensures
            self@.children == trees_of(self.children@),
            self@.children.len() == self.children.len(),
            forall|i: int| 0 <= i < self.children.len() ==> self@.children[i] == (#[trigger] self.children[i])@,
    {
        assert(self@.children =~= trees_of(self.children@));
    }
}

} // verus!
