//! The generic tree: one S-expression node, with no knowledge of what it means.

use vstd::prelude::*;
use crate::error::{CodecError, ErrorV};
use crate::lexer::{Token, TokenKind, TokenKindV, TokenV, tokens_view};
use crate::text::copy_bytes;

verus! {

/// An indivisible token: the text it stands for, and whether it was written
/// between double quotes.
#[derive(Clone, Debug, PartialEq, Eq)]
pub struct Atom {
    pub text: Vec<u8>,
    pub quoted: bool,
}

/// What an atom is by its looks: a string where it was written between
/// quotes, else a number where its text has the shape of one, else a symbol.
#[derive(Clone, Copy, Debug, PartialEq, Eq, Structural)]
pub enum AtomClass {
    Symbol,
    Quoted,
    Number,
}

/// The class of an atom with the given text and quoting.
pub open spec fn class_of(text: Seq<u8>, quoted: bool) -> AtomClass {
    if quoted {
        AtomClass::Quoted
    } else if crate::number::is_number(text) {
        AtomClass::Number
    } else {
        AtomClass::Symbol
    }
}

impl Atom {
    /// The class of this atom.
    pub fn class(&self) -> (c: AtomClass)
        ensures
            c == class_of(self.text@, self.quoted),
    {
        if self.quoted {
            AtomClass::Quoted
        } else if crate::number::looks_like_number(self.text.as_slice()) {
            AtomClass::Number
        } else {
            AtomClass::Symbol
        }
    }
}

/// One node of a document: an atom, or a parenthesised list of nodes.
#[derive(Debug, PartialEq, Eq)]
pub enum Node {
    Atom(Atom),
    List(Vec<Node>),
}

/// The mathematical value of a [`Node`].
pub enum NodeV {
    Atom { text: Seq<u8>, quoted: bool },
    List { items: Seq<NodeV> },
}

/// The value of a node: its text and quoting, or the values of its children.
pub open spec fn node_view(n: Node) -> NodeV
    decreases n,
{
    match n {
        Node::Atom(a) => NodeV::Atom { text: a.text@, quoted: a.quoted },
        Node::List(items) => NodeV::List {
            items: Seq::new(
                items.len() as nat,
                |i: int|
                    if 0 <= i < items.len() {
                        node_view(items[i])
                    } else {
                        arbitrary()
                    },
            ),
        },
    }
}

impl View for Node {
    type V = NodeV;

    open spec fn view(&self) -> NodeV {
        node_view(*self)
    }
}

/// The values of a run of nodes, in order.
pub open spec fn nodes_view(items: Seq<Node>) -> Seq<NodeV> {
    items.map_values(|n: Node| n@)
}

/// A list's value is the list of its children's values.
pub proof fn lemma_list_view(items: Vec<Node>)
    ensures
        Node::List(items)@ == (NodeV::List { items: nodes_view(items@) }),
{
    let vs = Node::List(items)@->items;
    assert(vs.len() == items@.len());
    assert forall|i: int| 0 <= i < vs.len() implies vs[i] == nodes_view(items@)[i] by {
        assert(vs[i] == items[i]@);
    }
    assert(vs =~= nodes_view(items@));
}

impl Node {
    /// A list node that owns the given children.
    pub fn list(items: Vec<Node>) -> (n: Node)
        ensures
            n@ == (NodeV::List { items: nodes_view(items@) }),
    {
        proof {
            lemma_list_view(items);
        }
        Node::List(items)
    }
}

} // verus!

verus! {

/// Puts `head` in front of the nodes that a parse returned.
pub open spec fn after_nodes(head: Seq<NodeV>, parsed: Result<(Seq<NodeV>, int), int>) -> Result<
    (Seq<NodeV>, int),
    int,
> {
    match parsed {
        Ok((rest, next)) => Ok((head + rest, next)),
        Err(at) => Err(at),
    }
}

/// The node that starts at token `pos`, and the place of the token after it;
/// or the offset at which the parentheses do not match.
pub open spec fn parse_node(ts: Seq<TokenV>, pos: int) -> Result<(NodeV, int), int>
    decreases ts.len() - pos, 0int,
{
    if pos < 0 || pos >= ts.len() {
        Err(0)
    } else {
        match ts[pos].kind {
            TokenKindV::Open => match parse_items(ts, pos + 1, ts[pos].offset) {
                Ok((items, next)) => Ok((NodeV::List { items }, next)),
                Err(at) => Err(at),
            },
            TokenKindV::Close => Err(ts[pos].offset),
            TokenKindV::Bare(text) => Ok((NodeV::Atom { text, quoted: false }, pos + 1)),
            TokenKindV::Quoted(text) => Ok((NodeV::Atom { text, quoted: true }, pos + 1)),
        }
    }
}

/// The nodes from token `pos` up to the `)` that closes the list opened at
/// byte `opened`, and the place of the token after that `)`.
pub open spec fn parse_items(ts: Seq<TokenV>, pos: int, opened: int) -> Result<
    (Seq<NodeV>, int),
    int,
>
    decreases ts.len() - pos, 1int,
{
    if pos < 0 || pos >= ts.len() {
        Err(opened)
    } else if ts[pos].kind is Close {
        Ok((Seq::empty(), pos + 1))
    } else {
        match parse_node(ts, pos) {
            Ok((node, next)) => if pos < next <= ts.len() {
                after_nodes(seq![node], parse_items(ts, next, opened))
            } else {
                Err(opened)
            },
            Err(at) => Err(at),
        }
    }
}

/// What building a tree from tokens gives: the one node that the tokens
/// spell, or where they fail to spell exactly one.
///
/// No tokens at all fail at offset 0, a `)` that closes nothing fails at that
/// `)`, a list left open fails at its `(`, and tokens after the first node
/// fail at the first of them.
pub open spec fn parse_spec(ts: Seq<TokenV>) -> Result<NodeV, ErrorV> {
    match parse_node(ts, 0) {
        Err(at) => Err(ErrorV::SyntaxError { offset: at }),
        Ok((node, next)) => if 0 <= next < ts.len() {
            Err(ErrorV::SyntaxError { offset: ts[next].offset })
        } else {
            Ok(node)
        },
    }
}

/// Builds the node that starts at token `pos`.
fn parse_at(tokens: &Vec<Token>, pos: usize) -> (r: Result<(Node, usize), usize>)
    requires
        pos <= tokens@.len(),
    ensures
        match r {
            Ok((node, next)) => parse_node(tokens_view(tokens@), pos as int) == Ok::<
                (NodeV, int),
                int,
            >((node@, next as int)) && pos < next <= tokens@.len(),
            Err(at) => parse_node(tokens_view(tokens@), pos as int) == Err::<(NodeV, int), int>(
                at as int,
            ),
        },
    decreases tokens@.len() - pos,
{
    let ghost ts = tokens_view(tokens@);
    if pos >= tokens.len() {
        return Err(0);
    }
    assert(ts[pos as int] == tokens@[pos as int]@);
    match &tokens[pos].kind {
        TokenKind::Close => Err(tokens[pos].offset),
        TokenKind::Bare(text) => Ok(
            (Node::Atom(Atom { text: copy_bytes(text.as_slice()), quoted: false }), pos + 1),
        ),
        TokenKind::Quoted(text) => Ok(
            (Node::Atom(Atom { text: copy_bytes(text.as_slice()), quoted: true }), pos + 1),
        ),
        TokenKind::Open => {
            let opened: usize = tokens[pos].offset;
            let mut items: Vec<Node> = Vec::new();
            let mut at: usize = pos + 1;
            assert(nodes_view(items@) =~= Seq::empty());
            assert(Seq::<NodeV>::empty() + Seq::<NodeV>::empty() =~= Seq::<NodeV>::empty());
            loop
                invariant
                    ts == tokens_view(tokens@),
                    pos < at <= tokens@.len(),
                    ts[pos as int].kind is Open,
                    ts[pos as int].offset == opened,
                    parse_items(ts, pos + 1, opened as int) == after_nodes(
                        nodes_view(items@),
                        parse_items(ts, at as int, opened as int),
                    ),
                decreases tokens@.len() - at,
            {
                if at >= tokens.len() {
                    return Err(opened);
                }
                assert(ts[at as int] == tokens@[at as int]@);
                if matches!(tokens[at].kind, TokenKind::Close) {
                    assert(nodes_view(items@) + Seq::<NodeV>::empty() =~= nodes_view(items@));
                    return Ok((Node::list(items), at + 1));
                }
                let ghost before = nodes_view(items@);
                match parse_at(tokens, at) {
                    Err(e) => {
                        return Err(e);
                    },
                    Ok((node, next)) => {
                        items.push(node);
                        at = next;
                        proof {
                            let n = items@[items@.len() - 1]@;
                            assert(nodes_view(items@) =~= before.push(n));
                            if let Ok((rest, after)) = parse_items(ts, at as int, opened as int) {
                                assert(before + (seq![n] + rest) =~= before.push(n) + rest);
                            }
                        }
                    },
                }
            }
        },
    }
}

/// Builds the tree that a run of tokens spells.
///
/// Each `(` .. `)` group becomes a list, each other token an atom; nothing is
/// asked of what the atoms say. The tokens must spell exactly one node.
pub fn parse(tokens: &Vec<Token>) -> (r: Result<Node, CodecError>)
    ensures
        match r {
            Ok(node) => parse_spec(tokens_view(tokens@)) == Ok::<NodeV, ErrorV>(node@),
            Err(e) => parse_spec(tokens_view(tokens@)) == Err::<NodeV, ErrorV>(e@),
        },
{
    match parse_at(tokens, 0) {
        Err(at) => Err(CodecError::SyntaxError { offset: at }),
        Ok((node, next)) => {
            if next < tokens.len() {
                assert(tokens_view(tokens@)[next as int] == tokens@[next as int]@);
                Err(CodecError::SyntaxError { offset: tokens[next].offset })
            } else {
                Ok(node)
            }
        },
    }
}

} // verus!
