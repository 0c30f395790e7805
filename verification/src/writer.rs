//! The atom writer: from a tree back to text.
//!
//! The children of a list are written with one blank between neighbours. An
//! atom is written between double quotes where it was read so, where it is
//! empty, or where it holds white space, a parenthesis or a quote; inside the
//! quotes each `"` is written `\"`, and nothing else is changed.

use vstd::prelude::*;
use crate::text::{is_delimiter, delimiter, append_bytes, OPEN, CLOSE, QUOTE, BACKSLASH, SPACE};
use crate::tree::{Atom, Node, NodeV, nodes_view, lemma_list_view};

verus! {

/// Whether a text can only be written between quotes.
pub open spec fn needs_quotes(text: Seq<u8>) -> bool {
    text.len() == 0 || exists|i: int| 0 <= i < text.len() && is_delimiter(#[trigger] text[i])
}

/// How one byte is written inside quotes.
pub open spec fn escape_byte(b: u8) -> Seq<u8> {
    if b == QUOTE {
        seq![BACKSLASH, QUOTE]
    } else {
        seq![b]
    }
}

/// How the bytes `text[i..]` are written inside quotes.
pub open spec fn escape_from(text: Seq<u8>, i: int) -> Seq<u8>
    decreases text.len() - i,
{
    if i < 0 || i >= text.len() {
        Seq::empty()
    } else {
        escape_byte(text[i]) + escape_from(text, i + 1)
    }
}

/// The text of an atom.
pub open spec fn render_atom(text: Seq<u8>, quoted: bool) -> Seq<u8> {
    if quoted || needs_quotes(text) {
        seq![QUOTE] + escape_from(text, 0) + seq![QUOTE]
    } else {
        text
    }
}

/// The text of a node.
pub open spec fn render(n: NodeV) -> Seq<u8>
    decreases n, 0int,
{
    match n {
        NodeV::Atom { text, quoted } => render_atom(text, quoted),
        NodeV::List { items } => seq![OPEN] + render_items(items, 0) + seq![CLOSE],
    }
}

/// The text of the children `items[i..]` of a list: each but the very first
/// child of the list after one blank.
pub open spec fn render_items(items: Seq<NodeV>, i: int) -> Seq<u8>
    decreases items, items.len() - i,
{
    if i < 0 || i >= items.len() {
        Seq::empty()
    } else if i == 0 {
        render(items[i]) + render_items(items, i + 1)
    } else {
        seq![SPACE] + render(items[i]) + render_items(items, i + 1)
    }
}

/// A text that can stand between quotes: it does not end with a backslash,
/// which would escape the closing quote.
pub open spec fn ends_well(text: Seq<u8>) -> bool {
    text.len() == 0 || text.last() != BACKSLASH
}

/// A tree that reads back as itself: a bare atom holds at least one byte and
/// no white space, parenthesis or quote, and no quoted atom ends with a
/// backslash, which would escape the closing quote.
pub open spec fn writable(n: NodeV) -> bool
    decreases n,
{
    match n {
        NodeV::Atom { text, quoted } => if quoted {
            ends_well(text)
        } else {
            !needs_quotes(text)
        },
        NodeV::List { items } => forall|i: int|
            0 <= i < items.len() ==> writable(#[trigger] items[i]),
    }
}

/// Whether a text can only be written between quotes.
pub fn must_quote(text: &[u8]) -> (r: bool)
    ensures
        r == needs_quotes(text@),
{
    let mut i: usize = 0;
    while i < text.len()
        invariant
            i <= text@.len(),
            forall|k: int| 0 <= k < i ==> !is_delimiter(#[trigger] text@[k]),
        decreases text@.len() - i,
    {
        if delimiter(text[i]) {
            return true;
        }
        i += 1;
    }
    text.len() == 0
}

/// Appends the text of an atom to `out`.
pub fn write_atom(out: &mut Vec<u8>, atom: &Atom)
    ensures
        final(out)@ == old(out)@ + render_atom(atom.text@, atom.quoted),
{
    let text = atom.text.as_slice();
    if atom.quoted || must_quote(text) {
        out.push(QUOTE);
        let ghost opened = out@;
        let mut i: usize = 0;
        while i < text.len()
            invariant
                i <= text@.len(),
                out@ + escape_from(text@, i as int) == opened + escape_from(text@, 0),
            decreases text@.len() - i,
        {
            let ghost before = out@;
            let b: u8 = text[i];
            if b == QUOTE {
                out.push(BACKSLASH);
            }
            out.push(b);
            i += 1;
            assert(out@ + escape_from(text@, i as int) =~= before + (escape_byte(b)
                + escape_from(text@, i as int)));
        }
        assert(out@ + Seq::<u8>::empty() =~= out@);
        out.push(QUOTE);
        assert(out@ =~= old(out)@ + (seq![QUOTE] + escape_from(text@, 0) + seq![QUOTE]));
    } else {
        append_bytes(out, text);
    }
}

/// Appends the text of a node to `out`.
pub fn write_node(out: &mut Vec<u8>, node: &Node)
    ensures
        final(out)@ == old(out)@ + render(node@),
    decreases node,
{
    match node {
        Node::Atom(atom) => {
            write_atom(out, atom);
        },
        Node::List(items) => {
            proof {
                lemma_list_view(*items);
            }
            let ghost vs = nodes_view(items@);
            out.push(OPEN);
            let ghost opened = out@;
            let mut i: usize = 0;
            while i < items.len()
                invariant
                    i <= items@.len(),
                    *node == Node::List(*items),
                    vs == nodes_view(items@),
                    out@ + render_items(vs, i as int) == opened + render_items(vs, 0),
                decreases items@.len() - i,
            {
                let ghost before = out@;
                if i > 0 {
                    out.push(SPACE);
                }
                proof {
                    vstd::std_specs::vec::axiom_vec_index_decreases(*items, i as int);
                    assert(decreases_to!(*node => node->List_0));
                }
                write_node(out, &items[i]);
                assert(vs[i as int] == items@[i as int]@);
                i += 1;
                assert(out@ + render_items(vs, i as int) =~= before + render_items(vs, i - 1));
            }
            assert(out@ + Seq::<u8>::empty() =~= out@);
            out.push(CLOSE);
            assert(out@ =~= old(out)@ + (seq![OPEN] + render_items(vs, 0) + seq![CLOSE]));
        },
    }
}

/// The text of a node.
pub fn render_node(node: &Node) -> (text: Vec<u8>)
    ensures
        text@ == render(node@),
{
    let mut out: Vec<u8> = Vec::new();
    write_node(&mut out, node);
    assert(Seq::<u8>::empty() + render(node@) =~= render(node@));
    out
}

/// Every child of a writable list is writable.
pub proof fn lemma_writable_child(items: Seq<NodeV>, i: int)
    requires
        0 <= i < items.len(),
        writable(NodeV::List { items }),
    ensures
        writable(items[i]),
{
    let n = NodeV::List { items };
    assert(n->items == items);
    assert(writable(n->items[i]));
}

/// Whether a tree reads back as itself after it is written.
pub fn is_writable(node: &Node) -> (r: bool)
    ensures
        r == writable(node@),
    decreases node,
{
    match node {
        Node::Atom(atom) => {
            if atom.quoted {
                atom.text.len() == 0 || atom.text[atom.text.len() - 1] != BACKSLASH
            } else {
                !must_quote(atom.text.as_slice())
            }
        },
        Node::List(items) => {
            proof {
                lemma_list_view(*items);
            }
            let ghost vs = nodes_view(items@);
            let mut i: usize = 0;
            while i < items.len()
                invariant
                    i <= items@.len(),
                    *node == Node::List(*items),
                    node@ == (NodeV::List { items: vs }),
                    vs == nodes_view(items@),
                    forall|k: int| 0 <= k < i ==> writable(#[trigger] vs[k]),
                decreases items@.len() - i,
            {
                proof {
                    assert(decreases_to!(*node => node->List_0));
                    vstd::std_specs::vec::axiom_vec_index_decreases(*items, i as int);
                }
                assert(vs[i as int] == items@[i as int]@);
                if !is_writable(&items[i]) {
                    proof {
                        if writable(NodeV::List { items: vs }) {
                            lemma_writable_child(vs, i as int);
                        }
                    }
                    return false;
                }
                i += 1;
            }
            true
        },
    }
}

} // verus!
