//! What holds of reading and writing text: a tree that is written and read
//! again comes back unchanged.

use vstd::prelude::*;
use crate::document::read_spec;
use crate::error::ErrorV;
use crate::lexer::{
    after_tokens, bare_end, imbalance, kinds, scan_quoted, tokens_from, TokenKindV, TokenV,
};
use crate::text::{is_delimiter, is_space, BACKSLASH, CLOSE, OPEN, QUOTE, SPACE};
use crate::tree::{parse_items, parse_node, NodeV};
use crate::writer::{escape_byte, escape_from, needs_quotes, render, render_items, writable};

verus! {

/// The tokens that spell a tree, without their offsets.
pub open spec fn flatten(n: NodeV) -> Seq<TokenKindV>
    decreases n, 0int,
{
    match n {
        NodeV::Atom { text, quoted } => if quoted {
            seq![TokenKindV::Quoted(text)]
        } else {
            seq![TokenKindV::Bare(text)]
        },
        NodeV::List { items } => seq![TokenKindV::Open] + flatten_items(items, 0)
            + seq![TokenKindV::Close],
    }
}

/// The tokens that spell the children `items[i..]` of a list.
pub open spec fn flatten_items(items: Seq<NodeV>, i: int) -> Seq<TokenKindV>
    decreases items, items.len() - i,
{
    if i < 0 || i >= items.len() {
        Seq::empty()
    } else {
        flatten(items[i]) + flatten_items(items, i + 1)
    }
}

/// The bytes of `part` stand in `text` from place `p` on.
pub open spec fn holds_at(text: Seq<u8>, p: int, part: Seq<u8>) -> bool {
    &&& 0 <= p
    &&& p + part.len() <= text.len()
    &&& forall|k: int| 0 <= k < part.len() ==> text[p + k] == #[trigger] part[k]
}

/// The tokens from place `pos` on have the kinds of `part`.
pub open spec fn kinds_at(ts: Seq<TokenV>, pos: int, part: Seq<TokenKindV>) -> bool {
    &&& 0 <= pos
    &&& pos + part.len() <= ts.len()
    &&& forall|k: int| 0 <= k < part.len() ==> ts[pos + k].kind == #[trigger] part[k]
}

proof fn lemma_holds_split(text: Seq<u8>, p: int, a: Seq<u8>, b: Seq<u8>)
    requires
        holds_at(text, p, a + b),
    ensures
        holds_at(text, p, a),
        holds_at(text, p + a.len(), b),
{
    assert forall|k: int| 0 <= k < a.len() implies text[p + k] == #[trigger] a[k] by {
        assert((a + b)[k] == a[k]);
    }
    assert forall|k: int| 0 <= k < b.len() implies text[p + a.len() + k] == #[trigger] b[k] by {
        assert((a + b)[a.len() + k] == b[k]);
    }
}

proof fn lemma_kinds_split(ts: Seq<TokenV>, pos: int, a: Seq<TokenKindV>, b: Seq<TokenKindV>)
    requires
        kinds_at(ts, pos, a + b),
    ensures
        kinds_at(ts, pos, a),
        kinds_at(ts, pos + a.len(), b),
{
    assert forall|k: int| 0 <= k < a.len() implies ts[pos + k].kind == #[trigger] a[k] by {
        assert((a + b)[k] == a[k]);
    }
    assert forall|k: int| 0 <= k < b.len() implies ts[pos + a.len() + k].kind
        == #[trigger] b[k] by {
        assert((a + b)[a.len() + k] == b[k]);
    }
}

/// A run without delimiter, up to a delimiter or the end, is one symbol.
proof fn lemma_bare_run(text: Seq<u8>, q: int, e: int)
    requires
        0 <= q <= e <= text.len(),
        forall|j: int| q <= j < e ==> !is_delimiter(#[trigger] text[j]),
        e == text.len() || is_delimiter(text[e]),
    ensures
        bare_end(text, q) == e,
    decreases e - q,
{
    if q < e {
        lemma_bare_run(text, q + 1, e);
    }
}

/// A bare atom that stands in a text before a delimiter or the end is read
/// as one bare token.
proof fn lemma_lex_bare(text: Seq<u8>, p: int, atom: Seq<u8>)
    requires
        !needs_quotes(atom),
        holds_at(text, p, atom),
        p + atom.len() == text.len() || is_delimiter(text[p + atom.len()]),
    ensures
        tokens_from(text, p) == after_tokens(
            seq![TokenV { kind: TokenKindV::Bare(atom), offset: p }],
            tokens_from(text, p + atom.len()),
        ),
{
    let e = p + atom.len();
    assert forall|j: int| p <= j < e implies !is_delimiter(#[trigger] text[j]) by {
        assert(text[p + (j - p)] == atom[j - p]);
    }
    assert(!is_delimiter(text[p]));
    lemma_bare_run(text, p + 1, e);
    assert(text.subrange(p, e) =~= atom) by {
        assert forall|k: int| 0 <= k < atom.len() implies text.subrange(p, e)[k] == atom[k] by {
            assert(text[p + k] == atom[k]);
        }
    }
}

/// What was escaped, and then stands in a text before a quote, is read back
/// as it was.
proof fn lemma_scan_escaped(text: Seq<u8>, q: int, atom: Seq<u8>, i: int)
    requires
        0 <= i <= atom.len(),
        holds_at(text, q, escape_from(atom, i) + seq![QUOTE]),
        atom.len() == 0 || atom.last() != BACKSLASH,
    ensures
        scan_quoted(text, q) == Some(
            (atom.subrange(i, atom.len() as int), q + escape_from(atom, i).len() + 1),
        ),
    decreases atom.len() - i,
{
    let esc = escape_from(atom, i);
    let whole = esc + seq![QUOTE];
    if i == atom.len() {
        assert(whole[0] == QUOTE);
        assert(text[q + 0] == whole[0]);
        assert(atom.subrange(i, atom.len() as int) =~= Seq::<u8>::empty());
    } else {
        let b = atom[i];
        let head = escape_byte(b);
        let tail = escape_from(atom, i + 1) + seq![QUOTE];
        assert(whole =~= head + tail);
        lemma_holds_split(text, q, head, tail);
        lemma_scan_escaped(text, q + head.len(), atom, i + 1);
        assert(text[q + 0] == head[0]);
        if b == QUOTE {
            assert(text[q + 1] == head[1]);
            assert(seq![QUOTE] + atom.subrange(i + 1, atom.len() as int) =~= atom.subrange(
                i,
                atom.len() as int,
            ));
        } else {
            if b == BACKSLASH {
                assert(text[q + 1 + 0] == tail[0]);
                if i + 1 == atom.len() {
                    assert(atom.last() == b);
                } else {
                    assert(tail[0] == escape_byte(atom[i + 1])[0]);
                }
            }
            assert(seq![b] + atom.subrange(i + 1, atom.len() as int) =~= atom.subrange(
                i,
                atom.len() as int,
            ));
        }
    }
}

/// A quoted atom that stands in a text is read as one quoted token.
proof fn lemma_lex_quoted(text: Seq<u8>, p: int, atom: Seq<u8>)
    requires
        atom.len() == 0 || atom.last() != BACKSLASH,
        holds_at(text, p, seq![QUOTE] + escape_from(atom, 0) + seq![QUOTE]),
    ensures
        tokens_from(text, p) == after_tokens(
            seq![TokenV { kind: TokenKindV::Quoted(atom), offset: p }],
            tokens_from(text, p + escape_from(atom, 0).len() + 2),
        ),
{
    let inner = escape_from(atom, 0) + seq![QUOTE];
    assert(seq![QUOTE] + escape_from(atom, 0) + seq![QUOTE] =~= seq![QUOTE] + inner);
    lemma_holds_split(text, p, seq![QUOTE], inner);
    assert(text[p + 0] == seq![QUOTE][0]);
    lemma_scan_escaped(text, p + 1, atom, 0);
    assert(atom.subrange(0, atom.len() as int) =~= atom);
}

/// The kinds of a token followed by tokens.
proof fn lemma_kinds_after(t: TokenV, rest: Seq<TokenV>)
    ensures
        kinds(seq![t] + rest) == seq![t.kind] + kinds(rest),
{
    assert(kinds(seq![t] + rest) =~= seq![t.kind] + kinds(rest));
}

/// A tree that stands written in a text, before a delimiter or the end, is
/// read as the tokens that spell it.
proof fn lemma_lex_node(text: Seq<u8>, p: int, n: NodeV)
    requires
        writable(n),
        holds_at(text, p, render(n)),
        p + render(n).len() == text.len() || is_delimiter(text[p + render(n).len()]),
        tokens_from(text, p + render(n).len()) is Ok,
    ensures
        tokens_from(text, p) is Ok,
        kinds(tokens_from(text, p)->Ok_0) == flatten(n) + kinds(
            tokens_from(text, p + render(n).len())->Ok_0,
        ),
    decreases n, 0int,
{
    let after = tokens_from(text, p + render(n).len())->Ok_0;
    match n {
        NodeV::Atom { text: atom, quoted } => {
            if quoted {
                lemma_lex_quoted(text, p, atom);
                lemma_kinds_after(TokenV { kind: TokenKindV::Quoted(atom), offset: p }, after);
            } else {
                lemma_lex_bare(text, p, atom);
                lemma_kinds_after(TokenV { kind: TokenKindV::Bare(atom), offset: p }, after);
            }
        },
        NodeV::List { items } => {
            let inner = render_items(items, 0) + seq![CLOSE];
            assert(render(n) =~= seq![OPEN] + inner);
            lemma_holds_split(text, p, seq![OPEN], inner);
            assert(text[p + 0] == seq![OPEN][0]);
            lemma_lex_items(text, p + 1, items, 0);
            let inside = tokens_from(text, p + 1)->Ok_0;
            lemma_kinds_after(TokenV { kind: TokenKindV::Open, offset: p }, inside);
            assert(seq![TokenKindV::Open] + (flatten_items(items, 0) + seq![TokenKindV::Close]
                + kinds(after)) =~= flatten(n) + kinds(after));
        },
    }
}

/// The children of a list that stand written in a text, before the closing
/// parenthesis, are read as the tokens that spell them, and the parenthesis
/// after them.
proof fn lemma_lex_items(text: Seq<u8>, p: int, items: Seq<NodeV>, i: int)
    requires
        forall|j: int| 0 <= j < items.len() ==> writable(#[trigger] items[j]),
        0 <= i <= items.len(),
        holds_at(text, p, render_items(items, i) + seq![CLOSE]),
        tokens_from(text, p + render_items(items, i).len() + 1) is Ok,
    ensures
        tokens_from(text, p) is Ok,
        kinds(tokens_from(text, p)->Ok_0) == flatten_items(items, i) + seq![TokenKindV::Close]
            + kinds(tokens_from(text, p + render_items(items, i).len() + 1)->Ok_0),
    decreases items, items.len() - i,
{
    let whole = render_items(items, i) + seq![CLOSE];
    let after = tokens_from(text, p + render_items(items, i).len() + 1)->Ok_0;
    if i >= items.len() {
        assert(text[p + 0] == whole[0]);
        lemma_kinds_after(TokenV { kind: TokenKindV::Close, offset: p }, after);
        assert(flatten_items(items, i) + seq![TokenKindV::Close] + kinds(after)
            =~= seq![TokenKindV::Close] + kinds(after));
    } else {
        let sep = if i == 0 {
            Seq::<u8>::empty()
        } else {
            seq![SPACE]
        };
        let item = render(items[i]);
        let rest = render_items(items, i + 1) + seq![CLOSE];
        assert(whole =~= sep + (item + rest));
        lemma_holds_split(text, p, sep, item + rest);
        let here = p + sep.len();
        lemma_holds_split(text, here, item, rest);
        let there = here + item.len();
        assert(there + render_items(items, i + 1).len() + 1 == p + render_items(items, i).len() + 1);
        lemma_lex_items(text, there, items, i + 1);
        assert(text[there + 0] == rest[0]);
        assert(is_delimiter(rest[0])) by {
            if i + 1 < items.len() {
                assert(render_items(items, i + 1)[0] == SPACE);
            }
        }
        lemma_lex_node(text, here, items[i]);
        if i > 0 {
            assert(text[p + 0] == sep[0]);
            assert(is_space(text[p]));
        }
        let later = tokens_from(text, there)->Ok_0;
        assert(flatten(items[i]) + (flatten_items(items, i + 1) + seq![TokenKindV::Close] + kinds(
            after,
        )) =~= flatten_items(items, i) + seq![TokenKindV::Close] + kinds(after));
    }
}

/// The tokens that spell a tree start with one that is no closing
/// parenthesis.
proof fn lemma_flatten_starts(n: NodeV)
    ensures
        flatten(n).len() >= 1,
        !(flatten(n)[0] is Close),
{
}

/// Tokens that spell a tree are built into that tree.
proof fn lemma_parse_node_flat(ts: Seq<TokenV>, pos: int, n: NodeV)
    requires
        kinds_at(ts, pos, flatten(n)),
    ensures
        parse_node(ts, pos) == Ok::<(NodeV, int), int>((n, pos + flatten(n).len())),
    decreases n, 0int,
{
    match n {
        NodeV::Atom { text, quoted } => {
            assert(ts[pos + 0].kind == flatten(n)[0]);
        },
        NodeV::List { items } => {
            let inner = flatten_items(items, 0) + seq![TokenKindV::Close];
            assert(flatten(n) =~= seq![TokenKindV::Open] + inner);
            lemma_kinds_split(ts, pos, seq![TokenKindV::Open], inner);
            assert(ts[pos + 0].kind == seq![TokenKindV::Open][0]);
            lemma_parse_items_flat(ts, pos + 1, items, 0, ts[pos].offset);
            assert(items.subrange(0, items.len() as int) =~= items);
        },
    }
}

/// Tokens that spell the children of a list, and then close it, are built
/// into those children.
proof fn lemma_parse_items_flat(
    ts: Seq<TokenV>,
    pos: int,
    items: Seq<NodeV>,
    i: int,
    opened: int,
)
    requires
        0 <= i <= items.len(),
        kinds_at(ts, pos, flatten_items(items, i) + seq![TokenKindV::Close]),
    ensures
        parse_items(ts, pos, opened) == Ok::<(Seq<NodeV>, int), int>(
            (items.subrange(i, items.len() as int), pos + flatten_items(items, i).len() + 1),
        ),
    decreases items, items.len() - i,
{
    let whole = flatten_items(items, i) + seq![TokenKindV::Close];
    if i >= items.len() {
        assert(ts[pos + 0].kind == whole[0]);
        assert(items.subrange(i, items.len() as int) =~= Seq::<NodeV>::empty());
    } else {
        let item = flatten(items[i]);
        let rest = flatten_items(items, i + 1) + seq![TokenKindV::Close];
        assert(whole =~= item + rest);
        lemma_kinds_split(ts, pos, item, rest);
        lemma_flatten_starts(items[i]);
        assert(ts[pos + 0].kind == item[0]);
        lemma_parse_node_flat(ts, pos, items[i]);
        lemma_parse_items_flat(ts, pos + item.len(), items, i + 1, opened);
        assert(seq![items[i]] + items.subrange(i + 1, items.len() as int) =~= items.subrange(
            i,
            items.len() as int,
        ));
    }
}

/// The tokens that spell a tree leave as many lists open as they found.
proof fn lemma_imbalance_flat(ts: Seq<TokenV>, pos: int, n: NodeV, depth: int, end: int)
    requires
        0 <= depth,
        kinds_at(ts, pos, flatten(n)),
    ensures
        imbalance(ts, pos, depth, end) == imbalance(ts, pos + flatten(n).len(), depth, end),
    decreases n, 0int,
{
    match n {
        NodeV::Atom { text, quoted } => {
            assert(ts[pos + 0].kind == flatten(n)[0]);
        },
        NodeV::List { items } => {
            let inner = flatten_items(items, 0) + seq![TokenKindV::Close];
            assert(flatten(n) =~= seq![TokenKindV::Open] + inner);
            lemma_kinds_split(ts, pos, seq![TokenKindV::Open], inner);
            assert(ts[pos + 0].kind == seq![TokenKindV::Open][0]);
            lemma_imbalance_items(ts, pos + 1, items, 0, depth + 1, end);
        },
    }
}

/// The tokens that spell the children of a list, and then close it, leave
/// one list fewer open.
proof fn lemma_imbalance_items(
    ts: Seq<TokenV>,
    pos: int,
    items: Seq<NodeV>,
    i: int,
    depth: int,
    end: int,
)
    requires
        1 <= depth,
        0 <= i <= items.len(),
        kinds_at(ts, pos, flatten_items(items, i) + seq![TokenKindV::Close]),
    ensures
        imbalance(ts, pos, depth, end) == imbalance(
            ts,
            pos + flatten_items(items, i).len() + 1,
            depth - 1,
            end,
        ),
    decreases items, items.len() - i,
{
    let whole = flatten_items(items, i) + seq![TokenKindV::Close];
    if i >= items.len() {
        assert(ts[pos + 0].kind == whole[0]);
    } else {
        let item = flatten(items[i]);
        let rest = flatten_items(items, i + 1) + seq![TokenKindV::Close];
        assert(whole =~= item + rest);
        lemma_kinds_split(ts, pos, item, rest);
        lemma_imbalance_flat(ts, pos, items[i], depth, end);
        lemma_imbalance_items(ts, pos + item.len(), items, i + 1, depth, end);
    }
}

/// **Round trip of text.** A writable tree that is written as text and read
/// again comes back unchanged.
pub proof fn lemma_text_round_trip(n: NodeV)
    requires
        writable(n),
    ensures
        read_spec(render(n)) == Ok::<NodeV, ErrorV>(n),
{
    let text = render(n);
    assert(holds_at(text, 0, text));
    lemma_lex_node(text, 0, n);
    let ts = tokens_from(text, 0)->Ok_0;
    assert(kinds(ts) =~= flatten(n));
    assert(kinds_at(ts, 0, flatten(n))) by {
        assert forall|k: int| 0 <= k < flatten(n).len() implies ts[0 + k].kind
            == #[trigger] flatten(n)[k] by {
            assert(kinds(ts)[k] == ts[k].kind);
        }
    }
    lemma_imbalance_flat(ts, 0, n, 0, text.len() as int);
    lemma_parse_node_flat(ts, 0, n);
}

} // verus!
