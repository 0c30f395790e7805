//! What holds of reading valid UTF-8: every atom that is read out of a text
//! in valid UTF-8 holds valid UTF-8 itself.

use vstd::prelude::*;
use vstd::utf8::{
    is_char_boundary_iff_not_is_continuation_byte, is_char_boundary_start_end_of_seq,
    is_continuation_byte, length_of_first_scalar, pop_first_scalar, valid_first_scalar, valid_utf8,
    valid_utf8_concat, valid_utf8_split,
};
use crate::document::read_spec;
use crate::lexer::{
    bare_end, lemma_bare_end, lemma_scan_quoted_end, lex_spec, scan_quoted, tokens_from,
    TokenKindV, TokenV,
};
use crate::text::{is_space, BACKSLASH, CLOSE, OPEN, QUOTE};
use crate::tree::{parse_items, parse_node};
use crate::utf8_laws::{is_ascii_bytes, lemma_ascii_valid, node_utf8, nodes_utf8};

verus! {

/// A place at which a character starts, or the end of the text: the byte
/// there is no continuation byte.
pub open spec fn starts_char(text: Seq<u8>, p: int) -> bool {
    0 <= p <= text.len() && (p < text.len() ==> !is_continuation_byte(text[p]))
}

/// The text of the token, where it has one, is valid UTF-8.
pub open spec fn token_utf8(t: TokenV) -> bool {
    match t.kind {
        TokenKindV::Bare(text) => valid_utf8(text),
        TokenKindV::Quoted(text) => valid_utf8(text),
        _ => true,
    }
}

/// The text of every token is valid UTF-8.
pub open spec fn tokens_utf8(ts: Seq<TokenV>) -> bool {
    forall|i: int| 0 <= i < ts.len() ==> token_utf8(#[trigger] ts[i])
}

/// What the quoted string read from place `q` stands for.
pub open spec fn scanned_text(text: Seq<u8>, q: int) -> Seq<u8> {
    match scan_quoted(text, q) {
        Some((content, end)) => content,
        None => Seq::empty(),
    }
}

/// The place after the closing quote of the quoted string read from `q`.
pub open spec fn scanned_end(text: Seq<u8>, q: int) -> int {
    match scan_quoted(text, q) {
        Some((content, end)) => end,
        None => q,
    }
}

/// Valid UTF-8 cut at two places at which characters start is valid UTF-8.
pub proof fn lemma_cut_valid(text: Seq<u8>, a: int, b: int)
    requires
        valid_utf8(text),
        a <= b,
        starts_char(text, a),
        starts_char(text, b),
    ensures
        valid_utf8(text.subrange(a, b)),
{
    is_char_boundary_start_end_of_seq(text);
    if a < text.len() {
        is_char_boundary_iff_not_is_continuation_byte(text, a);
    }
    valid_utf8_split(text, a);
    let suffix = text.subrange(a, text.len() as int);
    is_char_boundary_start_end_of_seq(suffix);
    if b < text.len() {
        assert(suffix[b - a] == text[b]);
        is_char_boundary_iff_not_is_continuation_byte(suffix, b - a);
    }
    valid_utf8_split(suffix, b - a);
    assert(suffix.subrange(0, b - a) =~= text.subrange(a, b));
}

/// Valid UTF-8 that is not empty starts with the start of a character.
proof fn lemma_first_byte(s: Seq<u8>)
    requires
        valid_utf8(s),
        s.len() > 0,
    ensures
        !is_continuation_byte(s[0]),
{
    assert(valid_first_scalar(s));
}

/// After the whole of the character that starts at a place, a character
/// starts, or the text ends.
proof fn lemma_next_char(text: Seq<u8>, p: int)
    requires
        valid_utf8(text),
        starts_char(text, p),
        p < text.len(),
    ensures
        ({
            let k = length_of_first_scalar(text.subrange(p, text.len() as int));
            &&& 1 <= k <= 4
            &&& starts_char(text, p + k)
            &&& valid_first_scalar(text.subrange(p, text.len() as int))
            &&& text[p] <= 0x7f ==> k == 1
            &&& text[p] > 0x7f ==> k >= 2 && forall|j: int|
                p <= j < p + k ==> #[trigger] text[j] >= 0x80
        }),
{
    lemma_cut_valid(text, p, text.len() as int);
    let suffix = text.subrange(p, text.len() as int);
    assert(valid_first_scalar(suffix));
    let k = length_of_first_scalar(suffix);
    let rest = pop_first_scalar(suffix);
    assert(valid_utf8(rest));
    assert(suffix[0] == text[p]);
    if p + k < text.len() {
        lemma_first_byte(rest);
        assert(rest[0] == text[p + k]);
    }
    if text[p] > 0x7f {
        assert forall|j: int| p <= j < p + k implies #[trigger] text[j] >= 0x80 by {
            assert(suffix[j - p] == text[j]);
        }
    }
}

/// What a quoted string in valid UTF-8 stands for is valid UTF-8, and a
/// character starts after its closing quote, or the text ends there.
proof fn lemma_scan_valid(text: Seq<u8>, q: int)
    requires
        valid_utf8(text),
        starts_char(text, q),
        scan_quoted(text, q) is Some,
    ensures
        valid_utf8(scanned_text(text, q)),
        starts_char(text, scanned_end(text, q)),
    decreases text.len() - q,
{
    if q < text.len() {
        lemma_next_char(text, q);
        let b = text[q];
        let k = length_of_first_scalar(text.subrange(q, text.len() as int));
        let content = scanned_text(text, q);
        if b == QUOTE {
            assert(content.len() == 0);
        } else if b == BACKSLASH && q + 1 < text.len() && text[q + 1] == QUOTE {
            lemma_next_char(text, q + 1);
            lemma_scan_valid(text, q + 2);
            let rest = scanned_text(text, q + 2);
            assert(is_ascii_bytes(seq![QUOTE]));
            lemma_ascii_valid(seq![QUOTE]);
            valid_utf8_concat(seq![QUOTE], rest);
        } else if b <= 0x7f {
            lemma_scan_valid(text, q + 1);
            let rest = scanned_text(text, q + 1);
            assert(is_ascii_bytes(seq![b]));
            lemma_ascii_valid(seq![b]);
            valid_utf8_concat(seq![b], rest);
        } else {
            reveal_with_fuel(scan_quoted, 5);
            let suffix = text.subrange(q, text.len() as int);
            assert(text[q] >= 0x80);
            assert(k >= 2 ==> text[q + 1] >= 0x80);
            assert(k >= 3 ==> text[q + 2] >= 0x80);
            assert(k >= 4 ==> text[q + 3] >= 0x80);
            lemma_scan_quoted_end(text, q);
            assert(scan_quoted(text, q + k) is Some);
            lemma_scan_valid(text, q + k);
            let rest = scanned_text(text, q + k);
            assert(content =~= text.subrange(q, q + k) + rest);
            assert(content[0] == suffix[0]);
            assert(k >= 2 ==> content[1] == suffix[1]);
            assert(k >= 3 ==> content[2] == suffix[2]);
            assert(k >= 4 ==> content[3] == suffix[3]);
            assert(valid_first_scalar(content));
            assert(pop_first_scalar(content) =~= rest);
        }
    }
}

/// The tokens of a text in valid UTF-8, from a place at which a character
/// starts, hold valid UTF-8.
proof fn lemma_tokens_utf8(text: Seq<u8>, pos: int)
    requires
        valid_utf8(text),
        starts_char(text, pos),
        tokens_from(text, pos) is Ok,
    ensures
        tokens_utf8(tokens_from(text, pos)->Ok_0),
    decreases text.len() - pos,
{
    if pos < text.len() {
        lemma_next_char(text, pos);
        let b = text[pos];
        let ts = tokens_from(text, pos)->Ok_0;
        if is_space(b) {
            lemma_tokens_utf8(text, pos + 1);
        } else if b == OPEN || b == CLOSE {
            lemma_tokens_utf8(text, pos + 1);
            let rest = tokens_from(text, pos + 1)->Ok_0;
            assert forall|i: int| 0 <= i < ts.len() implies token_utf8(#[trigger] ts[i]) by {
                if i > 0 {
                    assert(ts[i] == rest[i - 1]);
                }
            }
        } else if b == QUOTE {
            lemma_scan_quoted_end(text, pos + 1);
            lemma_scan_valid(text, pos + 1);
            let end = scanned_end(text, pos + 1);
            lemma_tokens_utf8(text, end);
            let rest = tokens_from(text, end)->Ok_0;
            assert forall|i: int| 0 <= i < ts.len() implies token_utf8(#[trigger] ts[i]) by {
                if i > 0 {
                    assert(ts[i] == rest[i - 1]);
                }
            }
        } else {
            lemma_bare_end(text, pos + 1);
            let end = bare_end(text, pos + 1);
            assert(starts_char(text, end));
            lemma_cut_valid(text, pos, end);
            lemma_tokens_utf8(text, end);
            let rest = tokens_from(text, end)->Ok_0;
            assert forall|i: int| 0 <= i < ts.len() implies token_utf8(#[trigger] ts[i]) by {
                if i > 0 {
                    assert(ts[i] == rest[i - 1]);
                }
            }
        }
    }
}

/// The node that is built from tokens in valid UTF-8 holds valid UTF-8.
proof fn lemma_parse_node_utf8(ts: Seq<TokenV>, pos: int)
    requires
        0 <= pos,
        tokens_utf8(ts),
        parse_node(ts, pos) is Ok,
    ensures
        node_utf8(parse_node(ts, pos)->Ok_0.0),
    decreases ts.len() - pos, 0int,
{
    if pos < ts.len() {
        assert(token_utf8(ts[pos]));
        if ts[pos].kind is Open {
            lemma_parse_items_utf8(ts, pos + 1, ts[pos].offset);
        }
    }
}

/// The nodes that are built from tokens in valid UTF-8 hold valid UTF-8.
proof fn lemma_parse_items_utf8(ts: Seq<TokenV>, pos: int, opened: int)
    requires
        0 <= pos,
        tokens_utf8(ts),
        parse_items(ts, pos, opened) is Ok,
    ensures
        nodes_utf8(parse_items(ts, pos, opened)->Ok_0.0),
    decreases ts.len() - pos, 1int,
{
    if pos < ts.len() && !(ts[pos].kind is Close) {
        lemma_parse_node_utf8(ts, pos);
        let (node, next) = parse_node(ts, pos)->Ok_0;
        lemma_parse_items_utf8(ts, next, opened);
        let rest = parse_items(ts, next, opened)->Ok_0.0;
        let all = parse_items(ts, pos, opened)->Ok_0.0;
        assert forall|i: int| 0 <= i < all.len() implies node_utf8(#[trigger] all[i]) by {
            if i > 0 {
                assert(all[i] == rest[i - 1]);
            }
        }
    }
}

/// **Reading keeps to UTF-8.** The tree that is read out of a text in valid
/// UTF-8 holds valid UTF-8 in every atom.
pub proof fn lemma_read_utf8(text: Seq<u8>)
    requires
        valid_utf8(text),
        read_spec(text) is Ok,
    ensures
        node_utf8(read_spec(text)->Ok_0),
{
    if text.len() > 0 {
        lemma_first_byte(text);
    }
    lemma_tokens_utf8(text, 0);
    let ts = lex_spec(text)->Ok_0;
    lemma_parse_node_utf8(ts, 0);
}

} // verus!
