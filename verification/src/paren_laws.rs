//! What holds of one parenthesis more or less: of a text and the same text
//! with one `(` or `)` put in outside its quoted strings, at most one lexes.

use vstd::prelude::*;
use crate::binding::{from_text_spec, Record};
use crate::lexer::{
    bare_end, depth_step, lemma_bare_end, lemma_matched_net_depth, lemma_scan_quoted_end, lex_spec,
    net_depth, scan_quoted, tokens_from, TokenKindV, TokenV,
};
use crate::text::{is_delimiter, is_space, BACKSLASH, CLOSE, OPEN, QUOTE};

verus! {

/// What a byte outside strings adds to the number of open lists.
pub open spec fn byte_step(b: u8) -> int {
    if b == OPEN {
        1
    } else if b == CLOSE {
        -1
    } else {
        0
    }
}

/// A count with `k` added, where there is a count.
pub open spec fn shifted(k: int, count: Option<int>) -> Option<int> {
    match count {
        Some(n) => Some(n + k),
        None => None,
    }
}

/// How many `(` the text holds from `pos` on outside its quoted strings,
/// less how many `)`. `None` where a quoted string is not closed.
pub open spec fn net_from(text: Seq<u8>, pos: int) -> Option<int>
    decreases text.len() - pos,
{
    if pos < 0 || pos >= text.len() {
        Some(0)
    } else if text[pos] == QUOTE {
        match scan_quoted(text, pos + 1) {
            Some((content, end)) => if pos < end <= text.len() {
                net_from(text, end)
            } else {
                None
            },
            None => None,
        }
    } else {
        shifted(byte_step(text[pos]), net_from(text, pos + 1))
    }
}

/// Whether the place `p` lies outside the quoted strings of the text, read
/// from `pos` on: not after an opening quote and before or at its closing
/// quote.
pub open spec fn outside_strings(text: Seq<u8>, pos: int, p: int) -> bool
    decreases text.len() - pos,
{
    if pos == p {
        true
    } else if pos < 0 || pos > p || pos >= text.len() {
        false
    } else if text[pos] == QUOTE {
        match scan_quoted(text, pos + 1) {
            Some((content, end)) => if pos < end <= p && end <= text.len() {
                outside_strings(text, end, p)
            } else {
                false
            },
            None => false,
        }
    } else {
        outside_strings(text, pos + 1, p)
    }
}

/// The net depth of tokens after a first is that of the tokens without it.
proof fn lemma_net_depth_tail(t: TokenV, rest: Seq<TokenV>, j: int)
    requires
        0 <= j,
    ensures
        net_depth(seq![t] + rest, j + 1) == net_depth(rest, j),
    decreases rest.len() - j,
{
    let all = seq![t] + rest;
    if j < rest.len() {
        assert(all[j + 1] == rest[j]);
        lemma_net_depth_tail(t, rest, j + 1);
    }
}

/// A first token adds its own step to the net depth.
proof fn lemma_net_depth_first(t: TokenV, rest: Seq<TokenV>)
    ensures
        net_depth(seq![t] + rest, 0) == depth_step(t.kind) + net_depth(rest, 0),
{
    let all = seq![t] + rest;
    assert(all[0] == t);
    lemma_net_depth_tail(t, rest, 0);
}

/// A run without delimiter adds nothing.
proof fn lemma_net_over_bare(text: Seq<u8>, a: int, e: int)
    requires
        0 <= a <= e <= text.len(),
        forall|j: int| a <= j < e ==> !is_delimiter(#[trigger] text[j]),
    ensures
        net_from(text, a) == net_from(text, e),
    decreases e - a,
{
    if a < e {
        assert(!is_delimiter(text[a]));
        lemma_net_over_bare(text, a + 1, e);
        assert(shifted(0, net_from(text, a + 1)) == net_from(text, a + 1));
    }
}

/// The count over the bytes is the net depth of the tokens, and there is no
/// count exactly where there are no tokens.
pub proof fn lemma_net_of_tokens(text: Seq<u8>, pos: int)
    requires
        0 <= pos,
    ensures
        tokens_from(text, pos) matches Ok(ts) ==> net_from(text, pos) == Some(net_depth(ts, 0)),
        tokens_from(text, pos) is Err ==> net_from(text, pos) is None,
    decreases text.len() - pos,
{
    if pos < text.len() {
        let b = text[pos];
        if is_space(b) {
            lemma_net_of_tokens(text, pos + 1);
            assert(shifted(0, net_from(text, pos + 1)) == net_from(text, pos + 1));
        } else if b == OPEN || b == CLOSE {
            lemma_net_of_tokens(text, pos + 1);
            if let Ok(rest) = tokens_from(text, pos + 1) {
                let kind = if b == OPEN {
                    TokenKindV::Open
                } else {
                    TokenKindV::Close
                };
                lemma_net_depth_first(TokenV { kind, offset: pos }, rest);
            }
        } else if b == QUOTE {
            match scan_quoted(text, pos + 1) {
                Some((content, end)) => {
                    if pos < end <= text.len() {
                        lemma_net_of_tokens(text, end);
                        if let Ok(rest) = tokens_from(text, end) {
                            lemma_net_depth_first(
                                TokenV { kind: TokenKindV::Quoted(content), offset: pos },
                                rest,
                            );
                        }
                    }
                },
                None => {},
            }
        } else {
            lemma_bare_end(text, pos + 1);
            let end = bare_end(text, pos + 1);
            assert forall|j: int| pos <= j < end implies !is_delimiter(#[trigger] text[j]) by {}
            lemma_net_over_bare(text, pos, end);
            lemma_net_of_tokens(text, end);
            if let Ok(rest) = tokens_from(text, end) {
                lemma_net_depth_first(
                    TokenV { kind: TokenKindV::Bare(text.subrange(pos, end)), offset: pos },
                    rest,
                );
            }
        }
    }
}

/// A quoted string that ends before a place reads the same in every text
/// that holds the same bytes up to that place.
proof fn lemma_scan_agree(u: Seq<u8>, w: Seq<u8>, q: int, p: int)
    requires
        0 <= q,
        p <= u.len(),
        p <= w.len(),
        forall|i: int| 0 <= i < p ==> #[trigger] u[i] == w[i],
        scan_quoted(u, q) matches Some((content, end)) && end <= p,
    ensures
        scan_quoted(w, q) == scan_quoted(u, q),
    decreases u.len() - q,
{
    lemma_scan_quoted_end(u, q);
    assert(q < p);
    assert(u[q] == w[q]);
    if u[q] != QUOTE {
        if u[q] == BACKSLASH && q + 1 < u.len() && u[q + 1] == QUOTE {
            lemma_scan_quoted_end(u, q + 2);
            assert(u[q + 1] == w[q + 1]);
            lemma_scan_agree(u, w, q + 2, p);
        } else {
            lemma_scan_quoted_end(u, q + 1);
            if q + 1 < p {
                assert(u[q + 1] == w[q + 1]);
            }
            lemma_scan_agree(u, w, q + 1, p);
        }
    }
}

/// The end of a scan, one place on.
pub open spec fn moved(scan: Option<(Seq<u8>, int)>) -> Option<(Seq<u8>, int)> {
    match scan {
        Some((content, end)) => Some((content, end + 1)),
        None => None,
    }
}

/// After the place at which a byte was put in, a quoted string reads as
/// before, one place on.
proof fn lemma_scan_moved(u: Seq<u8>, w: Seq<u8>, p: int, q: int)
    requires
        0 <= p <= q,
        w.len() == u.len() + 1,
        forall|i: int| p <= i < u.len() ==> #[trigger] u[i] == w[i + 1],
    ensures
        scan_quoted(w, q + 1) == moved(scan_quoted(u, q)),
    decreases u.len() - q,
{
    if q < u.len() {
        assert(u[q] == w[q + 1]);
        if u[q] != QUOTE {
            if q + 1 < u.len() {
                assert(u[q + 1] == w[q + 2]);
            }
            if u[q] == BACKSLASH && q + 1 < u.len() && u[q + 1] == QUOTE {
                lemma_scan_moved(u, w, p, q + 2);
            } else {
                lemma_scan_moved(u, w, p, q + 1);
            }
        }
    }
}

/// After the place at which a byte was put in, the count is as before.
proof fn lemma_net_moved(u: Seq<u8>, w: Seq<u8>, p: int, q: int)
    requires
        0 <= p <= q,
        w.len() == u.len() + 1,
        forall|i: int| p <= i < u.len() ==> #[trigger] u[i] == w[i + 1],
    ensures
        net_from(w, q + 1) == net_from(u, q),
    decreases u.len() - q,
{
    if q < u.len() {
        assert(u[q] == w[q + 1]);
        if u[q] == QUOTE {
            lemma_scan_moved(u, w, p, q + 1);
            lemma_scan_quoted_end(u, q + 1);
            match scan_quoted(u, q + 1) {
                Some((content, end)) => {
                    lemma_net_moved(u, w, p, end);
                },
                None => {},
            }
        } else {
            lemma_net_moved(u, w, p, q + 1);
        }
    }
}

/// A parenthesis put in outside the quoted strings adds its step to the
/// count.
proof fn lemma_net_insert(u: Seq<u8>, p: int, c: u8, pos: int)
    requires
        c == OPEN || c == CLOSE,
        0 <= pos <= p <= u.len(),
        outside_strings(u, pos, p),
    ensures
        net_from(u.insert(p, c), pos) == shifted(byte_step(c), net_from(u, pos)),
    decreases u.len() - pos,
{
    let w = u.insert(p, c);
    if pos == p {
        assert(w[p] == c);
        lemma_net_moved(u, w, p, p);
    } else {
        assert(w[pos] == u[pos]);
        if u[pos] == QUOTE {
            lemma_scan_agree(u, w, pos + 1, p);
            match scan_quoted(u, pos + 1) {
                Some((content, end)) => {
                    lemma_net_insert(u, p, c, end);
                },
                None => {},
            }
        } else {
            lemma_net_insert(u, p, c, pos + 1);
        }
    }
}

/// **One parenthesis more or less.** Of a text and the same text with one
/// `(` or `)` put in at a place outside its quoted strings, at most one
/// lexes: if the shorter has matching parentheses, the longer has one too
/// many, and if the longer has matching parentheses, the shorter lacks one.
pub proof fn lemma_one_paren_apart(u: Seq<u8>, p: int, c: u8)
    requires
        c == OPEN || c == CLOSE,
        0 <= p <= u.len(),
        outside_strings(u, 0, p),
    ensures
        !(lex_spec(u) is Ok && lex_spec(u.insert(p, c)) is Ok),
{
    let w = u.insert(p, c);
    if lex_spec(u) is Ok && lex_spec(w) is Ok {
        let tu = tokens_from(u, 0)->Ok_0;
        let tw = tokens_from(w, 0)->Ok_0;
        lemma_matched_net_depth(tu, 0, 0, u.len() as int);
        lemma_matched_net_depth(tw, 0, 0, w.len() as int);
        lemma_net_of_tokens(u, 0);
        lemma_net_of_tokens(w, 0);
        lemma_net_insert(u, p, c, 0);
    }
}

/// **One parenthesis more or less, of documents.** Of a text and the same
/// text with one `(` or `)` put in outside its quoted strings, at most one
/// is a document of the type `T`; where one of them lexes, parsing the other
/// is a syntax error.
pub proof fn lemma_one_paren_apart_typed<T: Record>(u: Seq<u8>, p: int, c: u8)
    requires
        c == OPEN || c == CLOSE,
        0 <= p <= u.len(),
        outside_strings(u, 0, p),
    ensures
        !(from_text_spec::<T>(u) is Ok && from_text_spec::<T>(u.insert(p, c)) is Ok),
        lex_spec(u) is Ok ==> (from_text_spec::<T>(u.insert(p, c)) matches Err(e) && e
            is SyntaxError),
        lex_spec(u.insert(p, c)) is Ok ==> (from_text_spec::<T>(u) matches Err(e) && e
            is SyntaxError),
{
    lemma_one_paren_apart(u, p, c);
}

} // verus!
