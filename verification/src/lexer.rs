//! The atom lexer: from text to raw tokens, with no knowledge of types.
//!
//! `(` and `)` are tokens of their own. A quoted string runs from a `"` to the
//! next `"` that no backslash precedes; inside it `\"` stands for a quote and
//! nothing else is an escape. A bare symbol is a maximal run of bytes that are
//! neither white space, a parenthesis nor a quote.

use vstd::prelude::*;
use crate::error::{CodecError, ErrorV};
use crate::text::{
    is_space, is_delimiter, delimiter, space, copy_range, OPEN, CLOSE, QUOTE, BACKSLASH,
};

verus! {

/// What a token is.
#[derive(Clone, Debug, PartialEq, Eq)]
pub enum TokenKind {
    Open,
    Close,
    Bare(Vec<u8>),
    Quoted(Vec<u8>),
}

/// A token and the byte of the text at which it starts.
#[derive(Clone, Debug, PartialEq, Eq)]
pub struct Token {
    pub kind: TokenKind,
    pub offset: usize,
}

/// The mathematical value of a [`TokenKind`].
pub enum TokenKindV {
    Open,
    Close,
    Bare(Seq<u8>),
    Quoted(Seq<u8>),
}

/// The mathematical value of a [`Token`].
pub struct TokenV {
    pub kind: TokenKindV,
    pub offset: int,
}

impl View for TokenKind {
    type V = TokenKindV;

    open spec fn view(&self) -> TokenKindV {
        match self {
            TokenKind::Open => TokenKindV::Open,
            TokenKind::Close => TokenKindV::Close,
            TokenKind::Bare(t) => TokenKindV::Bare(t@),
            TokenKind::Quoted(t) => TokenKindV::Quoted(t@),
        }
    }
}

impl View for Token {
    type V = TokenV;

    open spec fn view(&self) -> TokenV {
        TokenV { kind: self.kind@, offset: self.offset as int }
    }
}

/// The values of a run of tokens, in order.
pub open spec fn tokens_view(ts: Seq<Token>) -> Seq<TokenV> {
    ts.map_values(|t: Token| t@)
}

/// The kinds of a run of tokens, in order.
pub open spec fn kinds(ts: Seq<TokenV>) -> Seq<TokenKindV> {
    ts.map_values(|t: TokenV| t.kind)
}

/// Where the bare symbol ends whose bytes up to `pos` have been read.
pub open spec fn bare_end(text: Seq<u8>, pos: int) -> int
    decreases text.len() - pos,
{
    if pos < 0 || pos >= text.len() || is_delimiter(text[pos]) {
        pos
    } else {
        bare_end(text, pos + 1)
    }
}

/// Puts `head` in front of the content that a scan returned.
pub open spec fn after_bytes(head: Seq<u8>, scan: Option<(Seq<u8>, int)>) -> Option<
    (Seq<u8>, int),
> {
    match scan {
        Some((rest, end)) => Some((head + rest, end)),
        None => None,
    }
}

/// Reads a quoted string whose opening quote has been passed: what it stands
/// for, and the place after its closing quote. `None` where the text ends first.
pub open spec fn scan_quoted(text: Seq<u8>, pos: int) -> Option<(Seq<u8>, int)>
    decreases text.len() - pos,
{
    if pos < 0 || pos >= text.len() {
        None
    } else if text[pos] == QUOTE {
        Some((Seq::empty(), pos + 1))
    } else if text[pos] == BACKSLASH && pos + 1 < text.len() && text[pos + 1] == QUOTE {
        after_bytes(seq![QUOTE], scan_quoted(text, pos + 2))
    } else {
        after_bytes(seq![text[pos]], scan_quoted(text, pos + 1))
    }
}

/// Puts `head` in front of the tokens that a scan returned.
pub open spec fn after_tokens(head: Seq<TokenV>, scan: Result<Seq<TokenV>, int>) -> Result<
    Seq<TokenV>,
    int,
> {
    match scan {
        Ok(rest) => Ok(head + rest),
        Err(at) => Err(at),
    }
}

/// The tokens of the text from `pos` on, or the offset of the opening quote of
/// a string that is not closed.
pub open spec fn tokens_from(text: Seq<u8>, pos: int) -> Result<Seq<TokenV>, int>
    decreases text.len() - pos,
{
    if pos < 0 || pos >= text.len() {
        Ok(Seq::empty())
    } else if is_space(text[pos]) {
        tokens_from(text, pos + 1)
    } else if text[pos] == OPEN {
        after_tokens(seq![TokenV { kind: TokenKindV::Open, offset: pos }], tokens_from(text, pos + 1))
    } else if text[pos] == CLOSE {
        after_tokens(
            seq![TokenV { kind: TokenKindV::Close, offset: pos }],
            tokens_from(text, pos + 1),
        )
    } else if text[pos] == QUOTE {
        match scan_quoted(text, pos + 1) {
            Some((content, end)) => if pos < end <= text.len() {
                after_tokens(
                    seq![TokenV { kind: TokenKindV::Quoted(content), offset: pos }],
                    tokens_from(text, end),
                )
            } else {
                Err(pos)
            },
            None => Err(pos),
        }
    } else {
        let end = bare_end(text, pos + 1);
        if pos < end <= text.len() {
            after_tokens(
                seq![TokenV { kind: TokenKindV::Bare(text.subrange(pos, end)), offset: pos }],
                tokens_from(text, end),
            )
        } else {
            Err(pos)
        }
    }
}

/// The first place at which the parentheses of `ts[i..]` do not match, when
/// `depth` lists are open before it: a `)` that closes nothing, or `end` where
/// a list is still open at the end.
pub open spec fn imbalance(ts: Seq<TokenV>, i: int, depth: int, end: int) -> Option<int>
    decreases ts.len() - i,
{
    if i < 0 || i >= ts.len() {
        if depth > 0 {
            Some(end)
        } else {
            None
        }
    } else if ts[i].kind is Open {
        imbalance(ts, i + 1, depth + 1, end)
    } else if ts[i].kind is Close {
        if depth <= 0 {
            Some(ts[i].offset)
        } else {
            imbalance(ts, i + 1, depth - 1, end)
        }
    } else {
        imbalance(ts, i + 1, depth, end)
    }
}

/// Every `)` closes a list that is open, and no list is open at the end.
pub open spec fn balanced(ts: Seq<TokenV>) -> bool {
    imbalance(ts, 0, 0, 0) is None
}

/// Every quoted string of the text is closed.
pub open spec fn well_quoted(text: Seq<u8>) -> bool {
    tokens_from(text, 0) is Ok
}

/// What lexing a text gives: its tokens, or where it is malformed.
pub open spec fn lex_spec(text: Seq<u8>) -> Result<Seq<TokenV>, ErrorV> {
    match tokens_from(text, 0) {
        Err(at) => Err(ErrorV::SyntaxError { offset: at }),
        Ok(ts) => match imbalance(ts, 0, 0, text.len() as int) {
            Some(at) => Err(ErrorV::SyntaxError { offset: at }),
            None => Ok(ts),
        },
    }
}

/// A bare symbol ends at or after the place from which it is read, within the
/// text, and holds no delimiter up to there.
pub proof fn lemma_bare_end(text: Seq<u8>, pos: int)
    requires
        0 <= pos <= text.len(),
    ensures
        pos <= bare_end(text, pos) <= text.len(),
        forall|k: int| pos <= k < bare_end(text, pos) ==> !is_delimiter(#[trigger] text[k]),
        bare_end(text, pos) < text.len() ==> is_delimiter(text[bare_end(text, pos)]),
    decreases text.len() - pos,
{
    if pos < text.len() && !is_delimiter(text[pos]) {
        lemma_bare_end(text, pos + 1);
    }
}

/// A quoted string ends after the place from which it is read, within the text.
pub proof fn lemma_scan_quoted_end(text: Seq<u8>, pos: int)
    requires
        0 <= pos,
    ensures
        scan_quoted(text, pos) matches Some((content, end)) ==> pos < end <= text.len(),
    decreases text.len() - pos,
{
    if pos < text.len() && text[pos] != QUOTE {
        if text[pos] == BACKSLASH && pos + 1 < text.len() && text[pos + 1] == QUOTE {
            lemma_scan_quoted_end(text, pos + 2);
        } else {
            lemma_scan_quoted_end(text, pos + 1);
        }
    }
}

/// Every token starts inside the text.
pub proof fn lemma_token_offsets(text: Seq<u8>, pos: int)
    requires
        0 <= pos,
    ensures
        tokens_from(text, pos) matches Ok(ts) ==> forall|i: int|
            0 <= i < ts.len() ==> pos <= (#[trigger] ts[i]).offset < text.len(),
        tokens_from(text, pos) matches Err(at) ==> pos <= at < text.len(),
    decreases text.len() - pos,
{
    if pos < text.len() {
        if is_space(text[pos]) || text[pos] == OPEN || text[pos] == CLOSE {
            lemma_token_offsets(text, pos + 1);
        } else if text[pos] == QUOTE {
            lemma_scan_quoted_end(text, pos + 1);
            match scan_quoted(text, pos + 1) {
                Some((content, end)) => {
                    lemma_token_offsets(text, end);
                },
                None => {},
            }
        } else {
            lemma_bare_end(text, pos + 1);
            lemma_token_offsets(text, bare_end(text, pos + 1));
        }
    }
}

/// An imbalance lies at one of the tokens, or at `end`.
pub proof fn lemma_imbalance_place(ts: Seq<TokenV>, i: int, depth: int, end: int)
    requires
        0 <= i,
    ensures
        imbalance(ts, i, depth, end) matches Some(at) ==> at == end || exists|k: int|
            i <= k < ts.len() && at == (#[trigger] ts[k]).offset,
    decreases ts.len() - i,
{
    if i < ts.len() {
        if ts[i].kind is Open {
            lemma_imbalance_place(ts, i + 1, depth + 1, end);
        } else if ts[i].kind is Close {
            if depth > 0 {
                lemma_imbalance_place(ts, i + 1, depth - 1, end);
            }
        } else {
            lemma_imbalance_place(ts, i + 1, depth, end);
        }
    }
}

/// Whether parentheses match does not depend on the offset that an open list
/// at the end is reported with.
pub proof fn lemma_imbalance_end(ts: Seq<TokenV>, i: int, depth: int, end1: int, end2: int)
    requires
        0 <= i,
    ensures
        imbalance(ts, i, depth, end1) is None <==> imbalance(ts, i, depth, end2) is None,
    decreases ts.len() - i,
{
    if i < ts.len() {
        if ts[i].kind is Open {
            lemma_imbalance_end(ts, i + 1, depth + 1, end1, end2);
        } else if ts[i].kind is Close {
            if depth > 0 {
                lemma_imbalance_end(ts, i + 1, depth - 1, end1, end2);
            }
        } else {
            lemma_imbalance_end(ts, i + 1, depth, end1, end2);
        }
    }
}

/// Reads the quoted string whose opening quote stands just before `start`.
fn read_quoted(text: &[u8], start: usize) -> (r: Option<(Vec<u8>, usize)>)
    requires
        start <= text@.len(),
    ensures
        match r {
            Some((content, end)) => scan_quoted(text@, start as int) == Some(
                (content@, end as int),
            ) && start < end <= text@.len(),
            None => scan_quoted(text@, start as int) is None,
        },
{
    let mut content: Vec<u8> = Vec::new();
    let mut pos: usize = start;
    while pos < text.len()
        invariant
            start <= pos <= text@.len(),
            scan_quoted(text@, start as int) == after_bytes(
                content@,
                scan_quoted(text@, pos as int),
            ),
        decreases text@.len() - pos,
    {
        let b: u8 = text[pos];
        if b == QUOTE {
            assert(content@ + Seq::<u8>::empty() =~= content@);
            return Some((content, pos + 1));
        }
        let ghost before = content@;
        if b == BACKSLASH && pos + 1 < text.len() && text[pos + 1] == QUOTE {
            content.push(QUOTE);
            proof {
                let rest = scan_quoted(text@, pos + 2);
                if let Some((tail, end)) = rest {
                    assert(before + (seq![QUOTE] + tail) =~= content@ + tail);
                }
            }
            pos += 2;
        } else {
            content.push(b);
            proof {
                let rest = scan_quoted(text@, pos + 1);
                if let Some((tail, end)) = rest {
                    assert(before + (seq![b] + tail) =~= content@ + tail);
                }
            }
            pos += 1;
        }
    }
    None
}

/// Finds where the bare symbol ends whose bytes up to `start` have been read.
fn read_bare(text: &[u8], start: usize) -> (end: usize)
    requires
        start <= text@.len(),
    ensures
        end as int == bare_end(text@, start as int),
        start <= end <= text@.len(),
{
    let mut pos: usize = start;
    while pos < text.len() && !delimiter(text[pos])
        invariant
            start <= pos <= text@.len(),
            bare_end(text@, start as int) == bare_end(text@, pos as int),
        decreases text@.len() - pos,
    {
        pos += 1;
    }
    pos
}

/// Splits a text into tokens, without asking whether its parentheses match.
pub fn tokenize(text: &[u8]) -> (r: Result<Vec<Token>, CodecError>)
    ensures
        match r {
            Ok(ts) => tokens_from(text@, 0) == Ok::<Seq<TokenV>, int>(tokens_view(ts@)),
            Err(e) => tokens_from(text@, 0) matches Err(at) && e@ == (ErrorV::SyntaxError {
                offset: at,
            }),
        },
{
    let mut tokens: Vec<Token> = Vec::new();
    let mut pos: usize = 0;
    assert(tokens_view(tokens@) =~= Seq::empty());
    assert(Seq::<TokenV>::empty() + Seq::<TokenV>::empty() =~= Seq::<TokenV>::empty());
    while pos < text.len()
        invariant
            pos <= text@.len(),
            tokens_from(text@, 0) == after_tokens(
                tokens_view(tokens@),
                tokens_from(text@, pos as int),
            ),
        decreases text@.len() - pos,
    {
        let b: u8 = text[pos];
        let ghost before = tokens_view(tokens@);
        let ghost here = pos as int;
        if space(b) {
            pos += 1;
        } else if b == OPEN || b == CLOSE {
            let kind = if b == OPEN {
                TokenKind::Open
            } else {
                TokenKind::Close
            };
            tokens.push(Token { kind, offset: pos });
            pos += 1;
            proof {
                let t = tokens@[tokens@.len() - 1]@;
                assert(tokens_view(tokens@) =~= before.push(t));
                if let Ok(rest) = tokens_from(text@, pos as int) {
                    assert(before + (seq![t] + rest) =~= before.push(t) + rest);
                }
            }
        } else if b == QUOTE {
            match read_quoted(text, pos + 1) {
                Some((content, end)) => {
                    tokens.push(Token { kind: TokenKind::Quoted(content), offset: pos });
                    pos = end;
                    proof {
                        let t = tokens@[tokens@.len() - 1]@;
                        assert(tokens_view(tokens@) =~= before.push(t));
                        if let Ok(rest) = tokens_from(text@, pos as int) {
                            assert(before + (seq![t] + rest) =~= before.push(t) + rest);
                        }
                    }
                },
                None => {
                    return Err(CodecError::SyntaxError { offset: pos });
                },
            }
        } else {
            let end = read_bare(text, pos + 1);
            let symbol = copy_range(text, pos, end);
            tokens.push(Token { kind: TokenKind::Bare(symbol), offset: pos });
            pos = end;
            proof {
                let t = tokens@[tokens@.len() - 1]@;
                assert(tokens_view(tokens@) =~= before.push(t));
                if let Ok(rest) = tokens_from(text@, pos as int) {
                    assert(before + (seq![t] + rest) =~= before.push(t) + rest);
                }
            }
        }
    }
    assert(tokens_view(tokens@) + Seq::<TokenV>::empty() =~= tokens_view(tokens@));
    Ok(tokens)
}

/// Looks for the first place at which the parentheses do not match.
pub fn find_imbalance(tokens: &Vec<Token>, end: usize) -> (r: Option<usize>)
    ensures
        match r {
            Some(at) => imbalance(tokens_view(tokens@), 0, 0, end as int) == Some(at as int),
            None => imbalance(tokens_view(tokens@), 0, 0, end as int) is None,
        },
{
    let ghost ts = tokens_view(tokens@);
    let mut depth: usize = 0;
    let mut i: usize = 0;
    while i < tokens.len()
        invariant
            i <= tokens@.len(),
            depth <= i,
            ts == tokens_view(tokens@),
            imbalance(ts, 0, 0, end as int) == imbalance(ts, i as int, depth as int, end as int),
        decreases tokens@.len() - i,
    {
        assert(ts[i as int] == tokens@[i as int]@);
        match &tokens[i].kind {
            TokenKind::Open => {
                depth += 1;
            },
            TokenKind::Close => {
                if depth == 0 {
                    return Some(tokens[i].offset);
                }
                depth -= 1;
            },
            _ => {},
        }
        i += 1;
    }
    if depth > 0 {
        Some(end)
    } else {
        None
    }
}

/// Splits a text into its tokens.
///
/// Succeeds exactly on the texts whose quoted strings are all closed and whose
/// parentheses match; every other text is a syntax error, reported at the
/// opening quote of the open string, else at the `)` that closes nothing, else
/// at the end of the text.
pub fn lex(text: &[u8]) -> (r: Result<Vec<Token>, CodecError>)
    ensures
        match r {
            Ok(ts) => lex_spec(text@) == Ok::<Seq<TokenV>, ErrorV>(tokens_view(ts@)),
            Err(e) => lex_spec(text@) == Err::<Seq<TokenV>, ErrorV>(e@),
        },
        r is Ok <==> well_quoted(text@) && balanced(tokens_from(text@, 0)->Ok_0),
        r matches Err(e) ==> e@ matches ErrorV::SyntaxError { offset } && 0 <= offset
            <= text@.len(),
{
    proof {
        lemma_token_offsets(text@, 0);
    }
    let tokens = match tokenize(text) {
        Ok(tokens) => tokens,
        Err(e) => {
            return Err(e);
        },
    };
    proof {
        lemma_imbalance_place(tokens_view(tokens@), 0, 0, text@.len() as int);
        lemma_imbalance_end(tokens_view(tokens@), 0, 0, text@.len() as int, 0);
    }
    match find_imbalance(&tokens, text.len()) {
        Some(at) => Err(CodecError::SyntaxError { offset: at }),
        None => Ok(tokens),
    }
}

} // verus!

verus! {

/// What a token adds to the number of open lists.
pub open spec fn depth_step(kind: TokenKindV) -> int {
    match kind {
        TokenKindV::Open => 1,
        TokenKindV::Close => -1,
        _ => 0,
    }
}

/// How many lists the tokens `ts[i..]` open, less how many they close.
pub open spec fn net_depth(ts: Seq<TokenV>, i: int) -> int
    decreases ts.len() - i,
{
    if i < 0 || i >= ts.len() {
        0
    } else {
        depth_step(ts[i].kind) + net_depth(ts, i + 1)
    }
}

/// Where nothing is unmatched, the tokens close exactly the lists that were
/// open before them and that they open themselves.
pub proof fn lemma_matched_net_depth(ts: Seq<TokenV>, i: int, depth: int, end: int)
    requires
        0 <= i,
        0 <= depth,
        imbalance(ts, i, depth, end) is None,
    ensures
        depth + net_depth(ts, i) == 0,
    decreases ts.len() - i,
{
    if i < ts.len() {
        lemma_matched_net_depth(ts, i + 1, depth + depth_step(ts[i].kind), end);
    }
}

/// Past the place of an insertion the tokens are the old ones, one further on.
proof fn lemma_net_depth_shift(ts: Seq<TokenV>, k: int, extra: TokenV, j: int)
    requires
        0 <= k <= j <= ts.len(),
    ensures
        net_depth(ts.insert(k, extra), j + 1) == net_depth(ts, j),
    decreases ts.len() - j,
{
    if j < ts.len() {
        lemma_net_depth_shift(ts, k, extra, j + 1);
    }
}

/// An inserted token adds its own step to the net depth.
proof fn lemma_net_depth_insert(ts: Seq<TokenV>, k: int, extra: TokenV, i: int)
    requires
        0 <= i <= k <= ts.len(),
    ensures
        net_depth(ts.insert(k, extra), i) == net_depth(ts, i) + depth_step(extra.kind),
    decreases k - i,
{
    if i == k {
        lemma_net_depth_shift(ts, k, extra, k);
    } else {
        lemma_net_depth_insert(ts, k, extra, i + 1);
    }
}

/// One parenthesis more, put anywhere among tokens whose parentheses match,
/// leaves a parenthesis unmatched.
pub proof fn lemma_single_paren_unbalances(ts: Seq<TokenV>, k: int, extra: TokenV)
    requires
        balanced(ts),
        0 <= k <= ts.len(),
        extra.kind is Open || extra.kind is Close,
    ensures
        !balanced(ts.insert(k, extra)),
{
    lemma_matched_net_depth(ts, 0, 0, 0);
    lemma_net_depth_insert(ts, k, extra, 0);
    if balanced(ts.insert(k, extra)) {
        lemma_matched_net_depth(ts.insert(k, extra), 0, 0, 0);
    }
}

/// A text whose tokens hold an unmatched parenthesis does not lex, and what
/// it gives is a syntax error.
pub proof fn lemma_unbalanced_text_fails(text: Seq<u8>)
    requires
        tokens_from(text, 0) matches Ok(ts) && !balanced(ts),
    ensures
        lex_spec(text) matches Err(e) && e is SyntaxError,
{
    lemma_imbalance_end(tokens_from(text, 0)->Ok_0, 0, 0, text.len() as int, 0);
}

/// A text that holds more `(` than `)` outside its strings, or fewer, does
/// not lex: it is a syntax error.
pub proof fn lemma_unequal_parens_fail(text: Seq<u8>)
    requires
        tokens_from(text, 0) matches Ok(ts) && net_depth(ts, 0) != 0,
    ensures
        lex_spec(text) matches Err(e) && e is SyntaxError,
{
    let ts = tokens_from(text, 0)->Ok_0;
    if balanced(ts) {
        lemma_matched_net_depth(ts, 0, 0, 0);
    }
    lemma_unbalanced_text_fails(text);
}

} // verus!
