//! The lexer of the compact history text form.
//!
//! The text form describes transactional histories compactly. Sessions are
//! separated by lines of dashes (`---`), transactions are enclosed in
//! brackets (`[...]`), writes use `:=`, reads use `==`, `?` marks a read of
//! the initial value, and `!` marks an uncommitted transaction:
//!
//! ```text
//! // session 1
//! [x:=1 y:=1] [z==2 z:=3]
//! [y:=3]
//! ---
//! // session 2
//! [a==1 b:=3] [c:=3]
//! ```
//!
//! Tokens are found by longest match at each position, on the bytes of the
//! input; a byte that starts no token is skipped.
use vstd::prelude::*;

use core::ops::Range;
use vstd::string::StringSliceAdditionalSpecFns;

verus! {

/// All token kinds produced by the lexer.
#[derive(Debug, Clone, Copy, PartialEq, Eq, Structural)]
pub enum TokenKind {
    /// A line comment starting with `//` and running to the end of the line.
    Comment,
    /// One or more `-` characters (session separator).
    Dash,
    /// Opening bracket `[`.
    BracketOpen,
    /// Closing bracket `]`.
    BracketClose,
    /// Write operator `:=`.
    ColonEquals,
    /// Read operator `==`.
    DoubleEquals,
    /// Initial-value read marker `?`.
    QuestionMark,
    /// Uncommitted transaction marker `!`.
    Bang,
    /// An identifier: a letter or underscore, then letters, digits or
    /// underscores.
    Ident,
    /// An integer literal: one or more ASCII digits.
    Integer,
    /// A newline (`\n` or `\r\n`).
    Newline,
    /// Spaces or tabs.
    Whitespace,
}

/// A single token with its kind and the byte range it covers in the source.
#[derive(Debug, PartialEq, Eq)]
pub struct Token {
    /// What kind of token this is.
    pub kind: TokenKind,
    /// Byte range `start..end` into the original input.
    pub span: Range<usize>,
}

/// The byte is an ASCII letter or `_`.
pub open spec fn ident_start(b: u8) -> bool {
    (97 <= b <= 122) || (65 <= b <= 90) || b == 95
}

/// The byte is an ASCII digit.
pub open spec fn digit(b: u8) -> bool {
    48 <= b <= 57
}

/// The byte may continue an identifier.
pub open spec fn ident_char(b: u8) -> bool {
    ident_start(b) || digit(b)
}

/// The byte is a space or a tab.
pub open spec fn blank(b: u8) -> bool {
    b == 32 || b == 9
}

/// The byte classes of the tokens that run over several bytes: not a
/// newline (comments), a dash, an identifier byte, a digit, a blank.
pub open spec fn class_pred(k: u8) -> spec_fn(u8) -> bool {
    |c: u8| if k == 0 { c != 10 } else if k == 1 { c == 45 } else if k == 2 { ident_char(c) } else if k == 3 { digit(c) } else { blank(c) }
}

/// The number of bytes from `i` on that satisfy `p`.
pub open spec fn run_len(bs: Seq<u8>, i: int, p: spec_fn(u8) -> bool) -> nat
    decreases bs.len() - i,
{
    if 0 <= i < bs.len() && p(bs[i]) {
        1 + run_len(bs, i + 1, p)
    } else {
        0
    }
}

/// The byte at `i` of `bs` is `b`.
pub open spec fn byte_is(bs: Seq<u8>, i: int, b: u8) -> bool {
    0 <= i < bs.len() && bs[i] == b
}

/// The longest token at position `i`: its kind and the position after it.
pub open spec fn token_at(bs: Seq<u8>, i: int) -> Option<(TokenKind, int)>
    recommends
        0 <= i < bs.len(),
{
    let b = bs[i];
    if b == 47 && byte_is(bs, i + 1, 47) {
        Some((TokenKind::Comment, i + 2 + run_len(bs, i + 2, class_pred(0))))
    } else if b == 45 {
        Some((TokenKind::Dash, i + 1 + run_len(bs, i + 1, class_pred(1))))
    } else if b == 91 {
        Some((TokenKind::BracketOpen, i + 1))
    } else if b == 93 {
        Some((TokenKind::BracketClose, i + 1))
    } else if b == 58 && byte_is(bs, i + 1, 61) {
        Some((TokenKind::ColonEquals, i + 2))
    } else if b == 61 && byte_is(bs, i + 1, 61) {
        Some((TokenKind::DoubleEquals, i + 2))
    } else if b == 63 {
        Some((TokenKind::QuestionMark, i + 1))
    } else if b == 33 {
        Some((TokenKind::Bang, i + 1))
    } else if ident_start(b) {
        Some((TokenKind::Ident, i + 1 + run_len(bs, i + 1, class_pred(2))))
    } else if digit(b) {
        Some((TokenKind::Integer, i + 1 + run_len(bs, i + 1, class_pred(3))))
    } else if b == 10 {
        Some((TokenKind::Newline, i + 1))
    } else if b == 13 && byte_is(bs, i + 1, 10) {
        Some((TokenKind::Newline, i + 2))
    } else if blank(b) {
        Some((TokenKind::Whitespace, i + 1 + run_len(bs, i + 1, class_pred(4))))
    } else {
        None
    }
}

/// The tokens of `bs` from position `i` on, as kinds and byte ranges.
pub open spec fn lex(bs: Seq<u8>, i: int) -> Seq<(TokenKind, int, int)>
    decreases bs.len() - i,
{
    if i < 0 || i >= bs.len() {
        Seq::empty()
    } else {
        match token_at(bs, i) {
            Some((k, e)) => if i < e <= bs.len() { seq![(k, i, e)] + lex(bs, e) } else { Seq::empty() },
            None => lex(bs, i + 1),
        }
    }
}

/// The view of a token: its kind and byte range.
pub open spec fn token_view(t: Token) -> (TokenKind, int, int) {
    (t.kind, t.span.start as int, t.span.end as int)
}

/// The views of a list of tokens.
pub open spec fn token_views(ts: Seq<Token>) -> Seq<(TokenKind, int, int)> {
    ts.map_values(|t: Token| token_view(t))
}

/// `k` is a boundary between characters of the UTF-8 text `bs`: the end of
/// the text, or a byte that starts a character.
pub open spec fn char_boundary(bs: Seq<u8>, k: int) -> bool {
    k == bs.len() || (0 <= k < bs.len() && (bs[k] < 128 || bs[k] >= 192))
}

/// `start..end` is a range of `bs` between two character boundaries.
pub open spec fn boundary_range(bs: Seq<u8>, start: int, end: int) -> bool {
    start <= end <= bs.len() && char_boundary(bs, start) && char_boundary(bs, end)
}

/// `str::get` with a byte range: the part of `s` between two character
/// boundaries, `None` when the range is not one.
#[verifier::external_body]
fn str_get<'a>(s: &'a str, start: usize, end: usize) -> (r: Option<&'a str>)
    ensures
        r is Some <==> boundary_range(s.spec_bytes(), start as int, end as int),
        r matches Some(t) ==> t.spec_bytes() == s.spec_bytes().subrange(start as int, end as int),
{
    s.get(start..end)
}

impl Clone for Token {
    fn clone(&self) -> (t: Self)
        ensures
            t == *self,
    {
        Token { kind: self.kind, span: Range { start: self.span.start, end: self.span.end } }
    }
}

impl Token {
    /// A token of kind `kind` over `span`.
    pub fn new(kind: TokenKind, span: Range<usize>) -> (t: Self)
        ensures
            t.kind == kind,
            t.span == span,
    {
        Token { kind, span }
    }

    /// The source text of this token in the original input.
    pub fn text<'a>(&self, input: &'a str) -> (r: &'a str)
        requires
            boundary_range(input.spec_bytes(), self.span.start as int, self.span.end as int),
        ensures
            r.spec_bytes() == input.spec_bytes().subrange(self.span.start as int, self.span.end as int),
    {
        str_get(input, self.span.start, self.span.end).unwrap()
    }
}

/// Whether byte `b` is of class `k`.
fn in_class(k: u8, b: u8) -> (r: bool)
    ensures
        r == (class_pred(k))(b),
{
    if k == 0 {
        b != 10
    } else if k == 1 {
        b == 45
    } else if k == 2 {
        (97 <= b && b <= 122) || (65 <= b && b <= 90) || b == 95 || (48 <= b && b <= 57)
    } else if k == 3 {
        48 <= b && b <= 57
    } else {
        b == 32 || b == 9
    }
}

/// The position after the bytes of class `k` from `i` on.
fn run_end(bs: &[u8], i: usize, k: u8) -> (e: usize)
    requires
        i <= bs@.len(),
    ensures
        e == i + run_len(bs@, i as int, class_pred(k)),
        e <= bs@.len(),
{
    let mut j = i;
    while j < bs.len() && in_class(k, bs[j])
        invariant
            i <= j <= bs@.len(),
            run_len(bs@, i as int, class_pred(k)) == (j - i) + run_len(bs@, j as int, class_pred(k)),
        decreases bs@.len() - j,
    {
        j = j + 1;
    }
    j
}

/// The longest token at position `i`, as `token_at` says.
fn token_at_exec(bs: &[u8], i: usize) -> (r: Option<(TokenKind, usize)>)
    requires
        i < bs@.len(),
    ensures
        r is Some <==> token_at(bs@, i as int) is Some,
        r matches Some((k, e)) ==> token_at(bs@, i as int) == Some((k, e as int)) && i < e <= bs@.len(),
{
    let b = bs[i];
    let next = if i + 1 < bs.len() { Some(bs[i + 1]) } else { None };
    if b == 47 && next == Some(47u8) {
        Some((TokenKind::Comment, run_end(bs, i + 2, 0)))
    } else if b == 45 {
        Some((TokenKind::Dash, run_end(bs, i + 1, 1)))
    } else if b == 91 {
        Some((TokenKind::BracketOpen, i + 1))
    } else if b == 93 {
        Some((TokenKind::BracketClose, i + 1))
    } else if b == 58 && next == Some(61u8) {
        Some((TokenKind::ColonEquals, i + 2))
    } else if b == 61 && next == Some(61u8) {
        Some((TokenKind::DoubleEquals, i + 2))
    } else if b == 63 {
        Some((TokenKind::QuestionMark, i + 1))
    } else if b == 33 {
        Some((TokenKind::Bang, i + 1))
    } else if (97 <= b && b <= 122) || (65 <= b && b <= 90) || b == 95 {
        Some((TokenKind::Ident, run_end(bs, i + 1, 2)))
    } else if 48 <= b && b <= 57 {
        Some((TokenKind::Integer, run_end(bs, i + 1, 3)))
    } else if b == 10 {
        Some((TokenKind::Newline, i + 1))
    } else if b == 13 && next == Some(10u8) {
        Some((TokenKind::Newline, i + 2))
    } else if b == 32 || b == 9 {
        Some((TokenKind::Whitespace, run_end(bs, i + 1, 4)))
    } else {
        None
    }
}

/// Tokenizes `input`: the longest token at each position, skipping each
/// byte that starts none.
pub fn tokenize(input: &str) -> (r: Vec<Token>)
    ensures
        token_views(r@) == lex(input.spec_bytes(), 0),
{
    let bs = input.as_bytes();
    let mut toks: Vec<Token> = Vec::new();
    let mut i: usize = 0;
    while i < bs.len()
        invariant
            0 <= i <= bs@.len(),
            bs@ == input.spec_bytes(),
            token_views(toks@) + lex(bs@, i as int) == lex(bs@, 0),
        decreases bs@.len() - i,
    {
        match token_at_exec(bs, i) {
            Some((k, e)) => {
                let ghost before = toks@;
                toks.push(Token { kind: k, span: Range { start: i, end: e } });
                proof {
                    assert(lex(bs@, i as int) == seq![(k, i as int, e as int)] + lex(bs@, e as int));
                    assert(token_views(toks@) =~= token_views(before).push((k, i as int, e as int)));
                    assert(token_views(toks@) + lex(bs@, e as int) =~= token_views(before) + lex(bs@, i as int));
                }
                i = e;
            },
            None => {
                proof {
                    assert(lex(bs@, i as int) == lex(bs@, i + 1));
                }
                i = i + 1;
            },
        }
    }
    proof {
        assert(lex(bs@, i as int) == Seq::<(TokenKind, int, int)>::empty());
        assert(token_views(toks@) + lex(bs@, i as int) =~= token_views(toks@));
    }
    toks
}

/// Tokenizes `input` and pairs each token with its source text (empty when
/// its range does not lie between character boundaries).
pub fn tokenize_with_text(input: &str) -> (r: Vec<(Token, &str)>)
    ensures
        r@.len() == lex(input.spec_bytes(), 0).len(),
        forall|k: int| 0 <= k < r@.len() ==> token_view(#[trigger] r@[k].0) == lex(input.spec_bytes(), 0)[k],
        forall|k: int| 0 <= k < r@.len() ==> (if boundary_range(input.spec_bytes(), r@[k].0.span.start as int, r@[k].0.span.end as int) {
            (#[trigger] r@[k].1).spec_bytes() == input.spec_bytes().subrange(r@[k].0.span.start as int, r@[k].0.span.end as int)
        } else {
            r@[k].1@ == Seq::<char>::empty()
        }),
{
    let toks = tokenize(input);
    let mut out: Vec<(Token, &str)> = Vec::new();
    let mut k: usize = 0;
    while k < toks.len()
        invariant
            0 <= k <= toks@.len(),
            token_views(toks@) == lex(input.spec_bytes(), 0),
            out@.len() == k,
            forall|m: int| 0 <= m < k ==> #[trigger] out@[m].0 == toks@[m],
            forall|m: int| 0 <= m < k ==> (if boundary_range(input.spec_bytes(), out@[m].0.span.start as int, out@[m].0.span.end as int) {
                (#[trigger] out@[m].1).spec_bytes() == input.spec_bytes().subrange(out@[m].0.span.start as int, out@[m].0.span.end as int)
            } else {
                out@[m].1@ == Seq::<char>::empty()
            }),
        decreases toks@.len() - k,
    {
        let t = toks[k].clone();
        let text = match str_get(input, t.span.start, t.span.end) {
            Some(s) => s,
            None => {
                proof { reveal_strlit(""); }
                ""
            },
        };
        out.push((t, text));
        k = k + 1;
    }
    proof {
        assert forall|m: int| 0 <= m < out@.len() implies token_view(#[trigger] out@[m].0) == lex(input.spec_bytes(), 0)[m] by {
            assert(token_views(toks@)[m] == token_view(toks@[m]));
        }
    }
    out
}

} // verus!
