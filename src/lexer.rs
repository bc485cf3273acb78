//! The tokenizer and a token stream with a fixed number of tokens of lookahead.

use crate::ring::Ring;
use crate::span::{is_continuation, Span};
use crate::token::{Kind, Paren, Token};
use vstd::prelude::*;
use vstd::string::StringSliceAdditionalSpecFns;

verus! {

/// Whitespace between tokens: space, tab, carriage return, newline.
pub open spec fn is_space(c: u8) -> bool {
    c == 32u8 || c == 9u8 || c == 13u8 || c == 10u8
}

/// A byte of an identifier: an ASCII letter, digit or underscore.
pub open spec fn is_ident_byte(c: u8) -> bool {
    (97u8 <= c <= 122u8) || (65u8 <= c <= 90u8) || (48u8 <= c <= 57u8) || c == 95u8
}

/// The offset of the first token at or after `i`: whitespace and `//` line
/// comments are passed over. `in_comment` says that `i` lies inside a comment.
pub open spec fn skip_trivia(b: Seq<u8>, i: int, in_comment: bool) -> int
    decreases b.len() - i,
{
    if !(0 <= i < b.len()) {
        i
    } else if in_comment {
        skip_trivia(b, i + 1, b[i] != 10u8)
    } else if is_space(b[i]) {
        skip_trivia(b, i + 1, false)
    } else if b[i] == 47u8 && i + 1 < b.len() && b[i + 1] == 47u8 {
        skip_trivia(b, i + 2, true)
    } else {
        i
    }
}

/// The end of the run of identifier bytes that starts at `i`.
pub open spec fn ident_end(b: Seq<u8>, i: int) -> int
    decreases b.len() - i,
{
    if 0 <= i < b.len() && is_ident_byte(b[i]) {
        ident_end(b, i + 1)
    } else {
        i
    }
}

/// The offset of the first `'` at or after `i`, or the end of `b`.
pub open spec fn quote_at_or_after(b: Seq<u8>, i: int) -> int
    decreases b.len() - i,
{
    if 0 <= i < b.len() && b[i] != 39u8 {
        quote_at_or_after(b, i + 1)
    } else {
        i
    }
}

/// The end of the character whose continuation bytes start at `i`.
pub open spec fn char_end(b: Seq<u8>, i: int) -> int
    decreases b.len() - i,
{
    if 0 <= i < b.len() && is_continuation(b[i]) {
        char_end(b, i + 1)
    } else {
        i
    }
}

/// The kind of a one-byte punctuation token.
pub open spec fn punct_kind(c: u8) -> Option<Kind> {
    if c == 61u8 {
        Some(Kind::Equal)
    } else if c == 58u8 {
        Some(Kind::Colon)
    } else if c == 42u8 {
        Some(Kind::Star)
    } else if c == 63u8 {
        Some(Kind::Question)
    } else if c == 40u8 {
        Some(Kind::Paren(Paren::Open))
    } else if c == 41u8 {
        Some(Kind::Paren(Paren::Close))
    } else if c == 124u8 {
        Some(Kind::Pipe)
    } else {
        None
    }
}

/// Kind and end of the token that starts at offset `s`: an identifier, a
/// quoted literal, a punctuation byte, or else an error token. An unclosed
/// literal is an error token running to the end; another stray byte is an
/// error token of one character.
pub open spec fn lex_at(b: Seq<u8>, s: int) -> (Kind, int) {
    let c = b[s];
    if is_ident_byte(c) {
        (Kind::Ident, ident_end(b, s + 1))
    } else if c == 39u8 {
        let q = quote_at_or_after(b, s + 1);
        if q < b.len() {
            (Kind::Literal, q + 1)
        } else {
            (Kind::Error, b.len() as int)
        }
    } else if punct_kind(c) is Some {
        (punct_kind(c)->0, s + 1)
    } else {
        (Kind::Error, char_end(b, s + 1))
    }
}

/// The tokens of `b` from offset `i` on.
pub open spec fn tokens_from(b: Seq<u8>, i: int) -> Seq<Token>
    decreases b.len() - i,
    via tokens_from_decreases
{
    if !(0 <= i <= b.len()) {
        Seq::empty()
    } else {
        let s = skip_trivia(b, i, false);
        if s >= b.len() {
            Seq::empty()
        } else {
            let (kind, e) = lex_at(b, s);
            seq![Token { span: Span { start: s as usize, end: e as usize }, kind }] + tokens_from(b, e)
        }
    }
}

/// The token sequence of the source bytes `b`.
pub open spec fn lexed(b: Seq<u8>) -> Seq<Token> {
    tokens_from(b, 0)
}

/// The span that end-of-input tokens carry: that of the last token, if any.
pub open spec fn eof_span(toks: Seq<Token>) -> Span {
    if toks.len() == 0 {
        Span { start: 0, end: 0 }
    } else {
        toks.last().span
    }
}

/// Token `i` of `toks`, or an end-of-input token past its end.
pub open spec fn token_at(toks: Seq<Token>, i: int) -> Token {
    if 0 <= i < toks.len() {
        toks[i]
    } else {
        Token { span: eof_span(toks), kind: Kind::Eof }
    }
}

/// The kinds of the `n` tokens of `toks` from position `k` on, padded with
/// end-of-input past the end.
pub open spec fn lookahead_kinds(toks: Seq<Token>, k: int, n: nat) -> Seq<Kind> {
    Seq::new(n, |j: int| token_at(toks, k + j).kind)
}

proof fn lemma_skip_trivia_bounds(b: Seq<u8>, i: int, in_comment: bool)
    requires
        0 <= i <= b.len(),
    ensures
        i <= skip_trivia(b, i, in_comment) <= b.len(),
    decreases b.len() - i,
{
    if i < b.len() {
        if in_comment {
            lemma_skip_trivia_bounds(b, i + 1, b[i] != 10u8);
        } else if is_space(b[i]) {
            lemma_skip_trivia_bounds(b, i + 1, false);
        } else if b[i] == 47u8 && i + 1 < b.len() && b[i + 1] == 47u8 {
            lemma_skip_trivia_bounds(b, i + 2, true);
        }
    }
}

proof fn lemma_ident_end_bounds(b: Seq<u8>, i: int)
    requires
        0 <= i <= b.len(),
    ensures
        i <= ident_end(b, i) <= b.len(),
    decreases b.len() - i,
{
    if i < b.len() && is_ident_byte(b[i]) {
        lemma_ident_end_bounds(b, i + 1);
    }
}

proof fn lemma_quote_bounds(b: Seq<u8>, i: int)
    requires
        0 <= i <= b.len(),
    ensures
        i <= quote_at_or_after(b, i) <= b.len(),
    decreases b.len() - i,
{
    if i < b.len() && b[i] != 39u8 {
        lemma_quote_bounds(b, i + 1);
    }
}

proof fn lemma_char_end_bounds(b: Seq<u8>, i: int)
    requires
        0 <= i <= b.len(),
    ensures
        i <= char_end(b, i) <= b.len(),
    decreases b.len() - i,
{
    if i < b.len() && is_continuation(b[i]) {
        lemma_char_end_bounds(b, i + 1);
    }
}

proof fn lemma_lex_at_bounds(b: Seq<u8>, s: int)
    requires
        0 <= s < b.len(),
    ensures
        s < lex_at(b, s).1 <= b.len(),
{
    lemma_ident_end_bounds(b, s + 1);
    lemma_quote_bounds(b, s + 1);
    lemma_char_end_bounds(b, s + 1);
}

#[via_fn]
proof fn tokens_from_decreases(b: Seq<u8>, i: int) {
    if 0 <= i <= b.len() {
        lemma_skip_trivia_bounds(b, i, false);
        let s = skip_trivia(b, i, false);
        if s < b.len() {
            lemma_lex_at_bounds(b, s);
        }
    }
}

/// The offset of the first token at or after `start`.
fn skip_trivia_at(b: &[u8], start: usize) -> (r: usize)
    requires
        start <= b@.len(),
    ensures
        r == skip_trivia(b@, start as int, false),
{
    let mut i = start;
    let mut in_comment = false;
    while i < b.len()
        invariant
            start <= i <= b@.len(),
            skip_trivia(b@, i as int, in_comment) == skip_trivia(b@, start as int, false),
        decreases b@.len() - i,
    {
        let c = b[i];
        if in_comment {
            in_comment = c != 10u8;
            i = i + 1;
        } else if c == 32u8 || c == 9u8 || c == 13u8 || c == 10u8 {
            i = i + 1;
        } else if c == 47u8 && i + 1 < b.len() && b[i + 1] == 47u8 {
            in_comment = true;
            i = i + 2;
        } else {
            return i;
        }
    }
    i
}

fn is_ident_byte_exec(c: u8) -> (r: bool)
    ensures
        r == is_ident_byte(c),
{
    (97u8 <= c && c <= 122u8) || (65u8 <= c && c <= 90u8) || (48u8 <= c && c <= 57u8) || c == 95u8
}

fn punct_kind_exec(c: u8) -> (r: Option<Kind>)
    ensures
        r == punct_kind(c),
{
    if c == 61u8 {
        Some(Kind::Equal)
    } else if c == 58u8 {
        Some(Kind::Colon)
    } else if c == 42u8 {
        Some(Kind::Star)
    } else if c == 63u8 {
        Some(Kind::Question)
    } else if c == 40u8 {
        Some(Kind::Paren(Paren::Open))
    } else if c == 41u8 {
        Some(Kind::Paren(Paren::Close))
    } else if c == 124u8 {
        Some(Kind::Pipe)
    } else {
        None
    }
}

/// Kind and end of the token that starts at `s`.
fn lex_at_exec(b: &[u8], s: usize) -> (r: (Kind, usize))
    requires
        s < b@.len(),
    ensures
        r.0 == lex_at(b@, s as int).0,
        r.1 == lex_at(b@, s as int).1,
{
    let c = b[s];
    if is_ident_byte_exec(c) {
        let mut i = s + 1;
        while i < b.len() && is_ident_byte_exec(b[i])
            invariant
                s < i <= b@.len(),
                ident_end(b@, i as int) == ident_end(b@, s + 1),
            decreases b@.len() - i,
        {
            i = i + 1;
        }
        (Kind::Ident, i)
    } else if c == 39u8 {
        let mut i = s + 1;
        while i < b.len() && b[i] != 39u8
            invariant
                s < i <= b@.len(),
                quote_at_or_after(b@, i as int) == quote_at_or_after(b@, s + 1),
            decreases b@.len() - i,
        {
            i = i + 1;
        }
        if i < b.len() {
            (Kind::Literal, i + 1)
        } else {
            (Kind::Error, b.len())
        }
    } else {
        match punct_kind_exec(c) {
            Some(kind) => (kind, s + 1),
            None => {
                let mut i = s + 1;
                while i < b.len() && 0x80u8 <= b[i] && b[i] < 0xC0u8
                    invariant
                        s < i <= b@.len(),
                        char_end(b@, i as int) == char_end(b@, s + 1),
                    decreases b@.len() - i,
                {
                    i = i + 1;
                }
                (Kind::Error, i)
            },
        }
    }
}

/// The next token at or after `pos`, or `None` at the end of the input.
fn scan_token(b: &[u8], pos: usize) -> (r: Option<Token>)
    requires
        pos <= b@.len(),
    ensures
        r is None ==> tokens_from(b@, pos as int) == Seq::<Token>::empty(),
        r matches Some(t) ==> {
            &&& t.span.end <= b@.len()
            &&& tokens_from(b@, pos as int) == seq![t] + tokens_from(b@, t.span.end as int)
        },
{
    let s = skip_trivia_at(b, pos);
    proof {
        lemma_skip_trivia_bounds(b@, pos as int, false);
    }
    if s >= b.len() {
        None
    } else {
        let (kind, e) = lex_at_exec(b, s);
        proof {
            lemma_lex_at_bounds(b@, s as int);
        }
        Some(Token::new(Span::new(s, e), kind))
    }
}

/// The lesser of `a` and `b`.
pub open spec fn min_nat(a: nat, b: nat) -> nat {
    if a <= b {
        a
    } else {
        b
    }
}

/// Scans `source` one token at a time; after the end it keeps handing out
/// end-of-input tokens that carry the span of the last token.
struct Scanner<'src> {
    source: &'src str,
    pos: usize,
    last_span: Span,
    scanned: Ghost<nat>,
}

impl<'src> Scanner<'src> {
    #[verifier::type_invariant]
    spec fn at_scanned(&self) -> bool {
        let b = self.source.spec_bytes();
        let toks = lexed(b);
        let m = min_nat(self.scanned@, toks.len());
        &&& self.pos <= b.len()
        &&& tokens_from(b, self.pos as int) == toks.skip(m as int)
        &&& self.last_span == eof_span(toks.take(m as int))
    }

    spec fn tokens(&self) -> Seq<Token> {
        lexed(self.source.spec_bytes())
    }

    fn new(source: &'src str) -> (r: Scanner<'src>)
        ensures
            r.source == source,
            r.scanned@ == 0,
    {
        proof {
            let toks = lexed(source.spec_bytes());
            assert(toks.skip(0) =~= toks);
            assert(toks.take(0) =~= Seq::<Token>::empty());
        }
        Scanner { source, pos: 0, last_span: Span::new(0, 0), scanned: Ghost(0) }
    }

    /// Token number `scanned` of the source, counting from zero.
    fn next_token_impl(&mut self) -> (r: Token)
        ensures
            final(self).source == old(self).source,
            final(self).scanned@ == old(self).scanned@ + 1,
            r == token_at(old(self).tokens(), old(self).scanned@ as int),
    {
        proof {
            use_type_invariant(&*self);
        }
        let ghost b = self.source.spec_bytes();
        let ghost toks = lexed(b);
        let ghost m = self.scanned@;
        let bytes = self.source.as_bytes();
        match scan_token(bytes, self.pos) {
            Some(t) => {
                proof {
                    let mm = min_nat(m, toks.len());
                    assert(toks.skip(mm as int).len() > 0);
                    assert(mm == m);
                    assert(toks[m as int] == toks.skip(m as int)[0]);
                    assert(toks.skip((m + 1) as int) =~= toks.skip(m as int).drop_first());
                    assert(toks.skip(m as int).drop_first() =~= tokens_from(b, t.span.end as int));
                    assert(toks.take((m + 1) as int).last() == toks[m as int]);
                }
                *self = Scanner {
                    source: self.source,
                    pos: t.span.end,
                    last_span: t.span,
                    scanned: Ghost(m + 1),
                };
                t
            },
            None => {
                proof {
                    let mm = min_nat(m, toks.len());
                    assert(toks.skip(mm as int).len() == 0);
                    assert(mm == toks.len());
                    assert(toks.take(mm as int) =~= toks);
                }
                let last = self.last_span;
                *self = Scanner {
                    source: self.source,
                    pos: self.pos,
                    last_span: last,
                    scanned: Ghost(m + 1),
                };
                Token::new(last, Kind::Eof)
            },
        }
    }
}

/// A token stream over `source` that holds the next `LOOKUP` tokens ready.
pub struct Lexer<'src, const LOOKUP: usize> {
    scanner: Scanner<'src>,
    buffer_span: Ring<Span, LOOKUP>,
    buffer_kind: Ring<Kind, LOOKUP>,
}

impl<'src, const LOOKUP: usize> Lexer<'src, LOOKUP> {
    /// The token sequence of the source text.
    pub closed spec fn tokens(&self) -> Seq<Token> {
        self.scanner.tokens()
    }

    /// The source text.
    pub closed spec fn text(&self) -> &'src str {
        self.scanner.source
    }

    /// How many tokens have been consumed; the lookahead starts at this position.
    pub closed spec fn consumed(&self) -> nat {
        (self.scanner.scanned@ - LOOKUP) as nat
    }

    /// The buffers hold the `LOOKUP` tokens from position `consumed()` on.
    pub closed spec fn wf(&self) -> bool {
        let toks = self.scanner.tokens();
        let k = self.scanner.scanned@ - LOOKUP;
        &&& LOOKUP > 0
        &&& self.scanner.scanned@ >= LOOKUP
        &&& self.buffer_kind@ == lookahead_kinds(toks, k, LOOKUP as nat)
        &&& self.buffer_span@ == Seq::new(LOOKUP as nat, |j: int| token_at(toks, k + j).span)
    }

    /// A lexer at the start of `source`, its lookahead filled.
    pub fn new(source: &'src str) -> (r: Self)
        requires
            LOOKUP > 0,
        ensures
            r.wf(),
            r.text() == source,
            r.tokens() == lexed(source.spec_bytes()),
            r.consumed() == 0,
    {
        let mut scanner = Scanner::new(source);
        let mut buffer_span = Ring::<Span, LOOKUP>::new();
        let mut buffer_kind = Ring::<Kind, LOOKUP>::new();
        let ghost toks = lexed(source.spec_bytes());
        let mut i: usize = 0;
        while i < LOOKUP
            invariant
                i <= LOOKUP,
                scanner.source == source,
                scanner.tokens() == toks,
                scanner.scanned@ == i,
                buffer_kind@.len() == LOOKUP,
                buffer_span@.len() == LOOKUP,
                forall|j: int|
                    0 <= j < i ==> #[trigger] buffer_kind@[LOOKUP - i + j] == token_at(toks, j).kind,
                forall|j: int|
                    0 <= j < i ==> #[trigger] buffer_span@[LOOKUP - i + j] == token_at(toks, j).span,
            decreases LOOKUP - i,
        {
            let t = scanner.next_token_impl();
            let ghost old_kind = buffer_kind@;
            let ghost old_span = buffer_span@;
            buffer_span.push(t.span);
            buffer_kind.push(t.kind);
            proof {
                assert(t == token_at(toks, i as int));
                assert(buffer_kind@[LOOKUP - 1] == t.kind);
                assert(buffer_span@[LOOKUP - 1] == t.span);
                assert forall|j: int| 0 <= j < i + 1 implies #[trigger] buffer_kind@[LOOKUP - (i + 1) + j]
                    == token_at(toks, j).kind by {
                    if j < i {
                        assert(buffer_kind@[LOOKUP - (i + 1) + j] == old_kind[LOOKUP - i + j]);
                    }
                }
                assert forall|j: int| 0 <= j < i + 1 implies #[trigger] buffer_span@[LOOKUP - (i + 1) + j]
                    == token_at(toks, j).span by {
                    if j < i {
                        assert(buffer_span@[LOOKUP - (i + 1) + j] == old_span[LOOKUP - i + j]);
                    }
                }
            }
            i = i + 1;
        }
        proof {
            assert(buffer_kind@ =~= lookahead_kinds(toks, 0, LOOKUP as nat)) by {
                assert forall|j: int| 0 <= j < LOOKUP implies buffer_kind@[j] == lookahead_kinds(toks, 0, LOOKUP as nat)[j] by {
                    assert(buffer_kind@[LOOKUP - LOOKUP + j] == token_at(toks, j).kind);
                }
            }
            assert(buffer_span@ =~= Seq::new(LOOKUP as nat, |j: int| token_at(toks, 0 + j).span)) by {
                assert forall|j: int| 0 <= j < LOOKUP implies buffer_span@[j] == token_at(toks, 0 + j).span by {
                    assert(buffer_span@[LOOKUP - LOOKUP + j] == token_at(toks, j).span);
                }
            }
        }
        Lexer { scanner, buffer_span, buffer_kind }
    }

    pub fn source(&self) -> (r: &'src str)
        requires
            self.wf(),
        ensures
            r == self.text(),
    {
        self.scanner.source
    }

    /// The kinds of the next `LOOKUP` tokens, padded with end-of-input past the end.
    pub fn peek_array(&self) -> (r: [Kind; LOOKUP])
        requires
            self.wf(),
        ensures
            r@ == lookahead_kinds(self.tokens(), self.consumed() as int, LOOKUP as nat),
    {
        self.buffer_kind.data()
    }

    /// The next token.
    pub fn peek_token(&self) -> (r: Token)
        requires
            self.wf(),
        ensures
            r == token_at(self.tokens(), self.consumed() as int),
    {
        Token::new(self.buffer_span[0], self.buffer_kind[0])
    }

    /// The kind of the next token.
    pub fn peek_kind(&self) -> (r: Kind)
        requires
            self.wf(),
        ensures
            r == token_at(self.tokens(), self.consumed() as int).kind,
    {
        self.buffer_kind[0]
    }

    /// Consumes the next token; the lookahead moves one token on.
    pub fn advance(&mut self)
        requires
            old(self).wf(),
        ensures
            final(self).wf(),
            final(self).text() == old(self).text(),
            final(self).tokens() == old(self).tokens(),
            final(self).consumed() == old(self).consumed() + 1,
    {
        let ghost toks = self.tokens();
        let ghost k = self.consumed() as int;
        let ghost old_kind = self.buffer_kind@;
        let ghost old_span = self.buffer_span@;
        let t = self.scanner.next_token_impl();
        self.buffer_span.push(t.span);
        self.buffer_kind.push(t.kind);
        proof {
            assert(self.buffer_kind@ =~= lookahead_kinds(toks, k + 1, LOOKUP as nat)) by {
                assert forall|j: int| 0 <= j < LOOKUP implies self.buffer_kind@[j] == lookahead_kinds(toks, k + 1, LOOKUP as nat)[j] by {
                    if j + 1 < LOOKUP {
                        assert(self.buffer_kind@[j] == old_kind[j + 1]);
                    }
                }
            }
            assert(self.buffer_span@ =~= Seq::new(LOOKUP as nat, |j: int| token_at(toks, k + 1 + j).span)) by {
                assert forall|j: int| 0 <= j < LOOKUP implies self.buffer_span@[j] == token_at(toks, k + 1 + j).span by {
                    if j + 1 < LOOKUP {
                        assert(self.buffer_span@[j] == old_span[j + 1]);
                    }
                }
            }
        }
    }

    /// Returns the next token and consumes it.
    pub fn next_token(&mut self) -> (r: Token)
        requires
            old(self).wf(),
        ensures
            final(self).wf(),
            r == token_at(old(self).tokens(), old(self).consumed() as int),
            final(self).text() == old(self).text(),
            final(self).tokens() == old(self).tokens(),
            final(self).consumed() == old(self).consumed() + 1,
    {
        let curr = self.peek_token();
        self.advance();
        curr
    }
}

proof fn lemma_no_eof_from(b: Seq<u8>, i: int)
    ensures
        forall|j: int| 0 <= j < tokens_from(b, i).len() ==> #[trigger] tokens_from(b, i)[j].kind != Kind::Eof,
    decreases b.len() - i,
{
    if 0 <= i <= b.len() {
        let s = skip_trivia(b, i, false);
        lemma_skip_trivia_bounds(b, i, false);
        if s < b.len() {
            let (kind, e) = lex_at(b, s);
            lemma_lex_at_bounds(b, s);
            lemma_no_eof_from(b, e);
            let head = Token { span: Span { start: s as usize, end: e as usize }, kind };
            assert forall|j: int| 0 <= j < tokens_from(b, i).len() implies #[trigger] tokens_from(b, i)[j].kind != Kind::Eof by {
                if j > 0 {
                    assert(tokens_from(b, i)[j] == tokens_from(b, e)[j - 1]);
                }
            }
        }
    }
}

/// The lexer yields no end-of-input token before the end of the input.
pub proof fn lemma_lexed_has_no_eof(b: Seq<u8>)
    ensures
        forall|j: int| 0 <= j < lexed(b).len() ==> #[trigger] lexed(b)[j].kind != Kind::Eof,
{
    lemma_no_eof_from(b, 0);
}

/// All tokens of `source`, in order, without the end-of-input token.
pub fn tokenize(source: &str) -> (r: Vec<Token>)
    ensures
        r@ == lexed(source.spec_bytes()),
{
    let mut lexer = Lexer::<1>::new(source);
    let ghost toks = lexed(source.spec_bytes());
    proof {
        lemma_lexed_has_no_eof(source.spec_bytes());
    }
    let mut r: Vec<Token> = Vec::new();
    while lexer.peek_kind() != Kind::Eof
        invariant
            lexer.wf(),
            lexer.tokens() == toks,
            forall|j: int| 0 <= j < toks.len() ==> #[trigger] toks[j].kind != Kind::Eof,
            lexer.consumed() <= toks.len(),
            r@ == toks.take(lexer.consumed() as int),
        decreases toks.len() - lexer.consumed(),
    {
        let ghost k = lexer.consumed() as int;
        let t = lexer.next_token();
        proof {
            assert(k < toks.len());
            assert(toks.take(k + 1) =~= toks.take(k).push(t));
        }
        r.push(t);
    }
    proof {
        assert(lexer.consumed() == toks.len());
        assert(toks.take(toks.len() as int) =~= toks);
    }
    r
}

} // verus!
