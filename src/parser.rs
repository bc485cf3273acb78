//! Recursive-descent parser: records an event log, then replays it into a tree.

use crate::lexer::{lemma_lexed_has_no_eof, lexed, lookahead_kinds, token_at, Lexer};
use crate::span::Location;
use crate::token::{self, Paren, Token};
use vstd::prelude::*;
use vstd::string::StringSliceAdditionalSpecFns;

verus! {

broadcast use vstd::std_specs::vec::group_vec_axioms;

/// A node of the concrete syntax tree.
#[derive(Debug)]
pub struct Tree {
    pub kind: Kind,
    pub children: Vec<Child>,
}

/// One step of the parse: a node opens or closes, or a token is consumed,
/// kept as a leaf (`Advance`) or dropped (`Skip`).
#[derive(Debug, PartialEq, Eq, Structural, Clone, Copy)]
pub enum Event {
    Open { kind: Kind },
    Close,
    Skip,
    Advance { token: Token },
}

#[derive(Debug)]
pub enum Child {
    Tree(Tree),
    Token(Token),
}

#[derive(Debug, PartialEq, Eq, Structural, Clone, Copy)]
pub enum Kind {
    Grammar,
    Rule,
    Sequence,
    ZeroOrMore,
    Optional,
    Branch,
    Error,
}

/// A node opened and not yet closed: the position of its `Open` event.
pub struct MarkOpen {
    pub index: usize,
}

/// A node already closed: the position of its `Open` event.
pub struct MarkClose {
    pub index: usize,
}

/// A syntax error: the token found, what was expected if one kind was, and
/// where the token starts.
#[derive(Debug)]
pub struct ParseError {
    pub expected: Option<token::Kind>,
    pub found: Token,
    pub location: Location,
}

/// The events that describe the node `t`: it opens, its children follow in
/// order (a token as `Advance`), and it closes.
pub open spec fn tree_events(t: Tree) -> Seq<Event>
    decreases t, 0int,
{
    seq![Event::Open { kind: t.kind }] + list_events(t.children@, t.children.len() as int) + seq![
        Event::Close,
    ]
}

/// The events of the first `n` children in `cs`.
pub open spec fn list_events(cs: Seq<Child>, n: int) -> Seq<Event>
    decreases cs, n,
{
    if 0 < n <= cs.len() {
        list_events(cs, n - 1) + child_events(cs[n - 1])
    } else {
        Seq::empty()
    }
}

/// The events of one child.
pub open spec fn child_events(c: Child) -> Seq<Event>
    decreases c, 0int,
{
    match c {
        Child::Token(t) => seq![Event::Advance { token: t }],
        Child::Tree(t) => tree_events(t),
    }
}

/// `ev` without its `Skip` events.
pub open spec fn strip(ev: Seq<Event>) -> Seq<Event>
    decreases ev.len(),
{
    if ev.len() == 0 {
        Seq::empty()
    } else if ev.last() is Skip {
        strip(ev.drop_last())
    } else {
        strip(ev.drop_last()).push(ev.last())
    }
}

/// The events of a node still open: it opens and lists its children so far.
pub open spec fn open_events(t: Tree) -> Seq<Event> {
    seq![Event::Open { kind: t.kind }] + list_events(t.children@, t.children.len() as int)
}

/// The events of the nodes still open on `st`, outermost first.
pub open spec fn stack_events(st: Seq<Tree>) -> Seq<Event>
    decreases st.len(),
{
    if st.len() == 0 {
        Seq::empty()
    } else {
        stack_events(st.drop_last()) + open_events(st.last())
    }
}

proof fn lemma_list_events_push(cs: Seq<Child>, c: Child, m: int)
    requires
        0 <= m <= cs.len(),
    ensures
        list_events(cs.push(c), m) == list_events(cs, m),
    decreases m,
{
    if m > 0 {
        lemma_list_events_push(cs, c, m - 1);
        assert(cs.push(c)[m - 1] == cs[m - 1]);
    }
}

/// Adding a child to a node adds that child's events to the node's own.
proof fn lemma_open_events_push(t: Tree, t2: Tree, c: Child)
    requires
        t2.kind == t.kind,
        t2.children@ == t.children@.push(c),
    ensures
        open_events(t2) == open_events(t) + child_events(c),
{
    let cs = t.children@;
    lemma_list_events_push(cs, c, cs.len() as int);
    assert(t2.children@[cs.len() as int] == c);
    assert(list_events(t2.children@, t2.children.len() as int) == list_events(cs, cs.len() as int) + child_events(c));
    assert(open_events(t2) =~= open_events(t) + child_events(c));
}

/// How a single event changes the nesting depth.
pub open spec fn delta(e: Event) -> int {
    match e {
        Event::Open { .. } => 1,
        Event::Close => -1,
        _ => 0,
    }
}

/// Opens minus closes in `ev`.
pub open spec fn depth(ev: Seq<Event>) -> int
    decreases ev.len(),
{
    if ev.len() == 0 {
        0
    } else {
        depth(ev.drop_last()) + delta(ev.last())
    }
}

/// Every node that `ev` opens it also closes, and it never closes more than it opened.
pub open spec fn balanced(ev: Seq<Event>) -> bool {
    &&& depth(ev) == 0
    &&& forall|n: int| 0 <= n <= ev.len() ==> #[trigger] depth(ev.take(n)) >= 0
}

/// `ev` is exactly one node: it opens first, closes last, and the first node
/// stays open in between.
pub open spec fn single_tree(ev: Seq<Event>) -> bool {
    &&& ev.len() >= 2
    &&& ev[0] is Open
    &&& ev.last() is Close
    &&& depth(ev) == 0
    &&& forall|n: int| 1 <= n < ev.len() ==> #[trigger] depth(ev.take(n)) >= 1
}

proof fn lemma_depth_append(a: Seq<Event>, b: Seq<Event>)
    ensures
        depth(a + b) == depth(a) + depth(b),
    decreases b.len(),
{
    if b.len() > 0 {
        assert((a + b).drop_last() =~= a + b.drop_last());
        lemma_depth_append(a, b.drop_last());
    } else {
        assert(a + b =~= a);
    }
}

proof fn lemma_balanced_append(a: Seq<Event>, b: Seq<Event>)
    requires
        balanced(a),
        balanced(b),
    ensures
        balanced(a + b),
{
    lemma_depth_append(a, b);
    assert forall|n: int| 0 <= n <= (a + b).len() implies #[trigger] depth((a + b).take(n)) >= 0 by {
        if n <= a.len() {
            assert((a + b).take(n) =~= a.take(n));
        } else {
            assert((a + b).take(n) =~= a + b.take(n - a.len()));
            lemma_depth_append(a, b.take(n - a.len()));
            assert(a.take(a.len() as int) =~= a);
        }
    }
}

proof fn lemma_depth_one(e: Event)
    ensures
        depth(seq![e]) == delta(e),
{
    assert(seq![e].drop_last() =~= Seq::<Event>::empty());
    assert(depth(seq![e]) == depth(seq![e].drop_last()) + delta(seq![e].last()));
}

proof fn lemma_balanced_single(e: Event)
    requires
        !(e is Open),
        !(e is Close),
    ensures
        balanced(seq![e]),
{
    lemma_depth_one(e);
    assert forall|n: int| 0 <= n <= 1 implies #[trigger] depth(seq![e].take(n)) >= 0 by {
        if n == 0 {
            assert(seq![e].take(0) =~= Seq::<Event>::empty());
        } else {
            assert(seq![e].take(1) =~= seq![e]);
        }
    }
}

proof fn lemma_balanced_empty()
    ensures
        balanced(Seq::<Event>::empty()),
{
    assert forall|n: int| 0 <= n <= 0 implies #[trigger] depth(Seq::<Event>::empty().take(n)) >= 0 by {
        assert(Seq::<Event>::empty().take(n) =~= Seq::<Event>::empty());
    }
}

/// Wrapping a balanced run in an open and a close gives one balanced node.
proof fn lemma_balanced_wrap(o: Event, body: Seq<Event>)
    requires
        o is Open,
        balanced(body),
    ensures
        balanced(seq![o] + body + seq![Event::Close]),
        single_tree(seq![o] + body + seq![Event::Close]),
{
    let w = seq![o] + body + seq![Event::Close];
    lemma_depth_one(o);
    lemma_depth_one(Event::Close);
    lemma_depth_append(seq![o], body);
    lemma_depth_append(seq![o] + body, seq![Event::Close]);
    assert forall|n: int| 1 <= n < w.len() implies #[trigger] depth(w.take(n)) >= 1 by {
        assert(w.take(n) =~= seq![o] + body.take(n - 1));
        lemma_depth_append(seq![o], body.take(n - 1));
        assert(depth(body.take(n - 1)) >= 0);
    }
    assert forall|n: int| 0 <= n <= w.len() implies #[trigger] depth(w.take(n)) >= 0 by {
        if n == 0 {
            assert(w.take(0) =~= Seq::<Event>::empty());
        } else if n == w.len() {
            assert(w.take(n) =~= w);
        }
    }
}

/// Changing the kind of an open event keeps the depth of every prefix.
proof fn lemma_depth_update(ev: Seq<Event>, i: int, e: Event)
    requires
        0 <= i < ev.len(),
        ev[i] is Open,
        e is Open,
    ensures
        forall|n: int| 0 <= n <= ev.len() ==> #[trigger] depth(ev.update(i, e).take(n)) == depth(ev.take(n)),
{
    assert forall|n: int| 0 <= n <= ev.len() implies #[trigger] depth(ev.update(i, e).take(n)) == depth(ev.take(n)) by {
        lemma_depth_update_n(ev, i, e, n);
    }
}

proof fn lemma_depth_update_n(ev: Seq<Event>, i: int, e: Event, n: int)
    requires
        0 <= i < ev.len(),
        ev[i] is Open,
        e is Open,
        0 <= n <= ev.len(),
    ensures
        depth(ev.update(i, e).take(n)) == depth(ev.take(n)),
    decreases n,
{
    if n > 0 {
        assert(ev.update(i, e).take(n).drop_last() =~= ev.update(i, e).take(n - 1));
        assert(ev.take(n).drop_last() =~= ev.take(n - 1));
        lemma_depth_update_n(ev, i, e, n - 1);
    }
}

/// A parser over `source` and the events it has recorded.
pub struct Parser<'src> {
    lexer: Lexer<'src, 2>,
    events: Vec<Event>,
}

impl<'src> Parser<'src> {
    /// The lexer is sound, has not run past the tokens, and the source's
    /// length leaves room to count lines and columns.
    pub closed spec fn wf(&self) -> bool {
        &&& self.lexer.wf()
        &&& self.lexer.consumed() <= self.lexer.tokens().len()
        &&& self.lexer.text().spec_bytes().len() < usize::MAX
        &&& self.lexer.tokens() == lexed(self.lexer.text().spec_bytes())
    }

    /// The tokens of the source.
    pub closed spec fn tokens(&self) -> Seq<Token> {
        self.lexer.tokens()
    }

    /// How many tokens have been consumed.
    pub closed spec fn pos(&self) -> nat {
        self.lexer.consumed()
    }

    /// The events recorded so far.
    pub closed spec fn events(&self) -> Seq<Event> {
        self.events@
    }

    /// The source text.
    pub closed spec fn text(&self) -> &'src str {
        self.lexer.text()
    }

    /// The next token, or end-of-input.
    pub open spec fn current(&self) -> Token {
        token_at(self.tokens(), self.pos() as int)
    }

    /// All tokens have been consumed.
    pub open spec fn at_end(&self) -> bool {
        self.pos() >= self.tokens().len()
    }

    /// The tokens and the source stay as they were.
    pub open spec fn same_input(&self, other: &Parser<'src>) -> bool {
        &&& self.tokens() == other.tokens()
        &&& self.text() == other.text()
    }

    pub fn new(source: &'src str) -> (r: Self)
        requires
            source.spec_bytes().len() < usize::MAX,
        ensures
            r.wf(),
            r.text() == source,
            r.tokens() == lexed(source.spec_bytes()),
            r.pos() == 0,
            r.events() == Seq::<Event>::empty(),
    {
        Parser { lexer: Lexer::new(source), events: Vec::new() }
    }

    proof fn lemma_end_is_eof(&self)
        requires
            self.wf(),
        ensures
            (self.current().kind == token::Kind::Eof) == self.at_end(),
    {
        lemma_lexed_has_no_eof(self.lexer.text().spec_bytes());
    }

    fn eof(&self) -> (r: bool)
        requires
            self.wf(),
        ensures
            r == self.at_end(),
    {
        proof {
            self.lemma_end_is_eof();
        }
        self.lexer.peek_kind() == token::Kind::Eof
    }

    /// Consumes the next token and records it as a leaf.
    fn advance(&mut self)
        requires
            old(self).wf(),
            !old(self).at_end(),
        ensures
            final(self).wf(),
            final(self).same_input(old(self)),
            final(self).pos() == old(self).pos() + 1,
            final(self).events() == old(self).events().push(Event::Advance { token: old(self).current() }),
    {
        let token = self.lexer.next_token();
        self.events.push(Event::Advance { token });
    }

    /// Consumes the next token without keeping it.
    fn skip(&mut self)
        requires
            old(self).wf(),
            !old(self).at_end(),
        ensures
            final(self).wf(),
            final(self).same_input(old(self)),
            final(self).pos() == old(self).pos() + 1,
            final(self).events() == old(self).events().push(Event::Skip),
    {
        self.lexer.advance();
        self.events.push(Event::Skip);
    }

    /// Skips the next token if it has the kind `kind`.
    fn skip_if(&mut self, kind: token::Kind) -> (r: bool)
        requires
            old(self).wf(),
            kind != token::Kind::Eof,
        ensures
            final(self).wf(),
            final(self).same_input(old(self)),
            r == (old(self).current().kind == kind),
            r ==> final(self).pos() == old(self).pos() + 1 && final(self).events() == old(
                self,
            ).events().push(Event::Skip),
            !r ==> final(self).pos() == old(self).pos() && final(self).events() == old(self).events(),
    {
        proof {
            self.lemma_end_is_eof();
        }
        if self.lexer.peek_kind() == kind {
            self.skip();
            true
        } else {
            false
        }
    }

    /// The error for the next token, expected to be of the kind `expected`.
    fn error_here(&self, expected: Option<token::Kind>) -> (r: ParseError)
        requires
            self.wf(),
        ensures
            r.found == self.current(),
            r.expected == expected,
    {
        let found = self.lexer.peek_token();
        let location = found.span.location(self.lexer.source());
        ParseError { expected, found, location }
    }

    /// Skips the next token, which must be of the kind `kind`.
    fn skip_expect(&mut self, kind: token::Kind) -> (r: Result<(), ParseError>)
        requires
            old(self).wf(),
            kind != token::Kind::Eof,
        ensures
            final(self).wf(),
            final(self).same_input(old(self)),
            r is Ok == (old(self).current().kind == kind),
            r is Ok ==> final(self).pos() == old(self).pos() + 1 && final(self).events() == old(
                self,
            ).events().push(Event::Skip),
            !(r is Ok) ==> final(self).pos() == old(self).pos() && final(self).events() == old(self).events(),
            r matches Err(e) ==> e.found == old(self).current() && e.expected == Some(kind),
    {
        if !self.skip_if(kind) {
            return Err(self.error_here(Some(kind)));
        }
        Ok(())
    }

    /// Records the opening of a node whose kind is decided when it closes.
    fn open(&mut self) -> (m: MarkOpen)
        requires
            old(self).wf(),
        ensures
            final(self).wf(),
            final(self).same_input(old(self)),
            final(self).pos() == old(self).pos(),
            final(self).events() == old(self).events().push(Event::Open { kind: Kind::Error }),
            m.index == old(self).events().len(),
    {
        self.events.push(Event::Open { kind: Kind::Error });
        MarkOpen { index: self.events.len() - 1 }
    }

    /// Closes the node opened at `opened`, giving it the kind `kind`.
    fn close(&mut self, opened: MarkOpen, kind: Kind) -> (m: MarkClose)
        requires
            old(self).wf(),
            opened.index < old(self).events().len(),
            old(self).events()[opened.index as int] is Open,
        ensures
            final(self).wf(),
            final(self).same_input(old(self)),
            final(self).pos() == old(self).pos(),
            final(self).events() == old(self).events().update(opened.index as int, Event::Open { kind }).push(
                Event::Close,
            ),
            m.index == opened.index,
    {
        self.events.set(opened.index, Event::Open { kind });
        self.events.push(Event::Close);
        MarkClose { index: opened.index }
    }

    /// Opens a node just before the already closed node at `closed`, so that
    /// the new node will enclose it.
    fn open_before(&mut self, closed: MarkClose) -> (m: MarkOpen)
        requires
            old(self).wf(),
            closed.index <= old(self).events().len(),
        ensures
            final(self).wf(),
            final(self).same_input(old(self)),
            final(self).pos() == old(self).pos(),
            final(self).events() == old(self).events().insert(closed.index as int, Event::Open { kind: Kind::Error }),
            m.index == closed.index,
    {
        self.events.insert(closed.index, Event::Open { kind: Kind::Error });
        MarkOpen { index: closed.index }
    }

    /// Consumes the next token as a leaf; it must be of the kind `kind`.
    fn expect(&mut self, kind: token::Kind) -> (r: Result<(), ParseError>)
        requires
            old(self).wf(),
            kind != token::Kind::Eof,
        ensures
            final(self).wf(),
            final(self).same_input(old(self)),
            r is Ok == (old(self).current().kind == kind),
            r is Ok ==> final(self).pos() == old(self).pos() + 1 && final(self).events() == old(
                self,
            ).events().push(Event::Advance { token: old(self).current() }),
            !(r is Ok) ==> final(self).pos() == old(self).pos() && final(self).events() == old(self).events(),
            r matches Err(e) ==> e.found == old(self).current() && e.expected == Some(kind),
    {
        if self.advance_if(kind) {
            Ok(())
        } else {
            Err(self.error_here(Some(kind)))
        }
    }

    /// Consumes the next token as a leaf if it has the kind `kind`.
    fn advance_if(&mut self, kind: token::Kind) -> (r: bool)
        requires
            old(self).wf(),
            kind != token::Kind::Eof,
        ensures
            final(self).wf(),
            final(self).same_input(old(self)),
            r == (old(self).current().kind == kind),
            r ==> final(self).pos() == old(self).pos() + 1 && final(self).events() == old(
                self,
            ).events().push(Event::Advance { token: old(self).current() }),
            !r ==> final(self).pos() == old(self).pos() && final(self).events() == old(self).events(),
    {
        proof {
            self.lemma_end_is_eof();
        }
        if self.lexer.peek_kind() == kind {
            self.advance();
            true
        } else {
            false
        }
    }

    /// The kinds of the next two tokens.
    pub fn peek_array(&mut self) -> (r: [token::Kind; 2])
        requires
            old(self).wf(),
        ensures
            *final(self) == *old(self),
            r@ == lookahead_kinds(old(self).tokens(), old(self).pos() as int, 2),
    {
        self.lexer.peek_array()
    }

    /// The kind of the next token.
    pub fn peek(&mut self) -> (r: token::Kind)
        requires
            old(self).wf(),
        ensures
            *final(self) == *old(self),
            r == old(self).current().kind,
    {
        self.lexer.peek_kind()
    }
}

/// The kind of token `k` of `toks`, end-of-input past the end.
pub open spec fn kind_at(toks: Seq<Token>, k: int) -> token::Kind {
    token_at(toks, k).kind
}

/// A postfix operator: `*` or `?`.
pub open spec fn is_postfix(k: token::Kind) -> bool {
    k == token::Kind::Star || k == token::Kind::Question
}

/// Where the term that starts at token `k` ends, if one does:
/// term := (Ident | Literal) ('*' | '?')? | '(' expr ')' ('*' | '?')?
pub open spec fn term_end(toks: Seq<Token>, k: int) -> Option<int>
    decreases toks.len() + 2 - k, 0int,
{
    if !(0 <= k <= toks.len()) {
        None
    } else {
        let c = kind_at(toks, k);
        if c == token::Kind::Ident || c == token::Kind::Literal {
            if is_postfix(kind_at(toks, k + 1)) {
                Some(k + 2)
            } else {
                Some(k + 1)
            }
        } else if c == token::Kind::Paren(Paren::Open) {
            match expr_end(toks, k + 1) {
                Some(m) => if kind_at(toks, m) == token::Kind::Paren(Paren::Close) {
                    if is_postfix(kind_at(toks, m + 1)) {
                        Some(m + 2)
                    } else {
                        Some(m + 1)
                    }
                } else {
                    None
                },
                None => None,
            }
        } else {
            None
        }
    }
}

/// Where the expression that starts at token `k` ends, if one does: a term,
/// then what `expr_rest` accepts.
pub open spec fn expr_end(toks: Seq<Token>, k: int) -> Option<int>
    decreases toks.len() + 2 - k, 2int,
{
    if !(0 <= k <= toks.len()) {
        None
    } else {
        match term_end(toks, k) {
            Some(m) => if k < m <= toks.len() + 1 {
                expr_rest(toks, m)
            } else {
                None
            },
            None => None,
        }
    }
}

/// Where an expression ends that has read its terms up to token `m`: a `|`
/// is passed over, a term is read, and anything else ends it, as does an
/// identifier followed by `=` (the start of the next rule).
pub open spec fn expr_rest(toks: Seq<Token>, m: int) -> Option<int>
    decreases toks.len() + 2 - m, 1int,
{
    if !(0 <= m <= toks.len()) {
        None
    } else {
        let c = kind_at(toks, m);
        if c == token::Kind::Pipe {
            expr_rest(toks, m + 1)
        } else if c == token::Kind::Ident && kind_at(toks, m + 1) == token::Kind::Equal {
            Some(m)
        } else if c == token::Kind::Ident || c == token::Kind::Literal || c == token::Kind::Paren(
            Paren::Open,
        ) {
            match term_end(toks, m) {
                Some(m2) => if m < m2 <= toks.len() + 1 {
                    expr_rest(toks, m2)
                } else {
                    None
                },
                None => None,
            }
        } else {
            Some(m)
        }
    }
}

/// Where the rule that starts at token `k` ends, if one does: rule := Ident '=' expr
pub open spec fn rule_end(toks: Seq<Token>, k: int) -> Option<int> {
    if kind_at(toks, k) == token::Kind::Ident && kind_at(toks, k + 1) == token::Kind::Equal {
        expr_end(toks, k + 2)
    } else {
        None
    }
}

/// Whether the tokens from `k` on are a sequence of rules: file := rule*
pub open spec fn rules_from(toks: Seq<Token>, k: int) -> bool
    decreases toks.len() + 2 - k,
{
    if !(0 <= k <= toks.len()) {
        false
    } else if k == toks.len() {
        true
    } else {
        match rule_end(toks, k) {
            Some(m) => k < m <= toks.len() && rules_from(toks, m),
            None => false,
        }
    }
}

/// The node kind that a postfix operator gives: `*` a repetition, `?` an option.
pub open spec fn postfix_node(k: token::Kind) -> Kind {
    if k == token::Kind::Star {
        Kind::ZeroOrMore
    } else {
        Kind::Optional
    }
}

/// The events of the term at token `k`: an identifier or literal is a leaf,
/// a group `( ... )` is its inner branch node between two skipped
/// parentheses, and a postfix `*` or `?` wraps what precedes it in a
/// `ZeroOrMore` or `Optional` node (the operator itself is skipped).
pub open spec fn term_events(toks: Seq<Token>, k: int) -> Seq<Event>
    decreases toks.len() + 2 - k, 0int,
{
    if !(0 <= k <= toks.len()) {
        Seq::empty()
    } else {
        let c = kind_at(toks, k);
        let leaf = Event::Advance { token: token_at(toks, k) };
        if c == token::Kind::Ident || c == token::Kind::Literal {
            if is_postfix(kind_at(toks, k + 1)) {
                seq![Event::Open { kind: postfix_node(kind_at(toks, k + 1)) }, leaf, Event::Skip, Event::Close]
            } else {
                seq![leaf]
            }
        } else if c == token::Kind::Paren(Paren::Open) {
            let inner = expr_events(toks, k + 1);
            match expr_end(toks, k + 1) {
                Some(m) => if is_postfix(kind_at(toks, m + 1)) {
                    seq![Event::Skip, Event::Open { kind: postfix_node(kind_at(toks, m + 1)) }] + inner
                        + seq![Event::Skip, Event::Skip, Event::Close]
                } else {
                    seq![Event::Skip] + inner + seq![Event::Skip]
                },
                None => Seq::empty(),
            }
        } else {
            Seq::empty()
        }
    }
}

/// The events of the expression at token `k`: a `Branch` node whose children
/// are `Sequence` nodes, one for each run of terms between `|`s (each `|`
/// closes the sequence before it, inside which it is skipped).
pub open spec fn expr_events(toks: Seq<Token>, k: int) -> Seq<Event>
    decreases toks.len() + 2 - k, 2int,
{
    if !(0 <= k <= toks.len()) {
        Seq::empty()
    } else {
        match term_end(toks, k) {
            Some(m) => if k < m <= toks.len() + 1 {
                seq![Event::Open { kind: Kind::Branch }, Event::Open { kind: Kind::Sequence }]
                    + term_events(toks, k) + expr_rest_events(toks, m) + seq![Event::Close, Event::Close]
            } else {
                Seq::empty()
            },
            None => Seq::empty(),
        }
    }
}

/// The events an expression adds from token `m` on, as `expr_rest` reads it.
pub open spec fn expr_rest_events(toks: Seq<Token>, m: int) -> Seq<Event>
    decreases toks.len() + 2 - m, 1int,
{
    if !(0 <= m <= toks.len()) {
        Seq::empty()
    } else {
        let c = kind_at(toks, m);
        if c == token::Kind::Pipe {
            seq![Event::Skip, Event::Close, Event::Open { kind: Kind::Sequence }] + expr_rest_events(
                toks,
                m + 1,
            )
        } else if c == token::Kind::Ident && kind_at(toks, m + 1) == token::Kind::Equal {
            Seq::empty()
        } else if c == token::Kind::Ident || c == token::Kind::Literal || c == token::Kind::Paren(
            Paren::Open,
        ) {
            match term_end(toks, m) {
                Some(m2) => if m < m2 <= toks.len() + 1 {
                    term_events(toks, m) + expr_rest_events(toks, m2)
                } else {
                    Seq::empty()
                },
                None => Seq::empty(),
            }
        } else {
            Seq::empty()
        }
    }
}

/// The events of the rule at token `k`: a `Rule` node holding its name as a
/// leaf, then (the `=` skipped) the events of its expression.
pub open spec fn rule_events(toks: Seq<Token>, k: int) -> Seq<Event> {
    seq![Event::Open { kind: Kind::Rule }, Event::Advance { token: token_at(toks, k) }, Event::Skip]
        + expr_events(toks, k + 2) + seq![Event::Close]
}

/// The events of the rules from token `k` to the end.
pub open spec fn rules_events(toks: Seq<Token>, k: int) -> Seq<Event>
    decreases toks.len() + 2 - k,
{
    if !(0 <= k < toks.len()) {
        Seq::empty()
    } else {
        match rule_end(toks, k) {
            Some(m) => if k < m <= toks.len() {
                rule_events(toks, k) + rules_events(toks, m)
            } else {
                Seq::empty()
            },
            None => Seq::empty(),
        }
    }
}

/// The events of a whole file from token `k` on: one `Grammar` node holding its rules.
pub open spec fn file_events(toks: Seq<Token>, k: int) -> Seq<Event> {
    seq![Event::Open { kind: Kind::Grammar }] + rules_events(toks, k) + seq![Event::Close]
}

/// A branch node whose finished sequences are `done`, whose last sequence
/// holds `cur` so far, and which the events `rest` complete.
pub open spec fn branch_frame(done: Seq<Event>, cur: Seq<Event>, rest: Seq<Event>) -> Seq<Event> {
    seq![Event::Open { kind: Kind::Branch }] + done + seq![Event::Open { kind: Kind::Sequence }] + cur
        + rest + seq![Event::Close, Event::Close]
}

proof fn lemma_frame_pipe(done: Seq<Event>, cur: Seq<Event>, rest: Seq<Event>)
    ensures
        branch_frame(
            done,
            cur,
            seq![Event::Skip, Event::Close, Event::Open { kind: Kind::Sequence }] + rest,
        ) == branch_frame(
            done + seq![Event::Open { kind: Kind::Sequence }] + cur + seq![Event::Skip, Event::Close],
            Seq::empty(),
            rest,
        ),
{
    assert(branch_frame(
        done,
        cur,
        seq![Event::Skip, Event::Close, Event::Open { kind: Kind::Sequence }] + rest,
    ) =~= branch_frame(
        done + seq![Event::Open { kind: Kind::Sequence }] + cur + seq![Event::Skip, Event::Close],
        Seq::empty(),
        rest,
    ));
}

proof fn lemma_frame_term(done: Seq<Event>, cur: Seq<Event>, t: Seq<Event>, rest: Seq<Event>)
    ensures
        branch_frame(done, cur, t + rest) == branch_frame(done, cur + t, rest),
{
    assert(branch_frame(done, cur, t + rest) =~= branch_frame(done, cur + t, rest));
}

/// `after` is `before` with more events appended.
pub open spec fn extends(before: Seq<Event>, after: Seq<Event>) -> bool {
    before.len() <= after.len() && after.take(before.len() as int) == before
}

proof fn lemma_single_tree_balanced(ev: Seq<Event>)
    requires
        single_tree(ev),
    ensures
        balanced(ev),
{
    assert forall|n: int| 0 <= n <= ev.len() implies #[trigger] depth(ev.take(n)) >= 0 by {
        if n == 0 {
            assert(ev.take(0) =~= Seq::<Event>::empty());
        } else if n == ev.len() {
            assert(ev.take(n) =~= ev);
        }
    }
}

/// term := (Ident | Literal) ('*' | '?')? | '(' expr ')' ('*' | '?')?
fn term(p: &mut Parser) -> (r: Result<(), ParseError>)
    requires
        old(p).wf(),
    ensures
        final(p).wf(),
        final(p).same_input(old(p)),
        final(p).pos() >= old(p).pos(),
        r is Ok <==> term_end(old(p).tokens(), old(p).pos() as int) is Some,
        r is Ok ==> final(p).pos() == term_end(old(p).tokens(), old(p).pos() as int)->0,
        r is Ok ==> final(p).events().skip(old(p).events().len() as int) == term_events(
            old(p).tokens(),
            old(p).pos() as int,
        ),
        r is Ok ==> final(p).pos() > old(p).pos() && extends(old(p).events(), final(p).events())
            && balanced(final(p).events().skip(old(p).events().len() as int)),
        r matches Err(e) ==> e.found == final(p).current(),
    decreases old(p).tokens().len() - old(p).pos(), 0int,
{
    let ghost ev0 = p.events();
    let ghost n0 = ev0.len() as int;
    let kind = p.peek();
    proof {
        p.lemma_end_is_eof();
    }
    if kind == token::Kind::Ident || kind == token::Kind::Literal {
        let ahead = p.peek_array();
        if ahead[1] == token::Kind::Star || ahead[1] == token::Kind::Question {
            let node = if ahead[1] == token::Kind::Star {
                Kind::ZeroOrMore
            } else {
                Kind::Optional
            };
            let mark = p.open();
            let ghost t = p.current();
            p.advance();
            proof {
                p.lemma_end_is_eof();
                assert(p.current().kind == ahead[1]);
            }
            p.skip();
            p.close(mark, node);
            proof {
                let body = seq![Event::Advance { token: t }, Event::Skip];
                let seg = p.events().skip(n0);
                assert(seg =~= seq![Event::Open { kind: node }] + body + seq![Event::Close]);
                lemma_balanced_single(Event::Advance { token: t });
                lemma_balanced_single(Event::Skip);
                assert(body =~= seq![Event::Advance { token: t }] + seq![Event::Skip]);
                lemma_balanced_append(seq![Event::Advance { token: t }], seq![Event::Skip]);
                lemma_balanced_wrap(Event::Open { kind: node }, body);
                assert(p.events().take(n0) =~= ev0);
            }
        } else {
            let ghost t = p.current();
            p.advance();
            proof {
                assert(p.events().skip(n0) =~= seq![Event::Advance { token: t }]);
                lemma_balanced_single(Event::Advance { token: t });
                assert(p.events().take(n0) =~= ev0);
            }
        }
        Ok(())
    } else if kind == token::Kind::Paren(Paren::Open) {
        p.skip();
        let ghost ev_skip = p.events();
        let close = match expr(p) {
            Ok(m) => m,
            Err(e) => {
                return Err(e);
            },
        };
        let ghost ev1 = p.events();
        let ghost node = ev1.skip(n0 + 1);
        if let Err(e) = p.skip_expect(token::Kind::Paren(Paren::Close)) {
            return Err(e);
        }
        proof {
            assert(ev1 =~= ev1.take(n0 + 1) + node);
            assert(ev1 =~= ev0.push(Event::Skip) + node);
            lemma_single_tree_balanced(node);
            lemma_balanced_single(Event::Skip);
            p.lemma_end_is_eof();
        }
        let suffix = p.peek();
        if suffix == token::Kind::Star || suffix == token::Kind::Question {
            let wrap = if suffix == token::Kind::Star {
                Kind::ZeroOrMore
            } else {
                Kind::Optional
            };
            let mark = p.open_before(close);
            p.skip();
            p.close(mark, wrap);
            proof {
                let inner = node + seq![Event::Skip, Event::Skip];
                assert(seq![Event::Skip, Event::Skip] =~= seq![Event::Skip] + seq![Event::Skip]);
                lemma_balanced_append(seq![Event::Skip], seq![Event::Skip]);
                lemma_balanced_append(node, seq![Event::Skip, Event::Skip]);
                lemma_balanced_wrap(Event::Open { kind: wrap }, inner);
                let wrapped = seq![Event::Open { kind: wrap }] + inner + seq![Event::Close];
                lemma_balanced_append(seq![Event::Skip], wrapped);
                assert(p.events().skip(n0) =~= seq![Event::Skip] + wrapped);
                assert(p.events().take(n0) =~= ev0);
                assert(p.events().skip(n0) =~= seq![Event::Skip, Event::Open { kind: wrap }] + node
                    + seq![Event::Skip, Event::Skip, Event::Close]);
            }
        } else {
            proof {
                lemma_balanced_append(seq![Event::Skip], node);
                lemma_balanced_append(seq![Event::Skip] + node, seq![Event::Skip]);
                assert(p.events().skip(n0) =~= seq![Event::Skip] + node + seq![Event::Skip]);
                assert(p.events().take(n0) =~= ev0);
            }
        }
        Ok(())
    } else {
        Err(p.error_here(None))
    }
}

/// expr := term (('|' term)* | term*), grouped as a choice of sequences; a
/// rule boundary (`Ident '='`) ends it.
#[verifier::loop_isolation(false)]
#[verifier::rlimit(100)]
fn expr(p: &mut Parser) -> (r: Result<MarkClose, ParseError>)
    requires
        old(p).wf(),
    ensures
        final(p).wf(),
        final(p).same_input(old(p)),
        final(p).pos() >= old(p).pos(),
        r is Ok <==> expr_end(old(p).tokens(), old(p).pos() as int) is Some,
        r is Ok ==> final(p).pos() == expr_end(old(p).tokens(), old(p).pos() as int)->0,
        r is Ok ==> final(p).events().skip(old(p).events().len() as int) == expr_events(
            old(p).tokens(),
            old(p).pos() as int,
        ),
        r matches Ok(m) ==> final(p).pos() > old(p).pos() && extends(old(p).events(), final(p).events())
            && m.index == old(p).events().len() && single_tree(final(p).events().skip(m.index as int)),
        r matches Err(e) ==> e.found == final(p).current(),
    decreases old(p).tokens().len() - old(p).pos(), 1int,
{
    let ghost ev0 = p.events();
    let ghost n0 = ev0.len() as int;
    let ghost pos0 = p.pos();
    let opened = p.open();
    let mut variant = p.open();
    let ghost ev_open = p.events();
    if let Err(e) = term(p) {
        return Err(e);
    }
    proof {
        lemma_balanced_empty();
        assert(p.events().subrange(n0 + 1, n0 + 1) =~= Seq::<Event>::empty());
        assert(p.events()[n0 + 1] == p.events().take(n0 + 2)[n0 + 1]);
        assert(p.events().take(n0 + 1) =~= ev_open.take(n0 + 1));
        assert(ev_open.take(n0 + 1) =~= ev0.push(Event::Open { kind: Kind::Error }));
        assert(p.events().skip(n0 + 2) == term_events(p.tokens(), pos0 as int));
        assert(expr_events(p.tokens(), pos0 as int) =~= branch_frame(
            p.events().subrange(n0 + 1, n0 + 1),
            p.events().skip(n0 + 2),
            expr_rest_events(p.tokens(), p.pos() as int),
        ));
    }
    loop
        invariant
            p.wf(),
            p.same_input(old(p)),
            p.pos() > pos0,
            expr_end(p.tokens(), pos0 as int) == expr_rest(p.tokens(), p.pos() as int),
            n0 + 1 <= variant.index < p.events().len(),
            p.events().take(n0 + 1) == ev0.push(Event::Open { kind: Kind::Error }),
            p.events()[variant.index as int] is Open,
            balanced(p.events().subrange(n0 + 1, variant.index as int)),
            balanced(p.events().skip(variant.index + 1)),
            expr_events(p.tokens(), pos0 as int) == branch_frame(
                p.events().subrange(n0 + 1, variant.index as int),
                p.events().skip(variant.index + 1),
                expr_rest_events(p.tokens(), p.pos() as int),
            ),
        decreases p.tokens().len() - p.pos(),
    {
        proof {
            p.lemma_end_is_eof();
        }
        let kind = p.peek();
        if kind == token::Kind::Pipe {
            let ghost ev = p.events();
            let ghost v = variant.index as int;
            let ghost pos_before = p.pos();
            p.skip();
            p.close(variant, Kind::Sequence);
            let ghost done = ev.subrange(n0 + 1, v);
            let ghost cur = ev.skip(v + 1) + seq![Event::Skip];
            let ghost closed = seq![Event::Open { kind: Kind::Sequence }] + cur + seq![Event::Close];
            proof {
                lemma_balanced_single(Event::Skip);
                lemma_balanced_append(ev.skip(v + 1), seq![Event::Skip]);
                lemma_balanced_wrap(Event::Open { kind: Kind::Sequence }, cur);
                lemma_balanced_append(done, closed);
                assert(p.events().subrange(n0 + 1, p.events().len() as int) =~= done + closed);
                assert(p.events().take(n0 + 1) =~= ev0.push(Event::Open { kind: Kind::Error }));
            }
            let ghost ev_closed = p.events();
            variant = p.open();
            proof {
                lemma_balanced_empty();
                assert(p.events().skip(variant.index + 1) =~= Seq::<Event>::empty());
                assert(p.events().subrange(n0 + 1, variant.index as int) =~= ev_closed.subrange(n0 + 1, ev_closed.len() as int));
                assert(p.events().take(n0 + 1) =~= ev0.push(Event::Open { kind: Kind::Error }));
                let toks = p.tokens();
                let rest = expr_rest_events(toks, p.pos() as int);
                assert(expr_rest_events(toks, pos_before as int) == seq![
                    Event::Skip,
                    Event::Close,
                    Event::Open { kind: Kind::Sequence },
                ] + rest);
                lemma_frame_pipe(done, ev.skip(v + 1), rest);
                assert(done + closed =~= done + seq![Event::Open { kind: Kind::Sequence }] + ev.skip(v + 1)
                    + seq![Event::Skip, Event::Close]);
            }
        } else if kind == token::Kind::Ident || kind == token::Kind::Literal || kind
            == token::Kind::Paren(Paren::Open) {
            let ahead = p.peek_array();
            if kind == token::Kind::Ident && ahead[1] == token::Kind::Equal {
                break;
            }
            let ghost ev = p.events();
            let ghost v = variant.index as int;
            let ghost pos_before = p.pos();
            if let Err(e) = term(p) {
                return Err(e);
            }
            proof {
                assert(p.events()[v] == p.events().take(ev.len() as int)[v]);
                let added = p.events().skip(ev.len() as int);
                lemma_balanced_append(ev.skip(v + 1), added);
                assert(p.events().skip(v + 1) =~= ev.skip(v + 1) + added);
                assert(p.events().take(ev.len() as int) == ev);
                assert(p.events().subrange(n0 + 1, v) =~= ev.subrange(n0 + 1, v));
                assert(p.events().take(n0 + 1) =~= ev.take(n0 + 1));
                let toks = p.tokens();
                let rest = expr_rest_events(toks, p.pos() as int);
                assert(expr_rest_events(toks, pos_before as int) == term_events(toks, pos_before as int)
                    + rest);
                lemma_frame_term(ev.subrange(n0 + 1, v), ev.skip(v + 1), added, rest);
            }
        } else {
            break;
        }
    }
    let ghost ev = p.events();
    let ghost v = variant.index as int;
    proof {
        assert(ev[n0] == ev.take(n0 + 1)[n0]);
        assert(ev.take(n0) =~= ev.take(n0 + 1).take(n0));
        assert(ev.take(n0 + 1).take(n0) =~= ev0);
    }
    p.close(variant, Kind::Sequence);
    proof {
        assert(p.events()[n0] == ev[n0]);
    }
    let m = p.close(opened, Kind::Branch);
    proof {
        let done = ev.subrange(n0 + 1, v);
        let cur = ev.skip(v + 1);
        lemma_balanced_wrap(Event::Open { kind: Kind::Sequence }, cur);
        let closed = seq![Event::Open { kind: Kind::Sequence }] + cur + seq![Event::Close];
        lemma_balanced_append(done, closed);
        lemma_balanced_wrap(Event::Open { kind: Kind::Branch }, done + closed);
        assert(p.events().skip(n0) =~= seq![Event::Open { kind: Kind::Branch }] + (done + closed) + seq![Event::Close]);
        assert(p.events().take(n0) =~= ev0);
        assert(expr_rest_events(p.tokens(), p.pos() as int) == Seq::<Event>::empty());
        assert(p.events().skip(n0) =~= branch_frame(done, cur, Seq::<Event>::empty()));
    }
    Ok(m)
}

/// rule := Ident '=' expr
fn rule(p: &mut Parser) -> (r: Result<(), ParseError>)
    requires
        old(p).wf(),
    ensures
        final(p).wf(),
        final(p).same_input(old(p)),
        final(p).pos() >= old(p).pos(),
        r is Ok <==> rule_end(old(p).tokens(), old(p).pos() as int) is Some,
        r is Ok ==> final(p).pos() == rule_end(old(p).tokens(), old(p).pos() as int)->0,
        r is Ok ==> final(p).events().skip(old(p).events().len() as int) == rule_events(
            old(p).tokens(),
            old(p).pos() as int,
        ),
        r is Ok ==> final(p).pos() > old(p).pos() && extends(old(p).events(), final(p).events())
            && single_tree(final(p).events().skip(old(p).events().len() as int)),
        r matches Err(e) ==> e.found == final(p).current(),
{
    let ghost ev0 = p.events();
    let ghost n0 = ev0.len() as int;
    let opened = p.open();
    let ghost t = p.current();
    if let Err(e) = p.expect(token::Kind::Ident) {
        return Err(e);
    }
    if let Err(e) = p.skip_expect(token::Kind::Equal) {
        return Err(e);
    }
    let ghost ev1 = p.events();
    if let Err(e) = expr(p) {
        return Err(e);
    }
    let ghost ev2 = p.events();
    let ghost node = ev2.skip(n0 + 3);
    proof {
        assert(ev2 =~= ev2.take(n0 + 3) + node);
        assert(ev2.take(n0 + 3) == ev1);
        assert(ev2[n0] == ev1[n0]);
    }
    p.close(opened, Kind::Rule);
    proof {
        let head = seq![Event::Advance { token: t }, Event::Skip];
        lemma_balanced_single(Event::Advance { token: t });
        lemma_balanced_single(Event::Skip);
        assert(head =~= seq![Event::Advance { token: t }] + seq![Event::Skip]);
        lemma_balanced_append(seq![Event::Advance { token: t }], seq![Event::Skip]);
        lemma_single_tree_balanced(node);
        lemma_balanced_append(head, node);
        lemma_balanced_wrap(Event::Open { kind: Kind::Rule }, head + node);
        assert(p.events().skip(n0) =~= seq![Event::Open { kind: Kind::Rule }] + (head + node) + seq![Event::Close]);
        assert(p.events().take(n0) =~= ev0);
        assert(p.events().skip(n0) =~= seq![
            Event::Open { kind: Kind::Rule },
            Event::Advance { token: t },
            Event::Skip,
        ] + node + seq![Event::Close]);
    }
    Ok(())
}

/// file := rule*, up to the end of the input.
#[verifier::loop_isolation(false)]
pub fn file(p: &mut Parser) -> (r: Result<(), ParseError>)
    requires
        old(p).wf(),
    ensures
        final(p).wf(),
        final(p).same_input(old(p)),
        r is Ok <==> rules_from(old(p).tokens(), old(p).pos() as int),
        r is Ok ==> final(p).events().skip(old(p).events().len() as int) == file_events(
            old(p).tokens(),
            old(p).pos() as int,
        ),
        r is Ok ==> final(p).at_end() && extends(old(p).events(), final(p).events()) && single_tree(
            final(p).events().skip(old(p).events().len() as int),
        ) && final(p).events()[old(p).events().len() as int] == (Event::Open { kind: Kind::Grammar }),
        r matches Err(e) ==> e.found == final(p).current(),
{
    let ghost ev0 = p.events();
    let ghost n0 = ev0.len() as int;
    let opened = p.open();
    proof {
        lemma_balanced_empty();
        assert(p.events().skip(n0 + 1) =~= Seq::<Event>::empty());
        assert(file_events(p.tokens(), p.pos() as int) =~= seq![Event::Open { kind: Kind::Grammar }]
            + p.events().skip(n0 + 1) + rules_events(p.tokens(), p.pos() as int) + seq![Event::Close]);
    }
    while !p.eof()
        invariant
            p.wf(),
            p.same_input(old(p)),
            p.events().len() >= n0 + 1,
            p.events().take(n0 + 1) == ev0.push(Event::Open { kind: Kind::Error }),
            balanced(p.events().skip(n0 + 1)),
            rules_from(p.tokens(), old(p).pos() as int) == rules_from(p.tokens(), p.pos() as int),
            file_events(p.tokens(), old(p).pos() as int) == seq![Event::Open { kind: Kind::Grammar }]
                + p.events().skip(n0 + 1) + rules_events(p.tokens(), p.pos() as int) + seq![
                Event::Close,
            ],
        decreases p.tokens().len() - p.pos(),
    {
        let ghost ev = p.events();
        let ghost pos_before = p.pos();
        if let Err(e) = rule(p) {
            return Err(e);
        }
        proof {
            let added = p.events().skip(ev.len() as int);
            lemma_single_tree_balanced(added);
            lemma_balanced_append(ev.skip(n0 + 1), added);
            assert(p.events() =~= ev + added);
            assert(p.events().skip(n0 + 1) =~= ev.skip(n0 + 1) + added);
            assert(p.events().take(n0 + 1) =~= ev.take(n0 + 1));
            let toks = p.tokens();
            let rest = rules_events(toks, p.pos() as int);
            assert(rules_events(toks, pos_before as int) == rule_events(toks, pos_before as int) + rest);
            assert(seq![Event::Open { kind: Kind::Grammar }] + ev.skip(n0 + 1) + (added + rest) + seq![Event::Close]
                =~= seq![Event::Open { kind: Kind::Grammar }] + (ev.skip(n0 + 1) + added) + rest + seq![Event::Close]);
        }
    }
    let ghost ev = p.events();
    proof {
        assert(ev[n0] == ev.take(n0 + 1)[n0]);
    }
    p.close(opened, Kind::Grammar);
    proof {
        lemma_balanced_wrap(Event::Open { kind: Kind::Grammar }, ev.skip(n0 + 1));
        assert(p.events().skip(n0) =~= seq![Event::Open { kind: Kind::Grammar }] + ev.skip(n0 + 1) + seq![Event::Close]);
        assert(p.events().take(n0) =~= ev.take(n0 + 1).take(n0));
        assert(ev.take(n0 + 1).take(n0) =~= ev0);
        assert(rules_events(p.tokens(), p.pos() as int) == Seq::<Event>::empty());
        assert(p.events().skip(n0) =~= seq![Event::Open { kind: Kind::Grammar }] + ev.skip(n0 + 1)
            + rules_events(p.tokens(), p.pos() as int) + seq![Event::Close]);
    }
    Ok(())
}

impl<'src> Parser<'src> {
    /// Parses the whole input; on success the events form one `Grammar` node.
    pub fn parse(&mut self) -> (r: Result<(), ParseError>)
        requires
            old(self).wf(),
            old(self).events() == Seq::<Event>::empty(),
        ensures
            final(self).wf(),
            final(self).same_input(old(self)),
            r is Ok <==> rules_from(old(self).tokens(), old(self).pos() as int),
            r is Ok ==> final(self).events() == file_events(old(self).tokens(), old(self).pos() as int),
            r is Ok ==> final(self).at_end() && single_tree(final(self).events())
                && final(self).events()[0] == (Event::Open { kind: Kind::Grammar }),
            r matches Err(e) ==> e.found == final(self).current(),
    {
        let r = file(self);
        proof {
            assert(self.events().skip(0) =~= self.events());
        }
        r
    }

    /// Replays the events into the tree they describe; `Skip` events leave no trace.
    #[verifier::rlimit(40)]
    pub fn tree(self) -> (r: Tree)
        requires
            single_tree(self.events()),
        ensures
            tree_events(r) == strip(self.events()),
            self.events()[0] == (Event::Open { kind: r.kind }),
    {
        let mut events = self.events;
        let ghost all = events@;
        events.pop();
        let ghost ev = events@;
        proof {
            assert(ev =~= all.drop_last());
            assert(all.take(1) =~= seq![all[0]]);
            assert(ev.take(0) =~= Seq::<Event>::empty());
        }
        let mut stack: Vec<Tree> = Vec::new();
        let mut k: usize = 0;
        while k < events.len()
            invariant
                ev == events@,
                ev == all.drop_last(),
                single_tree(all),
                k <= ev.len(),
                stack@.len() == depth(ev.take(k as int)),
                k > 0 ==> stack@.len() >= 1,
                k > 0 ==> stack@[0].kind == all[0]->kind,
                stack_events(stack@) == strip(ev.take(k as int)),
            decreases ev.len() - k,
        {
            proof {
                assert(ev.take(k + 1).drop_last() =~= ev.take(k as int));
                assert(ev.take(k + 1) =~= all.take(k + 1));
                if k + 1 < all.len() {
                    assert(depth(all.take(k + 1)) >= 1);
                }
            }
            let ghost before = stack@;
            match events[k] {
                Event::Open { kind } => {
                    let node = Tree { kind, children: Vec::new() };
                    proof {
                        assert(open_events(node) =~= seq![Event::Open { kind }]);
                    }
                    stack.push(node);
                    proof {
                        assert(stack@.drop_last() =~= before);
                    }
                },
                Event::Close => {
                    let tree = stack.pop().unwrap();
                    let ghost middle = stack@;
                    let parent = stack.pop().unwrap();
                    let ghost rest = stack@;
                    let ghost parent0 = parent;
                    let mut parent = parent;
                    parent.children.push(Child::Tree(tree));
                    proof {
                        lemma_open_events_push(parent0, parent, Child::Tree(tree));
                        assert(before.drop_last() == middle);
                        assert(middle.drop_last() == rest);
                        assert(before.last() == tree);
                        assert(middle.last() == parent0);
                        assert(stack_events(middle) == stack_events(rest) + open_events(parent0));
                        assert(stack_events(before) == stack_events(middle) + open_events(tree));
                        assert(tree_events(tree) =~= open_events(tree) + seq![Event::Close]);
                    }
                    stack.push(parent);
                    proof {
                        assert(stack@.drop_last() =~= rest);
                        assert(stack_events(stack@) =~= stack_events(before).push(Event::Close));
                        if k > 0 && rest.len() > 0 {
                            assert(stack@[0] == rest[0]);
                            assert(rest[0] == before[0]);
                        }
                    }
                },
                Event::Skip => {},
                Event::Advance { token } => {
                    let parent = stack.pop().unwrap();
                    let ghost rest = stack@;
                    let ghost parent0 = parent;
                    let mut parent = parent;
                    parent.children.push(Child::Token(token));
                    proof {
                        lemma_open_events_push(parent0, parent, Child::Token(token));
                        assert(before.drop_last() == rest);
                    }
                    stack.push(parent);
                    proof {
                        assert(stack@.drop_last() =~= rest);
                        assert(stack_events(stack@) =~= stack_events(before).push(Event::Advance { token }));
                        if rest.len() > 0 {
                            assert(stack@[0] == rest[0]);
                            assert(rest[0] == before[0]);
                        }
                    }
                },
            }
            k = k + 1;
        }
        proof {
            assert(ev.take(ev.len() as int) =~= ev);
            assert(all =~= ev.push(all.last()));
            assert(all.drop_last() == ev);
        }
        let ghost last_stack = stack@;
        let root = stack.pop().unwrap();
        proof {
            assert(stack@.len() == 0);
            assert(last_stack.drop_last() =~= Seq::<Tree>::empty());
            assert(last_stack.last() == root);
            assert(stack_events(last_stack.drop_last()) == Seq::<Event>::empty());
            assert(stack_events(last_stack) =~= open_events(root));
            assert(strip(all) == strip(all.drop_last()).push(all.last()));
            assert(tree_events(root) =~= open_events(root) + seq![Event::Close]);
        }
        root
    }
}

/// Parses `source` into its concrete syntax tree.
pub fn parse(source: &str) -> (r: Result<Tree, ParseError>)
    requires
        source.spec_bytes().len() < usize::MAX,
    ensures
        r is Ok <==> rules_from(lexed(source.spec_bytes()), 0),
        r matches Ok(t) ==> tree_events(t) == strip(file_events(lexed(source.spec_bytes()), 0)),
        r matches Ok(t) ==> t.kind == Kind::Grammar,
        r matches Err(e) ==> exists|k: int|
            0 <= k <= lexed(source.spec_bytes()).len() && e.found == token_at(lexed(source.spec_bytes()), k),
{
    let mut parser = Parser::new(source);
    match parser.parse() {
        Ok(()) => Ok(parser.tree()),
        Err(e) => Err(e),
    }
}

} // verus!
