use crate::lex::token::{TokenIndex, TokenKind};
use crate::lex::{Diagnostic, TokenizedText};
use crate::lex::Token;
use crate::typed_index::TypedIndex;
use vstd::prelude::*;

verus! {

broadcast use TokenIndex::lemma_at_index, TokenIndex::lemma_index_at;

/// A diagnostic reported while parsing.
pub type ParseDiagnostic = Diagnostic;

/// One step of tree construction.
#[derive(Debug, Clone, Copy, PartialEq, Eq, Structural)]
pub enum Event {
    Start { kind: NodeKind },
    End,
    Leaf { token: TokenIndex, token_kind: TokenKind },
    Unexpected { token: TokenIndex, token_kind: TokenKind },
    Missing { kind: NodeKind },
}

#[derive(Debug, Clone, Copy, PartialEq, Eq, Structural)]
pub enum NodeKind {
    Ignore,
    Error,
    File,
    Block,
    EnumDecl,
    EnumBlock,
    EnumMember,
    Function,
    PrefixOpExpr,
    ParenExpr,
    ArrayExpr,
}

#[derive(Debug, Clone, Copy, PartialEq, Eq, Structural)]
enum StateKind {
    StatementLoop,
    BlockEnd,
    EnumItem,
    EnumLoop,
    EnumEnd,
    Expr,
    PrefixEnd,
    ParenEnd,
    ArrayLoop,
    ArrayEnd,
}

#[derive(Debug, Clone, Copy)]
struct State {
    kind: StateKind,
}

#[derive(Debug, Clone, Copy, PartialEq, Eq, Structural)]
enum ConsumeResult {
    Success,
    Recovered,
    FailedRecovery,
}

impl ConsumeResult {
    fn failed(self) -> (r: bool)
        ensures
            r == (self == ConsumeResult::FailedRecovery),
    {
        matches!(self, ConsumeResult::FailedRecovery)
    }
}

/// How strongly a token anchors panic-mode recovery, weakest first.
#[derive(Debug, Clone, Copy, PartialEq, Eq, Structural)]
enum TokenPrecedence {
    Unknown,
    IdentifierOrLiteral,
    ExpressionOperator,
    WeakBracketOpen,
    WeakPunctuator,
    MediumPunctuator,
    WeakBracketClose,
    LeftBrace,
    StrongPunctuator,
    IntroducerKeyword,
    RightBrace,
}

/// The recovery class of a token kind.
pub open spec fn precedence_class(kind: TokenKind) -> u32 {
    if kind == TokenKind::Identifier || kind == TokenKind::RealLiteral || kind
        == TokenKind::IntegerLiteral {
        1
    } else if kind.spec_is_prefix_operator() || kind.spec_is_postfix_operator()
        || kind.spec_is_binary_operator() {
        2
    } else if kind == TokenKind::LeftParen || kind == TokenKind::LeftSquare {
        3
    } else if kind == TokenKind::Dot {
        4
    } else if kind == TokenKind::Comma {
        5
    } else if kind == TokenKind::RightParen || kind == TokenKind::RightSquare {
        6
    } else if kind == TokenKind::LeftBrace {
        7
    } else if kind == TokenKind::Semicolon || kind == TokenKind::FileEnd {
        8
    } else if kind == TokenKind::RightBrace {
        10
    } else {
        0
    }
}

impl TokenPrecedence {
    spec fn rank(&self) -> u32 {
        match self {
            TokenPrecedence::Unknown => 0,
            TokenPrecedence::IdentifierOrLiteral => 1,
            TokenPrecedence::ExpressionOperator => 2,
            TokenPrecedence::WeakBracketOpen => 3,
            TokenPrecedence::WeakPunctuator => 4,
            TokenPrecedence::MediumPunctuator => 5,
            TokenPrecedence::WeakBracketClose => 6,
            TokenPrecedence::LeftBrace => 7,
            TokenPrecedence::StrongPunctuator => 8,
            TokenPrecedence::IntroducerKeyword => 9,
            TokenPrecedence::RightBrace => 10,
        }
    }

    fn precedence(&self) -> (r: u32)
        ensures
            r == self.rank(),
    {
        match self {
            TokenPrecedence::Unknown => 0,
            TokenPrecedence::IdentifierOrLiteral => 1,
            TokenPrecedence::ExpressionOperator => 2,
            TokenPrecedence::WeakBracketOpen => 3,
            TokenPrecedence::WeakPunctuator => 4,
            TokenPrecedence::MediumPunctuator => 5,
            TokenPrecedence::WeakBracketClose => 6,
            TokenPrecedence::LeftBrace => 7,
            TokenPrecedence::StrongPunctuator => 8,
            TokenPrecedence::IntroducerKeyword => 9,
            TokenPrecedence::RightBrace => 10,
        }
    }

    fn from(kind: TokenKind) -> (r: TokenPrecedence)
        ensures
            r.rank() == precedence_class(kind),
    {
        if kind == TokenKind::Identifier || kind == TokenKind::RealLiteral || kind
            == TokenKind::IntegerLiteral {
            TokenPrecedence::IdentifierOrLiteral
        } else if kind.is_prefix_operator() || kind.is_postfix_operator()
            || kind.is_binary_operator() {
            TokenPrecedence::ExpressionOperator
        } else if kind == TokenKind::LeftParen || kind == TokenKind::LeftSquare {
            TokenPrecedence::WeakBracketOpen
        } else if kind == TokenKind::Dot {
            TokenPrecedence::WeakPunctuator
        } else if kind == TokenKind::Comma {
            TokenPrecedence::MediumPunctuator
        } else if kind == TokenKind::RightParen || kind == TokenKind::RightSquare {
            TokenPrecedence::WeakBracketClose
        } else if kind == TokenKind::LeftBrace {
            TokenPrecedence::LeftBrace
        } else if kind == TokenKind::Semicolon || kind == TokenKind::FileEnd {
            TokenPrecedence::StrongPunctuator
        } else if kind == TokenKind::RightBrace {
            TokenPrecedence::RightBrace
        } else {
            TokenPrecedence::Unknown
        }
    }
}

/// A comma-separated list closed by a token.
struct ListNodeKind {
    item_state: StateKind,
    loop_state: StateKind,
    end_state: StateKind,
    item_kind: NodeKind,
    separator: TokenKind,
    close_token: TokenKind,
}

fn enum_member_list() -> (r: ListNodeKind)
    ensures
        r.item_state == StateKind::EnumItem,
        r.loop_state == StateKind::EnumLoop,
        r.end_state == StateKind::EnumEnd,
        r.item_kind == NodeKind::EnumMember,
        r.separator == TokenKind::Comma,
        r.close_token == TokenKind::RightBrace,
{
    ListNodeKind {
        item_state: StateKind::EnumItem,
        loop_state: StateKind::EnumLoop,
        end_state: StateKind::EnumEnd,
        item_kind: NodeKind::EnumMember,
        separator: TokenKind::Comma,
        close_token: TokenKind::RightBrace,
    }
}

fn array_element_list() -> (r: ListNodeKind)
    ensures
        r.item_state == StateKind::Expr,
        r.loop_state == StateKind::ArrayLoop,
        r.end_state == StateKind::ArrayEnd,
        r.item_kind == NodeKind::Error,
        r.separator == TokenKind::Comma,
        r.close_token == TokenKind::RightSquare,
{
    ListNodeKind {
        item_state: StateKind::Expr,
        loop_state: StateKind::ArrayLoop,
        end_state: StateKind::ArrayEnd,
        item_kind: NodeKind::Error,
        separator: TokenKind::Comma,
        close_token: TokenKind::RightSquare,
    }
}

/// Tokens that begin an expression: prefix operators, identifiers,
/// literals, `(` and `[`.
pub open spec fn starts_expression(kind: TokenKind) -> bool {
    kind.spec_is_prefix_operator() || kind == TokenKind::Identifier || kind.spec_is_literal()
        || kind == TokenKind::LeftParen || kind == TokenKind::LeftSquare
}

/// How an event changes the nesting depth.
pub open spec fn event_delta(e: Event) -> int {
    match e {
        Event::Start { .. } => 1,
        Event::End => -1,
        _ => 0,
    }
}

/// The nesting depth after `events`: opened nodes minus closed ones.
pub open spec fn depth_of(events: Seq<Event>) -> int
    decreases events.len(),
{
    if events.len() == 0 {
        0
    } else {
        depth_of(events.drop_last()) + event_delta(events.last())
    }
}

/// Every prefix opens at least as many nodes as it closes, and the whole
/// sequence closes all it opens.
pub open spec fn balanced(events: Seq<Event>) -> bool {
    &&& depth_of(events) == 0
    &&& forall|k: int| 0 <= k <= events.len() ==> depth_of(#[trigger] events.take(k)) >= 0
}

/// The token an event stands for, if any.
pub open spec fn event_token(e: Event) -> Option<int> {
    match e {
        Event::Leaf { token, .. } => Some(token.index() as int),
        Event::Unexpected { token, .. } => Some(token.index() as int),
        _ => None,
    }
}

/// The tokens that `events` stand for, in order.
pub open spec fn tokens_of(events: Seq<Event>) -> Seq<int>
    decreases events.len(),
{
    if events.len() == 0 {
        Seq::empty()
    } else {
        match event_token(events.last()) {
            Some(t) => tokens_of(events.drop_last()).push(t),
            None => tokens_of(events.drop_last()),
        }
    }
}

/// The integers `lo, lo + 1, ..., hi - 1`.
pub open spec fn token_range(lo: int, hi: int) -> Seq<int> {
    Seq::new((hi - lo) as nat, |i: int| lo + i)
}

/// Every token event names a token of `input` with its kind.
pub open spec fn kinds_agree(events: Seq<Event>, input: TokenizedText) -> bool {
    forall|i: int|
        0 <= i < events.len() ==> match #[trigger] events[i] {
            Event::Leaf { token, token_kind } => token.index() < input.tokens@.len()
                && token_kind == input.token_kind(token.index() as int),
            Event::Unexpected { token, token_kind } => token.index() < input.tokens@.len()
                && token_kind == input.token_kind(token.index() as int),
            _ => true,
        }
}

impl TokenizedText {
    /// A stream the parser accepts: `FileStart`, then tokens none of which
    /// is `FileEnd`, then `FileEnd`.
    pub open spec fn parse_ready(&self) -> bool {
        let n = self.tokens@.len();
        &&& self.tokens.wf()
        &&& 2 <= n < Token::MAX_INDEX
        &&& self.token_kind(0) == TokenKind::FileStart
        &&& self.token_kind(n - 1) == TokenKind::FileEnd
        &&& forall|i: int| 0 < i < n - 1 ==> #[trigger] self.token_kind(i) != TokenKind::FileEnd
    }
}

/// Contribution of a pending state to the nesting depth: the nodes it will
/// close.
spec fn state_opens(kind: StateKind) -> int {
    match kind {
        StateKind::BlockEnd => 1,
        StateKind::EnumEnd => 2,
        StateKind::PrefixEnd => 1,
        StateKind::ParenEnd => 1,
        StateKind::ArrayEnd => 1,
        _ => 0,
    }
}

spec fn open_count(stack: Seq<State>) -> int
    decreases stack.len(),
{
    if stack.len() == 0 {
        0
    } else {
        open_count(stack.drop_last()) + state_opens(stack.last().kind)
    }
}

proof fn lemma_open_count_bound(stack: Seq<State>)
    ensures
        0 <= open_count(stack) <= 2 * stack.len(),
    decreases stack.len(),
{
    if stack.len() > 0 {
        lemma_open_count_bound(stack.drop_last());
    }
}

/// The event stream grows by one event.
proof fn lemma_push_event(events: Seq<Event>, e: Event)
    requires
        forall|k: int| 0 <= k <= events.len() ==> depth_of(#[trigger] events.take(k)) >= 0,
        depth_of(events) + event_delta(e) >= 0,
    ensures
        depth_of(events.push(e)) == depth_of(events) + event_delta(e),
        tokens_of(events.push(e)) == match event_token(e) {
            Some(t) => tokens_of(events).push(t),
            None => tokens_of(events),
        },
        forall|k: int|
            0 <= k <= events.len() + 1 ==> depth_of(#[trigger] events.push(e).take(k)) >= 0,
{
    let p = events.push(e);
    assert(p.drop_last() =~= events);
    assert forall|k: int| 0 <= k <= events.len() + 1 implies depth_of(#[trigger] p.take(k)) >= 0 by {
        if k <= events.len() {
            assert(p.take(k) =~= events.take(k));
        } else {
            assert(p.take(k) =~= p);
        }
    }
}

/// A leaf event for token `i`.
pub open spec fn leaf(input: TokenizedText, i: int) -> Event {
    Event::Leaf { token: TokenIndex::at(i), token_kind: input.token_kind(i) }
}

/// An unexpected-token event for token `i`.
pub open spec fn unexpected(input: TokenizedText, i: int) -> Event {
    Event::Unexpected { token: TokenIndex::at(i), token_kind: input.token_kind(i) }
}

/// Unexpected-token events for the tokens `from..to`.
pub open spec fn unexpected_run(input: TokenizedText, from: int, to: int) -> Seq<Event> {
    Seq::new((to - from) as nat, |m: int| unexpected(input, from + m))
}

/// Where panic-mode recovery towards `k` from token `from` stops: at the
/// first token that is `k`, as strong as `k` or stronger, or `FileEnd`.
pub open spec fn recovery_stop(input: TokenizedText, from: int, k: TokenKind) -> int
    decreases input.tokens@.len() - from,
{
    if from < 0 || from >= input.tokens@.len() - 1 {
        from
    } else if input.token_kind(from) == k || precedence_class(input.token_kind(from))
        >= precedence_class(k) {
        from
    } else {
        recovery_stop(input, from + 1, k)
    }
}

/// Recovery towards `k` from token `from` finds `k`.
pub open spec fn recovers(input: TokenizedText, from: int, k: TokenKind) -> bool {
    input.token_kind(recovery_stop(input, from, k)) == k
}

/// The events recovery emits: on success the skipped tokens as unexpected
/// and, when `consume`, `k` as a leaf; nothing on failure.
pub open spec fn recovery_events(input: TokenizedText, from: int, k: TokenKind, consume: bool) -> Seq<
    Event,
> {
    let j = recovery_stop(input, from, k);
    if recovers(input, from, k) {
        unexpected_run(input, from, j) + if consume {
            seq![leaf(input, j)]
        } else {
            Seq::empty()
        }
    } else {
        Seq::empty()
    }
}

/// The cursor after recovery: past `k` (or at it, without `consume`) on
/// success, unmoved on failure.
pub open spec fn recovery_cursor(input: TokenizedText, from: int, k: TokenKind, consume: bool) -> int {
    let j = recovery_stop(input, from, k);
    if recovers(input, from, k) {
        if consume {
            j + 1
        } else {
            j
        }
    } else {
        from
    }
}

/// The events of expecting `k` at token `i`: a leaf when it is `k`, else
/// the token reported as unexpected, unless it is `FileEnd`.
pub open spec fn expect_events(input: TokenizedText, i: int, k: TokenKind) -> Seq<Event> {
    if input.token_kind(i) == k {
        seq![leaf(input, i)]
    } else if input.token_kind(i) != TokenKind::FileEnd {
        seq![unexpected(input, i)]
    } else {
        Seq::empty()
    }
}

/// The cursor after expecting `k` at token `i`.
pub open spec fn expect_cursor(input: TokenizedText, i: int, k: TokenKind) -> int {
    if input.token_kind(i) == k || input.token_kind(i) != TokenKind::FileEnd {
        i + 1
    } else {
        i
    }
}

/// The events of an expression starting at token `i`.
pub open spec fn expr_start_events(input: TokenizedText, i: int) -> Seq<Event> {
    let k = input.token_kind(i);
    if k.spec_is_prefix_operator() {
        seq![Event::Start { kind: NodeKind::PrefixOpExpr }, leaf(input, i)]
    } else if k == TokenKind::Identifier || k.spec_is_literal() {
        seq![leaf(input, i)]
    } else if k == TokenKind::LeftParen {
        seq![Event::Start { kind: NodeKind::ParenExpr }, leaf(input, i)]
    } else if k == TokenKind::LeftSquare {
        seq![Event::Start { kind: NodeKind::ArrayExpr }, leaf(input, i)] + if input.token_kind(i + 1)
            == TokenKind::Comma {
            seq![Event::Missing { kind: NodeKind::Error }]
        } else {
            Seq::empty()
        }
    } else {
        seq![Event::Missing { kind: NodeKind::Error }]
    }
}

/// The events of an enum declaration whose `enum` keyword is token `i`.
pub open spec fn enum_start_events(input: TokenizedText, i: int) -> Seq<Event> {
    let name_end = expect_cursor(input, i + 1, TokenKind::Identifier);
    let body = recovery_cursor(input, name_end, TokenKind::LeftBrace, true);
    seq![Event::Start { kind: NodeKind::EnumDecl }, leaf(input, i)] + expect_events(
        input,
        i + 1,
        TokenKind::Identifier,
    ) + seq![Event::Start { kind: NodeKind::EnumBlock }] + recovery_events(
        input,
        name_end,
        TokenKind::LeftBrace,
        true,
    ) + if !recovers(input, name_end, TokenKind::LeftBrace) {
        seq![Event::End, Event::End]
    } else if input.token_kind(body) == TokenKind::Comma {
        seq![Event::Missing { kind: NodeKind::EnumMember }]
    } else {
        Seq::empty()
    }
}

/// The events of a statement starting at token `i`.
pub open spec fn statement_events(input: TokenizedText, i: int) -> Seq<Event> {
    let k = input.token_kind(i);
    if k == TokenKind::LeftBrace {
        seq![Event::Start { kind: NodeKind::Block }, leaf(input, i)]
    } else if k == TokenKind::Enum {
        enum_start_events(input, i)
    } else if k == TokenKind::Semicolon {
        seq![leaf(input, i)]
    } else if starts_expression(k) {
        expr_start_events(input, i)
    } else {
        seq![unexpected(input, i)]
    }
}

/// Each further separator from token `i` on stands for a missing item: a
/// `Missing` event, then the separator as a leaf.
pub open spec fn missing_items(input: TokenizedText, i: int, sep: TokenKind, item: NodeKind) -> Seq<
    Event,
>
    decreases input.tokens@.len() - i,
{
    if 0 <= i < input.tokens@.len() - 1 && input.token_kind(i) == sep {
        seq![Event::Missing { kind: item }, leaf(input, i)] + missing_items(input, i + 1, sep, item)
    } else {
        Seq::empty()
    }
}

/// The output of parsing: events and diagnostics.
pub struct ParseEvents {
    pub events: Vec<Event>,
    pub diagnostics: Vec<ParseDiagnostic>,
}

/// Parses a token stream into a balanced event stream that names every
/// token between the sentinels once, in order.
pub fn parse(tokens: &TokenizedText) -> (r: ParseEvents)
    requires
        tokens.parse_ready(),
    ensures
        balanced(r.events@),
        tokens_of(r.events@) == token_range(1, tokens.tokens@.len() - 1),
        kinds_agree(r.events@, *tokens),
{
    let mut parser = Parser::new(tokens);
    parser.parse();
    proof {
        assert(parser.event_seq() == parser.output.events@);
    }
    parser.output
}

/// The parser state: the input, the events so far, the token cursor, the
/// nesting depth and the work stack.
pub struct Parser<'a> {
    input: &'a TokenizedText,
    output: ParseEvents,
    cursor: usize,
    depth: u32,
    stack: Vec<State>,
}

impl<'a> Parser<'a> {
    spec fn n(&self) -> int {
        self.input.tokens@.len() as int
    }

    spec fn events_ok(&self) -> bool {
        let ev = self.output.events@;
        &&& depth_of(ev) == self.depth
        &&& forall|k: int| 0 <= k <= ev.len() ==> depth_of(#[trigger] ev.take(k)) >= 0
        &&& tokens_of(ev) == token_range(1, self.cursor as int)
        &&& kinds_agree(ev, *self.input)
    }

    spec fn inv(&self) -> bool {
        &&& self.input.parse_ready()
        &&& 1 <= self.cursor <= self.n() - 1
        &&& self.events_ok()
        &&& self.depth == open_count(self.stack@)
        &&& self.stack@.len() <= 3 * self.cursor
        &&& self.stack@.len() > 0 ==> self.stack@[0].kind == StateKind::StatementLoop
        &&& self.stack@.len() == 0 ==> self.cursor == self.n() - 1
    }

    /// `self` consumed tokens, or kept the cursor and shrank the stack.
    spec fn progressed(&self, old: &Self) -> bool {
        self.cursor > old.cursor || (self.cursor == old.cursor && self.stack@.len()
            < old.stack@.len())
    }

    /// The token stream being parsed.
    pub closed spec fn input_view(&self) -> TokenizedText {
        *self.input
    }

    /// The events emitted so far.
    pub closed spec fn event_seq(&self) -> Seq<Event> {
        self.output.events@
    }

    /// Nothing has been parsed yet.
    pub closed spec fn is_fresh(&self) -> bool {
        &&& self.input.parse_ready()
        &&& self.cursor == 0
        &&& self.depth == 0
        &&& self.stack@.len() == 0
        &&& self.output.events@.len() == 0
    }

    pub fn new(input: &'a TokenizedText) -> (r: Self)
        requires
            input.parse_ready(),
        ensures
            r.is_fresh(),
            r.input_view() == *input,
    {
        Parser {
            input,
            output: ParseEvents { events: Vec::new(), diagnostics: Vec::new() },
            cursor: 0,
            depth: 0,
            stack: Vec::new(),
        }
    }

    /// Runs the work stack until it is empty.
    pub fn parse(&mut self)
        requires
            old(self).is_fresh(),
        ensures
            final(self).input_view() == old(self).input_view(),
            balanced(final(self).event_seq()),
            tokens_of(final(self).event_seq()) == token_range(
                1,
                final(self).input_view().tokens@.len() - 1,
            ),
            kinds_agree(final(self).event_seq(), final(self).input_view()),
    {
        self.cursor = 1;
        proof {
            assert(tokens_of(self.output.events@) =~= token_range(1, 1));
            assert forall|k: int| 0 <= k <= 0 implies depth_of(#[trigger] self.output.events@.take(k)) >= 0 by {
                assert(self.output.events@.take(k) =~= Seq::<Event>::empty());
            }
        }
        self.push_state(StateKind::StatementLoop);
        proof {
            assert(self.stack@.drop_last() =~= Seq::<State>::empty());
            assert(open_count(self.stack@) == open_count(self.stack@.drop_last()) + state_opens(
                self.stack@.last().kind,
            ));
        }
        while self.stack.len() > 0
            invariant
                self.inv(),
                self.input == old(self).input,
            decreases self.n() - self.cursor, self.stack@.len(),
        {
            let kind = self.stack[self.stack.len() - 1].kind;
            let ghost before = *self;
            match kind {
                StateKind::StatementLoop => self.statement_loop(),
                StateKind::BlockEnd => self.block_end(),
                StateKind::EnumLoop => self.list_loop(enum_member_list()),
                StateKind::EnumItem => self.enum_item(),
                StateKind::EnumEnd => self.enum_end(),
                StateKind::Expr => self.expr(),
                StateKind::PrefixEnd => self.prefix_end(),
                StateKind::ParenEnd => self.close_node(TokenKind::RightParen),
                StateKind::ArrayLoop => self.list_loop(array_element_list()),
                StateKind::ArrayEnd => self.close_node(TokenKind::RightSquare),
            }
        }

    }

    fn push_state(&mut self, kind: StateKind)
        ensures
            final(self).stack@ == old(self).stack@.push(State { kind }),
            final(self).input == old(self).input,
            final(self).output == old(self).output,
            final(self).cursor == old(self).cursor,
            final(self).depth == old(self).depth,
    {
        self.stack.push(State { kind });
    }

    fn pop_state(&mut self) -> (r: State)
        requires
            old(self).stack@.len() > 0,
        ensures
            r == old(self).stack@.last(),
            final(self).stack@ == old(self).stack@.drop_last(),
            final(self).input == old(self).input,
            final(self).output == old(self).output,
            final(self).cursor == old(self).cursor,
            final(self).depth == old(self).depth,
    {
        match self.stack.pop() {
            Some(state) => state,
            None => State { kind: StateKind::StatementLoop },
        }
    }

    fn current(&self) -> (r: TokenKind)
        requires
            self.input.parse_ready(),
            self.cursor < self.n(),
        ensures
            r == self.input.token_kind(self.cursor as int),
    {
        self.input.get_kind(TokenIndex::from_index(self.cursor))
    }

    fn hit_eof(&self) -> (r: bool)
        requires
            self.input.parse_ready(),
            self.cursor < self.n(),
        ensures
            r == (self.cursor == self.n() - 1),
    {
        self.current() == TokenKind::FileEnd
    }

    fn emit(&mut self, e: Event)
        requires
            old(self).input.parse_ready(),
            old(self).events_ok(),
            depth_of(old(self).output.events@) + event_delta(e) >= 0,
            event_token(e) is None,
            old(self).depth + event_delta(e) <= u32::MAX,
        ensures
            final(self).events_ok(),
            final(self).output.events@ == old(self).output.events@.push(e),
            final(self).depth == old(self).depth + event_delta(e),
            final(self).input == old(self).input,
            final(self).cursor == old(self).cursor,
            final(self).stack == old(self).stack,
    {
        proof {
            lemma_push_event(self.output.events@, e);
        }
        let ghost before = self.output.events@;
        self.output.events.push(e);
        match e {
            Event::Start { .. } => {
                self.depth = self.depth + 1;
            },
            Event::End => {
                self.depth = self.depth - 1;
            },
            _ => {},
        }
        proof {
            assert forall|i: int| 0 <= i < self.output.events@.len() implies match #[trigger] self.output.events@[i] {
                Event::Leaf { token, token_kind } => token.index() < self.input.tokens@.len()
                    && token_kind == self.input.token_kind(token.index() as int),
                Event::Unexpected { token, token_kind } => token.index() < self.input.tokens@.len()
                    && token_kind == self.input.token_kind(token.index() as int),
                _ => true,
            } by {
                if i < before.len() {
                    assert(self.output.events@[i] == before[i]);
                }
            }
        }
    }

    fn emit_start(&mut self, kind: NodeKind)
        requires
            old(self).input.parse_ready(),
            old(self).events_ok(),
            old(self).depth < u32::MAX,
        ensures
            final(self).output.events@ == old(self).output.events@.push(Event::Start { kind }),
            final(self).events_ok(),
            final(self).depth == old(self).depth + 1,
            final(self).input == old(self).input,
            final(self).cursor == old(self).cursor,
            final(self).stack == old(self).stack,
    {
        self.emit(Event::Start { kind });
    }

    fn emit_end(&mut self)
        requires
            old(self).input.parse_ready(),
            old(self).events_ok(),
            old(self).depth > 0,
        ensures
            final(self).output.events@ == old(self).output.events@.push(Event::End),
            final(self).events_ok(),
            final(self).depth == old(self).depth - 1,
            final(self).input == old(self).input,
            final(self).cursor == old(self).cursor,
            final(self).stack == old(self).stack,
    {
        self.emit(Event::End);
    }

    fn emit_missing(&mut self, kind: NodeKind)
        requires
            old(self).input.parse_ready(),
            old(self).events_ok(),
        ensures
            final(self).output.events@ == old(self).output.events@.push(Event::Missing { kind }),
            final(self).events_ok(),
            final(self).depth == old(self).depth,
            final(self).input == old(self).input,
            final(self).cursor == old(self).cursor,
            final(self).stack == old(self).stack,
    {
        self.emit(Event::Missing { kind });
    }

    /// Emits the current token as a leaf, or as unexpected, and moves past
    /// it.
    fn emit_token_and_advance(&mut self, report_unexpected: bool)
        requires
            old(self).input.parse_ready(),
            old(self).events_ok(),
            1 <= old(self).cursor < old(self).n() - 1,
        ensures
            final(self).output.events@ == old(self).output.events@.push(
                if report_unexpected {
                    unexpected(*old(self).input, old(self).cursor as int)
                } else {
                    leaf(*old(self).input, old(self).cursor as int)
                },
            ),
            final(self).events_ok(),
            final(self).depth == old(self).depth,
            final(self).input == old(self).input,
            final(self).cursor == old(self).cursor + 1,
            final(self).stack == old(self).stack,
    {
        let token = TokenIndex::from_index(self.cursor);
        let token_kind = self.input.get_kind(token);
        let e = if report_unexpected {
            Event::Unexpected { token, token_kind }
        } else {
            Event::Leaf { token, token_kind }
        };
        proof {
            lemma_push_event(self.output.events@, e);
        }
        let ghost before = self.output.events@;
        self.output.events.push(e);
        self.cursor = self.cursor + 1;
        proof {
            assert(tokens_of(self.output.events@) =~= token_range(1, self.cursor as int));
            assert forall|i: int| 0 <= i < self.output.events@.len() implies match #[trigger] self.output.events@[i] {
                Event::Leaf { token, token_kind } => token.index() < self.input.tokens@.len()
                    && token_kind == self.input.token_kind(token.index() as int),
                Event::Unexpected { token, token_kind } => token.index() < self.input.tokens@.len()
                    && token_kind == self.input.token_kind(token.index() as int),
                _ => true,
            } by {
                if i < before.len() {
                    assert(self.output.events@[i] == before[i]);
                }
            }
        }
    }

    /// Consumes the current token as a leaf.
    fn eat(&mut self)
        requires
            old(self).input.parse_ready(),
            old(self).events_ok(),
            1 <= old(self).cursor < old(self).n() - 1,
        ensures
            final(self).output.events@ == old(self).output.events@.push(
                leaf(*old(self).input, old(self).cursor as int),
            ),
            final(self).events_ok(),
            final(self).depth == old(self).depth,
            final(self).input == old(self).input,
            final(self).cursor == old(self).cursor + 1,
            final(self).stack == old(self).stack,
    {
        self.emit_token_and_advance(false);
    }

    /// Consumes the current token when it is of `token_kind`.
    fn try_eat(&mut self, token_kind: TokenKind) -> (r: bool)
        requires
            old(self).input.parse_ready(),
            old(self).events_ok(),
            1 <= old(self).cursor <= old(self).n() - 1,
            token_kind != TokenKind::FileEnd,
        ensures
            r ==> final(self).output.events@ == old(self).output.events@.push(
                leaf(*old(self).input, old(self).cursor as int),
            ),
            final(self).events_ok(),
            final(self).depth == old(self).depth,
            final(self).input == old(self).input,
            final(self).stack == old(self).stack,
            r == (old(self).input.token_kind(old(self).cursor as int) == token_kind),
            r ==> final(self).cursor == old(self).cursor + 1,
            !r ==> final(self).cursor == old(self).cursor && final(self).output
                == old(self).output,
    {
        if self.current() == token_kind {
            self.eat();
            true
        } else {
            false
        }
    }

    /// Consumes a token of `token_kind`, or reports the current token as
    /// unexpected and moves past it (but never past `FileEnd`).
    fn eat_expect(&mut self, token_kind: TokenKind)
        requires
            old(self).input.parse_ready(),
            old(self).events_ok(),
            1 <= old(self).cursor <= old(self).n() - 1,
            token_kind != TokenKind::FileEnd,
        ensures
            final(self).output.events@ == old(self).output.events@ + expect_events(
                *old(self).input,
                old(self).cursor as int,
                token_kind,
            ),
            final(self).cursor == expect_cursor(*old(self).input, old(self).cursor as int, token_kind),
            final(self).events_ok(),
            final(self).depth == old(self).depth,
            final(self).input == old(self).input,
            final(self).stack == old(self).stack,
            old(self).cursor <= final(self).cursor <= old(self).n() - 1,
    {
        if !self.try_eat(token_kind) && !self.hit_eof() {
            self.emit_token_and_advance(true);
        }
    }

    /// Panic-mode recovery towards `token_kind`: skips tokens weaker than
    /// it. When `token_kind` turns up, the skipped tokens are reported as
    /// unexpected and, if `consume`, it is consumed; when a token at least
    /// as strong, or `FileEnd`, turns up first, nothing is emitted and the
    /// cursor stays.
    fn recover_to(&mut self, token_kind: TokenKind, consume: bool) -> (r: bool)
        requires
            old(self).input.parse_ready(),
            old(self).events_ok(),
            1 <= old(self).cursor <= old(self).n() - 1,
            token_kind != TokenKind::FileEnd,
        ensures
            final(self).events_ok(),
            final(self).depth == old(self).depth,
            final(self).input == old(self).input,
            final(self).stack == old(self).stack,
            old(self).cursor <= final(self).cursor <= old(self).n() - 1,
            !r ==> final(self).cursor == old(self).cursor && final(self).output
                == old(self).output,
            r == recovers(*old(self).input, old(self).cursor as int, token_kind),
            final(self).output.events@ == old(self).output.events@ + recovery_events(
                *old(self).input,
                old(self).cursor as int,
                token_kind,
                consume,
            ),
            final(self).cursor == recovery_cursor(
                *old(self).input,
                old(self).cursor as int,
                token_kind,
                consume,
            ),
    {
        let recovery_precedence = TokenPrecedence::from(token_kind).precedence();
        let mut probe = self.cursor;
        let mut recovered = false;
        while probe < self.input.token_count() - 1
            invariant_except_break
                !recovered,
                recovery_stop(*self.input, old(self).cursor as int, token_kind) == recovery_stop(
                    *self.input,
                    probe as int,
                    token_kind,
                ),
            invariant
                self.input.parse_ready(),
                old(self).cursor <= probe <= self.n() - 1,
                recovery_precedence == precedence_class(token_kind),
                token_kind != TokenKind::FileEnd,
            ensures
                old(self).cursor <= probe <= self.n() - 1,
                probe == recovery_stop(*self.input, old(self).cursor as int, token_kind),
                recovered == (self.input.token_kind(probe as int) == token_kind),
            decreases self.n() - probe,
        {
            let current = self.input.get_kind(TokenIndex::from_index(probe));
            if current == token_kind {
                recovered = true;
                break;
            }
            if TokenPrecedence::from(current).precedence() >= recovery_precedence {
                break;
            }
            probe += 1;
        }
        if !recovered {
            assert(old(self).output.events@ + recovery_events(
                *old(self).input,
                old(self).cursor as int,
                token_kind,
                consume,
            ) =~= old(self).output.events@);
            return false;
        }
        assert(unexpected_run(*self.input, old(self).cursor as int, old(self).cursor as int)
            =~= Seq::<Event>::empty());
        assert(self.output.events@ =~= old(self).output.events@ + unexpected_run(
            *self.input,
            old(self).cursor as int,
            self.cursor as int,
        ));
        while self.cursor < probe
            invariant
                self.input.parse_ready(),
                self.events_ok(),
                self.input == old(self).input,
                self.stack == old(self).stack,
                self.depth == old(self).depth,
                old(self).cursor <= self.cursor <= probe,
                1 <= old(self).cursor,
                probe < self.n() - 1,
                self.output.events@ == old(self).output.events@ + unexpected_run(
                    *self.input,
                    old(self).cursor as int,
                    self.cursor as int,
                ),
            decreases probe - self.cursor,
        {
            let ghost c = self.cursor as int;
            self.emit_token_and_advance(true);
            proof {
                assert(unexpected_run(*self.input, old(self).cursor as int, c + 1) =~= unexpected_run(
                    *self.input,
                    old(self).cursor as int,
                    c,
                ).push(unexpected(*self.input, c)));
                assert(self.output.events@ =~= old(self).output.events@ + unexpected_run(
                    *self.input,
                    old(self).cursor as int,
                    self.cursor as int,
                ));
            }
        }
        if consume {
            self.eat();
        }
        proof {
            assert(self.output.events@ =~= old(self).output.events@ + recovery_events(
                *old(self).input,
                old(self).cursor as int,
                token_kind,
                consume,
            ));
        }
        true
    }

    /// Consumes `token_kind`, recovering towards it when needed.
    fn eat_or_recover(&mut self, token_kind: TokenKind) -> (r: ConsumeResult)
        requires
            old(self).input.parse_ready(),
            old(self).events_ok(),
            1 <= old(self).cursor <= old(self).n() - 1,
            token_kind != TokenKind::FileEnd,
        ensures
            final(self).events_ok(),
            final(self).depth == old(self).depth,
            final(self).input == old(self).input,
            final(self).stack == old(self).stack,
            old(self).cursor <= final(self).cursor <= old(self).n() - 1,
            r == ConsumeResult::Success <==> old(self).input.token_kind(old(self).cursor as int)
                == token_kind,
            r == ConsumeResult::FailedRecovery <==> !recovers(
                *old(self).input,
                old(self).cursor as int,
                token_kind,
            ),
            r == ConsumeResult::FailedRecovery ==> final(self).output == old(self).output,
            final(self).output.events@ == old(self).output.events@ + recovery_events(
                *old(self).input,
                old(self).cursor as int,
                token_kind,
                true,
            ),
            final(self).cursor == recovery_cursor(
                *old(self).input,
                old(self).cursor as int,
                token_kind,
                true,
            ),
    {
        if self.try_eat(token_kind) {
            proof {
                let input = *old(self).input;
                let c = old(self).cursor as int;
                assert(recovery_stop(input, c, token_kind) == c);
                assert(unexpected_run(input, c, c) =~= Seq::<Event>::empty());
                assert(self.output.events@ =~= old(self).output.events@ + recovery_events(
                    input,
                    c,
                    token_kind,
                    true,
                ));
            }
            return ConsumeResult::Success;
        }
        if self.recover_to(token_kind, true) {
            ConsumeResult::Recovered
        } else {
            ConsumeResult::FailedRecovery
        }
    }

    /// The loop over the statements of a file or block.
    fn statement_loop(&mut self)
        requires
            old(self).inv(),
            old(self).stack@.len() > 0,
            old(self).stack@.last().kind == StateKind::StatementLoop,
        ensures
            final(self).output.events@ == old(self).output.events@ + if old(self).input.token_kind(old(self).cursor as int) == TokenKind::FileEnd || (old(self).input.token_kind(old(self).cursor as int)
                == TokenKind::RightBrace && old(self).stack@.len() > 1) {
                Seq::empty()
            } else if old(self).input.token_kind(old(self).cursor as int) == TokenKind::RightBrace {
                seq![unexpected(*old(self).input, old(self).cursor as int)]
            } else {
                statement_events(*old(self).input, old(self).cursor as int)
            },
            final(self).inv(),
            final(self).input == old(self).input,
            final(self).progressed(old(self)),
    {
        let current = self.current();
        if current == TokenKind::FileEnd || (current == TokenKind::RightBrace
            && self.stack.len() > 1) {
            let ghost before = self.stack@;
            self.pop_state();
            proof {
                assert(open_count(before) == open_count(self.stack@));
            }
        } else if current == TokenKind::RightBrace {
            self.emit_token_and_advance(true);
        } else {
            self.statement();
        }
    }

    /// One statement, dispatched on its first token.
    fn statement(&mut self)
        requires
            old(self).inv(),
            old(self).cursor < old(self).n() - 1,
            old(self).stack@.len() > 0,
        ensures
            final(self).output.events@ == old(self).output.events@ + statement_events(*old(self).input, old(self).cursor as int),
            final(self).inv(),
            final(self).input == old(self).input,
            final(self).cursor > old(self).cursor,
    {
        let current = self.current();
        if current == TokenKind::LeftBrace {
            self.block_start();
        } else if current == TokenKind::Enum {
            self.enum_start();
        } else if current == TokenKind::Semicolon {
            self.eat();
        } else if current.is_prefix_operator() || current == TokenKind::Identifier
            || current.is_literal() || current == TokenKind::LeftParen || current
            == TokenKind::LeftSquare {
            self.expr_start();
        } else {
            self.emit_token_and_advance(true);
        }
    }

    /// An expression at the cursor: a prefix operator and its operand, an
    /// identifier or literal, a parenthesized expression or an array
    /// literal. Where none starts, the operand is reported missing.
    fn expr_start(&mut self)
        requires
            old(self).inv(),
            old(self).stack@.len() > 0,
        ensures
            final(self).output.events@ == old(self).output.events@ + expr_start_events(*old(self).input, old(self).cursor as int),
            final(self).inv(),
            final(self).input == old(self).input,
            final(self).cursor > old(self).cursor || (final(self).cursor == old(self).cursor
                && final(self).stack@ == old(self).stack@),
            starts_expression(old(self).input.token_kind(old(self).cursor as int))
                ==> final(self).cursor > old(self).cursor,
    {
        proof {
            lemma_open_count_bound(self.stack@);
        }
        let current = self.current();
        if current.is_prefix_operator() {
            self.emit_start(NodeKind::PrefixOpExpr);
            self.eat();
            self.push_nested(StateKind::PrefixEnd);
        } else if current == TokenKind::Identifier || current.is_literal() {
            self.eat();
        } else if current == TokenKind::LeftParen {
            self.emit_start(NodeKind::ParenExpr);
            self.eat();
            self.push_nested(StateKind::ParenEnd);
        } else if current == TokenKind::LeftSquare {
            self.emit_start(NodeKind::ArrayExpr);
            self.eat();
            if self.current() == TokenKind::RightSquare {
                let ghost before = self.stack@;
                self.push_state(StateKind::ArrayEnd);
                proof {
                    assert(self.stack@.drop_last() == before);
                    assert(self.stack@[0] == before[0]);
                }
            } else {
                self.push_list_start(array_element_list());
            }
        } else {
            self.emit_missing(NodeKind::Error);
        }
    }

    /// Pushes `end` and an operand expression above it.
    fn push_nested(&mut self, end: StateKind)
        requires
            old(self).input.parse_ready(),
            1 <= old(self).cursor <= old(self).n() - 1,
            old(self).events_ok(),
            state_opens(end) == 1,
            old(self).depth == open_count(old(self).stack@) + 1,
            old(self).stack@.len() + 2 <= 3 * old(self).cursor,
            old(self).stack@.len() > 0,
            old(self).stack@[0].kind == StateKind::StatementLoop,
        ensures
            final(self).output == old(self).output,
            final(self).inv(),
            final(self).input == old(self).input,
            final(self).cursor == old(self).cursor,
    {
        let ghost before = self.stack@;
        self.push_state(end);
        self.push_state(StateKind::Expr);
        proof {
            let s1 = before.push(State { kind: end });
            assert(self.stack@.drop_last() == s1);
            assert(s1.drop_last() == before);
            assert(open_count(s1) == open_count(before) + 1);
            assert(open_count(self.stack@) == open_count(s1));
            assert(self.stack@[0] == before[0]);
        }
    }

    /// An operand expression.
    fn expr(&mut self)
        requires
            old(self).inv(),
            old(self).stack@.len() > 0,
            old(self).stack@.last().kind == StateKind::Expr,
        ensures
            final(self).output.events@ == old(self).output.events@ + expr_start_events(*old(self).input, old(self).cursor as int),
            final(self).inv(),
            final(self).input == old(self).input,
            final(self).progressed(old(self)),
    {
        let ghost before = self.stack@;
        self.pop_state();
        proof {
            assert(open_count(before) == open_count(self.stack@));
            assert(self.stack@[0] == before[0]);
        }
        self.expr_start();
    }

    /// Closes a prefix-operator expression.
    fn prefix_end(&mut self)
        requires
            old(self).inv(),
            old(self).stack@.len() > 0,
            old(self).stack@.last().kind == StateKind::PrefixEnd,
        ensures
            final(self).output.events@ == old(self).output.events@ + seq![Event::End],
            final(self).inv(),
            final(self).input == old(self).input,
            final(self).progressed(old(self)),
    {
        let ghost before = self.stack@;
        self.pop_state();
        proof {
            assert(open_count(before) == open_count(self.stack@) + 1);
            lemma_open_count_bound(self.stack@);
            assert(self.stack@[0] == before[0]);
        }
        self.emit_end();
    }

    /// Consumes the close token of a parenthesized or array expression,
    /// recovering towards it, and closes the node.
    fn close_node(&mut self, close: TokenKind)
        requires
            old(self).inv(),
            old(self).stack@.len() > 0,
            old(self).stack@.last().kind == StateKind::ParenEnd || old(self).stack@.last().kind
                == StateKind::ArrayEnd,
            close != TokenKind::FileEnd,
        ensures
            final(self).output.events@ == old(self).output.events@ + recovery_events(*old(self).input, old(self).cursor as int, close, true) + seq![Event::End],
            final(self).inv(),
            final(self).input == old(self).input,
            final(self).progressed(old(self)),
    {
        let ghost before = self.stack@;
        self.pop_state();
        proof {
            assert(open_count(before) == open_count(self.stack@) + 1);
            lemma_open_count_bound(self.stack@);
            assert(self.stack@[0] == before[0]);
        }
        self.eat_or_recover(close);
        self.emit_end();
    }

    fn block_start(&mut self)
        requires
            old(self).inv(),
            old(self).cursor < old(self).n() - 1,
            old(self).input.token_kind(old(self).cursor as int) == TokenKind::LeftBrace,
        ensures
            final(self).output.events@ == old(self).output.events@ + seq![Event::Start { kind: NodeKind::Block }, leaf(*old(self).input, old(self).cursor as int)],
            final(self).inv(),
            final(self).input == old(self).input,
            final(self).cursor > old(self).cursor,
    {
        proof {
            lemma_open_count_bound(self.stack@);
        }
        self.emit_start(NodeKind::Block);
        self.eat();
        let ghost before = self.stack@;
        self.push_state(StateKind::BlockEnd);
        self.push_state(StateKind::StatementLoop);
        proof {
            let mid = before.push(State { kind: StateKind::BlockEnd });
            assert(self.stack@.drop_last() == mid);
            assert(mid.drop_last() == before);
            assert(open_count(mid) == open_count(before) + 1);
            assert(open_count(self.stack@) == open_count(mid));
            assert(self.stack@[0] == before[0]);
        }
    }

    fn block_end(&mut self)
        requires
            old(self).inv(),
            old(self).stack@.len() > 0,
            old(self).stack@.last().kind == StateKind::BlockEnd,
        ensures
            final(self).output.events@ == old(self).output.events@ + recovery_events(*old(self).input, old(self).cursor as int, TokenKind::RightBrace, true)
                + seq![Event::End],
            final(self).inv(),
            final(self).input == old(self).input,
            final(self).progressed(old(self)),
    {
        let ghost before = self.stack@;
        self.pop_state();
        proof {
            assert(open_count(before) == open_count(self.stack@) + 1);
            lemma_open_count_bound(self.stack@);
            assert(self.stack@[0] == before[0]);
        }
        self.eat_or_recover(TokenKind::RightBrace);
        self.emit_end();
    }

    fn enum_start(&mut self)
        requires
            old(self).inv(),
            old(self).cursor < old(self).n() - 1,
            old(self).input.token_kind(old(self).cursor as int) == TokenKind::Enum,
        ensures
            final(self).output.events@ == old(self).output.events@ + enum_start_events(*old(self).input, old(self).cursor as int),
            final(self).inv(),
            final(self).input == old(self).input,
            final(self).cursor > old(self).cursor,
    {
        proof {
            lemma_open_count_bound(self.stack@);
        }
        self.emit_start(NodeKind::EnumDecl);
        self.eat();
        self.eat_expect(TokenKind::Identifier);
        self.emit_start(NodeKind::EnumBlock);
        if self.eat_or_recover(TokenKind::LeftBrace).failed() {
            self.emit_end();
            self.emit_end();
            return;
        }
        self.push_list_start(enum_member_list());
    }

    /// Installs the states of a list and reports a missing first item when
    /// the list opens with a separator.
    fn push_list_start(&mut self, kind: ListNodeKind)
        requires
            old(self).input.parse_ready(),
            1 <= old(self).cursor <= old(self).n() - 1,
            old(self).events_ok(),
            old(self).depth == open_count(old(self).stack@) + state_opens(kind.end_state),
            old(self).stack@.len() + 3 <= 3 * old(self).cursor,
            old(self).stack@.len() > 0,
            old(self).stack@[0].kind == StateKind::StatementLoop,
            state_opens(kind.item_state) == 0,
            state_opens(kind.loop_state) == 0,
        ensures
            final(self).output.events@ == old(self).output.events@ + if old(self).input.token_kind(old(self).cursor as int) == kind.separator {
                seq![Event::Missing { kind: kind.item_kind }]
            } else {
                Seq::empty()
            },
            final(self).inv(),
            final(self).input == old(self).input,
            final(self).cursor == old(self).cursor,
    {
        let ghost before = self.stack@;
        self.push_state(kind.end_state);
        self.push_state(kind.loop_state);
        self.push_state(kind.item_state);
        proof {
            let s1 = before.push(State { kind: kind.end_state });
            let s2 = s1.push(State { kind: kind.loop_state });
            assert(self.stack@.drop_last() == s2);
            assert(s2.drop_last() == s1);
            assert(s1.drop_last() == before);
            assert(open_count(s1) == open_count(before) + state_opens(kind.end_state));
            assert(open_count(s2) == open_count(s1));
            assert(open_count(self.stack@) == open_count(s2));
            assert(before.len() > 0 ==> self.stack@[0] == before[0]);
        }
        if self.current() == kind.separator {
            self.emit_missing(kind.item_kind);
        }
    }

    /// After a list item: a separator (with missing items for repeated
    /// separators) and another item unless the close token follows, or
    /// recovery towards the close token.
    fn list_loop(&mut self, kind: ListNodeKind)
        requires
            old(self).inv(),
            old(self).stack@.len() > 0,
            old(self).stack@.last().kind == kind.loop_state,
            kind.loop_state != StateKind::StatementLoop,
            state_opens(kind.item_state) == 0,
            state_opens(kind.loop_state) == 0,
            kind.separator == TokenKind::Comma,
            kind.close_token != TokenKind::FileEnd,
        ensures
            final(self).output.events@ == old(self).output.events@ + if old(self).input.token_kind(old(self).cursor as int) == kind.separator {
                seq![leaf(*old(self).input, old(self).cursor as int)] + missing_items(*old(self).input, old(self).cursor as int + 1, kind.separator, kind.item_kind)
            } else {
                recovery_events(*old(self).input, old(self).cursor as int, kind.close_token, false)
            },
            final(self).inv(),
            final(self).input == old(self).input,
            final(self).progressed(old(self)),
    {
        let ghost before = self.stack@;
        let this_state = self.pop_state();
        proof {
            assert(open_count(before) == open_count(self.stack@));
            assert(self.stack@[0] == before[0]);
        }
        if self.try_eat(kind.separator) {
            proof {
                assert(self.output.events@ + missing_items(
                    *self.input,
                    self.cursor as int,
                    TokenKind::Comma,
                    kind.item_kind,
                ) =~= old(self).output.events@ + (seq![leaf(*old(self).input, old(self).cursor as int)]
                    + missing_items(
                    *self.input,
                    old(self).cursor as int + 1,
                    TokenKind::Comma,
                    kind.item_kind,
                )));
            }
            while self.current() == kind.separator
                invariant
                    self.input.parse_ready(),
                    self.events_ok(),
                    self.input == old(self).input,
                    self.stack@ == before.drop_last(),
                    self.depth == old(self).depth,
                    old(self).cursor < self.cursor <= self.n() - 1,
                    1 <= old(self).cursor,
                    kind.separator == TokenKind::Comma,
                    self.output.events@ + missing_items(
                        *self.input,
                        self.cursor as int,
                        TokenKind::Comma,
                        kind.item_kind,
                    ) == old(self).output.events@ + (seq![leaf(*old(self).input, old(self).cursor as int)]
                        + missing_items(
                        *self.input,
                        old(self).cursor as int + 1,
                        TokenKind::Comma,
                        kind.item_kind,
                    )),
                decreases self.n() - self.cursor,
            {
                let ghost before = self.output.events@;
                let ghost c = self.cursor as int;
                self.emit_missing(kind.item_kind);
                self.eat();
                proof {
                    let rest = missing_items(*self.input, c + 1, TokenKind::Comma, kind.item_kind);
                    assert(missing_items(*self.input, c, TokenKind::Comma, kind.item_kind) == seq![
                        Event::Missing { kind: kind.item_kind },
                        leaf(*self.input, c),
                    ] + rest);
                    assert(self.output.events@ + rest =~= before + missing_items(
                        *self.input,
                        c,
                        TokenKind::Comma,
                        kind.item_kind,
                    ));
                }
            }
            proof {
                assert(missing_items(*self.input, self.cursor as int, TokenKind::Comma, kind.item_kind)
                    =~= Seq::<Event>::empty());
                assert(self.output.events@ =~= self.output.events@ + missing_items(
                    *self.input,
                    self.cursor as int,
                    TokenKind::Comma,
                    kind.item_kind,
                ));
            }
            if self.current() != kind.close_token {
                let ghost mid = self.stack@;
                self.push_state(kind.loop_state);
                self.push_state(kind.item_state);
                proof {
                    let s1 = mid.push(State { kind: kind.loop_state });
                    assert(self.stack@.drop_last() == s1);
                    assert(s1.drop_last() == mid);
                    assert(open_count(s1) == open_count(mid));
                    assert(open_count(self.stack@) == open_count(s1));
                    assert(self.stack@[0] == mid[0]);
                }
            }
            return;
        }
        self.recover_to(kind.close_token, false);
    }

    fn enum_item(&mut self)
        requires
            old(self).inv(),
            old(self).stack@.len() > 0,
            old(self).stack@.last().kind == StateKind::EnumItem,
        ensures
            final(self).output.events@ == old(self).output.events@ + seq![Event::Start { kind: NodeKind::EnumMember }] + (if old(self).input.token_kind(old(self).cursor as int) == TokenKind::Identifier {
                seq![leaf(*old(self).input, old(self).cursor as int)]
            } else {
                Seq::empty()
            }) + seq![Event::End],
            final(self).inv(),
            final(self).input == old(self).input,
            final(self).progressed(old(self)),
    {
        let ghost before = self.stack@;
        self.pop_state();
        proof {
            assert(open_count(before) == open_count(self.stack@));
            lemma_open_count_bound(self.stack@);
            assert(self.stack@[0] == before[0]);
        }
        self.emit_start(NodeKind::EnumMember);
        self.try_eat(TokenKind::Identifier);
        self.emit_end();
    }

    fn enum_end(&mut self)
        requires
            old(self).inv(),
            old(self).stack@.len() > 0,
            old(self).stack@.last().kind == StateKind::EnumEnd,
        ensures
            final(self).output.events@ == old(self).output.events@ + recovery_events(*old(self).input, old(self).cursor as int, TokenKind::RightBrace, true)
                + seq![Event::End, Event::End],
            final(self).inv(),
            final(self).input == old(self).input,
            final(self).progressed(old(self)),
    {
        let ghost before = self.stack@;
        self.pop_state();
        proof {
            assert(open_count(before) == open_count(self.stack@) + 2);
            lemma_open_count_bound(self.stack@);
            assert(self.stack@[0] == before[0]);
        }
        self.eat_or_recover(TokenKind::RightBrace);
        self.emit_end();
        self.emit_end();
    }
}

} // verus!
