use crate::chunked_index_vec::ChunkedIndexVec;
use crate::lex::ascii::{
    AMPERSAND, APOSTROPHE, ASTERISK, AT, BRACE_CLOSE, BRACE_OPEN, BRACKET_CLOSE, BRACKET_OPEN,
    CARET, CARRIAGE_RETURN, COLON, COMMA, DIGIT_NINE, DIGIT_ZERO, DOLLAR, DOT, EQUAL, EXCLAMATION,
    GREATER_THAN, HASH, LESS_THAN, MINUS, NEWLINE, PAREN_CLOSE, PAREN_OPEN, PERCENT, PIPE, PLUS,
    QUESTION, QUOTE, SEMICOLON, SLASH, SPACE, TAB, TILDE,
};
use crate::lex::identifier_lexer::{
    ident_end, is_identifier_byte, is_identifier_start, scan_identifier, spec_is_identifier_byte,
    spec_is_identifier_start,
};
use crate::lex::number_lexer::{number_scan, scan_number_or_dot};
use crate::lex::string_lexer::{
    scan_string_literal, scan_verbatim_string_literal, string_end, verbatim_end,
};
use crate::lex::token::{Token, TokenIndex, TokenKind, PAYLOAD_MASK};
use crate::lex::tokenized_text::{
    Comment, Diagnostic, DiagnosticKind, Line, LineIndex, TokenizedText,
};
use crate::source_text::{SourceText, TextSize};
use crate::typed_index::TypedIndex;
use vstd::prelude::*;
use vstd::string::StringSliceAdditionalSpecFns;

verus! {

broadcast use ChunkedIndexVec::lemma_len_bound, SourceText::lemma_wf;

/// The handler class of a leading byte.
#[derive(Debug, Clone, Copy, PartialEq, Eq, Structural)]
pub enum Dispatch {
    Error,
    NewLine,
    Cr,
    HorizontalSpace,
    Exclamation,
    Quote,
    IdentifierStart,
    Dollar,
    Hash,
    Percent,
    Ampersand,
    ParenOpen,
    ParenClose,
    Asterisk,
    Plus,
    Comma,
    Minus,
    Dot,
    Slash,
    DigitZero,
    DigitNonZero,
    Colon,
    Semicolon,
    LessThan,
    Equal,
    GreaterThan,
    Question,
    At,
    BracketOpen,
    BracketClose,
    Caret,
    BraceOpen,
    Pipe,
    BraceClose,
    Tilde,
    Unicode,
}

/// Why lexing gave up.
#[derive(Debug, Clone, Copy, PartialEq, Eq, Structural)]
pub enum LexError {
    /// The token stream would outgrow the 23-bit token payload.
    TooManyTokens,
}

pub open spec fn spec_is_horizontal_whitespace(c: u8) -> bool {
    c == SPACE || c == TAB
}

#[verifier::when_used_as_spec(spec_is_horizontal_whitespace)]
pub fn is_horizontal_whitespace(c: u8) -> (r: bool)
    ensures
        r == spec_is_horizontal_whitespace(c),
{
    c == SPACE || c == TAB
}

/// The handler class of byte `c`.
pub open spec fn spec_dispatch(c: u8) -> Dispatch {
    if c == NEWLINE {
        Dispatch::NewLine
    } else if c == CARRIAGE_RETURN {
        Dispatch::Cr
    } else if c == EXCLAMATION {
        Dispatch::Exclamation
    } else if c == QUOTE {
        Dispatch::Quote
    } else if c == DOLLAR {
        Dispatch::Dollar
    } else if c == HASH {
        Dispatch::Hash
    } else if c == PERCENT {
        Dispatch::Percent
    } else if c == AMPERSAND {
        Dispatch::Ampersand
    } else if c == PAREN_OPEN {
        Dispatch::ParenOpen
    } else if c == PAREN_CLOSE {
        Dispatch::ParenClose
    } else if c == ASTERISK {
        Dispatch::Asterisk
    } else if c == PLUS {
        Dispatch::Plus
    } else if c == COMMA {
        Dispatch::Comma
    } else if c == MINUS {
        Dispatch::Minus
    } else if c == DOT {
        Dispatch::Dot
    } else if c == SLASH {
        Dispatch::Slash
    } else if c == DIGIT_ZERO {
        Dispatch::DigitZero
    } else if DIGIT_ZERO < c <= DIGIT_NINE {
        Dispatch::DigitNonZero
    } else if c == COLON {
        Dispatch::Colon
    } else if c == SEMICOLON {
        Dispatch::Semicolon
    } else if c == LESS_THAN {
        Dispatch::LessThan
    } else if c == EQUAL {
        Dispatch::Equal
    } else if c == GREATER_THAN {
        Dispatch::GreaterThan
    } else if c == QUESTION {
        Dispatch::Question
    } else if c == AT {
        Dispatch::At
    } else if c == BRACKET_OPEN {
        Dispatch::BracketOpen
    } else if c == BRACKET_CLOSE {
        Dispatch::BracketClose
    } else if c == CARET {
        Dispatch::Caret
    } else if c == BRACE_OPEN {
        Dispatch::BraceOpen
    } else if c == PIPE {
        Dispatch::Pipe
    } else if c == BRACE_CLOSE {
        Dispatch::BraceClose
    } else if c == TILDE {
        Dispatch::Tilde
    } else if spec_is_identifier_start(c) {
        Dispatch::IdentifierStart
    } else if spec_is_horizontal_whitespace(c) {
        Dispatch::HorizontalSpace
    } else if c <= 0x7f {
        Dispatch::Error
    } else {
        Dispatch::Unicode
    }
}

/// The handler class of byte `c`.
#[verifier::when_used_as_spec(spec_dispatch)]
pub fn dispatch(c: u8) -> (r: Dispatch)
    ensures
        r == spec_dispatch(c),
        r == Dispatch::IdentifierStart <==> spec_is_identifier_start(c),
        r == Dispatch::HorizontalSpace <==> spec_is_horizontal_whitespace(c),
{
    if c == NEWLINE {
        Dispatch::NewLine
    } else if c == CARRIAGE_RETURN {
        Dispatch::Cr
    } else if c == EXCLAMATION {
        Dispatch::Exclamation
    } else if c == QUOTE {
        Dispatch::Quote
    } else if c == DOLLAR {
        Dispatch::Dollar
    } else if c == HASH {
        Dispatch::Hash
    } else if c == PERCENT {
        Dispatch::Percent
    } else if c == AMPERSAND {
        Dispatch::Ampersand
    } else if c == PAREN_OPEN {
        Dispatch::ParenOpen
    } else if c == PAREN_CLOSE {
        Dispatch::ParenClose
    } else if c == ASTERISK {
        Dispatch::Asterisk
    } else if c == PLUS {
        Dispatch::Plus
    } else if c == COMMA {
        Dispatch::Comma
    } else if c == MINUS {
        Dispatch::Minus
    } else if c == DOT {
        Dispatch::Dot
    } else if c == SLASH {
        Dispatch::Slash
    } else if c == DIGIT_ZERO {
        Dispatch::DigitZero
    } else if DIGIT_ZERO < c && c <= DIGIT_NINE {
        Dispatch::DigitNonZero
    } else if c == COLON {
        Dispatch::Colon
    } else if c == SEMICOLON {
        Dispatch::Semicolon
    } else if c == LESS_THAN {
        Dispatch::LessThan
    } else if c == EQUAL {
        Dispatch::Equal
    } else if c == GREATER_THAN {
        Dispatch::GreaterThan
    } else if c == QUESTION {
        Dispatch::Question
    } else if c == AT {
        Dispatch::At
    } else if c == BRACKET_OPEN {
        Dispatch::BracketOpen
    } else if c == BRACKET_CLOSE {
        Dispatch::BracketClose
    } else if c == CARET {
        Dispatch::Caret
    } else if c == BRACE_OPEN {
        Dispatch::BraceOpen
    } else if c == PIPE {
        Dispatch::Pipe
    } else if c == BRACE_CLOSE {
        Dispatch::BraceClose
    } else if c == TILDE {
        Dispatch::Tilde
    } else if is_identifier_start(c) {
        Dispatch::IdentifierStart
    } else if is_horizontal_whitespace(c) {
        Dispatch::HorizontalSpace
    } else if c <= 0x7f {
        Dispatch::Error
    } else {
        Dispatch::Unicode
    }
}

pub open spec fn spec_is_open_delimiter(kind: TokenKind) -> bool {
    matches!(
        kind,
        TokenKind::LeftParen | TokenKind::LeftBrace | TokenKind::LeftSquare
            | TokenKind::ArrayAccessor | TokenKind::ListAccessor | TokenKind::GridAccessor
            | TokenKind::MapAccessor | TokenKind::StructAccessor
    )
}

pub open spec fn spec_is_close_delimiter(kind: TokenKind) -> bool {
    matches!(kind, TokenKind::RightParen | TokenKind::RightBrace | TokenKind::RightSquare)
}

/// Parens and braces close themselves; `[` and every accessor close with `]`.
pub open spec fn spec_is_matching_delimiter(open_kind: TokenKind, close_kind: TokenKind) -> bool {
    match open_kind {
        TokenKind::LeftParen => close_kind == TokenKind::RightParen,
        TokenKind::LeftBrace => close_kind == TokenKind::RightBrace,
        TokenKind::LeftSquare | TokenKind::ArrayAccessor | TokenKind::ListAccessor
        | TokenKind::GridAccessor | TokenKind::MapAccessor | TokenKind::StructAccessor =>
            close_kind == TokenKind::RightSquare,
        _ => false,
    }
}

#[verifier::when_used_as_spec(spec_is_open_delimiter)]
pub fn is_open_delimiter(kind: TokenKind) -> (r: bool)
    ensures
        r == spec_is_open_delimiter(kind),
{
    matches!(
        kind,
        TokenKind::LeftParen | TokenKind::LeftBrace | TokenKind::LeftSquare
            | TokenKind::ArrayAccessor | TokenKind::ListAccessor | TokenKind::GridAccessor
            | TokenKind::MapAccessor | TokenKind::StructAccessor
    )
}

#[verifier::when_used_as_spec(spec_is_close_delimiter)]
pub fn is_close_delimiter(kind: TokenKind) -> (r: bool)
    ensures
        r == spec_is_close_delimiter(kind),
{
    matches!(kind, TokenKind::RightParen | TokenKind::RightBrace | TokenKind::RightSquare)
}

#[verifier::when_used_as_spec(spec_is_matching_delimiter)]
pub fn is_matching_delimiter(open_kind: TokenKind, close_kind: TokenKind) -> (r: bool)
    ensures
        r == spec_is_matching_delimiter(open_kind, close_kind),
{
    match open_kind {
        TokenKind::LeftParen => close_kind == TokenKind::RightParen,
        TokenKind::LeftBrace => close_kind == TokenKind::RightBrace,
        TokenKind::LeftSquare | TokenKind::ArrayAccessor | TokenKind::ListAccessor
        | TokenKind::GridAccessor | TokenKind::MapAccessor | TokenKind::StructAccessor =>
            close_kind == TokenKind::RightSquare,
        _ => false,
    }
}

/// The keyword an identifier-shaped run of bytes spells, or `Identifier`.
#[verifier::opaque]
pub open spec fn keyword_kind(s: Seq<u8>) -> TokenKind {
    if s == "and".spec_bytes() {
        TokenKind::And
    } else if s == "or".spec_bytes() {
        TokenKind::Or
    } else if s == "xor".spec_bytes() {
        TokenKind::Xor
    } else if s == "not".spec_bytes() {
        TokenKind::Not
    } else if s == "mod".spec_bytes() {
        TokenKind::Modulo
    } else if s == "div".spec_bytes() {
        TokenKind::IntegerDivide
    } else if s == "begin".spec_bytes() {
        TokenKind::LeftBrace
    } else if s == "end".spec_bytes() {
        TokenKind::RightBrace
    } else if s == "true".spec_bytes() || s == "false".spec_bytes() {
        TokenKind::BooleanLiteral
    } else if s == "break".spec_bytes() {
        TokenKind::Break
    } else if s == "exit".spec_bytes() {
        TokenKind::Exit
    } else if s == "do".spec_bytes() {
        TokenKind::Do
    } else if s == "until".spec_bytes() {
        TokenKind::Until
    } else if s == "case".spec_bytes() {
        TokenKind::Case
    } else if s == "else".spec_bytes() {
        TokenKind::Else
    } else if s == "new".spec_bytes() {
        TokenKind::New
    } else if s == "var".spec_bytes() {
        TokenKind::Var
    } else if s == "globalvar".spec_bytes() {
        TokenKind::GlobalVar
    } else if s == "try".spec_bytes() {
        TokenKind::Try
    } else if s == "catch".spec_bytes() {
        TokenKind::Catch
    } else if s == "finally".spec_bytes() {
        TokenKind::Finally
    } else if s == "return".spec_bytes() {
        TokenKind::Return
    } else if s == "continue".spec_bytes() {
        TokenKind::Continue
    } else if s == "for".spec_bytes() {
        TokenKind::For
    } else if s == "switch".spec_bytes() {
        TokenKind::Switch
    } else if s == "while".spec_bytes() {
        TokenKind::While
    } else if s == "repeat".spec_bytes() {
        TokenKind::Repeat
    } else if s == "function".spec_bytes() {
        TokenKind::Function
    } else if s == "with".spec_bytes() {
        TokenKind::With
    } else if s == "default".spec_bytes() {
        TokenKind::Default
    } else if s == "if".spec_bytes() {
        TokenKind::If
    } else if s == "then".spec_bytes() {
        TokenKind::Then
    } else if s == "throw".spec_bytes() {
        TokenKind::Throw
    } else if s == "delete".spec_bytes() {
        TokenKind::Delete
    } else if s == "enum".spec_bytes() {
        TokenKind::Enum
    } else if s == "constructor".spec_bytes() {
        TokenKind::Constructor
    } else if s == "static".spec_bytes() {
        TokenKind::Static
    } else {
        TokenKind::Identifier
    }
}

proof fn lemma_keyword_not_sentinel(s: Seq<u8>)
    ensures
        keyword_kind(s) != TokenKind::FileStart,
        keyword_kind(s) != TokenKind::FileEnd,
        keyword_kind(s) != TokenKind::Error,
{
    reveal(keyword_kind);
}

/// Whether `text` holds exactly the bytes of `word`.
fn bytes_equal(text: &[u8], word: &str) -> (r: bool)
    ensures
        r == (text@ == word.spec_bytes()),
{
    let w = word.as_bytes();
    if text.len() != w.len() {
        return false;
    }
    let mut i: usize = 0;
    while i < text.len()
        invariant
            text@.len() == w@.len(),
            w@ == word.spec_bytes(),
            i <= text@.len(),
            forall|j: int| 0 <= j < i ==> text@[j] == w@[j],
        decreases text@.len() - i,
    {
        if text[i] != w[i] {
            return false;
        }
        i += 1;
    }
    assert(text@ =~= w@);
    true
}

/// `starts` is the line table of `s`: a line starts at 0 and after each
/// `\n`, and a sentinel line starts at the end of input when `s` does not end
/// with `\n` (`inserted` says so). Within a line only its last byte may be a
/// `\n`.
#[verifier::opaque]
pub open spec fn line_table(starts: Seq<int>, inserted: bool, s: Seq<u8>) -> bool {
    let n = starts.len();
    &&& n >= 1
    &&& starts[0] == 0
    &&& starts[n - 1] == s.len()
    &&& forall|j: int, k: int| 0 <= j < k < n ==> starts[j] < starts[k]
    &&& forall|k: int, p: int|
        #![trigger starts[k], s[p]]
        0 <= k < n - 1 && starts[k] <= p < starts[k + 1] - 1 ==> s[p] != NEWLINE
    &&& forall|k: int|
        0 <= k < n - 1 ==> s[#[trigger] starts[k + 1] - 1] == NEWLINE || (k + 2 == n && inserted)
    &&& inserted <==> (s.len() > 0 && s[s.len() - 1] != NEWLINE)
}

impl TokenizedText {
    /// The starts of all lines.
    pub open spec fn line_starts(&self) -> Seq<int> {
        starts_of(&self.lines)
    }

    /// The kind and start of every token.
    pub open spec fn token_shapes(&self) -> Seq<(TokenKind, int)> {
        shapes_of(self.tokens@)
    }

    /// The payload of token `i`.
    pub open spec fn token_payload(&self, i: int) -> int {
        self.tokens@[i]@.payload as int
    }

    /// Tokens `o` and `c` are a matching open and close delimiter, each
    /// holding the other's index as its payload.
    pub open spec fn paired(&self, o: int, c: int) -> bool {
        paired_in(self.tokens@, o, c)
    }

    /// Every delimiter token is paired with its partner.
    pub open spec fn brackets_paired(&self) -> bool {
        &&& forall|i: int|
            0 <= i < self.tokens@.len() && spec_is_open_delimiter(#[trigger] self.token_kind(i))
                ==> self.paired(i, self.token_payload(i))
        &&& forall|i: int|
            0 <= i < self.tokens@.len() && spec_is_close_delimiter(#[trigger] self.token_kind(i))
                ==> self.paired(self.token_payload(i), i)
    }

    /// Each token between the sentinels is marked as preceded by whitespace
    /// exactly when it is the first or whitespace (a blank, a line break or a
    /// line comment) lies between it and the token before.
    pub open spec fn spaces_follow(&self, s: Seq<u8>) -> bool {
        forall|i: int|
            0 < i < self.tokens@.len() - 1 ==> (#[trigger] self.tokens@[i])@.has_leading_space == (i
                == 1 || gap_has_space(s, self.token_end(s, i - 1), self.token_start(i)))
    }

    /// Every delimiter without a partner holds payload 0.
    pub open spec fn unpaired_keep_zero(&self) -> bool {
        &&& forall|i: int|
            0 <= i < self.tokens@.len() && spec_is_open_delimiter(#[trigger] self.token_kind(i))
                ==> self.paired(i, self.token_payload(i)) || self.token_payload(i) == 0
        &&& forall|i: int|
            0 <= i < self.tokens@.len() && spec_is_close_delimiter(#[trigger] self.token_kind(i))
                ==> self.paired(self.token_payload(i), i) || self.token_payload(i) == 0
    }

    /// The stream starts with `FileStart` at 0, ends with `FileEnd` at the end
    /// of input, both marked as preceded by whitespace, and the tokens between
    /// start at strictly increasing offsets inside the input.
    pub open spec fn tokens_partition(&self, len: int) -> bool {
        let n = self.tokens@.len();
        &&& n >= 2
        &&& self.token_kind(0) == TokenKind::FileStart
        &&& self.token_start(0) == 0
        &&& self.tokens@[0]@.has_leading_space
        &&& self.token_payload(0) == 0
        &&& self.token_payload(n - 1) == 0
        &&& self.token_kind(n - 1) == TokenKind::FileEnd
        &&& self.token_start(n - 1) == len
        &&& self.tokens@[n - 1]@.has_leading_space
        &&& forall|i: int|
            0 < i < n - 1 ==> #[trigger] self.token_kind(i) != TokenKind::FileStart
                && self.token_kind(i) != TokenKind::FileEnd && self.token_start(i) < len
        &&& forall|i: int, j: int|
            0 < i < j < n - 1 ==> #[trigger] self.token_start(i) < #[trigger] self.token_start(j)
    }

    /// Where token `i` ends in `s`, with `FileStart` taken as empty.
    pub open spec fn token_end(&self, s: Seq<u8>, i: int) -> int {
        if i == 0 {
            0
        } else {
            self.token_start(i) + token_len_at(s, self.token_start(i))
        }
    }

    /// What the lexer guarantees of its output for input `s`.
    pub open spec fn lexed_from(&self, s: Seq<u8>) -> bool {
        &&& self.wf()
        &&& line_table(self.line_starts(), self.last_line_is_inserted, s)
        &&& self.tokens_partition(s.len() as int)
        &&& self.tokens@.len() < Token::MAX_INDEX
        &&& self.kinds_follow(s)
        &&& self.extents_follow(s)
        &&& self.gaps_follow(s)
        &&& self.error_payloads_follow(s)
        &&& !self.has_mismatched_brackets ==> self.brackets_paired()
        &&& self.has_mismatched_brackets ==> !self.brackets_paired()
        &&& self.unpaired_keep_zero()
        &&& self.spaces_follow(s)
        &&& self.diagnostics@ == stream_diagnostics(self.token_shapes(), s, self.tokens@.len() - 1)
        &&& s.len() == 0 ==> self.tokens@.len() == 2 && self.lines@.len() == 1
            && self.diagnostics@.len() == 0
    }

    /// Each token between the sentinels has the kind `s` gives at its start,
    /// where no whitespace or comment starts.
    pub open spec fn kinds_follow(&self, s: Seq<u8>) -> bool {
        forall|i: int|
            0 < i < self.tokens@.len() - 1 ==> #[trigger] self.token_kind(i) == token_kind_at(
                s,
                self.token_start(i),
            ) && skip_step(s, self.token_start(i)) == self.token_start(i)
    }

    /// Each token between the sentinels, at the length `s` gives it, ends no
    /// later than the next one starts.
    pub open spec fn extents_follow(&self, s: Seq<u8>) -> bool {
        forall|i: int|
            0 < i < self.tokens@.len() - 1 ==> #[trigger] self.token_start(i) + token_len_at(
                s,
                self.token_start(i),
            ) <= self.token_start(i + 1)
    }

    /// Between the end of each token and the start of the next lie
    /// whitespace and comments only.
    pub open spec fn gaps_follow(&self, s: Seq<u8>) -> bool {
        forall|j: int|
            0 < j < self.tokens@.len() ==> skips_to(
                s,
                self.token_end(s, j - 1),
                #[trigger] self.token_start(j),
            )
    }

    /// Each error token holds its length as its payload.
    pub open spec fn error_payloads_follow(&self, s: Seq<u8>) -> bool {
        forall|i: int|
            0 < i < self.tokens@.len() - 1 && #[trigger] self.token_kind(i) == TokenKind::Error
                ==> self.token_payload(i) == token_len_at(s, self.token_start(i))
    }
}

/// Tokens `o` and `c` of `tokens` are a matching open and close delimiter,
/// each holding the other's index as its payload.
pub open spec fn paired_in(tokens: Seq<Token>, o: int, c: int) -> bool {
    &&& 0 <= o < c < tokens.len()
    &&& spec_is_open_delimiter(tokens[o]@.kind)
    &&& spec_is_close_delimiter(tokens[c]@.kind)
    &&& spec_is_matching_delimiter(tokens[o]@.kind, tokens[c]@.kind)
    &&& tokens[o]@.payload == c
    &&& tokens[c]@.payload == o
}

/// The open delimiters awaiting a partner: earlier tokens, in order, each an
/// open delimiter with payload 0.
pub open spec fn stack_ok(tokens: Seq<Token>, st: Seq<TokenIndex>) -> bool {
    &&& forall|s: int|
        0 <= s < st.len() ==> 0 < (#[trigger] st[s]).index() < tokens.len()
            && spec_is_open_delimiter(tokens[st[s].index() as int]@.kind)
            && tokens[st[s].index() as int]@.payload == 0
    &&& forall|s1: int, s2: int|
        0 <= s1 < s2 < st.len() ==> (#[trigger] st[s1]).index() < (#[trigger] st[s2]).index()
}

pub open spec fn in_stack(st: Seq<TokenIndex>, i: int) -> bool {
    exists|s: int| 0 <= s < st.len() && st[s].index() == i
}

/// Without a mismatch so far, every open delimiter awaits its partner or is
/// paired, and every close delimiter is paired.
pub open spec fn pairs_ok(tokens: Seq<Token>, mismatched: bool, st: Seq<TokenIndex>) -> bool {
    !mismatched ==> {
        &&& forall|i: int|
            0 <= i < tokens.len() && spec_is_open_delimiter(#[trigger] tokens[i]@.kind)
                ==> in_stack(st, i) || paired_in(tokens, i, tokens[i]@.payload as int)
        &&& forall|i: int|
            0 <= i < tokens.len() && spec_is_close_delimiter(#[trigger] tokens[i]@.kind)
                ==> paired_in(tokens, tokens[i]@.payload as int, i)
    }
}

/// Every delimiter is paired, awaits a partner, or holds payload 0; and a
/// recorded mismatch has a witness: a delimiter with payload 0 that awaits
/// nothing.
pub open spec fn settled_ok(tokens: Seq<Token>, mismatched: bool, st: Seq<TokenIndex>) -> bool {
    &&& forall|i: int|
        0 <= i < tokens.len() && spec_is_open_delimiter(#[trigger] tokens[i]@.kind) ==> in_stack(st, i)
            || paired_in(tokens, i, tokens[i]@.payload as int) || tokens[i]@.payload == 0
    &&& forall|i: int|
        0 <= i < tokens.len() && spec_is_close_delimiter(#[trigger] tokens[i]@.kind) ==> paired_in(
            tokens,
            tokens[i]@.payload as int,
            i,
        ) || tokens[i]@.payload == 0
    &&& mismatched ==> exists|i: int|
        0 <= i < tokens.len() && (spec_is_open_delimiter(#[trigger] tokens[i]@.kind)
            || spec_is_close_delimiter(tokens[i]@.kind)) && !in_stack(st, i) && tokens[i]@.payload
            == 0
}

/// The parts of the lexer state that do not move with the cursor.
#[verifier::opaque]
pub open spec fn structure_core(
    tokens: Seq<Token>,
    starts: Seq<int>,
    inserted: bool,
    mismatched: bool,
    s: Seq<u8>,
    st: Seq<TokenIndex>,
) -> bool {
    &&& line_table(starts, inserted, s)
    &&& stack_ok(tokens, st)
    &&& pairs_ok(tokens, mismatched, st)
    &&& settled_ok(tokens, mismatched, st)
}

pub open spec fn structure_ok(t: TokenizedText, s: Seq<u8>, st: Seq<TokenIndex>) -> bool {
    &&& t.tokens.wf()
    &&& t.comments.wf()
    &&& t.lines.wf()
    &&& structure_core(
        t.tokens@,
        t.line_starts(),
        t.last_line_is_inserted,
        t.has_mismatched_brackets,
        s,
        st,
    )
}

/// The byte at `i`, or 0 past the end of input.
pub open spec fn byte_or_zero(s: Seq<u8>, i: int) -> u8 {
    if 0 <= i < s.len() {
        s[i]
    } else {
        0
    }
}

/// `kind` for a lone byte at `p`, `equals_kind` when `=` follows it.
pub open spec fn with_equals(s: Seq<u8>, p: int, kind: TokenKind, equals_kind: TokenKind) -> TokenKind {
    if byte_or_zero(s, p + 1) == EQUAL {
        equals_kind
    } else {
        kind
    }
}

/// `kind` for a lone byte at `p`, `twice_kind` when it is doubled and
/// `equals_kind` when `=` follows it.
pub open spec fn twice_or_equals(
    s: Seq<u8>,
    p: int,
    kind: TokenKind,
    twice_kind: TokenKind,
    equals_kind: TokenKind,
) -> TokenKind {
    if byte_or_zero(s, p + 1) == EQUAL {
        equals_kind
    } else if p + 1 < s.len() && s[p + 1] == s[p] {
        twice_kind
    } else {
        kind
    }
}

/// `single`, `double` when the byte is doubled, `double_equals` when `=`
/// follows the doubled byte, and `equals` when `=` follows the lone byte
/// (used for `<` and `>`).
pub open spec fn shift_or_compare(
    s: Seq<u8>,
    p: int,
    single: TokenKind,
    equals: TokenKind,
    double: TokenKind,
    double_equals: TokenKind,
) -> TokenKind {
    if byte_or_zero(s, p + 1) == s[p] {
        if byte_or_zero(s, p + 2) == EQUAL {
            double_equals
        } else {
            double
        }
    } else if byte_or_zero(s, p + 1) == EQUAL {
        equals
    } else {
        single
    }
}

/// The kind of the token that starts at offset `p` of `s` (for a byte that
/// starts a token at all: whitespace and comments start none).
#[verifier::opaque]
pub open spec fn token_kind_at(s: Seq<u8>, p: int) -> TokenKind {
    let rest = s.subrange(p, s.len() as int);
    let next = byte_or_zero(s, p + 1);
    match spec_dispatch(s[p]) {
        Dispatch::IdentifierStart => keyword_kind(rest.subrange(0, ident_end(rest, 0))),
        Dispatch::Dot | Dispatch::DigitZero | Dispatch::DigitNonZero => number_scan(rest, 0, false).1,
        Dispatch::Quote => if string_end(rest, 1).1 {
            TokenKind::StringLiteral
        } else {
            TokenKind::Error
        },
        Dispatch::At => if next == QUOTE || next == APOSTROPHE {
            if verbatim_end(rest, next, 2).1 {
                TokenKind::VerbatimStringLiteral
            } else {
                TokenKind::Error
            }
        } else {
            TokenKind::AtSign
        },
        Dispatch::Dollar => TokenKind::DollarSign,
        Dispatch::Hash => TokenKind::NumberSign,
        Dispatch::BracketOpen => if next == PIPE {
            TokenKind::ListAccessor
        } else if next == QUESTION {
            TokenKind::MapAccessor
        } else if next == HASH {
            TokenKind::GridAccessor
        } else if next == AT {
            TokenKind::ArrayAccessor
        } else if next == DOLLAR {
            TokenKind::StructAccessor
        } else {
            TokenKind::LeftSquare
        },
        Dispatch::BracketClose => TokenKind::RightSquare,
        Dispatch::ParenOpen => TokenKind::LeftParen,
        Dispatch::ParenClose => TokenKind::RightParen,
        Dispatch::BraceOpen => TokenKind::LeftBrace,
        Dispatch::BraceClose => TokenKind::RightBrace,
        Dispatch::Comma => TokenKind::Comma,
        Dispatch::Colon => TokenKind::Colon,
        Dispatch::Semicolon => TokenKind::Semicolon,
        Dispatch::Exclamation => with_equals(s, p, TokenKind::Not, TokenKind::NotEquals),
        Dispatch::Percent => with_equals(s, p, TokenKind::Modulo, TokenKind::ModuloAssign),
        Dispatch::Caret => with_equals(s, p, TokenKind::BitXor, TokenKind::BitXorAssign),
        Dispatch::Tilde => with_equals(s, p, TokenKind::BitNot, TokenKind::BitNotAssign),
        Dispatch::Equal => TokenKind::Equals,
        Dispatch::Slash => with_equals(s, p, TokenKind::Divide, TokenKind::DivideAssign),
        Dispatch::Ampersand => twice_or_equals(
            s,
            p,
            TokenKind::BitAnd,
            TokenKind::And,
            TokenKind::BitAndAssign,
        ),
        Dispatch::Asterisk => twice_or_equals(
            s,
            p,
            TokenKind::Multiply,
            TokenKind::Power,
            TokenKind::MultiplyAssign,
        ),
        Dispatch::Plus => twice_or_equals(
            s,
            p,
            TokenKind::Plus,
            TokenKind::PlusPlus,
            TokenKind::PlusAssign,
        ),
        Dispatch::Minus => twice_or_equals(
            s,
            p,
            TokenKind::Minus,
            TokenKind::MinusMinus,
            TokenKind::MinusAssign,
        ),
        Dispatch::Pipe => twice_or_equals(s, p, TokenKind::BitOr, TokenKind::Or, TokenKind::BitOrAssign),
        Dispatch::LessThan => shift_or_compare(
            s,
            p,
            TokenKind::LessThan,
            TokenKind::LessThanEquals,
            TokenKind::LeftShift,
            TokenKind::LeftShiftAssign,
        ),
        Dispatch::GreaterThan => shift_or_compare(
            s,
            p,
            TokenKind::GreaterThan,
            TokenKind::GreaterThanEquals,
            TokenKind::RightShift,
            TokenKind::RightShiftAssign,
        ),
        Dispatch::Question => if next == QUESTION {
            with_equals(s, p + 1, TokenKind::NullCoalesce, TokenKind::NullCoalesceAssign)
        } else {
            TokenKind::QuestionMark
        },
        _ => TokenKind::Error,
    }
}

/// Every token after `FileStart` has the kind the input gives at its start,
/// and starts where no whitespace or comment does.
#[verifier::opaque]
pub open spec fn kinds_fit(shapes: Seq<(TokenKind, int)>, s: Seq<u8>) -> bool {
    forall|i: int|
        0 < i < shapes.len() ==> #[trigger] shapes[i].0 == token_kind_at(s, shapes[i].1)
            && skip_step(s, shapes[i].1) == shapes[i].1
}

proof fn lemma_kinds_appended(b: TokenizedText, t: TokenizedText, s: Seq<u8>, token: Token)
    requires
        kinds_fit(b.token_shapes(), s),
        t.tokens@ == b.tokens@.push(token),
        token@.kind == token_kind_at(s, token@.start as int),
        skip_step(s, token@.start as int) == token@.start,
    ensures
        kinds_fit(t.token_shapes(), s),
{
    reveal(kinds_fit);
    let bs = b.token_shapes();
    let ts = t.token_shapes();
    assert(ts =~= bs.push((token@.kind, token@.start as int)));
    assert forall|i: int| 0 < i < ts.len() implies #[trigger] ts[i].0 == token_kind_at(s, ts[i].1)
        && skip_step(s, ts[i].1) == ts[i].1 by {
        if i < bs.len() {
            assert(ts[i] == bs[i]);
        }
    }
}

/// Where a run of unrecognized bytes that starts at `p` and reaches `q`
/// stops: at the end of input, at an identifier byte or horizontal
/// whitespace, or when its length would no longer fit a payload.
pub open spec fn error_end(s: Seq<u8>, p: int, q: int) -> int
    decreases s.len() - q,
{
    if q < 0 || q >= s.len() || q - p >= PAYLOAD_MASK - 1 || spec_is_identifier_byte(s[q])
        || spec_is_horizontal_whitespace(s[q]) {
        q
    } else {
        error_end(s, p, q + 1)
    }
}

/// The length of the error token at `p`: its run, and at least one byte.
pub open spec fn error_len(s: Seq<u8>, p: int) -> int {
    let e = error_end(s, p, p);
    if e == p {
        1
    } else {
        e - p
    }
}

/// The length of the token that starts at offset `p` of `s`.
#[verifier::opaque]
pub open spec fn token_len_at(s: Seq<u8>, p: int) -> int {
    let rest = s.subrange(p, s.len() as int);
    let next = byte_or_zero(s, p + 1);
    if token_kind_at(s, p) == TokenKind::Error {
        error_len(s, p)
    } else {
        match spec_dispatch(s[p]) {
            Dispatch::IdentifierStart => ident_end(rest, 0),
            Dispatch::Dot | Dispatch::DigitZero | Dispatch::DigitNonZero => number_scan(
                rest,
                0,
                false,
            ).0,
            Dispatch::Quote => string_end(rest, 1).0,
            Dispatch::At => if next == QUOTE || next == APOSTROPHE {
                verbatim_end(rest, next, 2).0
            } else {
                1
            },
            Dispatch::BracketOpen => if token_kind_at(s, p) == TokenKind::LeftSquare {
                1
            } else {
                2
            },
            Dispatch::Exclamation | Dispatch::Percent | Dispatch::Caret | Dispatch::Tilde
            | Dispatch::Equal | Dispatch::Slash => if next == EQUAL {
                2
            } else {
                1
            },
            Dispatch::Ampersand | Dispatch::Asterisk | Dispatch::Plus | Dispatch::Minus
            | Dispatch::Pipe => if next == EQUAL || (p + 1 < s.len() && s[p + 1] == s[p]) {
                2
            } else {
                1
            },
            Dispatch::LessThan | Dispatch::GreaterThan => if next == s[p] {
                if byte_or_zero(s, p + 2) == EQUAL {
                    3
                } else {
                    2
                }
            } else if next == EQUAL {
                2
            } else {
                1
            },
            Dispatch::Question => if next == QUESTION {
                if byte_or_zero(s, p + 2) == EQUAL {
                    3
                } else {
                    2
                }
            } else {
                1
            },
            _ => 1,
        }
    }
}

/// Each token after `FileStart` ends, by the length the input gives it, no
/// later than the next token starts, or than `bound` for the last one.
#[verifier::opaque]
pub open spec fn extents_fit(shapes: Seq<(TokenKind, int)>, s: Seq<u8>, bound: int) -> bool {
    forall|i: int|
        0 < i < shapes.len() ==> #[trigger] shapes[i].1 + token_len_at(s, shapes[i].1) <= (if i + 1
            < shapes.len() {
            shapes[i + 1].1
        } else {
            bound
        })
}

proof fn lemma_extents_grow(shapes: Seq<(TokenKind, int)>, s: Seq<u8>, b1: int, b2: int)
    requires
        extents_fit(shapes, s, b1),
        b1 <= b2,
    ensures
        extents_fit(shapes, s, b2),
{
    reveal(extents_fit);
}

proof fn lemma_extents_last(t: TokenizedText, s: Seq<u8>, bound: int)
    requires
        extents_fit(t.token_shapes(), s, bound),
        t.tokens@.len() >= 1,
    ensures
        t.tokens@.len() == 1 || t.token_start(t.tokens@.len() - 1) + token_len_at(
            s,
            t.token_start(t.tokens@.len() - 1),
        ) <= bound,
{
    reveal(extents_fit);
    let n = t.tokens@.len() as int;
    if n > 1 {
        assert(t.token_shapes()[n - 1].1 == t.token_start(n - 1));
    }
}

proof fn lemma_extents_appended(
    b: TokenizedText,
    t: TokenizedText,
    s: Seq<u8>,
    b_bound: int,
    bound: int,
    token: Token,
)
    requires
        b.tokens@.len() == 1 || b.token_start(b.tokens@.len() - 1) + token_len_at(
            s,
            b.token_start(b.tokens@.len() - 1),
        ) <= token@.start,
        extents_fit(b.token_shapes(), s, b_bound),
        t.tokens@ == b.tokens@.push(token),
        token@.start + token_len_at(s, token@.start as int) <= bound,
    ensures
        extents_fit(t.token_shapes(), s, bound),
{
    reveal(extents_fit);
    let bs = b.token_shapes();
    let ts = t.token_shapes();
    let n = bs.len() as int;
    assert(ts =~= bs.push((token@.kind, token@.start as int)));
    assert forall|i: int| 0 < i < ts.len() implies #[trigger] ts[i].1 + token_len_at(s, ts[i].1) <= (
    if i + 1 < ts.len() {
        ts[i + 1].1
    } else {
        bound
    }) by {
        if i < n - 1 {
            assert(ts[i] == bs[i] && ts[i + 1] == bs[i + 1]);
        } else if i == n - 1 {
            assert(ts[i] == bs[i]);
            assert(bs[i].1 == b.token_start(i));
        }
    }
}

/// Every error token holds its length as its payload.
#[verifier::opaque]
pub open spec fn payloads_fit(tokens: Seq<Token>, s: Seq<u8>) -> bool {
    forall|i: int|
        0 < i < tokens.len() && #[trigger] tokens[i]@.kind == TokenKind::Error ==> tokens[i]@.payload
            == token_len_at(s, tokens[i]@.start as int)
}

proof fn lemma_payloads_appended(b: Seq<Token>, t: Seq<Token>, s: Seq<u8>, token: Token)
    requires
        payloads_fit(b, s),
        t == b.push(token),
        token@.kind == TokenKind::Error ==> token@.payload == token_len_at(s, token@.start as int),
    ensures
        payloads_fit(t, s),
{
    reveal(payloads_fit);
    assert forall|i: int| 0 < i < t.len() && #[trigger] t[i]@.kind == TokenKind::Error implies t[i]@.payload
        == token_len_at(s, t[i]@.start as int) by {
        if i < b.len() {
            assert(t[i] == b[i]);
        }
    }
}

proof fn lemma_payloads_patched(b: Seq<Token>, t: Seq<Token>, s: Seq<u8>, o: int)
    requires
        payloads_fit(b, s),
        t.len() == b.len(),
        0 <= o < b.len(),
        forall|i: int| 0 <= i < b.len() && i != o ==> t[i] == b[i],
        t[o]@.kind == b[o]@.kind,
        t[o]@.start == b[o]@.start,
        b[o]@.kind != TokenKind::Error,
    ensures
        payloads_fit(t, s),
{
    reveal(payloads_fit);
    assert forall|i: int| 0 < i < t.len() && #[trigger] t[i]@.kind == TokenKind::Error implies t[i]@.payload
        == token_len_at(s, t[i]@.start as int) by {
        assert(t[i] == b[i]);
    }
}

/// What a line table states, clause by clause.
pub proof fn lemma_line_table(starts: Seq<int>, inserted: bool, s: Seq<u8>)
    requires
        line_table(starts, inserted, s),
    ensures
        starts.len() >= 1,
        starts[0] == 0,
        starts[starts.len() - 1] == s.len(),
        forall|j: int, k: int| 0 <= j < k < starts.len() ==> starts[j] < starts[k],
        forall|k: int, p: int|
            #![trigger starts[k], s[p]]
            0 <= k < starts.len() - 1 && starts[k] <= p < starts[k + 1] - 1 ==> s[p] != NEWLINE,
        forall|k: int|
            0 <= k < starts.len() - 1 ==> s[#[trigger] starts[k + 1] - 1] == NEWLINE || (k + 2
                == starts.len() && inserted),
        inserted <==> (s.len() > 0 && s[s.len() - 1] != NEWLINE),
{
    reveal(line_table);
}

/// A partitioned stream, such as the lexer's output, is one the parser
/// accepts.
pub proof fn lemma_lexed_parse_ready(t: &TokenizedText, len: int)
    requires
        t.tokens.wf(),
        t.tokens_partition(len),
        t.tokens@.len() < Token::MAX_INDEX,
    ensures
        t.parse_ready(),
{
}

/// A partitioned stream, such as the lexer's output, has token starts that
/// never decrease.
pub proof fn lemma_lexed_starts_sorted(t: &TokenizedText, len: int)
    requires
        t.tokens_partition(len),
    ensures
        t.starts_sorted(),
{
    let n = t.tokens@.len() as int;
    assert forall|i: int, j: int| 0 <= i <= j < n implies t.token_start(i) <= t.token_start(j) by {
        if i == j || i == 0 {
        } else if j == n - 1 {
            assert(t.token_kind(i) != TokenKind::FileStart);
            assert(t.token_start(i) < len);
        } else {
            assert(t.token_start(i) < t.token_start(j));
        }
    }
}

/// The position just after the first `\n` at or after `i`, or the end of
/// input.
pub open spec fn line_end(s: Seq<u8>, i: int) -> int
    decreases s.len() - i,
{
    if i < 0 || i >= s.len() {
        s.len() as int
    } else if s[i] == NEWLINE {
        i + 1
    } else {
        line_end(s, i + 1)
    }
}

/// The position just after the first `*/` at or after `i`, or the end of
/// input.
pub open spec fn block_comment_end(s: Seq<u8>, i: int) -> int
    decreases s.len() - i,
{
    if i < 0 || i + 1 >= s.len() {
        s.len() as int
    } else if s[i] == ASTERISK && s[i + 1] == SLASH {
        i + 2
    } else {
        block_comment_end(s, i + 1)
    }
}

/// Where the whitespace byte or the comment at `a` ends; `a` itself when
/// neither starts there.
pub open spec fn skip_step(s: Seq<u8>, a: int) -> int {
    if a < 0 || a >= s.len() {
        a
    } else if s[a] == SPACE || s[a] == TAB || s[a] == CARRIAGE_RETURN || s[a] == NEWLINE {
        a + 1
    } else if s[a] == SLASH && byte_or_zero(s, a + 1) == SLASH {
        line_end(s, a + 2)
    } else if s[a] == SLASH && byte_or_zero(s, a + 1) == ASTERISK {
        block_comment_end(s, a + 2)
    } else {
        a
    }
}

/// The bytes in `[a, b)` are whitespace and comments, one after another.
pub open spec fn skips_to(s: Seq<u8>, a: int, b: int) -> bool
    decreases b - a,
{
    if a >= b {
        a == b
    } else {
        let next = skip_step(s, a);
        a < next <= b && skips_to(s, next, b)
    }
}

proof fn lemma_skip_one(s: Seq<u8>, a: int)
    requires
        skip_step(s, a) > a,
    ensures
        skips_to(s, a, skip_step(s, a)),
{
    assert(skips_to(s, skip_step(s, a), skip_step(s, a)));
}

proof fn lemma_skips_trans(s: Seq<u8>, a: int, b: int, c: int)
    requires
        skips_to(s, a, b),
        skips_to(s, b, c),
    ensures
        skips_to(s, a, c),
    decreases b - a,
{
    if a < b {
        lemma_skips_trans(s, skip_step(s, a), b, c);
    }
}

/// Within the line table, the line after the one holding `p` starts just
/// after the next `\n`.
proof fn lemma_line_end_at_line(starts: Seq<int>, inserted: bool, s: Seq<u8>, k: int, p: int)
    requires
        line_table(starts, inserted, s),
        0 <= k < starts.len() - 1,
        starts[k] <= p < starts[k + 1],
    ensures
        line_end(s, p) == starts[k + 1],
    decreases starts[k + 1] - p,
{
    reveal(line_table);
    assert(starts[k + 1] <= starts[starts.len() - 1]) by {
        if k + 1 < starts.len() - 1 {
            assert(starts[k + 1] < starts[starts.len() - 1]);
        }
    }
    if p < starts[k + 1] - 1 {
        assert(s[p] != NEWLINE);
        lemma_line_end_at_line(starts, inserted, s, k, p + 1);
    } else {
        if s[p] != NEWLINE {
            assert(k + 2 == starts.len() && inserted);
            assert(line_end(s, p + 1) == s.len());
        }
    }
}

/// The diagnostic a skipped byte at `a` raises: a `\r` not followed by `\n`
/// is reported, as LF+CR after a `\n` and as a raw CR otherwise.
pub open spec fn skip_diagnostics(s: Seq<u8>, a: int) -> Seq<Diagnostic> {
    if 0 <= a < s.len() && s[a] == CARRIAGE_RETURN && byte_or_zero(s, a + 1) != NEWLINE {
        seq![
            Diagnostic {
                kind: if a > 0 && s[a - 1] == NEWLINE {
                    DiagnosticKind::LineFeedCarriageReturn
                } else {
                    DiagnosticKind::RawCarriageReturn
                },
                position: a as u32,
            },
        ]
    } else {
        Seq::empty()
    }
}

/// The diagnostics raised while skipping whitespace and comments from `a`
/// to `b`.
pub open spec fn gap_diagnostics(s: Seq<u8>, a: int, b: int) -> Seq<Diagnostic>
    decreases b - a,
{
    if a >= b || skip_step(s, a) <= a || skip_step(s, a) > b {
        Seq::empty()
    } else {
        skip_diagnostics(s, a) + gap_diagnostics(s, skip_step(s, a), b)
    }
}

/// The diagnostic a token raises: an error token reports its position.
pub open spec fn token_diagnostics(kind: TokenKind, start: int) -> Seq<Diagnostic> {
    if kind == TokenKind::Error {
        seq![Diagnostic { kind: DiagnosticKind::UnrecognizedCharacters, position: start as u32 }]
    } else {
        Seq::empty()
    }
}

/// The diagnostics of tokens `1..=j` and the gaps before them, in order.
pub open spec fn stream_diagnostics(shapes: Seq<(TokenKind, int)>, s: Seq<u8>, j: int) -> Seq<
    Diagnostic,
>
    decreases j,
{
    if j <= 0 {
        Seq::empty()
    } else {
        stream_diagnostics(shapes, s, j - 1) + gap_diagnostics(
            s,
            shape_end(shapes, s, j - 1),
            shapes[j].1,
        ) + token_diagnostics(shapes[j].0, shapes[j].1)
    }
}

/// One skip step raises the diagnostics of its byte.
proof fn lemma_gap_step(s: Seq<u8>, a: int)
    requires
        skip_step(s, a) > a,
    ensures
        gap_diagnostics(s, a, skip_step(s, a)) == skip_diagnostics(s, a),
{
    let next = skip_step(s, a);
    assert(gap_diagnostics(s, next, next) =~= Seq::<Diagnostic>::empty());
    assert(gap_diagnostics(s, a, next) =~= skip_diagnostics(s, a) + gap_diagnostics(s, next, next));
}

proof fn lemma_gap_diagnostics_concat(s: Seq<u8>, a: int, b: int, c: int)
    requires
        skips_to(s, a, b),
        skips_to(s, b, c),
    ensures
        gap_diagnostics(s, a, c) == gap_diagnostics(s, a, b) + gap_diagnostics(s, b, c),
    decreases b - a,
{
    if a >= b {
        assert(gap_diagnostics(s, a, b) =~= Seq::<Diagnostic>::empty());
        assert(gap_diagnostics(s, a, c) =~= gap_diagnostics(s, a, b) + gap_diagnostics(s, b, c));
    } else {
        let next = skip_step(s, a);
        lemma_skips_trans(s, next, b, c);
        lemma_gap_diagnostics_concat(s, next, b, c);
        assert(gap_diagnostics(s, a, c) =~= gap_diagnostics(s, a, b) + gap_diagnostics(s, b, c));
    }
}

proof fn lemma_stream_diagnostics_prefix(
    shapes: Seq<(TokenKind, int)>,
    more: Seq<(TokenKind, int)>,
    s: Seq<u8>,
    j: int,
)
    requires
        j < shapes.len(),
        more.len() >= shapes.len(),
        forall|i: int| 0 <= i < shapes.len() ==> more[i] == shapes[i],
    ensures
        stream_diagnostics(more, s, j) == stream_diagnostics(shapes, s, j),
    decreases j,
{
    if j > 0 {
        lemma_stream_diagnostics_prefix(shapes, more, s, j - 1);
        assert(more[j - 1] == shapes[j - 1]);
        assert(more[j] == shapes[j]);
    }
}

/// Appending a token adds the diagnostics of the gap before it and its own.
proof fn lemma_diagnostics_appended(b: TokenizedText, t: TokenizedText, s: Seq<u8>, token: Token)
    requires
        t.tokens@ == b.tokens@.push(token),
        b.tokens@.len() >= 1,
    ensures
        stream_diagnostics(t.token_shapes(), s, b.tokens@.len() as int) == stream_diagnostics(
            b.token_shapes(),
            s,
            b.tokens@.len() - 1,
        ) + gap_diagnostics(
            s,
            shape_end(b.token_shapes(), s, b.tokens@.len() - 1),
            token@.start as int,
        ) + token_diagnostics(token@.kind, token@.start as int),
{
    let n = b.tokens@.len() as int;
    let bs = b.token_shapes();
    let ts = t.token_shapes();
    assert(ts =~= bs.push((token@.kind, token@.start as int)));
    lemma_stream_diagnostics_prefix(bs, ts, s, n - 1);
    assert(shape_end(ts, s, n - 1) == shape_end(bs, s, n - 1));
}

/// A skip step that counts as whitespace before a token: a blank, a line
/// break, or a line comment (which ends at one).
pub open spec fn space_step(s: Seq<u8>, a: int) -> bool {
    0 <= a < s.len() && (s[a] == SPACE || s[a] == TAB || s[a] == CARRIAGE_RETURN || s[a] == NEWLINE
        || (s[a] == SLASH && byte_or_zero(s, a + 1) == SLASH))
}

/// Whether skipping from `a` to `b` passes whitespace, not only block
/// comments.
pub open spec fn gap_has_space(s: Seq<u8>, a: int, b: int) -> bool
    decreases b - a,
{
    if a >= b || skip_step(s, a) <= a || skip_step(s, a) > b {
        false
    } else {
        space_step(s, a) || gap_has_space(s, skip_step(s, a), b)
    }
}

proof fn lemma_space_step(s: Seq<u8>, a: int)
    requires
        skip_step(s, a) > a,
    ensures
        gap_has_space(s, a, skip_step(s, a)) == space_step(s, a),
{
    let next = skip_step(s, a);
    assert(!gap_has_space(s, next, next));
}

proof fn lemma_space_concat(s: Seq<u8>, a: int, b: int, c: int)
    requires
        skips_to(s, a, b),
        skips_to(s, b, c),
    ensures
        gap_has_space(s, a, c) == (gap_has_space(s, a, b) || gap_has_space(s, b, c)),
    decreases b - a,
{
    if a < b {
        let next = skip_step(s, a);
        lemma_skips_trans(s, next, b, c);
        lemma_space_concat(s, next, b, c);
    }
}

/// Where token `j` of `tokens` ends, with `FileStart` taken as empty.
pub open spec fn tok_end(tokens: Seq<Token>, s: Seq<u8>, j: int) -> int {
    if j == 0 {
        0
    } else {
        tokens[j]@.start + token_len_at(s, tokens[j]@.start as int)
    }
}

/// Each token after `FileStart` is marked as preceded by whitespace exactly
/// when it is the first one or whitespace lies between it and the token
/// before.
#[verifier::opaque]
pub open spec fn spaces_fit(tokens: Seq<Token>, s: Seq<u8>) -> bool {
    forall|i: int|
        0 < i < tokens.len() ==> (#[trigger] tokens[i])@.has_leading_space == (i == 1
            || gap_has_space(s, tok_end(tokens, s, i - 1), tokens[i]@.start as int))
}

proof fn lemma_spaces_appended(b: Seq<Token>, t: Seq<Token>, s: Seq<u8>, token: Token)
    requires
        spaces_fit(b, s),
        b.len() >= 1,
        t == b.push(token),
        token@.has_leading_space == (b.len() == 1 || gap_has_space(
            s,
            tok_end(b, s, b.len() - 1),
            token@.start as int,
        )),
    ensures
        spaces_fit(t, s),
{
    reveal(spaces_fit);
    assert forall|i: int| 0 < i < t.len() implies (#[trigger] t[i])@.has_leading_space == (i == 1
        || gap_has_space(s, tok_end(t, s, i - 1), t[i]@.start as int)) by {
        assert(t[i - 1] == if i - 1 < b.len() { b[i - 1] } else { t[i - 1] });
        if i < b.len() {
            assert(t[i] == b[i]);
        }
    }
}

proof fn lemma_spaces_patched(b: Seq<Token>, t: Seq<Token>, s: Seq<u8>, o: int)
    requires
        spaces_fit(b, s),
        t.len() == b.len(),
        0 <= o < b.len(),
        forall|i: int| 0 <= i < b.len() && i != o ==> t[i] == b[i],
        t[o]@.start == b[o]@.start,
        t[o]@.has_leading_space == b[o]@.has_leading_space,
    ensures
        spaces_fit(t, s),
{
    reveal(spaces_fit);
    assert forall|i: int| 0 < i < t.len() implies (#[trigger] t[i])@.has_leading_space == (i == 1
        || gap_has_space(s, tok_end(t, s, i - 1), t[i]@.start as int)) by {
        assert(b[i]@.has_leading_space == (i == 1 || gap_has_space(
            s,
            tok_end(b, s, i - 1),
            b[i]@.start as int,
        )));
        assert(tok_end(t, s, i - 1) == tok_end(b, s, i - 1));
    }
}

/// The end of token `i` of `shapes`, with `FileStart` taken as empty.
pub open spec fn shape_end(shapes: Seq<(TokenKind, int)>, s: Seq<u8>, i: int) -> int {
    if i == 0 {
        0
    } else {
        shapes[i].1 + token_len_at(s, shapes[i].1)
    }
}

/// Between consecutive tokens lie whitespace and comments only.
#[verifier::opaque]
pub open spec fn gaps_fit(shapes: Seq<(TokenKind, int)>, s: Seq<u8>) -> bool {
    forall|j: int| 0 < j < shapes.len() ==> skips_to(s, shape_end(shapes, s, j - 1), #[trigger] shapes[j].1)
}

/// A token appended right up to the cursor leaves no gap after it.
proof fn lemma_gap_closed(b: TokenizedText, t: TokenizedText, s: Seq<u8>, token: Token)
    requires
        t.tokens@ == b.tokens@.push(token),
        b.tokens@.len() >= 1,
    ensures
        shape_end(t.token_shapes(), s, t.tokens@.len() - 1) == token@.start + token_len_at(
            s,
            token@.start as int,
        ),
{
    let n = b.tokens@.len() as int;
    assert(t.token_shapes()[n] == (token@.kind, token@.start as int));
}

proof fn lemma_gaps_appended(b: TokenizedText, t: TokenizedText, s: Seq<u8>, token: Token)
    requires
        gaps_fit(b.token_shapes(), s),
        b.tokens@.len() >= 1,
        t.tokens@ == b.tokens@.push(token),
        skips_to(s, shape_end(b.token_shapes(), s, b.tokens@.len() - 1), token@.start as int),
    ensures
        gaps_fit(t.token_shapes(), s),
{
    reveal(gaps_fit);
    let bs = b.token_shapes();
    let ts = t.token_shapes();
    let n = bs.len() as int;
    assert(ts =~= bs.push((token@.kind, token@.start as int)));
    assert forall|j: int| 0 < j < ts.len() implies skips_to(s, shape_end(ts, s, j - 1), #[trigger] ts[j].1) by {
        assert(ts[j - 1] == if j - 1 < n { bs[j - 1] } else { ts[j - 1] });
        if j < n {
            assert(ts[j] == bs[j]);
        }
    }
}

/// Whitespace and comments skipped from `a` stop at one place: two
/// positions both reached from `a` where nothing more can be skipped are
/// the same.
pub proof fn lemma_skip_stop_unique(s: Seq<u8>, a: int, p: int, q: int)
    requires
        skips_to(s, a, p),
        skips_to(s, a, q),
        skip_step(s, p) == p,
        skip_step(s, q) == q,
    ensures
        p == q,
    decreases p - a,
{
    if a < p && a < q {
        lemma_skip_stop_unique(s, skip_step(s, a), p, q);
    }
}

/// Lexing gives one token layout per input: two streams that both meet the
/// lexer's guarantee for `s` have the same kinds at the same starts. So
/// lexing the text that the lexemes and the whitespace between them make up,
/// which is `s` itself, gives the same stream again.
#[verifier::rlimit(100)]
pub proof fn lemma_relex_same_layout(t1: &TokenizedText, t2: &TokenizedText, s: Seq<u8>)
    requires
        t1.tokens_partition(s.len() as int),
        t1.kinds_follow(s),
        t1.gaps_follow(s),
        t2.tokens_partition(s.len() as int),
        t2.kinds_follow(s),
        t2.gaps_follow(s),
    ensures
        t1.token_shapes() == t2.token_shapes(),
{
    let n1 = t1.tokens@.len() as int;
    let n2 = t2.tokens@.len() as int;
    let m = if n1 < n2 { n1 } else { n2 };
    lemma_layout_prefix(t1, t2, s, m - 1);
    if n1 < n2 {
        assert(t1.token_kind(n1 - 1) == TokenKind::FileEnd);
        assert(t2.token_kind(n1 - 1) != TokenKind::FileEnd);
    } else if n2 < n1 {
        assert(t2.token_kind(n2 - 1) == TokenKind::FileEnd);
        assert(t1.token_kind(n2 - 1) != TokenKind::FileEnd);
    }
    assert forall|k: int| 0 <= k < n1 implies t1.token_shapes()[k] == t2.token_shapes()[k] by {
        assert(t1.token_kind(k) == t2.token_kind(k) && t1.token_start(k) == t2.token_start(k));
    }
    assert(t1.token_shapes() =~= t2.token_shapes());
}

#[verifier::rlimit(100)]
proof fn lemma_layout_prefix(t1: &TokenizedText, t2: &TokenizedText, s: Seq<u8>, i: int)
    requires
        t1.tokens_partition(s.len() as int),
        t1.kinds_follow(s),
        t1.gaps_follow(s),
        t2.tokens_partition(s.len() as int),
        t2.kinds_follow(s),
        t2.gaps_follow(s),
        0 <= i < t1.tokens@.len(),
        i < t2.tokens@.len(),
    ensures
        forall|k: int|
            0 <= k <= i ==> t1.token_kind(k) == t2.token_kind(k) && t1.token_start(k)
                == t2.token_start(k),
    decreases i,
{
    let n1 = t1.tokens@.len() as int;
    let n2 = t2.tokens@.len() as int;
    if i > 0 {
        lemma_layout_prefix(t1, t2, s, i - 1);
        let e = t1.token_end(s, i - 1);
        assert(e == t2.token_end(s, i - 1));
        let p = t1.token_start(i);
        let q = t2.token_start(i);
        assert(skips_to(s, e, p));
        assert(skips_to(s, e, q));
        if i < n1 - 1 {
            assert(t1.token_kind(i) == token_kind_at(s, p));
        } else {
            assert(p == s.len());
        }
        if i < n2 - 1 {
            assert(t2.token_kind(i) == token_kind_at(s, q));
        } else {
            assert(q == s.len());
        }
        lemma_skip_stop_unique(s, e, p, q);
        if i < n1 - 1 && i == n2 - 1 {
            assert(t1.token_kind(i) != TokenKind::FileStart);
            assert(false);
        }
        if i == n1 - 1 && i < n2 - 1 {
            assert(t2.token_kind(i) != TokenKind::FileStart);
            assert(false);
        }
    }
}

/// Tokens in the lexer's output so far: `FileStart` at 0, then tokens that
/// start at strictly increasing offsets below `bound`.
#[verifier::opaque]
pub open spec fn tokens_so_far(shapes: Seq<(TokenKind, int)>, bound: int) -> bool {
    &&& shapes.len() >= 1
    &&& shapes[0] == (TokenKind::FileStart, 0int)
    &&& forall|i: int|
        0 < i < shapes.len() ==> (#[trigger] shapes[i]).0 != TokenKind::FileStart && shapes[i].0
            != TokenKind::FileEnd && 0 <= shapes[i].1 < bound
    &&& forall|i: int, j: int|
        0 < i < j < shapes.len() ==> (#[trigger] shapes[i]).1 < (#[trigger] shapes[j]).1
}

proof fn lemma_tokens_so_far_grow(shapes: Seq<(TokenKind, int)>, b1: int, b2: int)
    requires
        tokens_so_far(shapes, b1),
        b1 <= b2,
    ensures
        tokens_so_far(shapes, b2),
{
    reveal(tokens_so_far);
}

/// Turns a source buffer into a token stream.
pub fn lex(text: &SourceText) -> (r: Result<TokenizedText, LexError>)
    requires
        text.wf(),
    ensures
        r matches Ok(t) ==> t.lexed_from(text@),
        r matches Ok(t) ==> (text@.len() == 0 ==> t.lines@[0]@.indent == 0),
        text@.len() + 2 < Token::MAX_INDEX ==> r is Ok,
{
    let mut lexer = Lexer::new(text);
    match lexer.lex() {
        Ok(()) => Ok(lexer.output),
        Err(e) => Err(e),
    }
}

struct Lexer<'a> {
    output: TokenizedText,
    text: &'a SourceText,
    cursor: TextSize,
    line_index: usize,
    open_delimiters: Vec<TokenIndex>,
    has_leading_space: bool,
}

impl<'a> Lexer<'a> {
    spec fn len(&self) -> int {
        self.text@.len() as int
    }

    /// The invariant, and whitespace and comments only since the last
    /// token.
    spec fn inv(&self) -> bool {
        &&& self.inv_core()
        &&& skips_to(
            self.text@,
            shape_end(self.output.token_shapes(), self.text@, self.output.tokens@.len() - 1),
            self.cursor as int,
        )
        &&& self.output.diagnostics@ == self.expected_diagnostics(self.cursor as int)
        &&& self.has_leading_space == (self.output.tokens@.len() == 1 || gap_has_space(
            self.text@,
            tok_end(self.output.tokens@, self.text@, self.output.tokens@.len() - 1),
            self.cursor as int,
        ))
    }

    /// The diagnostics of the tokens so far and of the gap up to `at`.
    spec fn expected_diagnostics(&self, at: int) -> Seq<Diagnostic> {
        stream_diagnostics(self.output.token_shapes(), self.text@, self.output.tokens@.len() - 1)
            + gap_diagnostics(
            self.text@,
            shape_end(self.output.token_shapes(), self.text@, self.output.tokens@.len() - 1),
            at,
        )
    }

    spec fn inv_core(&self) -> bool {
        &&& self.text.wf()
        &&& self.cursor <= self.len()
        &&& self.line_index < self.output.lines@.len()
        &&& self.output.line_start(self.line_index as int) <= self.cursor
        &&& self.output.tokens@.len() <= self.cursor + 1
        &&& self.output.tokens@.len() < Token::MAX_INDEX
        &&& self.output.comments@.len() <= self.cursor
        &&& tokens_so_far(self.output.token_shapes(), self.cursor as int)
        &&& kinds_fit(self.output.token_shapes(), self.text@)
        &&& extents_fit(self.output.token_shapes(), self.text@, self.cursor as int)
        &&& payloads_fit(self.output.tokens@, self.text@)
        &&& gaps_fit(self.output.token_shapes(), self.text@)
        &&& spaces_fit(self.output.tokens@, self.text@)
        &&& self.output.tokens@.len() >= 1 && self.output.tokens@[0]@.has_leading_space
        &&& self.output.tokens@[0]@.payload == 0
        &&& structure_ok(self.output, self.text@, self.open_delimiters@)
        &&& self.len() == 0 ==> self.output.diagnostics@.len() == 0
    }

    /// What every handler keeps.
    spec fn same_input(&self, other: &Self) -> bool {
        &&& self.text == other.text
        &&& self.output.last_line_is_inserted == other.output.last_line_is_inserted
    }

    fn new(text: &'a SourceText) -> (r: Self)
        ensures
            r.text == text,
            r.output.tokens.wf() && r.output.comments.wf() && r.output.lines.wf(),
            r.output.tokens@.len() == 0,
            r.output.comments@.len() == 0,
            r.output.lines@.len() == 0,
            r.output.diagnostics@.len() == 0,
            !r.output.has_mismatched_brackets,
            !r.output.last_line_is_inserted,
            r.cursor == 0,
            r.line_index == 0,
            r.open_delimiters@.len() == 0,
    {
        Lexer {
            output: TokenizedText::new(),
            text,
            cursor: 0,
            line_index: 0,
            open_delimiters: Vec::new(),
            has_leading_space: false,
        }
    }

    #[verifier::rlimit(60)]
    fn lex(&mut self) -> (r: Result<(), LexError>)
        requires
            old(self).text.wf(),
            old(self).output.tokens.wf() && old(self).output.comments.wf()
                && old(self).output.lines.wf(),
            old(self).output.tokens@.len() == 0,
            old(self).output.comments@.len() == 0,
            old(self).output.diagnostics@.len() == 0,
            !old(self).output.has_mismatched_brackets,
            old(self).cursor == 0,
            old(self).line_index == 0,
            old(self).open_delimiters@.len() == 0,
        ensures
            final(self).text == old(self).text,
            r is Ok ==> final(self).output.lexed_from(old(self).text@),
            r is Ok && old(self).text@.len() == 0 ==> final(self).output.lines@[0]@.indent == 0,
            old(self).text@.len() + 2 < Token::MAX_INDEX ==> r is Ok,
    {
        let (lines, inserted) = make_lines(self.text);
        self.output.lines = lines;
        self.output.last_line_is_inserted = inserted;
        proof {
            let L = self.output.line_starts();
            assert(L[0] == 0);
            assert(self.output.line_start(0) == L[0]);
        }
        self.lex_file_start();
        while self.cursor < self.text.len()
            invariant
                self.inv(),
                self.text == old(self).text,
                self.len() == 0 ==> self.output.lines@[0]@.indent == 0,
            decreases self.len() - self.cursor,
        {
            if self.output.token_count() + 2 >= Token::MAX_INDEX {
                return Err(LexError::TooManyTokens);
            }
            self.lex_step();
        }
        if self.output.token_count() + 1 >= Token::MAX_INDEX {
            return Err(LexError::TooManyTokens);
        }
        self.lex_file_end();
        Ok(())
    }

    /// Lexes what starts at the cursor.
    #[verifier::rlimit(100)]
    fn lex_step(&mut self)
        requires
            old(self).inv(),
            old(self).cursor < old(self).len(),
            old(self).output.tokens@.len() + 2 < Token::MAX_INDEX,
        ensures
            final(self).inv(),
            final(self).same_input(old(self)),
            final(self).cursor > old(self).cursor,
    {
        reveal(token_kind_at);
        reveal(token_len_at);
        let c = self.current();
        match dispatch(c) {
            Dispatch::IdentifierStart => self.lex_keyword_or_identifier(),
            Dispatch::Dot => self.lex_number_literal_or_dot(),
            Dispatch::DigitZero => self.lex_number_literal_or_dot(),
            Dispatch::DigitNonZero => self.lex_number_literal_or_dot(),
            Dispatch::Quote => self.lex_string_literal(),
            Dispatch::At => self.lex_verbatim_string_literal(),
            Dispatch::Dollar => self.lex_byte(TokenKind::DollarSign),
            Dispatch::Hash => self.lex_byte(TokenKind::NumberSign),
            Dispatch::HorizontalSpace => self.lex_horizontal_whitespace(),
            Dispatch::NewLine => self.lex_vertical_whitespace(),
            Dispatch::Cr => self.lex_cr(),
            Dispatch::Slash => self.lex_comment_or_divide(),
            Dispatch::BracketOpen => self.lex_accessor(),
            Dispatch::BracketClose => self.lex_byte(TokenKind::RightSquare),
            Dispatch::ParenOpen => self.lex_byte(TokenKind::LeftParen),
            Dispatch::ParenClose => self.lex_byte(TokenKind::RightParen),
            Dispatch::BraceOpen => self.lex_byte(TokenKind::LeftBrace),
            Dispatch::BraceClose => self.lex_byte(TokenKind::RightBrace),
            Dispatch::Comma => self.lex_byte(TokenKind::Comma),
            Dispatch::Colon => self.lex_byte(TokenKind::Colon),
            Dispatch::Semicolon => self.lex_byte(TokenKind::Semicolon),
            Dispatch::Exclamation => self.lex_byte_and_equals(TokenKind::Not, TokenKind::NotEquals),
            Dispatch::Percent => self.lex_byte_and_equals(
                TokenKind::Modulo,
                TokenKind::ModuloAssign,
            ),
            Dispatch::Caret => self.lex_byte_and_equals(TokenKind::BitXor, TokenKind::BitXorAssign),
            Dispatch::Tilde => self.lex_byte_and_equals(TokenKind::BitNot, TokenKind::BitNotAssign),
            Dispatch::Equal => self.lex_byte_and_equals(TokenKind::Equals, TokenKind::Equals),
            Dispatch::Ampersand => self.lex_byte_twice_or_equals(
                TokenKind::BitAnd,
                TokenKind::And,
                TokenKind::BitAndAssign,
            ),
            Dispatch::Asterisk => self.lex_byte_twice_or_equals(
                TokenKind::Multiply,
                TokenKind::Power,
                TokenKind::MultiplyAssign,
            ),
            Dispatch::Plus => self.lex_byte_twice_or_equals(
                TokenKind::Plus,
                TokenKind::PlusPlus,
                TokenKind::PlusAssign,
            ),
            Dispatch::Minus => self.lex_byte_twice_or_equals(
                TokenKind::Minus,
                TokenKind::MinusMinus,
                TokenKind::MinusAssign,
            ),
            Dispatch::Pipe => self.lex_byte_twice_or_equals(
                TokenKind::BitOr,
                TokenKind::Or,
                TokenKind::BitOrAssign,
            ),
            Dispatch::LessThan => self.lex_less_than(),
            Dispatch::GreaterThan => self.lex_greater_than(),
            Dispatch::Question => self.lex_question(),
            Dispatch::Unicode => self.lex_error(),
            Dispatch::Error => self.lex_error(),
        }
    }

    /// The byte at the cursor.
    fn current(&self) -> (r: u8)
        requires
            self.cursor < self.text@.len(),
        ensures
            r == self.text@[self.cursor as int],
    {
        self.text.get_byte(self.cursor)
    }

    /// The byte at `pos`, or 0 past the end of input.
    fn byte_at(&self, pos: u32) -> (r: u8)
        requires
            self.text.wf(),
        ensures
            pos < self.text@.len() ==> r == self.text@[pos as int],
            pos >= self.text@.len() ==> r == 0,
    {
        if pos < self.text.len() {
            self.text.get_byte(pos)
        } else {
            0
        }
    }

    /// The byte after the cursor, or 0 past the end of input.
    fn peek(&self) -> (r: u8)
        requires
            self.text.wf(),
            self.cursor < self.text@.len(),
        ensures
            self.cursor + 1 < self.text@.len() ==> r == self.text@[self.cursor + 1],
            self.cursor + 1 >= self.text@.len() ==> r == 0,
    {
        self.byte_at(self.cursor + 1)
    }

    /// Appends a token of `kind` that starts at `start`, with the pending
    /// leading-space flag, and pairs it when it is a delimiter.
    fn add_token(&mut self, kind: TokenKind, start: TextSize)
        requires
            old(self).has_leading_space == (old(self).output.tokens@.len() == 1 || gap_has_space(
                old(self).text@,
                tok_end(old(self).output.tokens@, old(self).text@, old(self).output.tokens@.len() - 1),
                start as int,
            )),
            old(self).output.diagnostics@ == old(self).expected_diagnostics(start as int)
                + token_diagnostics(kind, start as int),
            skip_step(old(self).text@, start as int) == start,
            kind != TokenKind::Error,
            kind == token_kind_at(old(self).text@, start as int),
            old(self).output.tokens@.len() == 1 || old(self).output.token_start(
                old(self).output.tokens@.len() - 1,
            ) + token_len_at(
                old(self).text@,
                old(self).output.token_start(old(self).output.tokens@.len() - 1),
            ) <= start,
            start + token_len_at(old(self).text@, start as int) == old(self).cursor,
            old(self).inv_core(),
            skips_to(
                old(self).text@,
                shape_end(
                    old(self).output.token_shapes(),
                    old(self).text@,
                    old(self).output.tokens@.len() - 1,
                ),
                start as int,
            ),
            start < old(self).cursor,
            old(self).output.tokens@.len() <= start + 1,
            old(self).output.tokens@.len() == 1 || old(self).output.token_start(
                old(self).output.tokens@.len() - 1,
            ) < start,
            kind != TokenKind::FileStart,
            kind != TokenKind::FileEnd,
            old(self).output.tokens@.len() + 2 < Token::MAX_INDEX,
        ensures
            final(self).output.diagnostics == old(self).output.diagnostics,
            final(self).output.tokens@.len() == old(self).output.tokens@.len() + 1,
            final(self).inv(),
            final(self).same_input(old(self)),
            final(self).cursor == old(self).cursor,
    {
        self.add_token_with_payload(kind, 0, start)
    }

    fn add_token_with_payload(&mut self, kind: TokenKind, payload: u32, start: TextSize)
        requires
            old(self).has_leading_space == (old(self).output.tokens@.len() == 1 || gap_has_space(
                old(self).text@,
                tok_end(old(self).output.tokens@, old(self).text@, old(self).output.tokens@.len() - 1),
                start as int,
            )),
            old(self).output.diagnostics@ == old(self).expected_diagnostics(start as int)
                + token_diagnostics(kind, start as int),
            skip_step(old(self).text@, start as int) == start,
            kind == TokenKind::Error ==> payload == token_len_at(old(self).text@, start as int),
            kind == token_kind_at(old(self).text@, start as int),
            old(self).output.tokens@.len() == 1 || old(self).output.token_start(
                old(self).output.tokens@.len() - 1,
            ) + token_len_at(
                old(self).text@,
                old(self).output.token_start(old(self).output.tokens@.len() - 1),
            ) <= start,
            start + token_len_at(old(self).text@, start as int) == old(self).cursor,
            old(self).inv_core(),
            skips_to(
                old(self).text@,
                shape_end(
                    old(self).output.token_shapes(),
                    old(self).text@,
                    old(self).output.tokens@.len() - 1,
                ),
                start as int,
            ),
            start < old(self).cursor,
            old(self).output.tokens@.len() <= start + 1,
            old(self).output.tokens@.len() == 1 || old(self).output.token_start(
                old(self).output.tokens@.len() - 1,
            ) < start,
            kind != TokenKind::FileStart,
            kind != TokenKind::FileEnd,
            !spec_is_open_delimiter(kind) && !spec_is_close_delimiter(kind) || payload == 0,
            payload < PAYLOAD_MASK,
            old(self).output.tokens@.len() + 2 < Token::MAX_INDEX,
        ensures
            final(self).output.diagnostics == old(self).output.diagnostics,
            final(self).output.tokens@.len() == old(self).output.tokens@.len() + 1,
            final(self).inv(),
            final(self).same_input(old(self)),
            final(self).cursor == old(self).cursor,
    {
        if is_close_delimiter(kind) {
            self.add_close_delimiter(kind, start);
        } else if is_open_delimiter(kind) {
            let ghost before = *self;
            proof {
                lemma_structure_parts(self.output, self.text@, self.open_delimiters@);
                lemma_tokens_last(self.output, self.cursor as int);
            }
            let token = Token::new(kind, self.has_leading_space, 0, start);
            self.has_leading_space = false;
            let index = self.output.add_token(token);
            self.open_delimiters.push(index);
            proof {
                lemma_tokens_appended(before.output, self.output, before.cursor as int, token);
                lemma_kinds_appended(before.output, self.output, self.text@, token);
                lemma_extents_appended(before.output, self.output, self.text@, before.cursor as int, before.cursor as int, token);
                lemma_payloads_appended(before.output.tokens@, self.output.tokens@, self.text@, token);
                lemma_tokens_last(before.output, before.cursor as int);
                lemma_gaps_appended(before.output, self.output, self.text@, token);
                lemma_gap_closed(before.output, self.output, self.text@, token);
                lemma_diagnostics_appended(before.output, self.output, self.text@, token);
                assert(self.output.diagnostics@ =~= stream_diagnostics(self.output.token_shapes(), self.text@, self.output.tokens@.len() - 1) + gap_diagnostics(self.text@, self.cursor as int, self.cursor as int));
                lemma_spaces_appended(before.output.tokens@, self.output.tokens@, self.text@, token);
                lemma_append_open(before.output, self.output, self.text@, before.open_delimiters@, token, index);
            }
        } else {
            self.append_token(kind, payload, start);
        }
    }

    /// Appends a token that is no open delimiter; a close delimiter only
    /// once a mismatch is recorded.
    fn append_token(&mut self, kind: TokenKind, payload: u32, start: TextSize)
        requires
            old(self).has_leading_space == (old(self).output.tokens@.len() == 1 || gap_has_space(
                old(self).text@,
                tok_end(old(self).output.tokens@, old(self).text@, old(self).output.tokens@.len() - 1),
                start as int,
            )),
            old(self).output.diagnostics@ == old(self).expected_diagnostics(start as int)
                + token_diagnostics(kind, start as int),
            skip_step(old(self).text@, start as int) == start,
            kind == TokenKind::Error ==> payload == token_len_at(old(self).text@, start as int),
            kind == token_kind_at(old(self).text@, start as int),
            old(self).output.tokens@.len() == 1 || old(self).output.token_start(
                old(self).output.tokens@.len() - 1,
            ) + token_len_at(
                old(self).text@,
                old(self).output.token_start(old(self).output.tokens@.len() - 1),
            ) <= start,
            start + token_len_at(old(self).text@, start as int) == old(self).cursor,
            old(self).inv_core(),
            skips_to(
                old(self).text@,
                shape_end(
                    old(self).output.token_shapes(),
                    old(self).text@,
                    old(self).output.tokens@.len() - 1,
                ),
                start as int,
            ),
            start < old(self).cursor,
            old(self).output.tokens@.len() <= start + 1,
            old(self).output.tokens@.len() == 1 || old(self).output.token_start(
                old(self).output.tokens@.len() - 1,
            ) < start,
            kind != TokenKind::FileStart,
            kind != TokenKind::FileEnd,
            !spec_is_open_delimiter(kind),
            !spec_is_close_delimiter(kind) || old(self).output.has_mismatched_brackets
                || old(self).open_delimiters@.len() == 0,
            spec_is_close_delimiter(kind) ==> payload == 0,
            payload < PAYLOAD_MASK,
            old(self).output.tokens@.len() + 2 < Token::MAX_INDEX,
        ensures
            final(self).output.diagnostics == old(self).output.diagnostics,
            final(self).output.tokens@.len() == old(self).output.tokens@.len() + 1,
            final(self).inv(),
            final(self).same_input(old(self)),
            final(self).cursor == old(self).cursor,
    {
        let ghost before = *self;
        proof {
            lemma_structure_parts(self.output, self.text@, self.open_delimiters@);
            lemma_tokens_last(self.output, self.cursor as int);
        }
        let token = Token::new(kind, self.has_leading_space, payload, start);
        self.has_leading_space = false;
        self.output.add_token(token);
        if is_close_delimiter(kind) {
            self.output.has_mismatched_brackets = true;
        }
        proof {
            lemma_tokens_appended(before.output, self.output, before.cursor as int, token);
            lemma_kinds_appended(before.output, self.output, self.text@, token);
            lemma_extents_appended(before.output, self.output, self.text@, before.cursor as int, before.cursor as int, token);
            lemma_payloads_appended(before.output.tokens@, self.output.tokens@, self.text@, token);
            lemma_tokens_last(before.output, before.cursor as int);
            lemma_gaps_appended(before.output, self.output, self.text@, token);
            lemma_gap_closed(before.output, self.output, self.text@, token);
            lemma_diagnostics_appended(before.output, self.output, self.text@, token);
            assert(self.output.diagnostics@ =~= stream_diagnostics(self.output.token_shapes(), self.text@, self.output.tokens@.len() - 1) + gap_diagnostics(self.text@, self.cursor as int, self.cursor as int));
            lemma_spaces_appended(before.output.tokens@, self.output.tokens@, self.text@, token);
            lemma_append_keeps(before.output, self.output, self.text@, self.open_delimiters@, token);
        }
    }

    /// Appends a close delimiter and pairs it with the innermost open one.
    fn add_close_delimiter(&mut self, kind: TokenKind, start: TextSize)
        requires
            old(self).has_leading_space == (old(self).output.tokens@.len() == 1 || gap_has_space(
                old(self).text@,
                tok_end(old(self).output.tokens@, old(self).text@, old(self).output.tokens@.len() - 1),
                start as int,
            )),
            old(self).output.diagnostics@ == old(self).expected_diagnostics(start as int)
                + token_diagnostics(kind, start as int),
            skip_step(old(self).text@, start as int) == start,
            kind != TokenKind::Error,
            kind == token_kind_at(old(self).text@, start as int),
            old(self).output.tokens@.len() == 1 || old(self).output.token_start(
                old(self).output.tokens@.len() - 1,
            ) + token_len_at(
                old(self).text@,
                old(self).output.token_start(old(self).output.tokens@.len() - 1),
            ) <= start,
            start + token_len_at(old(self).text@, start as int) == old(self).cursor,
            old(self).inv_core(),
            skips_to(
                old(self).text@,
                shape_end(
                    old(self).output.token_shapes(),
                    old(self).text@,
                    old(self).output.tokens@.len() - 1,
                ),
                start as int,
            ),
            start < old(self).cursor,
            old(self).output.tokens@.len() <= start + 1,
            old(self).output.tokens@.len() == 1 || old(self).output.token_start(
                old(self).output.tokens@.len() - 1,
            ) < start,
            spec_is_close_delimiter(kind),
            old(self).output.tokens@.len() + 2 < Token::MAX_INDEX,
        ensures
            final(self).output.diagnostics == old(self).output.diagnostics,
            final(self).output.tokens@.len() == old(self).output.tokens@.len() + 1,
            final(self).inv(),
            final(self).same_input(old(self)),
            final(self).cursor == old(self).cursor,
    {
        let ghost before = *self;
        proof {
            lemma_structure_parts(self.output, self.text@, self.open_delimiters@);
        }
        let close_index = TokenIndex::from_index(self.output.token_count());
        let popped = self.open_delimiters.pop();
        match popped {
            Some(open_index) => {
                proof {
                    let last = before.open_delimiters@.len() - 1;
                    assert(before.open_delimiters@[last] == open_index);
                }
                let open_kind = self.output.get_kind(open_index);
                if is_matching_delimiter(open_kind, kind) {
                    let token = Token::new(kind, self.has_leading_space, open_index.value(), start);
                    self.has_leading_space = false;
                    self.output.add_token(token);
                    let ghost mid = self.output;
                    let mut open_token = *self.output.tokens.get(open_index);
                    open_token.set_payload(close_index.value());
                    self.output.tokens.set(open_index, open_token);
                    proof {
                        lemma_tokens_appended(before.output, mid, before.cursor as int, token);
                        lemma_kinds_appended(before.output, mid, self.text@, token);
                        lemma_extents_appended(before.output, mid, self.text@, before.cursor as int, before.cursor as int, token);
                        lemma_payloads_appended(before.output.tokens@, mid.tokens@, self.text@, token);
                        lemma_payloads_patched(mid.tokens@, self.output.tokens@, self.text@, open_index.index() as int);
                        lemma_tokens_last(before.output, before.cursor as int);
                        lemma_gaps_appended(before.output, mid, self.text@, token);
                        lemma_gap_closed(before.output, mid, self.text@, token);
                        lemma_diagnostics_appended(before.output, mid, self.text@, token);
                        lemma_spaces_appended(before.output.tokens@, mid.tokens@, self.text@, token);
                        lemma_spaces_patched(mid.tokens@, self.output.tokens@, self.text@, open_index.index() as int);
                        let o = open_index.index() as int;
                        assert forall|i: int| 0 <= i < mid.tokens@.len() implies #[trigger] self.output.token_shapes()[i] == mid.token_shapes()[i] by {
                            if i == o {
                                assert(self.output.tokens@[i]@.kind == mid.tokens@[i]@.kind);
                            }
                        }
                        assert(self.output.token_shapes() =~= mid.token_shapes());
                        lemma_paired_close(before.output, self.output, self.text@, before.open_delimiters@, o);
                    }
                } else {
                    self.output.has_mismatched_brackets = true;
                    proof {
                        lemma_structure_mismatch(before.output, self.output, self.text@, before.open_delimiters@, self.open_delimiters@);
                    }
                    self.append_token(kind, 0, start);
                }
            },
            None => {
                self.append_token(kind, 0, start);
            },
        }
    }

    /// Moves the cursor forward to `to`.
    fn advance_to(&mut self, to: TextSize)
        requires
            old(self).inv_core(),
            old(self).cursor <= to <= old(self).len(),
        ensures
            final(self).inv_core(),
            final(self).same_input(old(self)),
            final(self).cursor == to,
            final(self).output == old(self).output,
            final(self).has_leading_space == old(self).has_leading_space,
            final(self).line_index == old(self).line_index,
            final(self).open_delimiters == old(self).open_delimiters,
    {
        proof {
            lemma_tokens_so_far_grow(self.output.token_shapes(), self.cursor as int, to as int);
            lemma_extents_grow(self.output.token_shapes(), self.text@, self.cursor as int, to as int);
        }
        self.cursor = to;
    }

    /// Moves the cursor over whitespace and comments to `to`.
    fn skip_to(&mut self, to: TextSize, space: bool)
        requires
            old(self).inv(),
            old(self).cursor <= to <= old(self).len(),
            skips_to(old(self).text@, old(self).cursor as int, to as int),
            gap_diagnostics(old(self).text@, old(self).cursor as int, to as int) == Seq::<
                Diagnostic,
            >::empty(),
            space == gap_has_space(old(self).text@, old(self).cursor as int, to as int),
        ensures
            final(self).inv(),
            final(self).same_input(old(self)),
            final(self).cursor == to,
            final(self).output == old(self).output,
            final(self).has_leading_space == (old(self).has_leading_space || space),
            final(self).line_index == old(self).line_index,
            final(self).open_delimiters == old(self).open_delimiters,
    {
        proof {
            lemma_skips_trans(
                self.text@,
                shape_end(self.output.token_shapes(), self.text@, self.output.tokens@.len() - 1),
                self.cursor as int,
                to as int,
            );
            lemma_gap_diagnostics_concat(
                self.text@,
                shape_end(self.output.token_shapes(), self.text@, self.output.tokens@.len() - 1),
                self.cursor as int,
                to as int,
            );
            assert(self.expected_diagnostics(to as int) =~= self.expected_diagnostics(
                self.cursor as int,
            ));
            let n = self.output.tokens@.len() - 1;
            assert(tok_end(self.output.tokens@, self.text@, n) == shape_end(
                self.output.token_shapes(),
                self.text@,
                n,
            ));
            lemma_space_concat(
                self.text@,
                shape_end(self.output.token_shapes(), self.text@, n),
                self.cursor as int,
                to as int,
            );
        }
        self.advance_to(to);
        if space {
            self.has_leading_space = true;
        }
    }

    /// Adds a token for the `len` bytes at the cursor.
    fn lex_token_of_length(&mut self, kind: TokenKind, len: u32)
        requires
            skip_step(old(self).text@, old(self).cursor as int) == old(self).cursor,
            kind != TokenKind::Error,
            len == token_len_at(old(self).text@, old(self).cursor as int),
            kind == token_kind_at(old(self).text@, old(self).cursor as int),
            old(self).inv(),
            1 <= len,
            old(self).cursor + len <= old(self).len(),
            kind != TokenKind::FileStart,
            kind != TokenKind::FileEnd,
            old(self).output.tokens@.len() + 2 < Token::MAX_INDEX,
        ensures
            final(self).inv(),
            final(self).same_input(old(self)),
            final(self).cursor == old(self).cursor + len,
    {
        let start = self.cursor;
        proof {
            lemma_tokens_last(self.output, start as int);
            lemma_extents_last(self.output, self.text@, start as int);
        }
        self.advance_to(start + len);
        self.add_token(kind, start);
    }

    fn lex_byte(&mut self, kind: TokenKind)
        requires
            skip_step(old(self).text@, old(self).cursor as int) == old(self).cursor,
            kind != TokenKind::Error,
            token_len_at(old(self).text@, old(self).cursor as int) == 1,
            kind == token_kind_at(old(self).text@, old(self).cursor as int),
            old(self).inv(),
            old(self).cursor < old(self).len(),
            kind != TokenKind::FileStart,
            kind != TokenKind::FileEnd,
            old(self).output.tokens@.len() + 2 < Token::MAX_INDEX,
        ensures
            final(self).inv(),
            final(self).same_input(old(self)),
            final(self).cursor == old(self).cursor + 1,
    {
        self.lex_token_of_length(kind, 1);
    }

    /// `kind` for a lone byte, `equals_kind` when `=` follows it.
    fn lex_byte_and_equals(&mut self, kind: TokenKind, equals_kind: TokenKind)
        requires
            skip_step(old(self).text@, old(self).cursor as int) == old(self).cursor,
            kind != TokenKind::Error && equals_kind != TokenKind::Error,
            token_len_at(old(self).text@, old(self).cursor as int) == (if byte_or_zero(
                old(self).text@,
                old(self).cursor + 1,
            ) == EQUAL {
                2int
            } else {
                1int
            }),
            token_kind_at(old(self).text@, old(self).cursor as int) == with_equals(
                old(self).text@,
                old(self).cursor as int,
                kind,
                equals_kind,
            ),
            old(self).inv(),
            old(self).cursor < old(self).len(),
            kind != TokenKind::FileStart && kind != TokenKind::FileEnd,
            equals_kind != TokenKind::FileStart && equals_kind != TokenKind::FileEnd,
            old(self).output.tokens@.len() + 2 < Token::MAX_INDEX,
        ensures
            final(self).inv(),
            final(self).same_input(old(self)),
            final(self).cursor > old(self).cursor,
    {
        reveal(token_kind_at);
        reveal(token_len_at);
        if self.peek() == EQUAL {
            self.lex_token_of_length(equals_kind, 2);
        } else {
            self.lex_token_of_length(kind, 1);
        }
    }

    /// `kind` for a lone byte, `twice_kind` when it is doubled and
    /// `equals_kind` when `=` follows it.
    fn lex_byte_twice_or_equals(
        &mut self,
        kind: TokenKind,
        twice_kind: TokenKind,
        equals_kind: TokenKind,
    )
        requires
            skip_step(old(self).text@, old(self).cursor as int) == old(self).cursor,
            kind != TokenKind::Error && twice_kind != TokenKind::Error && equals_kind
                != TokenKind::Error,
            token_len_at(old(self).text@, old(self).cursor as int) == (if byte_or_zero(
                old(self).text@,
                old(self).cursor + 1,
            ) == EQUAL || (old(self).cursor + 1 < old(self).len() && old(self).text@[old(self).cursor
                + 1] == old(self).text@[old(self).cursor as int]) {
                2int
            } else {
                1int
            }),
            token_kind_at(old(self).text@, old(self).cursor as int) == twice_or_equals(
                old(self).text@,
                old(self).cursor as int,
                kind,
                twice_kind,
                equals_kind,
            ),
            old(self).inv(),
            old(self).cursor < old(self).len(),
            kind != TokenKind::FileStart && kind != TokenKind::FileEnd,
            twice_kind != TokenKind::FileStart && twice_kind != TokenKind::FileEnd,
            equals_kind != TokenKind::FileStart && equals_kind != TokenKind::FileEnd,
            old(self).output.tokens@.len() + 2 < Token::MAX_INDEX,
        ensures
            final(self).inv(),
            final(self).same_input(old(self)),
            final(self).cursor > old(self).cursor,
    {
        reveal(token_kind_at);
        reveal(token_len_at);
        let start_byte = self.current();
        let next = self.peek();
        if next == EQUAL {
            self.lex_token_of_length(equals_kind, 2);
        } else if next == start_byte && self.cursor + 1 < self.text.len() {
            self.lex_token_of_length(twice_kind, 2);
        } else {
            self.lex_token_of_length(kind, 1);
        }
    }

    /// `<`, `<=`, `<<` and `<<=`.
    fn lex_less_than(&mut self)
        requires
            spec_dispatch(old(self).text@[old(self).cursor as int]) == Dispatch::LessThan,
            old(self).inv(),
            old(self).cursor < old(self).len(),
            old(self).output.tokens@.len() + 2 < Token::MAX_INDEX,
        ensures
            final(self).inv(),
            final(self).same_input(old(self)),
            final(self).cursor > old(self).cursor,
    {
        reveal(token_kind_at);
        reveal(token_len_at);
        let next = self.peek();
        if next == LESS_THAN {
            if self.byte_at(self.cursor + 2) == EQUAL {
                self.lex_token_of_length(TokenKind::LeftShiftAssign, 3);
            } else {
                self.lex_token_of_length(TokenKind::LeftShift, 2);
            }
        } else if next == EQUAL {
            self.lex_token_of_length(TokenKind::LessThanEquals, 2);
        } else {
            self.lex_token_of_length(TokenKind::LessThan, 1);
        }
    }

    /// `>`, `>=`, `>>` and `>>=`.
    fn lex_greater_than(&mut self)
        requires
            spec_dispatch(old(self).text@[old(self).cursor as int]) == Dispatch::GreaterThan,
            old(self).inv(),
            old(self).cursor < old(self).len(),
            old(self).output.tokens@.len() + 2 < Token::MAX_INDEX,
        ensures
            final(self).inv(),
            final(self).same_input(old(self)),
            final(self).cursor > old(self).cursor,
    {
        reveal(token_kind_at);
        reveal(token_len_at);
        let next = self.peek();
        if next == GREATER_THAN {
            if self.byte_at(self.cursor + 2) == EQUAL {
                self.lex_token_of_length(TokenKind::RightShiftAssign, 3);
            } else {
                self.lex_token_of_length(TokenKind::RightShift, 2);
            }
        } else if next == EQUAL {
            self.lex_token_of_length(TokenKind::GreaterThanEquals, 2);
        } else {
            self.lex_token_of_length(TokenKind::GreaterThan, 1);
        }
    }

    /// `?`, `??` and `??=`.
    fn lex_question(&mut self)
        requires
            spec_dispatch(old(self).text@[old(self).cursor as int]) == Dispatch::Question,
            old(self).inv(),
            old(self).cursor < old(self).len(),
            old(self).output.tokens@.len() + 2 < Token::MAX_INDEX,
        ensures
            final(self).inv(),
            final(self).same_input(old(self)),
            final(self).cursor > old(self).cursor,
    {
        reveal(token_kind_at);
        reveal(token_len_at);
        let next = self.peek();
        if next == QUESTION {
            if self.byte_at(self.cursor + 2) == EQUAL {
                self.lex_token_of_length(TokenKind::NullCoalesceAssign, 3);
            } else {
                self.lex_token_of_length(TokenKind::NullCoalesce, 2);
            }
        } else {
            self.lex_token_of_length(TokenKind::QuestionMark, 1);
        }
    }

    /// `[`, or one of the accessor opens `[|`, `[?`, `[#`, `[@`, `[$`.
    fn lex_accessor(&mut self)
        requires
            spec_dispatch(old(self).text@[old(self).cursor as int]) == Dispatch::BracketOpen,
            old(self).inv(),
            old(self).cursor < old(self).len(),
            old(self).output.tokens@.len() + 2 < Token::MAX_INDEX,
        ensures
            final(self).inv(),
            final(self).same_input(old(self)),
            final(self).cursor > old(self).cursor,
    {
        reveal(token_kind_at);
        reveal(token_len_at);
        let next = self.peek();
        let kind = if next == PIPE {
            TokenKind::ListAccessor
        } else if next == QUESTION {
            TokenKind::MapAccessor
        } else if next == HASH {
            TokenKind::GridAccessor
        } else if next == AT {
            TokenKind::ArrayAccessor
        } else if next == DOLLAR {
            TokenKind::StructAccessor
        } else {
            TokenKind::LeftSquare
        };
        if kind == TokenKind::LeftSquare {
            self.lex_token_of_length(kind, 1);
        } else {
            self.lex_token_of_length(kind, 2);
        }
    }

    fn lex_keyword_or_identifier(&mut self)
        requires
            spec_dispatch(old(self).text@[old(self).cursor as int]) == Dispatch::IdentifierStart,
            old(self).inv(),
            old(self).cursor < old(self).len(),
            spec_is_identifier_start(old(self).text@[old(self).cursor as int]),
            old(self).output.tokens@.len() + 2 < Token::MAX_INDEX,
        ensures
            final(self).inv(),
            final(self).same_input(old(self)),
            final(self).cursor > old(self).cursor,
    {
        reveal(token_kind_at);
        reveal(token_len_at);
        let start = self.cursor;
        let rest = self.text.get_slice(start, self.text.len());
        let len = scan_identifier(rest);
        assert(rest@[0] == self.text@[start as int]);
        let end = start + len as u32;
        let kind = match_keyword(self.text.get_slice(start, end));
        proof {
            let rest_view = self.text@.subrange(start as int, self.text@.len() as int);
            assert(self.text@.subrange(start as int, end as int) =~= rest_view.subrange(0, len as int));
            lemma_keyword_not_sentinel(self.text@.subrange(start as int, end as int));
        }
        self.lex_token_of_length(kind, len as u32);
    }

    fn lex_number_literal_or_dot(&mut self)
        requires
            spec_dispatch(old(self).text@[old(self).cursor as int]) == Dispatch::Dot || spec_dispatch(
                old(self).text@[old(self).cursor as int],
            ) == Dispatch::DigitZero || spec_dispatch(old(self).text@[old(self).cursor as int])
                == Dispatch::DigitNonZero,
            old(self).inv(),
            old(self).cursor < old(self).len(),
            old(self).text@[old(self).cursor as int] == DOT || DIGIT_ZERO <= old(self).text@[old(self).cursor as int] <= DIGIT_NINE,
            old(self).output.tokens@.len() + 2 < Token::MAX_INDEX,
        ensures
            final(self).inv(),
            final(self).same_input(old(self)),
            final(self).cursor > old(self).cursor,
    {
        reveal(token_kind_at);
        reveal(token_len_at);
        let start = self.cursor;
        let rest = self.text.get_slice(start, self.text.len());
        let (len, kind) = scan_number_or_dot(rest);
        assert(rest@[0] == self.text@[start as int]);
        if kind == TokenKind::Error {
            self.lex_error();
            return;
        }
        self.lex_token_of_length(kind, len as u32);
    }

    fn lex_string_literal(&mut self)
        requires
            spec_dispatch(old(self).text@[old(self).cursor as int]) == Dispatch::Quote,
            old(self).inv(),
            old(self).cursor < old(self).len(),
            old(self).text@[old(self).cursor as int] == QUOTE,
            old(self).output.tokens@.len() + 2 < Token::MAX_INDEX,
        ensures
            final(self).inv(),
            final(self).same_input(old(self)),
            final(self).cursor > old(self).cursor,
    {
        reveal(token_kind_at);
        reveal(token_len_at);
        let start = self.cursor;
        let rest = self.text.get_slice(start, self.text.len());
        assert(rest@[0] == self.text@[start as int]);
        let (len, kind) = scan_string_literal(rest);
        if kind == TokenKind::Error {
            self.lex_error();
            return;
        }
        proof {
            lemma_string_end_bounds(rest@, 1);
        }
        self.lex_token_of_length(kind, len as u32);
    }

    /// A verbatim string after `@"` or `@'`; a lone `@` otherwise.
    fn lex_verbatim_string_literal(&mut self)
        requires
            spec_dispatch(old(self).text@[old(self).cursor as int]) == Dispatch::At,
            old(self).inv(),
            old(self).cursor < old(self).len(),
            old(self).text@[old(self).cursor as int] == AT,
            old(self).output.tokens@.len() + 2 < Token::MAX_INDEX,
        ensures
            final(self).inv(),
            final(self).same_input(old(self)),
            final(self).cursor > old(self).cursor,
    {
        reveal(token_kind_at);
        reveal(token_len_at);
        let next = self.peek();
        if next != QUOTE && next != APOSTROPHE {
            self.lex_token_of_length(TokenKind::AtSign, 1);
            return;
        }
        let start = self.cursor;
        let rest = self.text.get_slice(start, self.text.len());
        assert(rest@[0] == self.text@[start as int]);
        assert(rest@[1] == self.text@[start + 1]);
        let (len, kind) = scan_verbatim_string_literal(rest);
        if kind == TokenKind::Error {
            self.lex_error();
            return;
        }
        proof {
            lemma_verbatim_end_bounds(rest@, rest@[1], 2);
        }
        self.lex_token_of_length(kind, len as u32);
    }

    fn lex_horizontal_whitespace(&mut self)
        requires
            old(self).inv(),
            old(self).cursor < old(self).len(),
            spec_is_horizontal_whitespace(old(self).text@[old(self).cursor as int]),
        ensures
            final(self).inv(),
            final(self).same_input(old(self)),
            final(self).cursor > old(self).cursor,
    {
        reveal(token_kind_at);
        reveal(token_len_at);
        self.skip_horizontal_whitespace();
    }

    fn skip_horizontal_whitespace(&mut self)
        requires
            old(self).inv(),
        ensures
            final(self).inv(),
            final(self).same_input(old(self)),
            final(self).cursor >= old(self).cursor,
            final(self).output == old(self).output,
            final(self).line_index == old(self).line_index,
            old(self).cursor < old(self).len() && spec_is_horizontal_whitespace(
                old(self).text@[old(self).cursor as int],
            ) ==> final(self).cursor > old(self).cursor,
    {
        while self.cursor < self.text.len() && is_horizontal_whitespace(self.current())
            invariant
                self.inv(),
                self.same_input(old(self)),
                self.cursor >= old(self).cursor,
                self.output == old(self).output,
                self.line_index == old(self).line_index,
                old(self).cursor < old(self).len() && spec_is_horizontal_whitespace(
                    old(self).text@[old(self).cursor as int],
                ) && self.cursor == old(self).cursor ==> self.cursor < self.len()
                    && spec_is_horizontal_whitespace(self.text@[self.cursor as int]),
            decreases self.len() - self.cursor,
        {
            proof {
                lemma_skip_one(self.text@, self.cursor as int);
                lemma_gap_step(self.text@, self.cursor as int);
                assert(skip_diagnostics(self.text@, self.cursor as int) =~= Seq::<Diagnostic>::empty());
                lemma_space_step(self.text@, self.cursor as int);
            }
            self.skip_to(self.cursor + 1, true);
        }
    }

    /// Moves the line index to the line that holds the cursor.
    fn sync_line(&mut self)
        requires
            old(self).inv(),
        ensures
            final(self).inv(),
            final(self).same_input(old(self)),
            final(self).cursor == old(self).cursor,
            final(self).output == old(self).output,
            final(self).line_index + 1 == final(self).output.lines@.len() || final(self).cursor
                < final(self).output.line_start(final(self).line_index + 1),
    {
        proof {
            lemma_structure_parts(self.output, self.text@, self.open_delimiters@);
        }
        while self.line_index + 1 < self.output.lines.len() && self.output.lines.get(
            LineIndex::from_index(self.line_index + 1),
        ).start() <= self.cursor
            invariant
                self.inv(),
                self.same_input(old(self)),
                self.cursor == old(self).cursor,
                self.output == old(self).output,
                self.output.lines.wf(),
            decreases self.output.lines@.len() - self.line_index,
        {
            self.line_index = self.line_index + 1;
        }
    }

    /// Moves to the start of line `to_line`, skips its leading horizontal
    /// whitespace and records that width as the line's indent.
    fn advance_to_line(&mut self, to_line: usize, space: bool)
        requires
            old(self).inv(),
            to_line < old(self).output.lines@.len(),
            old(self).cursor <= old(self).output.line_start(to_line as int),
            skips_to(
                old(self).text@,
                old(self).cursor as int,
                old(self).output.line_start(to_line as int),
            ),
            gap_diagnostics(
                old(self).text@,
                old(self).cursor as int,
                old(self).output.line_start(to_line as int),
            ) == Seq::<Diagnostic>::empty(),
            space == gap_has_space(
                old(self).text@,
                old(self).cursor as int,
                old(self).output.line_start(to_line as int),
            ),
        ensures
            final(self).inv(),
            final(self).same_input(old(self)),
            final(self).cursor >= old(self).output.line_start(to_line as int),
            final(self).output.lines@[to_line as int]@.indent == final(self).cursor - old(
                self,
            ).output.line_start(to_line as int),
            final(self).output.tokens == old(self).output.tokens,
            final(self).output.diagnostics == old(self).output.diagnostics,
            final(self).output.comments == old(self).output.comments,
    {
        proof {
            lemma_structure_parts(self.output, self.text@, self.open_delimiters@);
            let last = self.output.lines@.len() - 1;
            if to_line < last {
                assert(self.output.line_start(to_line as int) < self.output.line_start(last));
            }
        }
        let line_start = self.output.lines.get(LineIndex::from_index(to_line)).start();
        self.skip_to(line_start, space);
        self.line_index = to_line;
        self.skip_horizontal_whitespace();
        let indent = self.cursor - line_start;
        let ghost before = *self;
        proof {
            lemma_structure_parts(self.output, self.text@, self.open_delimiters@);
        }
        let line = self.output.lines.get_mut(LineIndex::from_index(to_line));
        line.set_indent(indent);
        let ghost updated = *line;
        proof {
            ChunkedIndexVec::<Line, LineIndex>::lemma_update_slot(
                before.output.lines,
                self.output.lines,
                to_line as int,
                updated,
            );
            assert(self.output.line_starts() =~= before.output.line_starts());
            lemma_structure_frame(before.output, self.output, self.text@, self.open_delimiters@);
        }
    }

    /// Moves past the line break at the cursor (`\n` or `\r\n`), or past the
    /// `//` comment that starts there, to the start of the next line.
    fn advance_to_next_line(&mut self)
        requires
            old(self).inv(),
            old(self).cursor < old(self).len(),
            old(self).text@[old(self).cursor as int] == NEWLINE || (old(self).text@[old(
                self,
            ).cursor as int] == CARRIAGE_RETURN && byte_or_zero(old(self).text@, old(self).cursor + 1)
                == NEWLINE) || (old(self).text@[old(self).cursor as int] == SLASH && byte_or_zero(
                old(self).text@,
                old(self).cursor + 1,
            ) == SLASH),
        ensures
            final(self).inv(),
            final(self).same_input(old(self)),
            final(self).cursor > old(self).cursor,
            final(self).output.tokens == old(self).output.tokens,
            final(self).output.diagnostics == old(self).output.diagnostics,
            final(self).output.comments == old(self).output.comments,
    {
        self.sync_line();
        proof {
            lemma_structure_parts(self.output, self.text@, self.open_delimiters@);
            let s = self.text@;
            let c = self.cursor as int;
            let k = self.line_index as int;
            let L = self.output.line_starts();
            assert(L[k] == self.output.line_start(k));
            assert(L[k + 1] == self.output.line_start(k + 1));
            lemma_line_end_at_line(L, self.output.last_line_is_inserted, s, k, c);
            if s[c] == NEWLINE {
                lemma_skip_one(s, c);
                lemma_space_step(s, c);
                lemma_gap_step(s, c);
                assert(skip_diagnostics(s, c) =~= Seq::<Diagnostic>::empty());
            } else if s[c] == CARRIAGE_RETURN {
                assert(c + 1 < s.len());
                assert(line_end(s, c) == line_end(s, c + 1));
                assert(line_end(s, c + 1) == c + 2);
                lemma_skip_one(s, c);
                lemma_skip_one(s, c + 1);
                lemma_skips_trans(s, c, c + 1, c + 2);
                lemma_gap_step(s, c);
                lemma_gap_step(s, c + 1);
                assert(skip_diagnostics(s, c) =~= Seq::<Diagnostic>::empty());
                assert(skip_diagnostics(s, c + 1) =~= Seq::<Diagnostic>::empty());
                lemma_skip_one(s, c);
                lemma_gap_diagnostics_concat(s, c, c + 1, c + 2);
                lemma_space_step(s, c);
                lemma_space_concat(s, c, c + 1, c + 2);
                assert(gap_diagnostics(s, c, c + 2) =~= Seq::<Diagnostic>::empty());
            } else {
                assert(c + 1 < s.len());
                assert(line_end(s, c) == line_end(s, c + 1));
                assert(line_end(s, c + 1) == line_end(s, c + 2));
                lemma_skip_one(s, c);
                lemma_space_step(s, c);
                lemma_gap_step(s, c);
                assert(skip_diagnostics(s, c) =~= Seq::<Diagnostic>::empty());
            }
        }
        self.advance_to_line(self.line_index + 1, true);
    }

    fn lex_vertical_whitespace(&mut self)
        requires
            old(self).inv(),
            old(self).cursor < old(self).len(),
            old(self).text@[old(self).cursor as int] == NEWLINE || (old(self).text@[old(
                self,
            ).cursor as int] == CARRIAGE_RETURN && byte_or_zero(old(self).text@, old(self).cursor + 1)
                == NEWLINE),
        ensures
            final(self).inv(),
            final(self).same_input(old(self)),
            final(self).cursor > old(self).cursor,
    {
        reveal(token_kind_at);
        reveal(token_len_at);
        self.advance_to_next_line();
    }

    /// `\r\n` is a line break; a lone `\r` is reported and taken as
    /// horizontal whitespace.
    fn lex_cr(&mut self)
        requires
            old(self).text@[old(self).cursor as int] == CARRIAGE_RETURN,
            old(self).inv(),
            old(self).cursor < old(self).len(),
        ensures
            final(self).inv(),
            final(self).same_input(old(self)),
            final(self).cursor > old(self).cursor,
    {
        reveal(token_kind_at);
        reveal(token_len_at);
        if self.peek() == NEWLINE {
            self.lex_vertical_whitespace();
            return;
        }
        let is_lfcr = self.cursor > 0 && self.text.get_byte(self.cursor - 1) == NEWLINE;
        let kind = if is_lfcr {
            DiagnosticKind::LineFeedCarriageReturn
        } else {
            DiagnosticKind::RawCarriageReturn
        };
        let ghost before = *self;
        let ghost c = self.cursor as int;
        let ghost e = shape_end(self.output.token_shapes(), self.text@, self.output.tokens@.len() - 1);
        self.push_diagnostic(kind, self.cursor);
        proof {
            lemma_skip_one(self.text@, c);
            lemma_skips_trans(self.text@, e, c, c + 1);
            lemma_gap_diagnostics_concat(self.text@, e, c, c + 1);
            lemma_gap_step(self.text@, c);
            assert(skip_diagnostics(self.text@, c) =~= seq![Diagnostic { kind, position: c as u32 }]);
            lemma_space_step(self.text@, c);
            lemma_space_concat(self.text@, e, c, c + 1);
            assert(tok_end(self.output.tokens@, self.text@, self.output.tokens@.len() - 1) == e);
        }
        self.advance_to(self.cursor + 1);
        self.has_leading_space = true;
        proof {
            assert(self.output.diagnostics@ =~= self.expected_diagnostics(self.cursor as int));
        }
    }

    fn push_diagnostic(&mut self, kind: DiagnosticKind, position: TextSize)
        requires
            old(self).inv_core(),
            old(self).len() > 0,
        ensures
            final(self).inv_core(),
            final(self).same_input(old(self)),
            final(self).cursor == old(self).cursor,
            final(self).output.tokens == old(self).output.tokens,
            final(self).line_index == old(self).line_index,
            final(self).open_delimiters == old(self).open_delimiters,
            final(self).has_leading_space == old(self).has_leading_space,
            final(self).output.diagnostics@ == old(self).output.diagnostics@.push(
                Diagnostic { kind, position },
            ),
    {
        let ghost before = *self;
        self.output.diagnostics.push(Diagnostic { kind, position });
        proof {
            lemma_structure_frame(before.output, self.output, self.text@, self.open_delimiters@);
        }
    }

    /// `//` and `/* */` comments, `/` and `/=`.
    fn lex_comment_or_divide(&mut self)
        requires
            spec_dispatch(old(self).text@[old(self).cursor as int]) == Dispatch::Slash,
            old(self).inv(),
            old(self).cursor < old(self).len(),
            old(self).output.tokens@.len() + 2 < Token::MAX_INDEX,
        ensures
            final(self).inv(),
            final(self).same_input(old(self)),
            final(self).cursor > old(self).cursor,
    {
        reveal(token_kind_at);
        reveal(token_len_at);
        let start = self.cursor;
        let next = self.peek();
        if next == SLASH {
            self.advance_to_next_line();
            self.add_comment(start);
        } else if next == ASTERISK {
            let len = self.text.len();
            let mut i = start + 2;
            while i + 1 < len && !(self.text.get_byte(i) == ASTERISK && self.text.get_byte(i + 1)
                == SLASH)
                invariant
                    start + 2 <= i <= len,
                    len == self.text@.len(),
                    self.text.wf(),
                    block_comment_end(self.text@, start + 2) == block_comment_end(
                        self.text@,
                        i as int,
                    ),
                decreases len - i,
            {
                i += 1;
            }
            let end = if i + 1 < len {
                i + 2
            } else {
                len
            };
            proof {
                lemma_skip_one(self.text@, start as int);
                lemma_gap_step(self.text@, start as int);
                assert(skip_diagnostics(self.text@, start as int) =~= Seq::<Diagnostic>::empty());
                lemma_space_step(self.text@, start as int);
            }
            self.skip_to(end, false);
            self.add_comment(start);
        } else {
            self.lex_byte_and_equals(TokenKind::Divide, TokenKind::DivideAssign);
        }
    }

    /// Records a comment from `start` to the cursor.
    fn add_comment(&mut self, start: TextSize)
        requires
            old(self).inv(),
            start < old(self).cursor,
            old(self).output.comments@.len() <= start,
        ensures
            final(self).inv(),
            final(self).same_input(old(self)),
            final(self).cursor == old(self).cursor,
    {
        let ghost before = *self;
        proof {
            lemma_structure_parts(self.output, self.text@, self.open_delimiters@);
        }
        self.output.add_comment(Comment::new(start, self.cursor));
        proof {
            lemma_structure_frame(before.output, self.output, self.text@, self.open_delimiters@);
        }
    }

    /// A run of bytes no handler takes: everything up to the next
    /// identifier byte or horizontal whitespace, at least one byte.
    fn lex_error(&mut self)
        requires
            skip_step(old(self).text@, old(self).cursor as int) == old(self).cursor,
            token_kind_at(old(self).text@, old(self).cursor as int) == TokenKind::Error,
            old(self).inv(),
            old(self).cursor < old(self).len(),
            old(self).output.tokens@.len() + 2 < Token::MAX_INDEX,
        ensures
            final(self).output.diagnostics@ == old(self).output.diagnostics@.push(
                Diagnostic {
                    kind: DiagnosticKind::UnrecognizedCharacters,
                    position: old(self).cursor as u32,
                },
            ),
            final(self).output.tokens@.len() == old(self).output.tokens@.len() + 1,
            final(self).inv(),
            final(self).same_input(old(self)),
            final(self).cursor > old(self).cursor,
    {
        reveal(token_kind_at);
        reveal(token_len_at);
        let start = self.cursor;
        proof {
            lemma_tokens_last(self.output, start as int);
            lemma_extents_last(self.output, self.text@, start as int);
        }
        let len = self.text.len();
        let mut end = start;
        while end < len && end - start < PAYLOAD_MASK - 1 && !is_identifier_byte(
            self.text.get_byte(end),
        ) && !is_horizontal_whitespace(self.text.get_byte(end))
            invariant
                start <= end <= len,
                end - start < PAYLOAD_MASK,
                len == self.text@.len(),
                self.text.wf(),
                error_end(self.text@, start as int, start as int) == error_end(
                    self.text@,
                    start as int,
                    end as int,
                ),
            decreases len - end,
        {
            end += 1;
        }
        if end == start {
            end = start + 1;
        }
        let ghost expected = self.expected_diagnostics(start as int);
        self.push_diagnostic(DiagnosticKind::UnrecognizedCharacters, start);
        self.advance_to(end);
        proof {
            assert(self.expected_diagnostics(start as int) == expected);
            assert(self.output.diagnostics@ =~= self.expected_diagnostics(start as int)
                + token_diagnostics(TokenKind::Error, start as int));
        }
        self.add_token_with_payload(TokenKind::Error, end - start, start);
    }

    fn lex_file_start(&mut self)
        requires
            old(self).text.wf(),
            old(self).output.tokens.wf() && old(self).output.comments.wf()
                && old(self).output.lines.wf(),
            old(self).output.lines@.len() >= 1,
            old(self).output.line_start(0) == 0,
            line_table(
                old(self).output.line_starts(),
                old(self).output.last_line_is_inserted,
                old(self).text@,
            ),
            old(self).output.tokens@.len() == 0,
            old(self).output.comments@.len() == 0,
            old(self).output.diagnostics@.len() == 0,
            !old(self).output.has_mismatched_brackets,
            old(self).cursor == 0,
            old(self).line_index == 0,
            old(self).open_delimiters@.len() == 0,
        ensures
            old(self).len() == 0 ==> final(self).output.lines@[0]@.indent == 0,
            final(self).inv(),
            final(self).same_input(old(self)),
            final(self).output.tokens@[0]@.has_leading_space,
            final(self).output.diagnostics@.len() == 0,
    {
        reveal(spaces_fit);
        reveal(gaps_fit);
        reveal(payloads_fit);
        reveal(extents_fit);
        reveal(kinds_fit);
        reveal(line_table);
        reveal(structure_core);
        reveal(tokens_so_far);
        self.has_leading_space = true;
        let token = Token::new(TokenKind::FileStart, true, 0, 0);
        self.output.add_token(token);
        proof {
            let t = self.output;
            let L = t.line_starts();
            assert forall|j: int, k: int| 0 <= j < k < t.lines@.len() implies t.line_start(j) < t.line_start(k) by {
                assert(L[j] < L[k]);
            }
            assert(t.token_shapes()[0] == (TokenKind::FileStart, 0int));
            assert forall|i: int| !(#[trigger] in_stack(self.open_delimiters@, i)) by {}
            assert(gap_diagnostics(self.text@, 0, 0) =~= Seq::<Diagnostic>::empty());
            assert(self.output.diagnostics@ =~= self.expected_diagnostics(0));
        }
        self.advance_to_line(0, false);
    }

    #[verifier::rlimit(100)]
    fn lex_file_end(&mut self)
        requires
            old(self).inv(),
            old(self).cursor == old(self).len(),
            old(self).output.tokens@.len() + 1 < Token::MAX_INDEX,
        ensures
            final(self).output.lines == old(self).output.lines,
            final(self).text == old(self).text,
            final(self).output.lexed_from(old(self).text@),
    {
        let ghost pre = self.output;
        proof {
            lemma_structure_parts(self.output, self.text@, self.open_delimiters@);
            reveal(structure_core);
        }
        self.has_leading_space = true;
        if self.open_delimiters.len() > 0 {
            self.output.has_mismatched_brackets = true;
        }
        let ghost before = self.output;
        let token = Token::new(TokenKind::FileEnd, true, 0, self.cursor);
        self.output.add_token(token);
        proof {
            lemma_final_tokens(before, self.output, self.cursor as int, token);
            lemma_final_kinds(before, self.output, self.text@, token);
            lemma_final_extents(before, self.output, self.text@, token);
            lemma_gaps_appended(before, self.output, self.text@, token);
            lemma_final_gaps(self.output, self.text@);
            lemma_diagnostics_appended(before, self.output, self.text@, token);
            reveal(spaces_fit);
            assert forall|i: int| 0 < i < self.output.tokens@.len() - 1 implies (
            #[trigger] self.output.tokens@[i])@.has_leading_space == (i == 1 || gap_has_space(
                self.text@,
                self.output.token_end(self.text@, i - 1),
                self.output.token_start(i),
            )) by {
                assert(self.output.tokens@[i] == before.tokens@[i]);
                assert(self.output.tokens@[i - 1] == before.tokens@[i - 1]);
                assert(before.tokens@[i]@.has_leading_space == (i == 1 || gap_has_space(
                    self.text@,
                    tok_end(before.tokens@, self.text@, i - 1),
                    before.tokens@[i]@.start as int,
                )));
            }
            assert(self.output.diagnostics@ =~= stream_diagnostics(
                self.output.token_shapes(),
                self.text@,
                self.output.tokens@.len() - 1,
            ));
            reveal(payloads_fit);
            assert forall|i: int|
                0 < i < self.output.tokens@.len() - 1 && #[trigger] self.output.token_kind(i)
                    == TokenKind::Error implies self.output.token_payload(i) == token_len_at(
                self.text@,
                self.output.token_start(i),
            ) by {
                assert(self.output.tokens@[i] == before.tokens@[i]);
            }
            if !self.output.has_mismatched_brackets {
                lemma_final_pairs(before, self.output, self.open_delimiters@, token);
            }
            lemma_final_settled(pre.tokens@, pre.has_mismatched_brackets, self.open_delimiters@, self.output, token);
            let t = self.output;
            assert(t.line_starts() == before.line_starts());
            assert(t.lines == pre.lines);
            assert forall|j: int, k: int| 0 <= j < k < t.lines@.len() implies t.line_start(j) < t.line_start(k) by {
                assert(pre.line_start(j) < pre.line_start(k));
            }
            if self.len() == 0 {
                if t.lines@.len() > 1 {
                    assert(t.line_start(0) < t.line_start(t.lines@.len() - 1));
                }
            }
        }
    }
}

/// The kind and start of each token.
pub open spec fn shapes_of(tokens: Seq<Token>) -> Seq<(TokenKind, int)> {
    Seq::new(tokens.len(), |i: int| (tokens[i]@.kind, tokens[i]@.start as int))
}

/// The starts of a table of lines.
pub open spec fn starts_of(lines: &ChunkedIndexVec<Line, LineIndex>) -> Seq<int> {
    Seq::new(lines@.len(), |k: int| lines@[k]@.start as int)
}

/// A line table under construction: lines `starts` are complete and the
/// next one begins at `pending`.
pub open spec fn lines_prefix(starts: Seq<int>, pending: int, s: Seq<u8>) -> bool {
    let n = starts.len() as int;
    &&& n <= pending <= s.len()
    &&& pending == 0 || s[pending - 1] == NEWLINE
    &&& n > 0 ==> starts[0] == 0
    &&& n == 0 ==> pending == 0
    &&& forall|j: int, k: int| 0 <= j < k < n ==> starts[j] < starts[k]
    &&& n > 0 ==> starts[n - 1] < pending
    &&& forall|k: int, p: int|
        #![trigger starts[k], s[p]]
        0 <= k < n - 1 && starts[k] <= p < starts[k + 1] - 1 ==> s[p] != NEWLINE
    &&& n > 0 ==> forall|p: int| starts[n - 1] <= p < pending - 1 ==> s[p] != NEWLINE
    &&& forall|k: int| 0 <= k < n - 1 ==> s[#[trigger] starts[k + 1] - 1] == NEWLINE
}

proof fn lemma_lines_step(starts: Seq<int>, pending: int, p: int, s: Seq<u8>)
    requires
        lines_prefix(starts, pending, s),
        crate::source_text::is_next_occurrence(s, NEWLINE, pending, p),
    ensures
        lines_prefix(starts.push(pending), p + 1, s),
{
    let n = starts.len() as int;
    let t = starts.push(pending);
    assert forall|j: int, k: int| 0 <= j < k < n + 1 implies t[j] < t[k] by {
        if k < n {
            assert(t[j] == starts[j] && t[k] == starts[k]);
        } else if j < n - 1 {
            assert(starts[j] < starts[n - 1]);
        }
    }
    assert forall|k: int, q: int|
        #![trigger t[k], s[q]]
        0 <= k < n && t[k] <= q < t[k + 1] - 1 implies s[q] != NEWLINE by {
        assert(t[k] == starts[k]);
        if k < n - 1 {
            assert(t[k + 1] == starts[k + 1]);
            assert(starts[k] <= q < starts[k + 1] - 1);
        }
    }
    assert forall|k: int| 0 <= k < n implies s[#[trigger] t[k + 1] - 1] == NEWLINE by {
        if k < n - 1 {
            assert(t[k + 1] == starts[k + 1]);
        }
    }
}

proof fn lemma_lines_finish(starts: Seq<int>, pending: int, s: Seq<u8>)
    requires
        lines_prefix(starts, pending, s),
        forall|q: int| pending <= q < s.len() ==> s[q] != NEWLINE,
    ensures
        pending == s.len() ==> line_table(starts.push(pending), false, s),
        pending < s.len() ==> line_table(starts.push(pending).push(s.len() as int), true, s),
        starts.push(pending)[0] == 0,
{
    reveal(line_table);
    let n = starts.len() as int;
    let t = starts.push(pending);
    assert forall|j: int, k: int| 0 <= j < k < n + 1 implies t[j] < t[k] by {
        if k < n {
            assert(t[j] == starts[j] && t[k] == starts[k]);
        } else if j < n - 1 {
            assert(starts[j] < starts[n - 1]);
        }
    }
    assert forall|k: int, q: int|
        #![trigger t[k], s[q]]
        0 <= k < n && t[k] <= q < t[k + 1] - 1 implies s[q] != NEWLINE by {
        assert(t[k] == starts[k]);
        if k < n - 1 {
            assert(t[k + 1] == starts[k + 1]);
            assert(starts[k] <= q < starts[k + 1] - 1);
        }
    }
    assert forall|k: int| 0 <= k < n implies s[#[trigger] t[k + 1] - 1] == NEWLINE by {
        if k < n - 1 {
            assert(t[k + 1] == starts[k + 1]);
        }
    }
    if pending < s.len() {
        let u = t.push(s.len() as int);
        assert forall|j: int, k: int| 0 <= j < k < n + 2 implies u[j] < u[k] by {
            if k < n + 1 {
                assert(u[j] == t[j] && u[k] == t[k]);
            }
        }
        assert forall|k: int, q: int|
            #![trigger u[k], s[q]]
            0 <= k < n + 1 && u[k] <= q < u[k + 1] - 1 implies s[q] != NEWLINE by {
            assert(u[k] == t[k]);
            if k < n {
                assert(u[k + 1] == t[k + 1]);
            }
        }
        assert forall|k: int| 0 <= k < n + 1 implies s[#[trigger] u[k + 1] - 1] == NEWLINE || k + 2
            == u.len() by {
            if k < n {
                assert(u[k + 1] == t[k + 1]);
            }
        }
    }
}

/// Builds the line table of `text`: one line at 0 and one after each `\n`,
/// and a sentinel line at the end of input when the input does not end with
/// `\n` (the flag says whether it was added).
fn make_lines(text: &SourceText) -> (r: (ChunkedIndexVec<Line, LineIndex>, bool))
    requires
        text.wf(),
    ensures
        r.0.wf(),
        line_table(starts_of(&r.0), r.1, text@),
        r.0@.len() >= 1,
        starts_of(&r.0)[0] == 0,
{
    let len = text.len();
    let ghost s = text@;
    let mut lines: ChunkedIndexVec<Line, LineIndex> = ChunkedIndexVec::new();
    let mut start: TextSize = 0;
    assert(starts_of(&lines) =~= Seq::<int>::empty());
    loop
        invariant
            text.wf(),
            len == s.len(),
            s == text@,
            lines.wf(),
            lines_prefix(starts_of(&lines), start as int, s),
        ensures
            lines.wf(),
            lines_prefix(starts_of(&lines), start as int, s),
            forall|q: int| start <= q < s.len() ==> s[q] != NEWLINE,
        decreases len - start,
    {
        match text.find_next(NEWLINE, start) {
            Some(new_line_start) => {
                let ghost before = starts_of(&lines);
                lines.push(Line::new(start));
                proof {
                    lemma_lines_step(before, start as int, new_line_start as int, s);
                    assert(starts_of(&lines) =~= before.push(start as int));
                }
                start = new_line_start + 1;
            },
            None => {
                break;
            },
        }
    }
    let ghost before = starts_of(&lines);
    proof {
        lemma_lines_finish(before, start as int, s);
    }
    lines.push(Line::new(start));
    assert(starts_of(&lines) =~= before.push(start as int));
    if start != len {
        let ghost mid = starts_of(&lines);
        lines.push(Line::new(len));
        assert(starts_of(&lines) =~= mid.push(len as int));
        (lines, true)
    } else {
        (lines, false)
    }
}

proof fn lemma_tokens_appended(b: TokenizedText, t: TokenizedText, bound: int, token: Token)
    requires
        tokens_so_far(b.token_shapes(), bound),
        t.tokens@ == b.tokens@.push(token),
        token@.start < bound,
        b.tokens@.len() == 1 || b.token_start(b.tokens@.len() - 1) < token@.start,
        token@.kind != TokenKind::FileStart,
        token@.kind != TokenKind::FileEnd,
    ensures
        tokens_so_far(t.token_shapes(), bound),
{
    reveal(tokens_so_far);
    let n = b.tokens@.len() as int;
    let bs = b.token_shapes();
    let ts = t.token_shapes();
    assert(ts =~= bs.push((token@.kind, token@.start as int)));
    assert forall|i: int, j: int| 0 < i < j < n + 1 implies (#[trigger] ts[i]).1 < (#[trigger] ts[j]).1 by {
        if j == n && i < n - 1 {
            assert(bs[i].1 < bs[n - 1].1);
        }
        if j == n {
            assert(bs[n - 1].1 == b.token_start(n - 1));
        }
    }
}

/// Closing the stream with `FileEnd` at the end of input completes the
/// partition.
proof fn lemma_final_tokens(b: TokenizedText, t: TokenizedText, len: int, token: Token)
    requires
        tokens_so_far(b.token_shapes(), len),
        t.tokens@ == b.tokens@.push(token),
        token@ == (crate::lex::token::TokenView {
            kind: TokenKind::FileEnd,
            payload: 0,
            has_leading_space: true,
            start: len as u32,
        }),
        b.tokens@.len() >= 1 ==> b.tokens@[0]@.has_leading_space,
        b.tokens@.len() >= 1 ==> b.tokens@[0]@.payload == 0,
        0 <= len <= u32::MAX,
    ensures
        t.tokens_partition(len),
{
    reveal(tokens_so_far);
    let n = b.tokens@.len() as int;
    let bs = b.token_shapes();
    assert(bs[0] == (TokenKind::FileStart, 0int));
    assert(t.tokens@[0] == b.tokens@[0]);
    assert forall|i: int| 0 < i < n implies #[trigger] t.token_kind(i) != TokenKind::FileStart
        && t.token_kind(i) != TokenKind::FileEnd && t.token_start(i) < len by {
        assert(t.tokens@[i] == b.tokens@[i]);
        assert(bs[i].1 < len);
    }
    assert forall|i: int, j: int| 0 < i < j < n implies #[trigger] t.token_start(i) < #[trigger] t.token_start(j) by {
        assert(t.tokens@[i] == b.tokens@[i]);
        assert(t.tokens@[j] == b.tokens@[j]);
        assert(bs[i].1 < bs[j].1);
    }
}

/// Between consecutive tokens of the finished stream lie whitespace and
/// comments only.
proof fn lemma_final_gaps(t: TokenizedText, s: Seq<u8>)
    requires
        gaps_fit(t.token_shapes(), s),
    ensures
        forall|j: int|
            0 < j < t.tokens@.len() ==> skips_to(s, t.token_end(s, j - 1), #[trigger] t.token_start(j)),
{
    reveal(gaps_fit);
    let ts = t.token_shapes();
    assert forall|j: int| 0 < j < t.tokens@.len() implies skips_to(s, t.token_end(s, j - 1), #[trigger] t.token_start(j)) by {
        assert(ts[j].1 == t.token_start(j));
        assert(ts[j - 1].1 == t.token_start(j - 1));
        assert(shape_end(ts, s, j - 1) == t.token_end(s, j - 1));
    }
}

/// The tokens before `FileEnd` do not overlap, nor run past the end.
proof fn lemma_final_extents(b: TokenizedText, t: TokenizedText, s: Seq<u8>, token: Token)
    requires
        extents_fit(b.token_shapes(), s, s.len() as int),
        t.tokens@ == b.tokens@.push(token),
        token@.start == s.len(),
    ensures
        forall|i: int|
            0 < i < t.tokens@.len() - 1 ==> #[trigger] t.token_start(i) + token_len_at(
                s,
                t.token_start(i),
            ) <= t.token_start(i + 1),
{
    reveal(extents_fit);
    let bs = b.token_shapes();
    let n = b.tokens@.len() as int;
    assert forall|i: int| 0 < i < t.tokens@.len() - 1 implies #[trigger] t.token_start(i)
        + token_len_at(s, t.token_start(i)) <= t.token_start(i + 1) by {
        assert(t.tokens@[i] == b.tokens@[i]);
        assert(bs[i].1 == b.token_start(i));
        if i + 1 < n {
            assert(t.tokens@[i + 1] == b.tokens@[i + 1]);
            assert(bs[i + 1].1 == b.token_start(i + 1));
        }
    }
}

/// The kinds of the tokens before `FileEnd` fit the input.
proof fn lemma_final_kinds(b: TokenizedText, t: TokenizedText, s: Seq<u8>, token: Token)
    requires
        kinds_fit(b.token_shapes(), s),
        t.tokens@ == b.tokens@.push(token),
    ensures
        t.kinds_follow(s),
{
    reveal(kinds_fit);
    let bs = b.token_shapes();
    assert forall|i: int| 0 < i < t.tokens@.len() - 1 implies #[trigger] t.token_kind(i)
        == token_kind_at(s, t.token_start(i)) && skip_step(s, t.token_start(i)) == t.token_start(
        i,
    ) by {
        assert(t.tokens@[i] == b.tokens@[i]);
        assert(bs[i].0 == token_kind_at(s, bs[i].1));
    }
}

/// At the end of input, the mismatch flag is raised exactly when some
/// delimiter has no partner, and every such delimiter holds payload 0.
proof fn lemma_final_settled(
    bt: Seq<Token>,
    mismatched: bool,
    st: Seq<TokenIndex>,
    t: TokenizedText,
    token: Token,
)
    requires
        settled_ok(bt, mismatched, st),
        pairs_ok(bt, mismatched, st),
        stack_ok(bt, st),
        bt.len() >= 1,
        bt[0]@.kind == TokenKind::FileStart,
        t.tokens@ == bt.push(token),
        !spec_is_open_delimiter(token@.kind),
        !spec_is_close_delimiter(token@.kind),
        t.has_mismatched_brackets == (mismatched || st.len() > 0),
    ensures
        t.unpaired_keep_zero(),
        t.has_mismatched_brackets ==> !t.brackets_paired(),
{
    let n = bt.len() as int;
    let tk = t.tokens@;
    assert forall|i: int| 0 <= i < n implies #[trigger] tk[i] == bt[i] by {}
    assert forall|i: int|
        0 <= i < tk.len() && spec_is_open_delimiter(#[trigger] t.token_kind(i)) implies t.paired(
        i,
        t.token_payload(i),
    ) || t.token_payload(i) == 0 by {
        assert(tk[i] == bt[i]);
        if in_stack(st, i) {
            let x = choose|x: int| 0 <= x < st.len() && st[x].index() == i;
        } else if paired_in(bt, i, bt[i]@.payload as int) {
            assert(t.paired(i, t.token_payload(i)));
        }
    }
    assert forall|i: int|
        0 <= i < tk.len() && spec_is_close_delimiter(#[trigger] t.token_kind(i)) implies t.paired(
        t.token_payload(i),
        i,
    ) || t.token_payload(i) == 0 by {
        assert(tk[i] == bt[i]);
        if paired_in(bt, bt[i]@.payload as int, i) {
            assert(t.paired(t.token_payload(i), i));
        }
    }
    if t.has_mismatched_brackets {
        let w = if mismatched {
            choose|i: int|
                0 <= i < bt.len() && (spec_is_open_delimiter(#[trigger] bt[i]@.kind)
                    || spec_is_close_delimiter(bt[i]@.kind)) && !in_stack(st, i) && bt[i]@.payload
                    == 0
        } else {
            st[st.len() - 1].index() as int
        };
        assert(tk[w] == bt[w]);
        assert(tk[0] == bt[0]);
        if spec_is_open_delimiter(t.token_kind(w)) {
            assert(!t.paired(w, t.token_payload(w)));
        } else {
            assert(!t.paired(t.token_payload(w), w));
        }
    }
}

/// With no open delimiter left and no mismatch, appending a token that is
/// no delimiter leaves every delimiter paired.
proof fn lemma_final_pairs(b: TokenizedText, t: TokenizedText, st: Seq<TokenIndex>, token: Token)
    requires
        pairs_ok(b.tokens@, false, st),
        st.len() == 0,
        t.tokens@ == b.tokens@.push(token),
        !spec_is_open_delimiter(token@.kind),
        !spec_is_close_delimiter(token@.kind),
    ensures
        t.brackets_paired(),
{
    let n = b.tokens@.len() as int;
    assert forall|i: int|
        0 <= i < t.tokens@.len() && spec_is_open_delimiter(#[trigger] t.token_kind(i)) implies t.paired(
        i,
        t.token_payload(i),
    ) by {
        assert(t.tokens@[i] == b.tokens@[i]);
        assert(!in_stack(st, i));
        let p = b.tokens@[i]@.payload as int;
        assert(paired_in(b.tokens@, i, p));
        assert(t.tokens@[p] == b.tokens@[p]);
    }
    assert forall|i: int|
        0 <= i < t.tokens@.len() && spec_is_close_delimiter(#[trigger] t.token_kind(i)) implies t.paired(
        t.token_payload(i),
        i,
    ) by {
        assert(t.tokens@[i] == b.tokens@[i]);
        let p = b.tokens@[i]@.payload as int;
        assert(paired_in(b.tokens@, p, i));
        assert(t.tokens@[p] == b.tokens@[p]);
    }
}

proof fn lemma_tokens_last(t: TokenizedText, bound: int)
    requires
        tokens_so_far(t.token_shapes(), bound),
    ensures
        t.tokens@.len() >= 1,
        t.tokens@.len() == 1 || t.token_start(t.tokens@.len() - 1) < bound,
        t.token_kind(0) == TokenKind::FileStart,
{
    reveal(tokens_so_far);
    assert(t.token_shapes()[0].0 == t.token_kind(0));
    let n = t.tokens@.len() as int;
    if n > 1 {
        assert(t.token_shapes()[n - 1].1 == t.token_start(n - 1));
    }
}

proof fn lemma_structure_parts(t: TokenizedText, s: Seq<u8>, st: Seq<TokenIndex>)
    requires
        structure_ok(t, s, st),
    ensures
        t.wf(),
        line_table(t.line_starts(), t.last_line_is_inserted, s),
        stack_ok(t.tokens@, st),
        t.line_start(t.lines@.len() - 1) == s.len(),
{
    reveal(structure_core);
    reveal(line_table);
    let L = t.line_starts();
    assert forall|j: int, k: int| 0 <= j < k < t.lines@.len() implies t.line_start(j) < t.line_start(k) by {
        assert(L[j] < L[k]);
    }
    assert(L[0] == t.line_start(0));
    assert(L[L.len() - 1] == t.line_start(t.lines@.len() - 1));
}

/// Changing what the structure does not read keeps it.
proof fn lemma_structure_frame(b: TokenizedText, t: TokenizedText, s: Seq<u8>, st: Seq<TokenIndex>)
    requires
        structure_ok(b, s, st),
        t.tokens == b.tokens,
        t.lines@.len() == b.lines@.len(),
        t.lines.wf(),
        t.line_starts() == b.line_starts(),
        t.comments.wf(),
        t.last_line_is_inserted == b.last_line_is_inserted,
        t.has_mismatched_brackets == b.has_mismatched_brackets,
    ensures
        structure_ok(t, s, st),
{
}

/// Recording a mismatch, after popping the innermost open delimiter or not,
/// keeps the structure.
proof fn lemma_structure_mismatch(
    b: TokenizedText,
    t: TokenizedText,
    s: Seq<u8>,
    st: Seq<TokenIndex>,
    st2: Seq<TokenIndex>,
)
    requires
        structure_ok(b, s, st),
        t.tokens == b.tokens,
        t.lines == b.lines,
        t.comments == b.comments,
        t.last_line_is_inserted == b.last_line_is_inserted,
        t.has_mismatched_brackets,
        st.len() > 0,
        st2 == st.drop_last(),
    ensures
        structure_ok(t, s, st2),
{
    reveal(structure_core);
    let tk = t.tokens@;
    let last = st.len() - 1;
    let o = st[last].index() as int;
    assert forall|x: int| 0 <= x < st2.len() implies #[trigger] st2[x] == st[x] by {}
    assert forall|x: int| 0 <= x < st2.len() implies #[trigger] st2[x].index() != o by {
        assert(st[x].index() < st[last].index());
    }
    assert forall|i: int| #[trigger] in_stack(st2, i) implies in_stack(st, i) by {
        let x = choose|x: int| 0 <= x < st2.len() && st2[x].index() == i;
        assert(st2[x] == st[x]);
    }
    assert forall|i: int| in_stack(st, i) && i != o implies #[trigger] in_stack(st2, i) by {
        let x = choose|x: int| 0 <= x < st.len() && st[x].index() == i;
        assert(x != last);
        assert(st2[x] == st[x]);
    }
    assert(!in_stack(st2, o));
    assert(spec_is_open_delimiter(tk[o]@.kind) && tk[o]@.payload == 0);
    assert forall|i: int|
        0 <= i < tk.len() && spec_is_open_delimiter(#[trigger] tk[i]@.kind) implies in_stack(st2, i)
            || paired_in(tk, i, tk[i]@.payload as int) || tk[i]@.payload == 0 by {
        if i != o && in_stack(st, i) {
            assert(in_stack(st2, i));
        }
    }
}

/// Appending a token that is no open delimiter, and no close delimiter
/// unless a mismatch is recorded, keeps the structure.
proof fn lemma_append_keeps(b: TokenizedText, t: TokenizedText, s: Seq<u8>, st: Seq<TokenIndex>, token: Token)
    requires
        structure_ok(b, s, st),
        t.tokens.wf(),
        t.tokens@ == b.tokens@.push(token),
        t.lines == b.lines,
        t.comments == b.comments,
        t.last_line_is_inserted == b.last_line_is_inserted,
        t.has_mismatched_brackets == (b.has_mismatched_brackets || spec_is_close_delimiter(
            token@.kind,
        )),
        !spec_is_open_delimiter(token@.kind),
        !spec_is_close_delimiter(token@.kind) || b.has_mismatched_brackets || st.len() == 0,
        spec_is_close_delimiter(token@.kind) ==> token@.payload == 0,
        b.tokens@.len() >= 1,
        b.token_kind(0) == TokenKind::FileStart,
    ensures
        structure_ok(t, s, st),
{
    reveal(structure_core);
    let n = b.tokens@.len() as int;
    let bt = b.tokens@;
    let tk = t.tokens@;
    assert forall|i: int| 0 <= i < n implies #[trigger] tk[i] == bt[i] by {}
    assert forall|o: int, c: int| 0 <= o < c < n && paired_in(bt, o, c) implies #[trigger] paired_in(tk, o, c) by {}
    assert forall|i: int|
        0 <= i < tk.len() && spec_is_open_delimiter(#[trigger] tk[i]@.kind) implies in_stack(st, i)
            || paired_in(tk, i, tk[i]@.payload as int) || tk[i]@.payload == 0 by {
        assert(tk[i] == bt[i]);
        if paired_in(bt, i, bt[i]@.payload as int) {
            assert(paired_in(tk, i, tk[i]@.payload as int));
        }
    }
    assert forall|i: int|
        0 <= i < tk.len() && spec_is_close_delimiter(#[trigger] tk[i]@.kind) implies paired_in(
            tk,
            tk[i]@.payload as int,
            i,
        ) || tk[i]@.payload == 0 by {
        if i < n {
            assert(tk[i] == bt[i]);
            if paired_in(bt, bt[i]@.payload as int, i) {
                assert(paired_in(tk, tk[i]@.payload as int, i));
            }
        }
    }
    if t.has_mismatched_brackets {
        if spec_is_close_delimiter(token@.kind) {
            assert(tk[n] == token);
            assert(!in_stack(st, n));
        } else {
            let w = choose|i: int|
                0 <= i < bt.len() && (spec_is_open_delimiter(#[trigger] bt[i]@.kind)
                    || spec_is_close_delimiter(bt[i]@.kind)) && !in_stack(st, i) && bt[i]@.payload
                    == 0;
            assert(tk[w] == bt[w]);
        }
    }
    if !t.has_mismatched_brackets {
        assert forall|i: int|
            0 <= i < tk.len() && spec_is_open_delimiter(#[trigger] tk[i]@.kind) implies in_stack(st, i)
                || paired_in(tk, i, tk[i]@.payload as int) by {
            assert(tk[i] == bt[i]);
            if !in_stack(st, i) {
                assert(paired_in(bt, i, bt[i]@.payload as int));
            }
        }
        assert forall|i: int|
            0 <= i < tk.len() && spec_is_close_delimiter(#[trigger] tk[i]@.kind) implies paired_in(
                tk,
                tk[i]@.payload as int,
                i,
            ) by {
            assert(tk[i] == bt[i]);
            assert(paired_in(bt, bt[i]@.payload as int, i));
        }
    }
}

/// Appending an open delimiter with payload 0 and stacking it keeps the
/// structure.
proof fn lemma_append_open(
    b: TokenizedText,
    t: TokenizedText,
    s: Seq<u8>,
    st: Seq<TokenIndex>,
    token: Token,
    index: TokenIndex,
)
    requires
        structure_ok(b, s, st),
        b.tokens@.len() >= 1,
        t.tokens.wf(),
        t.tokens@ == b.tokens@.push(token),
        t.lines == b.lines,
        t.comments == b.comments,
        t.last_line_is_inserted == b.last_line_is_inserted,
        t.has_mismatched_brackets == b.has_mismatched_brackets,
        spec_is_open_delimiter(token@.kind),
        token@.payload == 0,
        index.index() == b.tokens@.len(),
    ensures
        structure_ok(t, s, st.push(index)),
{
    reveal(structure_core);
    let n = b.tokens@.len() as int;
    let st2 = st.push(index);
    assert forall|i: int| 0 <= i < n implies #[trigger] t.tokens@[i] == b.tokens@[i] by {}
    assert forall|o: int, c: int| 0 <= o < c < n && b.paired(o, c) implies #[trigger] t.paired(o, c) by {}
    assert forall|i: int| in_stack(st, i) implies #[trigger] in_stack(st2, i) by {
        let x = choose|x: int| 0 <= x < st.len() && st[x].index() == i;
        assert(st2[x] == st[x]);
    }
    assert(st2[st.len() as int] == index);
    assert(in_stack(st2, n));
    let bt = b.tokens@;
    let tk = t.tokens@;
    assert forall|i: int|
        0 <= i < tk.len() && spec_is_open_delimiter(#[trigger] tk[i]@.kind) implies in_stack(st2, i)
            || paired_in(tk, i, tk[i]@.payload as int) || tk[i]@.payload == 0 by {
        if i < n {
            assert(tk[i] == bt[i]);
            if in_stack(st, i) {
                assert(in_stack(st2, i));
            } else if paired_in(bt, i, bt[i]@.payload as int) {
                assert(paired_in(tk, i, tk[i]@.payload as int));
            }
        }
    }
    assert forall|i: int|
        0 <= i < tk.len() && spec_is_close_delimiter(#[trigger] tk[i]@.kind) implies paired_in(
            tk,
            tk[i]@.payload as int,
            i,
        ) || tk[i]@.payload == 0 by {
        assert(tk[i] == bt[i]);
        if paired_in(bt, bt[i]@.payload as int, i) {
            assert(paired_in(tk, tk[i]@.payload as int, i));
        }
    }
    if t.has_mismatched_brackets {
        let w = choose|i: int|
            0 <= i < bt.len() && (spec_is_open_delimiter(#[trigger] bt[i]@.kind)
                || spec_is_close_delimiter(bt[i]@.kind)) && !in_stack(st, i) && bt[i]@.payload == 0;
        assert(tk[w] == bt[w]);
        if in_stack(st2, w) {
            let x = choose|x: int| 0 <= x < st2.len() && st2[x].index() == w;
            if x < st.len() {
                assert(st2[x] == st[x]);
            }
        }
    }
}

/// Pairing a new close delimiter with the innermost open one keeps the
/// structure.
proof fn lemma_paired_close(b: TokenizedText, t: TokenizedText, s: Seq<u8>, st: Seq<TokenIndex>, o: int)
    requires
        structure_ok(b, s, st),
        st.len() > 0,
        o == st.last().index(),
        t.tokens.wf(),
        t.tokens@.len() == b.tokens@.len() + 1,
        forall|i: int| 0 <= i < b.tokens@.len() && i != o ==> t.tokens@[i] == b.tokens@[i],
        t.tokens@[o]@ == (crate::lex::token::TokenView {
            payload: b.tokens@.len() as u32,
            ..b.tokens@[o]@
        }),
        spec_is_close_delimiter(t.token_kind(b.tokens@.len() as int)),
        spec_is_matching_delimiter(b.token_kind(o), t.token_kind(b.tokens@.len() as int)),
        t.token_payload(b.tokens@.len() as int) == o,
        t.lines == b.lines,
        t.comments == b.comments,
        t.last_line_is_inserted == b.last_line_is_inserted,
        t.has_mismatched_brackets == b.has_mismatched_brackets,
    ensures
        structure_ok(t, s, st.drop_last()),
{
    reveal(structure_core);
    let n = b.tokens@.len() as int;
    let last = st.len() - 1;
    let st2 = st.drop_last();
    assert(st[last].index() == o);
    assert(t.line_starts() =~= b.line_starts());
    assert forall|x: int| 0 <= x < st2.len() implies #[trigger] st2[x].index() != o by {
        assert(st2[x] == st[x]);
    }
    assert forall|x: int| 0 <= x < st2.len() implies #[trigger] st2[x] == st[x] by {}
    assert forall|i: int| #[trigger] in_stack(st2, i) implies in_stack(st, i) && i != o by {
        {
            let x = choose|x: int| 0 <= x < st2.len() && st2[x].index() == i;
            assert(st2[x] == st[x]);
        }
    }
    assert forall|i: int| in_stack(st, i) && i != o implies #[trigger] in_stack(st2, i) by {
        let x = choose|x: int| 0 <= x < st.len() && st[x].index() == i;
        assert(x != last);
        assert(st2[x] == st[x]);
    }
    assert(t.paired(o, n));
    if !t.has_mismatched_brackets {
        assert forall|i: int|
            0 <= i < t.tokens@.len() && spec_is_open_delimiter(#[trigger] t.token_kind(i))
                implies in_stack(st2, i) || t.paired(i, t.token_payload(i)) by {
            if i != o && i < n {
                if !in_stack(st, i) {
                    let p = b.token_payload(i);
                    assert(b.paired(i, p));
                    assert(p != o);
                    assert(t.paired(i, p));
                }
            }
        }
        assert forall|i: int|
            0 <= i < t.tokens@.len() && spec_is_close_delimiter(#[trigger] t.token_kind(i))
                implies t.paired(t.token_payload(i), i) by {
            if i < n {
                let p = b.token_payload(i);
                assert(b.paired(p, i));
                if p == o {
                    assert(b.token_payload(o) == 0);
                }
                assert(t.paired(p, i));
            }
        }
    }
}

proof fn lemma_string_end_bounds(s: Seq<u8>, i: int)
    requires
        0 <= i <= s.len(),
    ensures
        i <= string_end(s, i).0 <= s.len(),
        string_end(s, i).1 ==> string_end(s, i).0 > i,
    decreases s.len() - i,
{
    if i < s.len() {
        if s[i] == crate::lex::ascii::BACKSLASH {
            lemma_string_end_bounds(s, if i + 2 <= s.len() { i + 2 } else { s.len() as int });
        } else if s[i] != QUOTE && s[i] != NEWLINE {
            lemma_string_end_bounds(s, i + 1);
        }
    }
}

proof fn lemma_verbatim_end_bounds(s: Seq<u8>, quote: u8, i: int)
    requires
        0 <= i <= s.len(),
    ensures
        i <= verbatim_end(s, quote, i).0 <= s.len(),
        verbatim_end(s, quote, i).1 ==> verbatim_end(s, quote, i).0 > i,
    decreases s.len() - i,
{
    if i < s.len() {
        if s[i] == quote {
            if i + 1 < s.len() && s[i + 1] == quote {
                lemma_verbatim_end_bounds(s, quote, i + 2);
            }
        } else {
            lemma_verbatim_end_bounds(s, quote, i + 1);
        }
    }
}

/// The keyword `text` spells, or `Identifier`.
pub fn match_keyword(text: &[u8]) -> (r: TokenKind)
    ensures
        r == keyword_kind(text@),
{
    reveal(keyword_kind);
    if bytes_equal(text, "and") {
        TokenKind::And
    } else if bytes_equal(text, "or") {
        TokenKind::Or
    } else if bytes_equal(text, "xor") {
        TokenKind::Xor
    } else if bytes_equal(text, "not") {
        TokenKind::Not
    } else if bytes_equal(text, "mod") {
        TokenKind::Modulo
    } else if bytes_equal(text, "div") {
        TokenKind::IntegerDivide
    } else if bytes_equal(text, "begin") {
        TokenKind::LeftBrace
    } else if bytes_equal(text, "end") {
        TokenKind::RightBrace
    } else if bytes_equal(text, "true") || bytes_equal(text, "false") {
        TokenKind::BooleanLiteral
    } else if bytes_equal(text, "break") {
        TokenKind::Break
    } else if bytes_equal(text, "exit") {
        TokenKind::Exit
    } else if bytes_equal(text, "do") {
        TokenKind::Do
    } else if bytes_equal(text, "until") {
        TokenKind::Until
    } else if bytes_equal(text, "case") {
        TokenKind::Case
    } else if bytes_equal(text, "else") {
        TokenKind::Else
    } else if bytes_equal(text, "new") {
        TokenKind::New
    } else if bytes_equal(text, "var") {
        TokenKind::Var
    } else if bytes_equal(text, "globalvar") {
        TokenKind::GlobalVar
    } else if bytes_equal(text, "try") {
        TokenKind::Try
    } else if bytes_equal(text, "catch") {
        TokenKind::Catch
    } else if bytes_equal(text, "finally") {
        TokenKind::Finally
    } else if bytes_equal(text, "return") {
        TokenKind::Return
    } else if bytes_equal(text, "continue") {
        TokenKind::Continue
    } else if bytes_equal(text, "for") {
        TokenKind::For
    } else if bytes_equal(text, "switch") {
        TokenKind::Switch
    } else if bytes_equal(text, "while") {
        TokenKind::While
    } else if bytes_equal(text, "repeat") {
        TokenKind::Repeat
    } else if bytes_equal(text, "function") {
        TokenKind::Function
    } else if bytes_equal(text, "with") {
        TokenKind::With
    } else if bytes_equal(text, "default") {
        TokenKind::Default
    } else if bytes_equal(text, "if") {
        TokenKind::If
    } else if bytes_equal(text, "then") {
        TokenKind::Then
    } else if bytes_equal(text, "throw") {
        TokenKind::Throw
    } else if bytes_equal(text, "delete") {
        TokenKind::Delete
    } else if bytes_equal(text, "enum") {
        TokenKind::Enum
    } else if bytes_equal(text, "constructor") {
        TokenKind::Constructor
    } else if bytes_equal(text, "static") {
        TokenKind::Static
    } else {
        TokenKind::Identifier
    }
}

} // verus!
