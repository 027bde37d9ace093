use crate::chunked_index_vec::ChunkedIndexVec;
use crate::lex::token::{Token, TokenIndex, TokenKind};
use crate::source_text::TextSize;
use crate::typed_index::TypedIndex;
use vstd::prelude::*;

verus! {

broadcast use ChunkedIndexVec::lemma_len_bound;

/// What a lexer diagnostic reports.
#[derive(Debug, Clone, Copy, PartialEq, Eq, Structural)]
pub enum DiagnosticKind {
    UnrecognizedCharacters,
    RawCarriageReturn,
    LineFeedCarriageReturn,
}

/// A diagnostic and the offset it was raised at.
#[derive(Debug, Clone, Copy, PartialEq, Eq, Structural)]
pub struct Diagnostic {
    pub kind: DiagnosticKind,
    pub position: TextSize,
}

impl Diagnostic {
    /// The message for this diagnostic.
    pub fn message(&self) -> (r: &'static str)
        ensures
            self.kind == DiagnosticKind::UnrecognizedCharacters ==> r@
                == "unrecognized characters while parsing"@,
            self.kind == DiagnosticKind::RawCarriageReturn ==> r@
                == "a raw CR line ending is not supported, only LF and CR+LF are supported"@,
            self.kind == DiagnosticKind::LineFeedCarriageReturn ==> r@
                == "the LF+CR line ending is not supported, only LF and CR+LF are supported"@,
    {
        match self.kind {
            DiagnosticKind::UnrecognizedCharacters => "unrecognized characters while parsing",
            DiagnosticKind::RawCarriageReturn => "a raw CR line ending is not supported, only LF and CR+LF are supported",
            DiagnosticKind::LineFeedCarriageReturn => "the LF+CR line ending is not supported, only LF and CR+LF are supported",
        }
    }
}

/// A comment: the byte range `[start, end)`.
pub struct Comment {
    start: TextSize,
    end: TextSize,
}

/// The abstract content of a comment.
pub struct CommentView {
    pub start: TextSize,
    pub end: TextSize,
}

impl View for Comment {
    type V = CommentView;

    closed spec fn view(&self) -> CommentView {
        CommentView { start: self.start, end: self.end }
    }
}

impl Comment {
    pub fn new(start: TextSize, end: TextSize) -> (r: Self)
        ensures
            r@ == (CommentView { start, end }),
    {
        Comment { start, end }
    }

    pub fn start(&self) -> (r: TextSize)
        ensures
            r == self@.start,
    {
        self.start
    }

    pub fn end(&self) -> (r: TextSize)
        ensures
            r == self@.end,
    {
        self.end
    }
}

/// Where a comment stands relative to the code around it.
pub enum CommentKind {
    OwnLine,
    EndOfLine,
    Remaining,
}

/// A line: its starting offset and the width of its leading horizontal
/// whitespace.
pub struct Line {
    start: TextSize,
    indent: u32,
}

/// The abstract content of a line.
pub struct LineView {
    pub start: TextSize,
    pub indent: u32,
}

impl View for Line {
    type V = LineView;

    closed spec fn view(&self) -> LineView {
        LineView { start: self.start, indent: self.indent }
    }
}

impl Line {
    pub fn new(start: TextSize) -> (r: Self)
        ensures
            r@ == (LineView { start, indent: 0 }),
    {
        Line { start, indent: 0 }
    }

    pub fn start(&self) -> (r: TextSize)
        ensures
            r == self@.start,
    {
        self.start
    }

    pub fn indent(&self) -> (r: u32)
        ensures
            r == self@.indent,
    {
        self.indent
    }

    pub fn set_indent(&mut self, indent: u32)
        ensures
            final(self)@ == (LineView { indent, ..old(self)@ }),
    {
        self.indent = indent;
    }
}

/// Handle of a comment.
#[derive(Clone, Copy, PartialEq, Eq, Structural, Debug, Hash)]
pub struct CommentIndex {
    raw: u32,
}

impl TypedIndex for CommentIndex {
    closed spec fn index(&self) -> nat {
        self.raw as nat
    }

    fn from_index(i: usize) -> (r: Self) {
        CommentIndex { raw: i as u32 }
    }

    fn to_index(&self) -> (r: usize) {
        self.raw as usize
    }
}

/// Handle of a line.
#[derive(Clone, Copy, PartialEq, Eq, Structural, Debug, Hash)]
pub struct LineIndex {
    raw: u32,
}

impl LineIndex {
    pub fn new(raw: u32) -> (r: Self)
        ensures
            r.index() == raw,
    {
        LineIndex { raw }
    }

    pub fn value(&self) -> (r: u32)
        ensures
            r == self.index(),
    {
        self.raw
    }
}

impl TypedIndex for LineIndex {
    closed spec fn index(&self) -> nat {
        self.raw as nat
    }

    fn from_index(i: usize) -> (r: Self) {
        LineIndex { raw: i as u32 }
    }

    fn to_index(&self) -> (r: usize) {
        self.raw as usize
    }
}

/// The output of the lexer: the token stream, the comments, the line table
/// and the diagnostics.
pub struct TokenizedText {
    pub tokens: ChunkedIndexVec<Token, TokenIndex>,
    pub comments: ChunkedIndexVec<Comment, CommentIndex>,
    pub lines: ChunkedIndexVec<Line, LineIndex>,
    pub diagnostics: Vec<Diagnostic>,
    pub last_line_is_inserted: bool,
    pub has_mismatched_brackets: bool,
}

impl TokenizedText {
    /// The start of line `k`.
    pub open spec fn line_start(&self, k: int) -> int {
        self.lines@[k]@.start as int
    }

    /// The start of token `i`.
    pub open spec fn token_start(&self, i: int) -> int {
        self.tokens@[i]@.start as int
    }

    /// The kind of token `i`.
    pub open spec fn token_kind(&self, i: int) -> TokenKind {
        self.tokens@[i]@.kind
    }

    /// The arenas are well formed, and the line table starts at 0 and
    /// increases strictly.
    pub open spec fn wf(&self) -> bool {
        &&& self.tokens.wf()
        &&& self.comments.wf()
        &&& self.lines.wf()
        &&& self.lines@.len() >= 1
        &&& self.line_start(0) == 0
        &&& forall|j: int, k: int|
            0 <= j < k < self.lines@.len() ==> self.line_start(j) < self.line_start(k)
    }

    /// Token starts never decrease along the stream.
    pub open spec fn starts_sorted(&self) -> bool {
        forall|i: int, j: int|
            0 <= i <= j < self.tokens@.len() ==> self.token_start(i) <= self.token_start(j)
    }

    /// The number of lines tokens are placed on: the inserted sentinel line
    /// at the end of input holds none.
    pub open spec fn placed_line_count(&self) -> int {
        if self.last_line_is_inserted && self.lines@.len() > 1 {
            self.lines@.len() - 1
        } else {
            self.lines@.len() as int
        }
    }

    /// Line `k` is the line whose range holds offset `pos`.
    pub open spec fn line_contains(&self, k: int, pos: int) -> bool {
        &&& 0 <= k < self.placed_line_count()
        &&& self.line_start(k) <= pos
        &&& k + 1 < self.placed_line_count() ==> pos < self.line_start(k + 1)
    }

    /// The line that holds offset `pos`.
    pub open spec fn line_of(&self, pos: int) -> int {
        choose|k: int| self.line_contains(k, pos)
    }

    pub fn new() -> (r: TokenizedText)
        ensures
            r.tokens.wf() && r.comments.wf() && r.lines.wf(),
            r.tokens@.len() == 0,
            r.comments@.len() == 0,
            r.lines@.len() == 0,
            r.diagnostics@.len() == 0,
            !r.last_line_is_inserted,
            !r.has_mismatched_brackets,
    {
        TokenizedText {
            tokens: ChunkedIndexVec::new(),
            comments: ChunkedIndexVec::new(),
            lines: ChunkedIndexVec::new(),
            diagnostics: Vec::new(),
            last_line_is_inserted: false,
            has_mismatched_brackets: false,
        }
    }

    pub fn add_token(&mut self, token: Token) -> (r: TokenIndex)
        requires
            old(self).tokens.wf(),
            old(self).tokens@.len() < u32::MAX,
        ensures
            final(self).tokens.wf(),
            final(self).tokens@ == old(self).tokens@.push(token),
            r.index() == old(self).tokens@.len(),
            final(self).comments == old(self).comments,
            final(self).lines == old(self).lines,
            final(self).diagnostics == old(self).diagnostics,
            final(self).last_line_is_inserted == old(self).last_line_is_inserted,
            final(self).has_mismatched_brackets == old(self).has_mismatched_brackets,
    {
        self.tokens.push(token)
    }

    pub fn add_comment(&mut self, comment: Comment) -> (r: CommentIndex)
        requires
            old(self).comments.wf(),
            old(self).comments@.len() < u32::MAX,
        ensures
            final(self).comments.wf(),
            final(self).comments@ == old(self).comments@.push(comment),
            r.index() == old(self).comments@.len(),
            final(self).tokens == old(self).tokens,
            final(self).lines == old(self).lines,
            final(self).diagnostics == old(self).diagnostics,
            final(self).last_line_is_inserted == old(self).last_line_is_inserted,
            final(self).has_mismatched_brackets == old(self).has_mismatched_brackets,
    {
        self.comments.push(comment)
    }

    pub fn token_count(&self) -> (r: usize)
        ensures
            r == self.tokens@.len(),
    {
        self.tokens.len()
    }

    /// The index of the line that holds offset `position`. Offsets at the end
    /// of input belong to the last real line, not to an inserted sentinel.
    pub fn find_line_index(&self, position: TextSize) -> (r: LineIndex)
        requires
            self.wf(),
        ensures
            self.line_contains(r.index() as int, position as int),
    {
        let n = self.lines.len();
        let mut left: usize = 0;
        let mut right: usize = n;
        while left < right
            invariant
                self.wf(),
                n == self.lines@.len(),
                0 <= left <= right <= n,
                forall|j: int| 0 <= j < left ==> self.line_start(j) <= position,
                forall|j: int| right <= j < n ==> self.line_start(j) > position,
            decreases right - left,
        {
            let mid = left + (right - left) / 2;
            let mid_start = self.lines.get(LineIndex::from_index(mid)).start();
            assert(mid_start == self.line_start(mid as int));
            if mid_start <= position {
                assert forall|j: int| 0 <= j < mid + 1 implies self.line_start(j) <= position by {
                    if j < mid {
                        assert(self.line_start(j) < self.line_start(mid as int));
                    }
                }
                left = mid + 1;
            } else {
                assert forall|j: int| mid <= j < n implies self.line_start(j) > position by {
                    if j > mid {
                        assert(self.line_start(mid as int) < self.line_start(j));
                    }
                }
                right = mid;
            }
        }
        assert(left >= 1) by {
            if left == 0 {
                assert(self.line_start(0) > position);
            }
        }
        let mut index = left - 1;
        let is_last = index == n - 1;
        if is_last && index != 0 && self.last_line_is_inserted {
            index -= 1;
        }
        LineIndex::from_index(index)
    }

    /// The 1-based line number of `token`.
    pub fn get_line_number(&self, token: TokenIndex) -> (r: u32)
        requires
            self.wf(),
            token.index() < self.tokens@.len(),
        ensures
            r >= 1,
            self.line_contains(r - 1, self.token_start(token.index() as int)),
            r - 1 == self.line_of(self.token_start(token.index() as int)),
    {
        let start = self.tokens.get(token).start();
        let line = self.find_line_index(start);
        proof {
            let k = self.line_of(start as int);
            self.lemma_line_unique(k, line.index() as int, start as int);
        }
        line.value() + 1
    }

    /// The 1-based column of `token`: its byte distance from the start of
    /// its line, plus one.
    pub fn get_column_number(&self, token: TokenIndex) -> (r: u32)
        requires
            self.wf(),
            token.index() < self.tokens@.len(),
            self.token_start(token.index() as int) < u32::MAX,
        ensures
            r == self.token_start(token.index() as int) - self.line_start(
                self.line_of(self.token_start(token.index() as int)),
            ) + 1,
    {
        let start = self.tokens.get(token).start();
        let line = self.find_line_index(start);
        proof {
            let k = self.line_of(start as int);
            self.lemma_line_unique(k, line.index() as int, start as int);
        }
        let line_start = self.lines.get(line).start();
        start - line_start + 1
    }

    /// The line and column of `token`.
    pub fn get_loc(&self, token: TokenIndex) -> (r: (u32, u32))
        requires
            self.wf(),
            token.index() < self.tokens@.len(),
            self.token_start(token.index() as int) < u32::MAX,
        ensures
            r.0 >= 1,
            self.line_contains(r.0 - 1, self.token_start(token.index() as int)),
            r.1 == self.token_start(token.index() as int) - self.line_start(r.0 - 1) + 1,
    {
        let line = self.get_line_number(token);
        let column = self.get_column_number(token);
        (line, column)
    }

    /// At most one line holds a given offset.
    pub proof fn lemma_line_unique(&self, a: int, b: int, pos: int)
        requires
            self.wf(),
            self.line_contains(a, pos),
            self.line_contains(b, pos),
        ensures
            a == b,
    {
        if a < b {
            assert(self.line_start(a + 1) <= self.line_start(b));
        } else if b < a {
            assert(self.line_start(b + 1) <= self.line_start(a));
        }
    }

    /// Lines of offsets come in the order of the offsets.
    pub proof fn lemma_line_monotone(&self, a: int, b: int, p: int, q: int)
        requires
            self.wf(),
            self.line_contains(a, p),
            self.line_contains(b, q),
            p <= q,
        ensures
            a <= b,
    {
        if b < a {
            assert(self.line_start(b + 1) <= self.line_start(a));
        }
    }

    pub fn get_kind(&self, token: TokenIndex) -> (r: TokenKind)
        requires
            self.tokens.wf(),
            token.index() < self.tokens@.len(),
        ensures
            r == self.token_kind(token.index() as int),
    {
        self.tokens.get(token).kind()
    }

    pub fn get_start(&self, token: TokenIndex) -> (r: TextSize)
        requires
            self.tokens.wf(),
            token.index() < self.tokens@.len(),
        ensures
            r == self.token_start(token.index() as int),
    {
        self.tokens.get(token).start()
    }

    pub fn has_leading_whitespace(&self, token: TokenIndex) -> (r: bool)
        requires
            self.tokens.wf(),
            token.index() < self.tokens@.len(),
        ensures
            r == self.tokens@[token.index() as int]@.has_leading_space,
    {
        self.tokens.get(token).has_leading_space()
    }

    /// Whether whitespace follows `token`, that is, precedes the next token.
    pub fn has_trailing_whitespace(&self, token: TokenIndex) -> (r: bool)
        requires
            self.tokens.wf(),
            token.index() + 1 < self.tokens@.len(),
        ensures
            r == self.tokens@[(token.index() + 1) as int]@.has_leading_space,
    {
        let next = TokenIndex::from_index(token.to_index() + 1);
        self.tokens.get(next).has_leading_space()
    }

    /// The number of line breaks between the previous token and `token`,
    /// or 0 when no whitespace precedes it.
    pub fn get_leading_line_breaks(&self, token: TokenIndex) -> (r: u32)
        requires
            self.wf(),
            self.starts_sorted(),
            1 <= token.index() < self.tokens@.len(),
        ensures
            !self.tokens@[token.index() as int]@.has_leading_space ==> r == 0,
            self.tokens@[token.index() as int]@.has_leading_space ==> r == self.line_of(
                self.token_start(token.index() as int),
            ) - self.line_of(self.token_start(token.index() - 1)),
    {
        if !self.has_leading_whitespace(token) {
            return 0;
        }
        let previous = TokenIndex::from_index(token.to_index() - 1);
        self.line_distance(previous, token)
    }

    /// The number of line breaks between `token` and the next token, or 0
    /// when no whitespace follows it.
    pub fn get_trailing_line_breaks(&self, token: TokenIndex) -> (r: u32)
        requires
            self.wf(),
            self.starts_sorted(),
            token.index() + 1 < self.tokens@.len(),
        ensures
            !self.tokens@[(token.index() + 1) as int]@.has_leading_space ==> r == 0,
            self.tokens@[(token.index() + 1) as int]@.has_leading_space ==> r == self.line_of(
                self.token_start(token.index() + 1 as int),
            ) - self.line_of(self.token_start(token.index() as int)),
    {
        if !self.has_trailing_whitespace(token) {
            return 0;
        }
        let next = TokenIndex::from_index(token.to_index() + 1);
        self.line_distance(token, next)
    }

    /// The line of `second` minus the line of `first`.
    fn line_distance(&self, first: TokenIndex, second: TokenIndex) -> (r: u32)
        requires
            self.wf(),
            self.starts_sorted(),
            first.index() <= second.index() < self.tokens@.len(),
        ensures
            r == self.line_of(self.token_start(second.index() as int)) - self.line_of(
                self.token_start(first.index() as int),
            ),
    {
        let a = self.get_line_number(first);
        let b = self.get_line_number(second);
        proof {
            self.lemma_line_monotone(
                a - 1,
                b - 1,
                self.token_start(first.index() as int),
                self.token_start(second.index() as int),
            );
        }
        b - a
    }
}

} // verus!
