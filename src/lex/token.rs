use crate::source_text::TextSize;
use crate::typed_index::TypedIndex;
use vstd::prelude::*;

verus! {

/// Mask of the 23 payload bits of a token.
pub const PAYLOAD_MASK: u32 = 0x7f_ffff;

/// Bit that records leading whitespace.
pub const LEADING_SPACE_BIT: u32 = 0x8000_0000;

/// The lexical category of a token.
#[derive(Debug, Clone, Copy, PartialEq, Eq, Structural)]
pub enum TokenKind {
    Error,
    FileStart,
    FileEnd,
    SingleLineComment,
    MultiLineComment,
    ListAccessor,
    MapAccessor,
    GridAccessor,
    ArrayAccessor,
    StructAccessor,
    LeftSquare,
    RightSquare,
    LeftParen,
    RightParen,
    LeftBrace,
    RightBrace,
    Semicolon,
    Comma,
    Colon,
    Dot,
    PlusPlus,
    MinusMinus,
    Plus,
    Minus,
    BitNot,
    BitNotAssign,
    Not,
    Multiply,
    Divide,
    IntegerDivide,
    Modulo,
    Power,
    QuestionMark,
    NullCoalesce,
    NullCoalesceAssign,
    RightShift,
    LeftShift,
    LessThan,
    GreaterThan,
    LessThanEquals,
    GreaterThanEquals,
    Equals,
    NotEquals,
    BitAnd,
    BitXor,
    BitOr,
    And,
    Or,
    Xor,
    MultiplyAssign,
    DivideAssign,
    PlusAssign,
    MinusAssign,
    ModuloAssign,
    LeftShiftAssign,
    RightShiftAssign,
    BitAndAssign,
    BitXorAssign,
    BitOrAssign,
    NumberSign,
    DollarSign,
    AtSign,
    Identifier,
    BooleanLiteral,
    IntegerLiteral,
    RealLiteral,
    StringLiteral,
    VerbatimStringLiteral,
    Break,
    Exit,
    Do,
    Case,
    Else,
    New,
    Var,
    GlobalVar,
    Catch,
    Finally,
    Return,
    Continue,
    For,
    Switch,
    While,
    Until,
    Repeat,
    Function,
    With,
    Default,
    If,
    Then,
    Throw,
    Delete,
    Try,
    Enum,
    Constructor,
    Static,
    Macro,
    MacroName,
    MacroBody,
    Define,
    Region,
    EndRegion,
    RegionName,
    UnknownDirective,
    Backslash,
    TemplateStart,
    TemplateMiddle,
    TemplateEnd,
    SimpleTemplateString,
    LineBreak,
    Whitespace,
}

impl TokenKind {
    pub open spec fn spec_is_comment(&self) -> bool {
        matches!(*self, TokenKind::SingleLineComment | TokenKind::MultiLineComment)
    }

    pub open spec fn spec_is_comment_or_whitespace(&self) -> bool {
        matches!(*self, TokenKind::SingleLineComment | TokenKind::MultiLineComment | TokenKind::Whitespace | TokenKind::LineBreak)
    }

    pub open spec fn spec_is_assign_operator(&self) -> bool {
        matches!(*self, TokenKind::Equals | TokenKind::MultiplyAssign | TokenKind::DivideAssign | TokenKind::PlusAssign | TokenKind::MinusAssign | TokenKind::ModuloAssign | TokenKind::LeftShiftAssign | TokenKind::RightShiftAssign | TokenKind::BitAndAssign | TokenKind::BitXorAssign | TokenKind::BitOrAssign | TokenKind::NullCoalesceAssign)
    }

    pub open spec fn spec_is_prefix_operator(&self) -> bool {
        matches!(*self, TokenKind::Plus | TokenKind::Minus | TokenKind::Not | TokenKind::BitNot | TokenKind::PlusPlus | TokenKind::MinusMinus | TokenKind::New)
    }

    pub open spec fn spec_is_postfix_operator(&self) -> bool {
        matches!(*self, TokenKind::PlusPlus | TokenKind::MinusMinus)
    }

    pub open spec fn spec_is_binary_operator(&self) -> bool {
        matches!(*self, TokenKind::Equals | TokenKind::Multiply | TokenKind::Divide | TokenKind::Plus | TokenKind::Minus | TokenKind::Modulo | TokenKind::LeftShift | TokenKind::RightShift | TokenKind::BitAnd | TokenKind::BitXor | TokenKind::BitOr | TokenKind::NullCoalesce)
    }

    pub open spec fn spec_is_literal(&self) -> bool {
        matches!(*self, TokenKind::BooleanLiteral | TokenKind::IntegerLiteral | TokenKind::RealLiteral | TokenKind::StringLiteral | TokenKind::VerbatimStringLiteral)
    }

    pub open spec fn spec_is_control_flow_keyword(&self) -> bool {
        matches!(*self, TokenKind::If | TokenKind::Then | TokenKind::Else | TokenKind::Repeat | TokenKind::Do | TokenKind::While | TokenKind::For | TokenKind::Switch | TokenKind::Case | TokenKind::Default | TokenKind::Catch | TokenKind::Break | TokenKind::Continue | TokenKind::Return | TokenKind::Throw | TokenKind::Try | TokenKind::With)
    }

    pub open spec fn spec_is_decl_keyword(&self) -> bool {
        matches!(*self, TokenKind::Var | TokenKind::Function | TokenKind::GlobalVar | TokenKind::Static | TokenKind::Enum)
    }

    #[verifier::when_used_as_spec(spec_is_comment)]
    pub fn is_comment(&self) -> (r: bool)
        ensures
            r == self.spec_is_comment(),
    {
        matches!(*self, TokenKind::SingleLineComment | TokenKind::MultiLineComment)
    }

    #[verifier::when_used_as_spec(spec_is_comment_or_whitespace)]
    pub fn is_comment_or_whitespace(&self) -> (r: bool)
        ensures
            r == self.spec_is_comment_or_whitespace(),
    {
        matches!(*self, TokenKind::SingleLineComment | TokenKind::MultiLineComment | TokenKind::Whitespace | TokenKind::LineBreak)
    }

    #[verifier::when_used_as_spec(spec_is_assign_operator)]
    pub fn is_assign_operator(&self) -> (r: bool)
        ensures
            r == self.spec_is_assign_operator(),
    {
        matches!(*self, TokenKind::Equals | TokenKind::MultiplyAssign | TokenKind::DivideAssign | TokenKind::PlusAssign | TokenKind::MinusAssign | TokenKind::ModuloAssign | TokenKind::LeftShiftAssign | TokenKind::RightShiftAssign | TokenKind::BitAndAssign | TokenKind::BitXorAssign | TokenKind::BitOrAssign | TokenKind::NullCoalesceAssign)
    }

    #[verifier::when_used_as_spec(spec_is_prefix_operator)]
    pub fn is_prefix_operator(&self) -> (r: bool)
        ensures
            r == self.spec_is_prefix_operator(),
    {
        matches!(*self, TokenKind::Plus | TokenKind::Minus | TokenKind::Not | TokenKind::BitNot | TokenKind::PlusPlus | TokenKind::MinusMinus | TokenKind::New)
    }

    #[verifier::when_used_as_spec(spec_is_postfix_operator)]
    pub fn is_postfix_operator(&self) -> (r: bool)
        ensures
            r == self.spec_is_postfix_operator(),
    {
        matches!(*self, TokenKind::PlusPlus | TokenKind::MinusMinus)
    }

    #[verifier::when_used_as_spec(spec_is_binary_operator)]
    pub fn is_binary_operator(&self) -> (r: bool)
        ensures
            r == self.spec_is_binary_operator(),
    {
        matches!(*self, TokenKind::Equals | TokenKind::Multiply | TokenKind::Divide | TokenKind::Plus | TokenKind::Minus | TokenKind::Modulo | TokenKind::LeftShift | TokenKind::RightShift | TokenKind::BitAnd | TokenKind::BitXor | TokenKind::BitOr | TokenKind::NullCoalesce)
    }

    #[verifier::when_used_as_spec(spec_is_literal)]
    pub fn is_literal(&self) -> (r: bool)
        ensures
            r == self.spec_is_literal(),
    {
        matches!(*self, TokenKind::BooleanLiteral | TokenKind::IntegerLiteral | TokenKind::RealLiteral | TokenKind::StringLiteral | TokenKind::VerbatimStringLiteral)
    }

    #[verifier::when_used_as_spec(spec_is_control_flow_keyword)]
    pub fn is_control_flow_keyword(&self) -> (r: bool)
        ensures
            r == self.spec_is_control_flow_keyword(),
    {
        matches!(*self, TokenKind::If | TokenKind::Then | TokenKind::Else | TokenKind::Repeat | TokenKind::Do | TokenKind::While | TokenKind::For | TokenKind::Switch | TokenKind::Case | TokenKind::Default | TokenKind::Catch | TokenKind::Break | TokenKind::Continue | TokenKind::Return | TokenKind::Throw | TokenKind::Try | TokenKind::With)
    }

    #[verifier::when_used_as_spec(spec_is_decl_keyword)]
    pub fn is_decl_keyword(&self) -> (r: bool)
        ensures
            r == self.spec_is_decl_keyword(),
    {
        matches!(*self, TokenKind::Var | TokenKind::Function | TokenKind::GlobalVar | TokenKind::Static | TokenKind::Enum)
    }
}

/// The abstract content of a token.
pub struct TokenView {
    pub kind: TokenKind,
    pub payload: u32,
    pub has_leading_space: bool,
    pub start: TextSize,
}

/// A lexical record: its kind, a 23-bit payload and the leading-space flag
/// packed together, and its starting offset.
#[derive(Clone, Copy, PartialEq, Eq, Debug)]
pub struct Token {
    kind: TokenKind,
    data: u32,  // [ payload:23 | unused:8 | has_space:1 ]
    start: TextSize,
}

impl View for Token {
    type V = TokenView;

    closed spec fn view(&self) -> TokenView {
        TokenView {
            kind: self.kind,
            payload: self.data & PAYLOAD_MASK,
            has_leading_space: (self.data >> 31u32) != 0,
            start: self.start,
        }
    }
}

impl Token {
    /// The largest number of tokens a stream may hold: every token index has
    /// to fit a payload.
    pub const MAX_INDEX: usize = 0x7f_ffff;

    pub fn new(kind: TokenKind, has_space: bool, payload: u32, start: TextSize) -> (r: Self)
        requires
            payload < PAYLOAD_MASK,
        ensures
            r@ == (TokenView { kind, payload, has_leading_space: has_space, start }),
    {
        let space_bit: u32 = if has_space { LEADING_SPACE_BIT } else { 0 };
        let data = (payload & PAYLOAD_MASK) | space_bit;
        proof {
            assert(payload < 0x7f_ffff ==> ((payload & 0x7f_ffff) | 0x8000_0000u32) & 0x7f_ffff
                == payload) by (bit_vector);
            assert(payload < 0x7f_ffff ==> ((payload & 0x7f_ffff) | 0u32) & 0x7f_ffff == payload)
                by (bit_vector);
            assert(((payload & 0x7f_ffff) | 0x8000_0000u32) >> 31u32 != 0) by (bit_vector);
            assert(payload < 0x7f_ffff ==> ((payload & 0x7f_ffff) | 0u32) >> 31u32 == 0)
                by (bit_vector);
        }
        Token { kind, data, start }
    }

    pub fn kind(&self) -> (r: TokenKind)
        ensures
            r == self@.kind,
    {
        self.kind
    }

    pub fn payload(&self) -> (r: u32)
        ensures
            r == self@.payload,
    {
        self.data & PAYLOAD_MASK
    }

    pub fn set_payload(&mut self, payload: u32)
        requires
            payload < PAYLOAD_MASK,
        ensures
            final(self)@ == (TokenView { payload, ..old(self)@ }),
    {
        let old_data = self.data;
        let data = (old_data & !PAYLOAD_MASK) | payload;
        proof {
            assert(payload < 0x7f_ffff ==> ((old_data & !0x7f_ffffu32) | payload) & 0x7f_ffff
                == payload) by (bit_vector);
            assert(payload < 0x7f_ffff ==> (((old_data & !0x7f_ffffu32) | payload) >> 31u32)
                == (old_data >> 31u32)) by (bit_vector);
        }
        self.data = data;
    }

    pub fn has_leading_space(&self) -> (r: bool)
        ensures
            r == self@.has_leading_space,
    {
        (self.data >> 31u32) != 0
    }

    pub fn start(&self) -> (r: TextSize)
        ensures
            r == self@.start,
    {
        self.start
    }
}

/// Handle of a token in a token stream.
#[derive(Clone, Copy, PartialEq, Eq, Structural, Debug, Hash)]
pub struct TokenIndex {
    raw: u32,
}

impl TokenIndex {
    /// The handle of position `i`.
    pub closed spec fn at(i: int) -> TokenIndex {
        TokenIndex { raw: i as u32 }
    }

    /// A position that fits 32 bits is the position of its handle.
    pub broadcast proof fn lemma_at_index(i: int)
        requires
            0 <= i <= u32::MAX,
        ensures
            (#[trigger] TokenIndex::at(i)).index() == i,
    {
    }

    /// A handle is the handle of its position.
    pub broadcast proof fn lemma_index_at(t: TokenIndex)
        ensures
            t == TokenIndex::at(#[trigger] t.index() as int),
    {
    }

    pub fn new(raw: u32) -> (r: Self)
        ensures
            r.index() == raw,
            r == TokenIndex::at(raw as int),
    {
        TokenIndex { raw }
    }

    pub fn value(&self) -> (r: u32)
        ensures
            r == self.index(),
    {
        self.raw
    }
}

impl TypedIndex for TokenIndex {
    closed spec fn index(&self) -> nat {
        self.raw as nat
    }

    fn from_index(i: usize) -> (r: Self) {
        TokenIndex { raw: i as u32 }
    }

    fn to_index(&self) -> (r: usize) {
        self.raw as usize
    }
}

} // verus!
