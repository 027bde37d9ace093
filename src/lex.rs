pub mod ascii;
pub mod identifier_lexer;
pub mod lexer;
pub mod number_lexer;
pub mod string_lexer;
pub mod token;
pub mod tokenized_text;

pub use identifier_lexer::{is_identifier_byte, is_identifier_start, scan_identifier};
pub use number_lexer::{is_digit, scan_number_or_dot};
pub use string_lexer::{scan_string_literal, scan_verbatim_string_literal};
pub use lexer::{
    lemma_lexed_parse_ready, lemma_lexed_starts_sorted, lemma_relex_same_layout, lex, match_keyword, Dispatch, LexError,
};
pub use token::{Token, TokenIndex, TokenKind};
pub use tokenized_text::{Comment, CommentIndex, CommentKind, Diagnostic, DiagnosticKind, Line, LineIndex, TokenizedText};
