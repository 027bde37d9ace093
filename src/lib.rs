//! Front end for a GameMaker-style scripting language: a byte-level lexer
//! producing a compact token stream, and an event-emitting parser driven by an
//! explicit work stack.
pub mod chunked_index_vec;
pub mod fnv;
pub mod lex;
pub mod parse;
pub mod source_text;
pub mod typed_index;
pub mod user_symbols;
