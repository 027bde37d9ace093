use crate::lex::token::TokenKind;
use crate::lex::ascii::{APOSTROPHE, AT, BACKSLASH, NEWLINE, QUOTE};
use vstd::prelude::*;

verus! {

/// Where a string literal whose body is scanned from `i` ends, and whether a
/// closing quote ended it. A backslash takes the next byte with it; an
/// unescaped newline or the end of input leaves the literal unterminated.
pub open spec fn string_end(s: Seq<u8>, i: int) -> (int, bool)
    decreases s.len() - i,
{
    if i < 0 || i >= s.len() {
        (s.len() as int, false)
    } else if s[i] == BACKSLASH {
        string_end(s, if i + 2 <= s.len() { i + 2 } else { s.len() as int })
    } else if s[i] == QUOTE {
        (i + 1, true)
    } else if s[i] == NEWLINE {
        (i, false)
    } else {
        string_end(s, i + 1)
    }
}

/// Where a verbatim string whose body is scanned from `i` and which is
/// closed by `quote` ends, and whether a closing quote ended it. A doubled
/// quote stands for itself.
pub open spec fn verbatim_end(s: Seq<u8>, quote: u8, i: int) -> (int, bool)
    decreases s.len() - i,
{
    if i < 0 || i >= s.len() {
        (s.len() as int, false)
    } else if s[i] == quote {
        if i + 1 < s.len() && s[i + 1] == quote {
            verbatim_end(s, quote, i + 2)
        } else {
            (i + 1, true)
        }
    } else {
        verbatim_end(s, quote, i + 1)
    }
}

/// Scans a `"`-quoted string literal at the start of `text`.
pub fn scan_string_literal(text: &[u8]) -> (r: (usize, TokenKind))
    requires
        text@.len() > 0,
        text@[0] == QUOTE,
    ensures
        r.0 == string_end(text@, 1).0,
        r.1 == (if string_end(text@, 1).1 {
            TokenKind::StringLiteral
        } else {
            TokenKind::Error
        }),
{
    let mut index: usize = 1;
    let mut unterminated = true;
    while index < text.len()
        invariant_except_break
            unterminated,
            string_end(text@, 1) == string_end(text@, index as int),
        invariant
            1 <= index <= text@.len(),
        ensures
            string_end(text@, 1) == (index as int, !unterminated),
        decreases text@.len() - index,
    {
        if text[index] == BACKSLASH {
            if text.len() - index >= 2 {
                index += 2;
            } else {
                index = text.len();
            }
            continue;
        }
        if text[index] == QUOTE {
            index += 1;
            unterminated = false;
            break;
        }
        if text[index] == NEWLINE {
            break;
        }
        index += 1;
    }
    let kind = if unterminated {
        TokenKind::Error
    } else {
        TokenKind::StringLiteral
    };
    (index, kind)
}

/// Scans a verbatim string (`@"..."` or `@'...'`) at the start of `text`.
pub fn scan_verbatim_string_literal(text: &[u8]) -> (r: (usize, TokenKind))
    requires
        text@.len() >= 2,
        text@[0] == AT,
        text@[1] == QUOTE || text@[1] == APOSTROPHE,
    ensures
        r.0 == verbatim_end(text@, text@[1], 2).0,
        r.1 == (if verbatim_end(text@, text@[1], 2).1 {
            TokenKind::VerbatimStringLiteral
        } else {
            TokenKind::Error
        }),
{
    let quote = text[1];
    let mut index: usize = 2;
    let mut unterminated = true;
    while index < text.len()
        invariant_except_break
            unterminated,
            verbatim_end(text@, quote, 2) == verbatim_end(text@, quote, index as int),
        invariant
            2 <= index <= text@.len(),
            quote == text@[1],
        ensures
            verbatim_end(text@, quote, 2) == (index as int, !unterminated),
        decreases text@.len() - index,
    {
        if text[index] == quote {
            if index + 1 < text.len() && text[index + 1] == quote {
                index += 2;
                continue;
            }
            index += 1;
            unterminated = false;
            break;
        }
        index += 1;
    }
    let kind = if unterminated {
        TokenKind::Error
    } else {
        TokenKind::VerbatimStringLiteral
    };
    (index, kind)
}

} // verus!
