use crate::lex::token::TokenKind;
use crate::lex::ascii::{DIGIT_NINE, DIGIT_ZERO, DOT, UNDERSCORE};
use vstd::prelude::*;

verus! {

pub open spec fn spec_is_digit(c: u8) -> bool {
    DIGIT_ZERO <= c <= DIGIT_NINE
}

/// A byte that may stand in a numeric literal besides its dot.
pub open spec fn is_digit_or_separator(c: u8) -> bool {
    spec_is_digit(c) || c == UNDERSCORE
}

/// Whether `s[0..n)` holds a dot.
pub open spec fn has_dot(s: Seq<u8>, n: int) -> bool {
    exists|i: int| 0 <= i < n && s[i] == DOT
}

/// The kind a numeric run ending at `i` stands for.
pub open spec fn number_kind(i: int, found_dot: bool) -> TokenKind {
    if found_dot {
        if i == 1 {
            TokenKind::Dot
        } else {
            TokenKind::RealLiteral
        }
    } else {
        TokenKind::IntegerLiteral
    }
}

/// Scans a numeric run from position `i`, where `found_dot` says whether a
/// dot was already taken: its end and kind, or the position of a second dot
/// and `Error`.
pub open spec fn number_scan(s: Seq<u8>, i: int, found_dot: bool) -> (int, TokenKind)
    decreases s.len() - i,
{
    if i < 0 || i >= s.len() {
        (i, number_kind(i, found_dot))
    } else if is_digit_or_separator(s[i]) {
        number_scan(s, i + 1, found_dot)
    } else if s[i] == DOT {
        if found_dot {
            (i, TokenKind::Error)
        } else {
            number_scan(s, i + 1, true)
        }
    } else {
        (i, number_kind(i, found_dot))
    }
}

#[verifier::when_used_as_spec(spec_is_digit)]
pub fn is_digit(c: u8) -> (r: bool)
    ensures
        r == spec_is_digit(c),
{
    DIGIT_ZERO <= c && c <= DIGIT_NINE
}

/// Scans a run of digits and `_` holding at most one `.`. A second dot ends
/// the scan with `Error` (the length is then the position of that dot);
/// otherwise the run is a `Dot` when it is a lone `.`, a `RealLiteral` when it
/// holds a dot, and an `IntegerLiteral` when it holds none.
pub fn scan_number_or_dot(text: &[u8]) -> (r: (usize, TokenKind))
    ensures
        r.0 as int == number_scan(text@, 0, false).0,
        r.1 == number_scan(text@, 0, false).1,
        r.0 <= text@.len(),
        forall|i: int|
            0 <= i < r.0 ==> is_digit_or_separator(#[trigger] text@[i]) || text@[i] == DOT,
        forall|i: int, j: int|
            #![trigger text@[i], text@[j]]
            0 <= i < j < r.0 ==> !(text@[i] == DOT && text@[j] == DOT),
        r.1 == TokenKind::Error <==> (r.0 < text@.len() && text@[r.0 as int] == DOT && has_dot(
            text@,
            r.0 as int,
        )),
        r.1 != TokenKind::Error ==> r.0 == text@.len() || !(is_digit_or_separator(
            text@[r.0 as int],
        ) || text@[r.0 as int] == DOT),
        r.1 != TokenKind::Error ==> r.1 == (if has_dot(text@, r.0 as int) {
            if r.0 == 1 {
                TokenKind::Dot
            } else {
                TokenKind::RealLiteral
            }
        } else {
            TokenKind::IntegerLiteral
        }),
{
    let mut index: usize = 0;
    let mut found_dot = false;
    while index < text.len()
        invariant
            index <= text@.len(),
            found_dot == has_dot(text@, index as int),
            number_scan(text@, 0, false) == number_scan(text@, index as int, found_dot),
            forall|i: int|
                0 <= i < index ==> is_digit_or_separator(#[trigger] text@[i]) || text@[i] == DOT,
            forall|i: int, j: int|
                #![trigger text@[i], text@[j]]
                0 <= i < j < index ==> !(text@[i] == DOT && text@[j] == DOT),
        ensures
            index == text@.len() || !(is_digit_or_separator(text@[index as int]) || text@[index as int]
                == DOT),
        decreases text@.len() - index,
    {
        let c = text[index];
        if is_digit(c) || c == UNDERSCORE {
            index += 1;
            continue;
        }
        if c == DOT {
            if found_dot {
                return (index, TokenKind::Error);
            }
            found_dot = true;
            index += 1;
            continue;
        }
        break;
    }
    let kind = if found_dot {
        if index == 1 {
            TokenKind::Dot
        } else {
            TokenKind::RealLiteral
        }
    } else {
        TokenKind::IntegerLiteral
    };
    (index, kind)
}

} // verus!
