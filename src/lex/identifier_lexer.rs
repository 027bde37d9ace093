use crate::lex::ascii::{DIGIT_NINE, DIGIT_ZERO, LOWER_A, LOWER_Z, UNDERSCORE, UPPER_A, UPPER_Z};
use vstd::prelude::*;

verus! {

pub open spec fn spec_is_identifier_byte(c: u8) -> bool {
    (LOWER_A <= c <= LOWER_Z) || (UPPER_A <= c <= UPPER_Z) || c == UNDERSCORE || (DIGIT_ZERO <= c <= DIGIT_NINE)
}

pub open spec fn spec_is_identifier_start(c: u8) -> bool {
    (LOWER_A <= c <= LOWER_Z) || (UPPER_A <= c <= UPPER_Z) || c == UNDERSCORE
}

/// Where the run of identifier bytes that reaches position `i` ends.
pub open spec fn ident_end(s: Seq<u8>, i: int) -> int
    decreases s.len() - i,
{
    if 0 <= i < s.len() && spec_is_identifier_byte(s[i]) {
        ident_end(s, i + 1)
    } else {
        i
    }
}

/// The length of the run of identifier bytes at the start of `text`.
pub fn scan_identifier(text: &[u8]) -> (r: usize)
    ensures
        r <= text@.len(),
        forall|i: int| 0 <= i < r ==> spec_is_identifier_byte(#[trigger] text@[i]),
        r < text@.len() ==> !spec_is_identifier_byte(text@[r as int]),
        r == ident_end(text@, 0),
{
    let mut i: usize = 0;
    while i < text.len() && is_identifier_byte(text[i])
        invariant
            i <= text@.len(),
            forall|k: int| 0 <= k < i ==> spec_is_identifier_byte(#[trigger] text@[k]),
            ident_end(text@, 0) == ident_end(text@, i as int),
        decreases text@.len() - i,
    {
        i += 1;
    }
    i
}

#[verifier::when_used_as_spec(spec_is_identifier_byte)]
pub fn is_identifier_byte(c: u8) -> (r: bool)
    ensures
        r == spec_is_identifier_byte(c),
{
    (LOWER_A <= c && c <= LOWER_Z) || (UPPER_A <= c && c <= UPPER_Z) || c == UNDERSCORE || (DIGIT_ZERO <= c && c <= DIGIT_NINE)
}

#[verifier::when_used_as_spec(spec_is_identifier_start)]
pub fn is_identifier_start(c: u8) -> (r: bool)
    ensures
        r == spec_is_identifier_start(c),
{
    (LOWER_A <= c && c <= LOWER_Z) || (UPPER_A <= c && c <= UPPER_Z) || c == UNDERSCORE
}

} // verus!
