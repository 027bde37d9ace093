use vstd::prelude::*;

verus! {

/// `\t`
pub const TAB: u8 = 0x09;

/// `\n`
pub const NEWLINE: u8 = 0x0a;

/// `\r`
pub const CARRIAGE_RETURN: u8 = 0x0d;

/// ` `
pub const SPACE: u8 = 0x20;

/// `!`
pub const EXCLAMATION: u8 = 0x21;

/// `"`
pub const QUOTE: u8 = 0x22;

/// `#`
pub const HASH: u8 = 0x23;

/// `$`
pub const DOLLAR: u8 = 0x24;

/// `%`
pub const PERCENT: u8 = 0x25;

/// `&`
pub const AMPERSAND: u8 = 0x26;

/// `'`
pub const APOSTROPHE: u8 = 0x27;

/// `(`
pub const PAREN_OPEN: u8 = 0x28;

/// `)`
pub const PAREN_CLOSE: u8 = 0x29;

/// `*`
pub const ASTERISK: u8 = 0x2a;

/// `+`
pub const PLUS: u8 = 0x2b;

/// `,`
pub const COMMA: u8 = 0x2c;

/// `-`
pub const MINUS: u8 = 0x2d;

/// `.`
pub const DOT: u8 = 0x2e;

/// `/`
pub const SLASH: u8 = 0x2f;

/// `0`
pub const DIGIT_ZERO: u8 = 0x30;

/// `9`
pub const DIGIT_NINE: u8 = 0x39;

/// `:`
pub const COLON: u8 = 0x3a;

/// `;`
pub const SEMICOLON: u8 = 0x3b;

/// `<`
pub const LESS_THAN: u8 = 0x3c;

/// `=`
pub const EQUAL: u8 = 0x3d;

/// `>`
pub const GREATER_THAN: u8 = 0x3e;

/// `?`
pub const QUESTION: u8 = 0x3f;

/// `@`
pub const AT: u8 = 0x40;

/// `A`
pub const UPPER_A: u8 = 0x41;

/// `Z`
pub const UPPER_Z: u8 = 0x5a;

/// `[`
pub const BRACKET_OPEN: u8 = 0x5b;

/// `\\`
pub const BACKSLASH: u8 = 0x5c;

/// `]`
pub const BRACKET_CLOSE: u8 = 0x5d;

/// `^`
pub const CARET: u8 = 0x5e;

/// `_`
pub const UNDERSCORE: u8 = 0x5f;

/// `a`
pub const LOWER_A: u8 = 0x61;

/// `z`
pub const LOWER_Z: u8 = 0x7a;

/// `{`
pub const BRACE_OPEN: u8 = 0x7b;

/// `|`
pub const PIPE: u8 = 0x7c;

/// `}`
pub const BRACE_CLOSE: u8 = 0x7d;

/// `~`
pub const TILDE: u8 = 0x7e;

} // verus!
