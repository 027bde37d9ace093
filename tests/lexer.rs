use gobo_rust::lex::{
    lex, match_keyword, DiagnosticKind, LineIndex, TokenIndex, TokenKind, TokenizedText,
};
use gobo_rust::source_text::SourceText;

fn lex_str(s: &str) -> TokenizedText {
    lex(&SourceText::from_str(s)).unwrap()
}

fn kinds(t: &TokenizedText) -> Vec<TokenKind> {
    (0..t.token_count()).map(|i| t.get_kind(TokenIndex::new(i as u32))).collect()
}

fn starts(t: &TokenizedText) -> Vec<u32> {
    (0..t.token_count()).map(|i| t.get_start(TokenIndex::new(i as u32))).collect()
}

fn payload(t: &TokenizedText, i: u32) -> u32 {
    t.tokens.get(TokenIndex::new(i)).payload()
}

fn line_starts(t: &TokenizedText) -> Vec<u32> {
    (0..t.lines.len()).map(|i| t.lines.get(LineIndex::new(i as u32)).start()).collect()
}

#[test]
fn empty_input() {
    let t = lex_str("");
    assert_eq!(line_starts(&t), vec![0]);
    assert_eq!(kinds(&t), vec![TokenKind::FileStart, TokenKind::FileEnd]);
    assert_eq!(starts(&t), vec![0, 0]);
    assert!(t.diagnostics.is_empty());
    assert!(!t.last_line_is_inserted);
}

#[test]
fn trailing_no_newline() {
    let t = lex_str("a");
    assert_eq!(line_starts(&t), vec![0, 1]);
    assert!(t.last_line_is_inserted);
    assert_eq!(kinds(&t), vec![TokenKind::FileStart, TokenKind::Identifier, TokenKind::FileEnd]);
    assert_eq!(starts(&t), vec![0, 0, 1]);
}

#[test]
fn trailing_newline_adds_no_sentinel() {
    let t = lex_str("a\nb\n");
    assert_eq!(line_starts(&t), vec![0, 2, 4]);
    assert!(!t.last_line_is_inserted);
}

#[test]
fn matched_brackets() {
    let t = lex_str("(a)");
    assert_eq!(
        kinds(&t),
        vec![TokenKind::FileStart, TokenKind::LeftParen, TokenKind::Identifier, TokenKind::RightParen, TokenKind::FileEnd]
    );
    assert_eq!(starts(&t), vec![0, 0, 1, 2, 3]);
    assert_eq!(payload(&t, 1), 3);
    assert_eq!(payload(&t, 3), 1);
    assert!(!t.has_mismatched_brackets);
}

#[test]
fn mismatched_brackets() {
    let t = lex_str("(a]");
    assert_eq!(
        kinds(&t),
        vec![TokenKind::FileStart, TokenKind::LeftParen, TokenKind::Identifier, TokenKind::RightSquare, TokenKind::FileEnd]
    );
    assert_eq!(starts(&t), vec![0, 0, 1, 2, 3]);
    assert!(t.has_mismatched_brackets);
    assert_eq!(payload(&t, 1), 0);
    assert_eq!(payload(&t, 3), 0);
}

#[test]
fn unclosed_open_is_a_mismatch() {
    let t = lex_str("(a");
    assert!(t.has_mismatched_brackets);
    let t = lex_str("a)");
    assert!(t.has_mismatched_brackets);
}

#[test]
fn nested_and_accessor_brackets_pair() {
    let t = lex_str("{ x[| 1 ] (y) }");
    assert!(!t.has_mismatched_brackets);
    let k = kinds(&t);
    assert_eq!(k[1], TokenKind::LeftBrace);
    assert_eq!(k[3], TokenKind::ListAccessor);
    assert_eq!(payload(&t, 3), 5);
    assert_eq!(payload(&t, 5), 3);
    assert_eq!(payload(&t, 1), 9);
    assert_eq!(payload(&t, 9), 1);
}

#[test]
fn begin_and_end_pair_like_braces() {
    let t = lex_str("begin end");
    assert_eq!(kinds(&t)[1..3], [TokenKind::LeftBrace, TokenKind::RightBrace]);
    assert!(!t.has_mismatched_brackets);
    assert_eq!(payload(&t, 1), 2);
    assert_eq!(payload(&t, 2), 1);
}

#[test]
fn maximal_munch() {
    let t = lex_str(">>=");
    assert_eq!(kinds(&t), vec![TokenKind::FileStart, TokenKind::RightShiftAssign, TokenKind::FileEnd]);
    assert_eq!(starts(&t), vec![0, 0, 3]);
}

#[test]
fn operator_forms() {
    let t = lex_str("> >= >> < <= << <<= ? ?? ??= == != ** && || ++ -- += ~= ^ %=");
    assert_eq!(
        kinds(&t)[1..t.token_count() - 1],
        [
            TokenKind::GreaterThan,
            TokenKind::GreaterThanEquals,
            TokenKind::RightShift,
            TokenKind::LessThan,
            TokenKind::LessThanEquals,
            TokenKind::LeftShift,
            TokenKind::LeftShiftAssign,
            TokenKind::QuestionMark,
            TokenKind::NullCoalesce,
            TokenKind::NullCoalesceAssign,
            TokenKind::Equals,
            TokenKind::NotEquals,
            TokenKind::Power,
            TokenKind::And,
            TokenKind::Or,
            TokenKind::PlusPlus,
            TokenKind::MinusMinus,
            TokenKind::PlusAssign,
            TokenKind::BitNotAssign,
            TokenKind::BitXor,
            TokenKind::ModuloAssign,
        ]
    );
}

#[test]
fn crlf_emits_no_diagnostic() {
    let t = lex_str("a\r\nb");
    assert!(t.diagnostics.is_empty());
    assert_eq!(kinds(&t)[1..3], [TokenKind::Identifier, TokenKind::Identifier]);
    assert_eq!(line_starts(&t), vec![0, 3, 4]);
}

#[test]
fn raw_cr_is_reported_and_taken_as_space() {
    let t = lex_str("a\rb");
    assert_eq!(t.diagnostics.len(), 1);
    assert_eq!(t.diagnostics[0].kind, DiagnosticKind::RawCarriageReturn);
    assert_eq!(
        t.diagnostics[0].message(),
        "a raw CR line ending is not supported, only LF and CR+LF are supported"
    );
    assert_eq!(kinds(&t), vec![TokenKind::FileStart, TokenKind::Identifier, TokenKind::Identifier, TokenKind::FileEnd]);
    assert!(t.has_leading_whitespace(TokenIndex::new(2)));
}

#[test]
fn lf_cr_is_reported() {
    let t = lex_str("a\n\rb");
    assert_eq!(t.diagnostics.len(), 1);
    assert_eq!(t.diagnostics[0].kind, DiagnosticKind::LineFeedCarriageReturn);
}

#[test]
fn keywords_and_identifiers() {
    let t = lex_str("and or xor not mod div true false enum function static foo _x9 Enum");
    assert_eq!(
        kinds(&t)[1..t.token_count() - 1],
        [
            TokenKind::And,
            TokenKind::Or,
            TokenKind::Xor,
            TokenKind::Not,
            TokenKind::Modulo,
            TokenKind::IntegerDivide,
            TokenKind::BooleanLiteral,
            TokenKind::BooleanLiteral,
            TokenKind::Enum,
            TokenKind::Function,
            TokenKind::Static,
            TokenKind::Identifier,
            TokenKind::Identifier,
            TokenKind::Identifier,
        ]
    );
}

#[test]
fn numbers_and_dots() {
    let t = lex_str("12 1_000 3.25 . .5");
    assert_eq!(
        kinds(&t)[1..t.token_count() - 1],
        [TokenKind::IntegerLiteral, TokenKind::IntegerLiteral, TokenKind::RealLiteral, TokenKind::Dot, TokenKind::RealLiteral]
    );
    assert_eq!(starts(&t)[1..t.token_count() - 1], [0, 3, 9, 14, 16]);
}

#[test]
fn two_dots_give_an_error_token() {
    let t = lex_str("1.2.3");
    assert_eq!(kinds(&t)[1], TokenKind::Error);
    assert_eq!(payload(&t, 1), 1);
    assert!(!t.diagnostics.is_empty());
    assert_eq!(t.diagnostics[0].kind, DiagnosticKind::UnrecognizedCharacters);
}

#[test]
fn string_literals() {
    let t = lex_str("\"a\\\"b\" x");
    assert_eq!(kinds(&t)[1..3], [TokenKind::StringLiteral, TokenKind::Identifier]);
    assert_eq!(starts(&t)[2], 7);
    let t = lex_str("\"abc");
    assert_eq!(kinds(&t)[1], TokenKind::Error);
}

#[test]
fn verbatim_strings() {
    let t = lex_str("@\"a\"\"b\" @'c' @x");
    assert_eq!(
        kinds(&t)[1..t.token_count() - 1],
        [TokenKind::VerbatimStringLiteral, TokenKind::VerbatimStringLiteral, TokenKind::AtSign, TokenKind::Identifier]
    );
    assert_eq!(starts(&t)[1..t.token_count() - 1], [0, 8, 13, 14]);
}

#[test]
fn comments_are_kept_aside() {
    let t = lex_str("a // note\nb /* x\n y */ c / d /= e");
    assert_eq!(
        kinds(&t)[1..t.token_count() - 1],
        [TokenKind::Identifier, TokenKind::Identifier, TokenKind::Identifier, TokenKind::Divide, TokenKind::Identifier, TokenKind::DivideAssign, TokenKind::Identifier]
    );
    assert_eq!(t.comments.len(), 2);
    assert_eq!(t.get_line_number(TokenIndex::new(3)), 3);
}

#[test]
fn unrecognized_bytes_form_one_error_token() {
    let t = lex_str("a `` b");
    assert_eq!(kinds(&t)[1..4], [TokenKind::Identifier, TokenKind::Error, TokenKind::Identifier]);
    assert_eq!(payload(&t, 2), 2);
    assert_eq!(t.diagnostics.len(), 1);
}

#[test]
fn leading_space_flags() {
    let t = lex_str("a b(c)\nd");
    assert!(t.has_leading_whitespace(TokenIndex::new(0)));
    assert!(t.has_leading_whitespace(TokenIndex::new(1)));
    assert!(t.has_leading_whitespace(TokenIndex::new(2)));
    assert!(!t.has_leading_whitespace(TokenIndex::new(3)));
    assert!(t.has_leading_whitespace(TokenIndex::new(6)));
    assert!(t.has_trailing_whitespace(TokenIndex::new(5)));
}

#[test]
fn line_and_column_numbers() {
    let t = lex_str("a\n  bb c\n\nd");
    assert_eq!(t.get_loc(TokenIndex::new(1)), (1, 1));
    assert_eq!(t.get_loc(TokenIndex::new(2)), (2, 3));
    assert_eq!(t.get_loc(TokenIndex::new(3)), (2, 6));
    assert_eq!(t.get_loc(TokenIndex::new(4)), (4, 1));
    assert_eq!(t.get_line_number(TokenIndex::new(5)), 4);
    assert_eq!(t.lines.get(LineIndex::new(1)).indent(), 2);
    assert_eq!(t.get_leading_line_breaks(TokenIndex::new(4)), 2);
    assert_eq!(t.get_trailing_line_breaks(TokenIndex::new(1)), 1);
    assert_eq!(t.get_leading_line_breaks(TokenIndex::new(3)), 0);
}

#[test]
fn file_end_stays_on_last_real_line() {
    let t = lex_str("x\ny");
    assert!(t.last_line_is_inserted);
    assert_eq!(t.find_line_index(3).value(), 1);
    assert_eq!(t.get_line_number(TokenIndex::new(3)), 2);
}

#[test]
fn token_starts_increase_within_input() {
    let src = "enum E { A, B } { x = [1, 2.5]; }";
    let t = lex_str(src);
    let s = starts(&t);
    let n = s.len();
    assert_eq!(s[0], 0);
    assert_eq!(s[n - 1] as usize, src.len());
    for i in 1..n - 2 {
        assert!(s[i] < s[i + 1]);
    }
    for i in 1..n - 1 {
        assert!((s[i] as usize) < src.len());
        assert!(t.get_line_number(TokenIndex::new(i as u32)) >= 1);
    }
}

#[test]
fn balanced_input_pairs_every_delimiter() {
    let t = lex_str("f(a[1], {b}) [$ c]");
    assert!(!t.has_mismatched_brackets);
    for i in 0..t.token_count() as u32 {
        let k = t.get_kind(TokenIndex::new(i));
        let is_open = matches!(k, TokenKind::LeftParen | TokenKind::LeftSquare | TokenKind::LeftBrace | TokenKind::StructAccessor);
        let is_close = matches!(k, TokenKind::RightParen | TokenKind::RightSquare | TokenKind::RightBrace);
        if is_open || is_close {
            let p = payload(&t, i);
            assert_eq!(payload(&t, p), i);
        }
    }
}

#[test]
fn relexing_the_same_text_gives_the_same_stream() {
    let src = "enum E { A, B }\n  x >>= 3 // c\n\"s\" @'v' [? m ]\r\n";
    let a = lex_str(src);
    let b = lex_str(src);
    assert_eq!(kinds(&a), kinds(&b));
    assert_eq!(starts(&a), starts(&b));
    for i in 0..a.token_count() as u32 {
        assert_eq!(payload(&a, i), payload(&b, i));
    }
    assert_eq!(line_starts(&a), line_starts(&b));
}

#[test]
fn keyword_matching_is_exact_and_case_sensitive() {
    assert_eq!(match_keyword(b"globalvar"), TokenKind::GlobalVar);
    assert_eq!(match_keyword(b"constructor"), TokenKind::Constructor);
    assert_eq!(match_keyword(b"begin"), TokenKind::LeftBrace);
    assert_eq!(match_keyword(b"end"), TokenKind::RightBrace);
    assert_eq!(match_keyword(b"Globalvar"), TokenKind::Identifier);
    assert_eq!(match_keyword(b"ends"), TokenKind::Identifier);
    assert_eq!(match_keyword(b""), TokenKind::Identifier);
}

#[test]
fn tokens_do_not_overlap() {
    let src = "x<<=y??=z [# a ] @\"q\" \"s\" 1.5 $ #";
    let t = lex_str(src);
    let k = kinds(&t);
    let s = starts(&t);
    assert_eq!(
        k[1..k.len() - 1],
        [
            TokenKind::Identifier,
            TokenKind::LeftShiftAssign,
            TokenKind::Identifier,
            TokenKind::NullCoalesceAssign,
            TokenKind::Identifier,
            TokenKind::GridAccessor,
            TokenKind::Identifier,
            TokenKind::RightSquare,
            TokenKind::VerbatimStringLiteral,
            TokenKind::StringLiteral,
            TokenKind::RealLiteral,
            TokenKind::DollarSign,
            TokenKind::NumberSign,
        ]
    );
    assert_eq!(s[1..s.len() - 1], [0, 1, 4, 5, 8, 10, 13, 15, 17, 22, 26, 30, 32]);
    assert!(!t.has_mismatched_brackets);
}

#[test]
fn block_comment_closes_only_after_its_opener() {
    let t = lex_str("/*/ x */ y /* open");
    assert_eq!(kinds(&t), vec![TokenKind::FileStart, TokenKind::Identifier, TokenKind::FileEnd]);
    assert_eq!(starts(&t), vec![0, 9, 18]);
    assert_eq!(t.comments.len(), 2);
}
