use gobo_rust::chunked_index_vec::ChunkedIndexVec;
use gobo_rust::fnv::{fnv1a_32, Fnv1aHasher32};
use gobo_rust::lex::{
    is_digit, is_identifier_byte, is_identifier_start, scan_identifier, scan_number_or_dot,
    scan_string_literal, scan_verbatim_string_literal, LineIndex, Token, TokenIndex, TokenKind,
};
use gobo_rust::source_text::SourceText;
use gobo_rust::typed_index::TypedIndex;
use gobo_rust::user_symbols::{IdentifierId, UserSymbols};

#[test]
fn arena_push_get_and_update() {
    let mut v: ChunkedIndexVec<u64, TokenIndex> = ChunkedIndexVec::new();
    for i in 0..3000u64 {
        let id = v.push(i * 7);
        assert_eq!(id.value() as u64, i);
    }
    assert_eq!(v.len(), 3000);
    assert_eq!(*v.get(TokenIndex::new(2999)), 2999 * 7);
    *v.get_mut(TokenIndex::new(600)) = 1;
    assert_eq!(*v.get(TokenIndex::new(600)), 1);
    v.set(TokenIndex::new(1500), 2);
    assert_eq!(*v.get(TokenIndex::new(1500)), 2);
    assert_eq!(*v.get(TokenIndex::new(1501)), 1501 * 7);
    v.reserve(10000);
    assert_eq!(v.len(), 3000);
    let all = v.iter();
    assert_eq!(all.len(), 3000);
    assert_eq!(all[42].0.value(), 42);
    assert_eq!(*all[42].1, 42 * 7);
}

#[test]
fn arena_handles_large_and_zero_sized_elements() {
    let mut big: ChunkedIndexVec<[u8; 5000], LineIndex> = ChunkedIndexVec::new();
    big.push([1; 5000]);
    big.push([2; 5000]);
    assert_eq!(big.get(LineIndex::new(1))[4999], 2);
    let mut unit: ChunkedIndexVec<(), LineIndex> = ChunkedIndexVec::new();
    for _ in 0..5 {
        unit.push(());
    }
    assert_eq!(unit.len(), 5);
}

#[test]
fn fnv_known_values() {
    assert_eq!(fnv1a_32(b""), 0x811c9dc5);
    assert_eq!(fnv1a_32(b"a"), 0xe40c292c);
    assert_eq!(fnv1a_32(b"foobar"), 0xbf9cf968);
    let mut h = Fnv1aHasher32::new();
    h.write(b"foo");
    h.write(b"bar");
    assert_eq!(h.finish_raw(), 0xbf9cf968);
    assert_eq!(h.finish(), 0xbf9cf968u64);
    assert_eq!(Fnv1aHasher32::default().finish_raw(), 0x811c9dc5);
}

#[test]
fn symbols_are_interned_once() {
    let mut symbols = UserSymbols::new();
    let a = symbols.identifiers.push(b"alpha".to_vec());
    let b = symbols.identifiers.push(b"beta".to_vec());
    let a2 = symbols.identifiers.push(b"alpha".to_vec());
    assert_eq!(a, a2);
    assert_ne!(a, b);
    assert_eq!(symbols.identifiers.len(), 2);
    assert_eq!(symbols.identifiers.get(b), &b"beta".to_vec());
    let all = symbols.identifiers.iter();
    assert_eq!(all.len(), 2);
    assert_eq!(all[0].0, IdentifierId::from_index(0));
    assert_eq!(symbols.string_literals.len(), 0);
    assert_eq!(symbols.number_literals.len(), 0);
}

#[test]
fn source_text_access() {
    let t = SourceText::from_str("ab\ncd\n");
    assert_eq!(t.len(), 6);
    assert_eq!(t.get_byte(1), b'b');
    assert_eq!(t.get_slice(3, 5), b"cd");
    assert_eq!(t.get_span(0, 2).as_slice(), b"ab");
    assert_eq!(t.find_next(b'\n', 0), Some(2));
    assert_eq!(t.find_next(b'\n', 3), Some(5));
    assert_eq!(t.find_next(b'x', 0), None);
    assert_eq!(t.find_next(b'\n', 6), None);
    let owned = SourceText::new(vec![1, 2, 3]);
    assert_eq!(owned.len(), 3);
}

#[test]
fn token_packing() {
    let mut t = Token::new(TokenKind::LeftParen, true, 12345, 77);
    assert_eq!(t.kind(), TokenKind::LeftParen);
    assert_eq!(t.payload(), 12345);
    assert!(t.has_leading_space());
    assert_eq!(t.start(), 77);
    t.set_payload(0x7f_fffe);
    assert_eq!(t.payload(), 0x7f_fffe);
    assert!(t.has_leading_space());
    let u = Token::new(TokenKind::Comma, false, 0, 0);
    assert!(!u.has_leading_space());
    assert_eq!(Token::MAX_INDEX, (1 << 23) - 1);
}

#[test]
fn token_kind_classes() {
    assert!(TokenKind::SingleLineComment.is_comment());
    assert!(TokenKind::Whitespace.is_comment_or_whitespace());
    assert!(TokenKind::NullCoalesceAssign.is_assign_operator());
    assert!(TokenKind::New.is_prefix_operator());
    assert!(TokenKind::MinusMinus.is_postfix_operator());
    assert!(TokenKind::BitXor.is_binary_operator());
    assert!(TokenKind::VerbatimStringLiteral.is_literal());
    assert!(TokenKind::With.is_control_flow_keyword());
    assert!(TokenKind::GlobalVar.is_decl_keyword());
    assert!(!TokenKind::Identifier.is_literal());
}

#[test]
fn scanners() {
    assert!(is_identifier_byte(b'9') && !is_identifier_start(b'9'));
    assert!(is_identifier_start(b'_') && is_digit(b'0') && !is_digit(b'a'));
    assert_eq!(scan_identifier(b"ab_1+c"), 4);
    assert_eq!(scan_number_or_dot(b"1_2.5;"), (5, TokenKind::RealLiteral));
    assert_eq!(scan_number_or_dot(b"42"), (2, TokenKind::IntegerLiteral));
    assert_eq!(scan_number_or_dot(b".x"), (1, TokenKind::Dot));
    assert_eq!(scan_number_or_dot(b"1.2.3"), (3, TokenKind::Error));
    assert_eq!(scan_string_literal(b"\"ab\"c"), (4, TokenKind::StringLiteral));
    assert_eq!(scan_string_literal(b"\"ab\nc\""), (3, TokenKind::Error));
    assert_eq!(scan_string_literal(b"\"a\\"), (3, TokenKind::Error));
    assert_eq!(scan_verbatim_string_literal(b"@'it''s' x"), (8, TokenKind::VerbatimStringLiteral));
    assert_eq!(scan_verbatim_string_literal(b"@\"open"), (6, TokenKind::Error));
}
