use gobo_rust::lex::{lex, TokenIndex, TokenKind, TokenizedText};
use gobo_rust::parse::{parse, Event, NodeKind, ParseEvents, Parser};
use gobo_rust::source_text::SourceText;

fn lex_str(s: &str) -> TokenizedText {
    lex(&SourceText::from_str(s)).unwrap()
}

fn leaf(i: u32, kind: TokenKind) -> Event {
    Event::Leaf { token: TokenIndex::new(i), token_kind: kind }
}

fn unexpected(i: u32, kind: TokenKind) -> Event {
    Event::Unexpected { token: TokenIndex::new(i), token_kind: kind }
}

fn start(kind: NodeKind) -> Event {
    Event::Start { kind }
}

fn token_of(e: &Event) -> Option<u32> {
    match e {
        Event::Leaf { token, .. } | Event::Unexpected { token, .. } => Some(token.value()),
        _ => None,
    }
}

fn check_balanced(p: &ParseEvents) {
    let mut depth: i64 = 0;
    for e in &p.events {
        match e {
            Event::Start { .. } => depth += 1,
            Event::End => depth -= 1,
            _ => {}
        }
        assert!(depth >= 0);
    }
    assert_eq!(depth, 0);
}

fn check_tokens_covered(t: &TokenizedText, p: &ParseEvents) {
    let seen: Vec<u32> = p.events.iter().filter_map(token_of).collect();
    let expected: Vec<u32> = (1..t.token_count() as u32 - 1).collect();
    assert_eq!(seen, expected);
}

#[test]
fn enum_with_trailing_comma() {
    let t = lex_str("enum E { A, }");
    let p = parse(&t);
    assert_eq!(
        p.events,
        vec![
            start(NodeKind::EnumDecl),
            leaf(1, TokenKind::Enum),
            leaf(2, TokenKind::Identifier),
            start(NodeKind::EnumBlock),
            leaf(3, TokenKind::LeftBrace),
            start(NodeKind::EnumMember),
            leaf(4, TokenKind::Identifier),
            Event::End,
            leaf(5, TokenKind::Comma),
            leaf(6, TokenKind::RightBrace),
            Event::End,
            Event::End,
        ]
    );
}

#[test]
fn enum_with_double_comma() {
    let t = lex_str("enum E { ,, A }");
    let p = parse(&t);
    let missing: Vec<usize> = p
        .events
        .iter()
        .enumerate()
        .filter(|(_, e)| **e == Event::Missing { kind: NodeKind::EnumMember })
        .map(|(i, _)| i)
        .collect();
    assert_eq!(missing.len(), 2);
    let first_comma = p.events.iter().position(|e| *e == leaf(4, TokenKind::Comma)).unwrap();
    let second_comma = p.events.iter().position(|e| *e == leaf(5, TokenKind::Comma)).unwrap();
    assert!(missing[0] < first_comma);
    assert!(first_comma < missing[1] && missing[1] < second_comma);
    assert!(!p.events.iter().any(|e| matches!(e, Event::Unexpected { .. })));
    check_balanced(&p);
}

#[test]
fn enum_missing_open_brace_recovers() {
    let t = lex_str("enum E A }");
    let p = parse(&t);
    assert_eq!(
        p.events[..6],
        [
            start(NodeKind::EnumDecl),
            leaf(1, TokenKind::Enum),
            leaf(2, TokenKind::Identifier),
            start(NodeKind::EnumBlock),
            Event::End,
            Event::End,
        ]
    );
    assert_eq!(p.events[6..], [leaf(3, TokenKind::Identifier), unexpected(4, TokenKind::RightBrace)]);
}

#[test]
fn block_with_enum_inside() {
    let t = lex_str("{ enum E { A } }");
    let p = parse(&t);
    assert_eq!(p.events[0], start(NodeKind::Block));
    assert_eq!(p.events[1], leaf(1, TokenKind::LeftBrace));
    assert_eq!(*p.events.last().unwrap(), Event::End);
    assert_eq!(p.events[p.events.len() - 2], leaf(7, TokenKind::RightBrace));
    assert!(!p.events.iter().any(|e| matches!(e, Event::Unexpected { .. })));
    check_balanced(&p);
    check_tokens_covered(&t, &p);
}

#[test]
fn unclosed_block_still_balances() {
    let t = lex_str("{ x");
    let p = parse(&t);
    assert_eq!(
        p.events,
        vec![start(NodeKind::Block), leaf(1, TokenKind::LeftBrace), leaf(2, TokenKind::Identifier), Event::End]
    );
}

#[test]
fn recovery_skips_weak_tokens_before_the_close() {
    let t = lex_str("enum E { A x }");
    let p = parse(&t);
    assert!(p.events.contains(&unexpected(5, TokenKind::Identifier)));
    assert!(p.events.contains(&leaf(6, TokenKind::RightBrace)));
    check_balanced(&p);
    check_tokens_covered(&t, &p);
}

#[test]
fn events_balance_and_cover_every_token() {
    for src in ["", "}", "enum", "enum E {", "{ { } enum X { a, b, , } ] ) }", "x y z", "{ enum E ; }"] {
        let t = lex_str(src);
        let p = parse(&t);
        check_balanced(&p);
        check_tokens_covered(&t, &p);
        for e in &p.events {
            if let Event::Leaf { token, token_kind } | Event::Unexpected { token, token_kind } = e {
                assert_eq!(t.get_kind(*token), *token_kind);
            }
        }
    }
}

#[test]
fn parser_runs_through_its_method() {
    let t = lex_str("enum E { A }");
    let mut parser = Parser::new(&t);
    parser.parse();
    let direct = parse(&t);
    assert_eq!(direct.events.len(), 11);
    assert!(direct.diagnostics.is_empty());
}

#[test]
fn prefix_operator_expression() {
    let t = lex_str("-x");
    let p = parse(&t);
    assert_eq!(
        p.events,
        vec![start(NodeKind::PrefixOpExpr), leaf(1, TokenKind::Minus), leaf(2, TokenKind::Identifier), Event::End]
    );
}

#[test]
fn parenthesized_expression() {
    let t = lex_str("(a)");
    let p = parse(&t);
    assert_eq!(
        p.events,
        vec![
            start(NodeKind::ParenExpr),
            leaf(1, TokenKind::LeftParen),
            leaf(2, TokenKind::Identifier),
            leaf(3, TokenKind::RightParen),
            Event::End,
        ]
    );
    let t = lex_str("(a");
    let p = parse(&t);
    assert_eq!(
        p.events,
        vec![start(NodeKind::ParenExpr), leaf(1, TokenKind::LeftParen), leaf(2, TokenKind::Identifier), Event::End]
    );
}

#[test]
fn array_expressions() {
    let t = lex_str("[1, \"s\"]");
    let p = parse(&t);
    assert_eq!(
        p.events,
        vec![
            start(NodeKind::ArrayExpr),
            leaf(1, TokenKind::LeftSquare),
            leaf(2, TokenKind::IntegerLiteral),
            leaf(3, TokenKind::Comma),
            leaf(4, TokenKind::StringLiteral),
            leaf(5, TokenKind::RightSquare),
            Event::End,
        ]
    );
    let t = lex_str("[]");
    let p = parse(&t);
    assert_eq!(
        p.events,
        vec![start(NodeKind::ArrayExpr), leaf(1, TokenKind::LeftSquare), leaf(2, TokenKind::RightSquare), Event::End]
    );
    let t = lex_str("[, 1]");
    let p = parse(&t);
    assert_eq!(p.events[2], Event::Missing { kind: NodeKind::Error });
    check_balanced(&p);
    check_tokens_covered(&t, &p);
}

#[test]
fn nested_expressions_and_empty_statements() {
    let t = lex_str("{ -(a) ; [x, [y]] ; !not }");
    let p = parse(&t);
    check_balanced(&p);
    check_tokens_covered(&t, &p);
    assert!(!p.events.iter().any(|e| matches!(e, Event::Unexpected { .. })));
    assert_eq!(p.events.iter().filter(|e| **e == start(NodeKind::ArrayExpr)).count(), 2);
    assert_eq!(p.events.iter().filter(|e| **e == start(NodeKind::PrefixOpExpr)).count(), 3);
}
