use rust_lisp_parser::lexer::TokenKind::{Close, Identifier, NumberLiteral, Open, StringLiteral};
use rust_lisp_parser::lexer::{preprocess, Scanner, TokenKind};

const COMMON_INPUT: &str = "; Comment\n(a b c (d 34 \"hello world\"))";

#[test]
fn scanner() {
    let mut scanner = Scanner::new(COMMON_INPUT);
    let mut lexemes: Vec<&str> = Vec::new();
    while let Some(lexeme) = scanner.next() {
        lexemes.push(lexeme.content());
    }
    let expected = vec![
        "(",
        "a",
        "b",
        "c",
        "(",
        "d",
        "34",
        "\"hello world\"",
        ")",
        ")",
    ];
    assert_eq!(lexemes, expected);
}

#[test]
fn evaluator() {
    let mut evaluator = Scanner::new(COMMON_INPUT).evaluate();
    let mut tokens: Vec<TokenKind> = Vec::new();
    while let Some(token) = evaluator.next() {
        tokens.push(token.kind());
    }
    let expected = vec![
        Open,
        Identifier("a"),
        Identifier("b"),
        Identifier("c"),
        Open,
        Identifier("d"),
        NumberLiteral("34"),
        StringLiteral("hello world"),
        Close,
        Close,
    ];
    assert_eq!(tokens, expected);
}

#[test]
fn collect_gives_what_next_gives() {
    let lexemes: Vec<&str> = Scanner::new(COMMON_INPUT)
        .collect()
        .iter()
        .map(|lexeme| lexeme.content())
        .collect();
    assert_eq!(lexemes, vec!["(", "a", "b", "c", "(", "d", "34", "\"hello world\"", ")", ")"]);
    let kinds: Vec<TokenKind> = Scanner::new("(x 1)")
        .evaluate()
        .collect()
        .iter()
        .map(|token| token.kind())
        .collect();
    assert_eq!(
        kinds,
        vec![
            TokenKind::Open,
            TokenKind::Identifier("x"),
            TokenKind::NumberLiteral("1"),
            TokenKind::Close
        ]
    );
}

#[test]
fn positions_count_characters() {
    let mut evaluator = Scanner::new("  (ab \"q\")").evaluate();
    let open = evaluator.next().unwrap().position();
    assert_eq!((open.index, open.length), (2, 1));
    let name = evaluator.next().unwrap().position();
    assert_eq!((name.index, name.length), (3, 2));
    let text = evaluator.next().unwrap().position();
    assert_eq!((text.index, text.length), (6, 3));
    let close = evaluator.next().unwrap().position();
    assert_eq!((close.index, close.length), (9, 1));
    assert!(evaluator.next().is_none());
}

#[test]
fn symbol_at_the_end_of_input_is_a_lexeme() {
    let mut scanner = Scanner::new("(a b");
    assert_eq!(scanner.next().unwrap().content(), "(");
    assert_eq!(scanner.next().unwrap().content(), "a");
    let last = scanner.next().unwrap();
    assert_eq!(last.content(), "b");
    assert_eq!(last.positioning().index, 3);
    assert!(scanner.next().is_none());
    assert!(scanner.next().is_none());

    let mut scanner = Scanner::new("abc");
    let only = scanner.next().unwrap();
    assert_eq!(only.content(), "abc");
    assert_eq!(only.positioning().index, 0);
    assert_eq!(only.positioning().length, 3);
    assert!(scanner.next().is_none());

    let mut evaluator = Scanner::new("x 42").evaluate();
    assert_eq!(evaluator.next().unwrap().kind(), Identifier("x"));
    assert_eq!(evaluator.next().unwrap().kind(), NumberLiteral("42"));
    assert!(evaluator.next().is_none());
}

#[test]
fn unterminated_string_and_comment_stop_the_scanner() {
    let mut scanner = Scanner::new("a \"open");
    assert_eq!(scanner.next().unwrap().content(), "a");
    assert!(scanner.next().is_none());
    let mut scanner = Scanner::new("a ; no end of line");
    assert_eq!(scanner.next().unwrap().content(), "a");
    assert!(scanner.next().is_none());
}

#[test]
fn empty_string_keeps_its_quotes() {
    let mut evaluator = Scanner::new("\"\" ").evaluate();
    assert_eq!(evaluator.next().unwrap().kind(), TokenKind::StringLiteral("\"\""));
}

#[test]
fn non_ascii_white_space_and_symbols() {
    let mut scanner = Scanner::new("caf\u{e9}\u{a0}\u{3bb}x\u{3000})");
    assert_eq!(scanner.next().unwrap().content(), "caf\u{e9}");
    let second = scanner.next().unwrap();
    assert_eq!(second.content(), "\u{3bb}x");
    assert_eq!(second.positioning().index, 5);
    assert_eq!(scanner.next().unwrap().content(), ")");
}

#[test]
fn preprocess_turns_crlf_into_lf() {
    assert_eq!(preprocess("a\r\nb\r\n"), "a\nb\n");
    assert_eq!(preprocess("a\rb\n\r"), "a\rb\n\r");
    assert_eq!(preprocess("\r\r\n"), "\r\n");
    assert_eq!(preprocess(""), "");
}
