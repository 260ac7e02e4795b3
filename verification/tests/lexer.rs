use axiom_native::lexer::{lex, TokenKind};

#[test]
fn lexes_minimal_program() {
    let tokens = lex("fn main() { print(42) }").unwrap();
    assert_eq!(tokens[0].kind, TokenKind::Fn);
    assert_eq!(tokens[5].lexeme, "print");
    assert_eq!(tokens[7].kind, TokenKind::Integer);
    assert_eq!(tokens.last().unwrap().kind, TokenKind::Eof);
}

#[test]
fn skips_line_comments_without_changing_following_positions() {
    let tokens = lex("// ignored\nprint(6 / 2)").unwrap();
    assert_eq!(tokens[0].kind, TokenKind::Identifier);
    assert_eq!(tokens[0].lexeme, "print");
    assert_eq!((tokens[0].line, tokens[0].column), (2, 1));
    assert!(tokens.iter().all(|token| token.lexeme != "ignored"));
}

#[test]
fn reports_invalid_character_position() {
    let error = lex("fn main() { @ }").unwrap_err();
    assert_eq!(error.line, 1);
    assert_eq!(error.column, 13);
}

#[test]
fn lexes_two_character_operators() {
    let tokens = lex("a >= b && c != d || e <= f -> g == h").unwrap();
    let kinds: Vec<TokenKind> = tokens.iter().map(|t| t.kind.clone()).collect();
    assert_eq!(
        kinds,
        vec![
            TokenKind::Identifier,
            TokenKind::GreaterEqual,
            TokenKind::Identifier,
            TokenKind::And,
            TokenKind::Identifier,
            TokenKind::NotEqual,
            TokenKind::Identifier,
            TokenKind::Or,
            TokenKind::Identifier,
            TokenKind::LessEqual,
            TokenKind::Identifier,
            TokenKind::Arrow,
            TokenKind::Identifier,
            TokenKind::EqualEqual,
            TokenKind::Identifier,
            TokenKind::Eof,
        ]
    );
}

#[test]
fn lexes_keywords_numbers_and_strings() {
    let tokens = lex("let x = 1.5; while true { \"hi\" }").unwrap();
    assert_eq!(tokens[0].kind, TokenKind::Let);
    assert_eq!(tokens[3].kind, TokenKind::Float);
    assert_eq!(tokens[3].lexeme, "1.5");
    assert_eq!(tokens[5].kind, TokenKind::While);
    assert_eq!(tokens[6].kind, TokenKind::True);
    assert_eq!(tokens[8].kind, TokenKind::String);
    assert_eq!(tokens[8].lexeme, "\"hi\"");
}

#[test]
fn reports_unterminated_string() {
    assert!(lex("print(\"abc").is_err());
}

#[test]
fn tokens_come_in_the_order_of_the_text() {
    let source = "fn main() {\n  let x = \"a b\" // note\n  print(x >= 10)\n}";
    let tokens = lex(source).unwrap();
    let last = tokens.last().unwrap();
    assert_eq!((last.kind, last.lexeme.as_str()), (TokenKind::Eof, ""));
    for pair in tokens.windows(2) {
        assert!((pair[0].line, pair[0].column) < (pair[1].line, pair[1].column));
    }
    for token in &tokens[..tokens.len() - 1] {
        assert!(token.kind != TokenKind::Eof);
        assert!(!token.lexeme.is_empty() && source.contains(token.lexeme.as_str()));
    }
}

#[test]
fn words_are_lexed_whole() {
    let tokens = lex("fnx fn letter let_1").unwrap();
    let kinds: Vec<(TokenKind, &str)> = tokens.iter().map(|t| (t.kind, t.lexeme.as_str())).collect();
    assert_eq!(
        kinds,
        vec![
            (TokenKind::Identifier, "fnx"),
            (TokenKind::Fn, "fn"),
            (TokenKind::Identifier, "letter"),
            (TokenKind::Identifier, "let_1"),
            (TokenKind::Eof, ""),
        ]
    );
}
