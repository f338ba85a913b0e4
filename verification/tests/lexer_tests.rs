use css_autoprefixer::lexer::{Lexer, Token, TokenKind};

/// Asserts that the given tokens contain the expected number of tokens of the given kind.
fn assert_eq_token_kind(tokens: &[Token], kind: &TokenKind, expected_count: usize) {
    let count = tokens.iter().filter(|t| t.kind == *kind).count();
    assert_eq!(count, expected_count);
}

/// Asserts that the given tokens contain the expected values for tokens of the given kind.
fn assert_eq_token_values(tokens: &[Token], kind: &TokenKind, expected_values: &[&str]) {
    let matches: Vec<_> = tokens.iter().filter(|t| t.kind == *kind).collect();
    assert_eq!(
        matches.len(),
        expected_values.len(),
        "Unexpected number of tokens of kind {:?}",
        kind
    );

    for (token, &expected) in matches.iter().zip(expected_values) {
        assert_eq!(
            token.value, expected,
            "Unexpected value for token kind {:?}",
            kind
        );
    }
}

/// Asserts that the given tokens contain a token of the given kind with the expected value.
fn assert_eq_token_value(tokens: &[Token], kind: &TokenKind, expected_value: &str) {
    let matched: Option<&Token> = tokens.iter().find(|t| t.kind == *kind);

    assert!(
        matched.is_some(),
        "Expected at least one token of kind {:?}, but found none",
        kind
    );

    assert_eq!(
        matched.unwrap().value,
        expected_value,
        "Unexpected value for token kind {:?}",
        kind
    );
}

#[test]
fn test_line_and_column_positions_are_correct() {
    let css = ".block {\n  color: red;\n}";
    println!("{}", css);
    let mut lexer = Lexer::new(css);
    let tokens = lexer.tokenize();

    let block = tokens
        .iter()
        .find(|t| t.kind == TokenKind::ClassSelector)
        .unwrap();
    assert_eq!(block.line, 1);
    assert_eq!(block.column, 0);

    let color = tokens
        .iter()
        .find(|t| t.kind == TokenKind::Identifier)
        .unwrap();
    assert_eq!(color.line, 2);
    assert_eq!(color.column, 2);
}

#[test]
fn test_tokenize_identifier() {
    let css = "a { color: rgb(255, 35, 105); }";
    let mut lexer = Lexer::new(css);
    let tokens = lexer.tokenize();

    assert_eq_token_values(&tokens, &TokenKind::Identifier, &["color", "rgb"]);
    assert_eq_token_kind(&tokens, &TokenKind::Identifier, 2);
}

#[test]
fn test_tokenize_class_selector() {
    let css = ".block { width: 100%; }";
    let mut lexer = Lexer::new(css);
    let tokens = lexer.tokenize();

    assert_eq_token_value(&tokens, &TokenKind::ClassSelector, ".block");
    assert_eq_token_kind(&tokens, &TokenKind::ClassSelector, 1);
}

#[test]
fn test_tokenize_type_selector() {
    let css = "html {  }";
    let mut lexer = Lexer::new(css);
    let tokens = lexer.tokenize();

    assert_eq_token_value(&tokens, &TokenKind::TypeSelector, "html");
    assert_eq_token_kind(&tokens, &TokenKind::TypeSelector, 1);
}

#[test]
fn test_tokenize_id_selector() {
    let css = "#block { width: 100%; }";
    let mut lexer = Lexer::new(css);
    let tokens = lexer.tokenize();

    assert_eq_token_value(&tokens, &TokenKind::IdSelector, "#block");
    assert_eq_token_kind(&tokens, &TokenKind::IdSelector, 1);
}

#[test]
fn test_tokenize_pseudo_class() {
    let css = ".block:hover { width: 100%; }";
    let mut lexer = Lexer::new(css);
    let tokens = lexer.tokenize();

    assert_eq_token_value(&tokens, &TokenKind::PseudoClass, ":hover");
    assert_eq_token_kind(&tokens, &TokenKind::PseudoClass, 1);
}

#[test]
fn test_tokenize_pseudo_element() {
    let css = ".block::before { content: ''; }";
    let mut lexer = Lexer::new(css);
    let tokens = lexer.tokenize();

    assert_eq_token_value(&tokens, &TokenKind::PseudoElement, "::before");
    assert_eq_token_kind(&tokens, &TokenKind::PseudoElement, 1);
}

#[test]
fn test_tokenize_curly_braces() {
    let css = "a { width: 100%; }";
    let mut lexer = Lexer::new(css);
    let tokens = lexer.tokenize();

    assert_eq_token_value(&tokens, &TokenKind::CurlyOpen, "{");
    assert_eq_token_kind(&tokens, &TokenKind::CurlyOpen, 1);

    assert_eq_token_value(&tokens, &TokenKind::CurlyClose, "}");
    assert_eq_token_kind(&tokens, &TokenKind::CurlyClose, 1);
}

#[test]
fn test_tokenize_parentheses() {
    let css = "a { color: rgb(255, 35, 105); width: calc(10 + 15px); }";
    let mut lexer = Lexer::new(css);
    let tokens = lexer.tokenize();

    assert_eq_token_value(&tokens, &TokenKind::ParenOpen, "(");
    assert_eq_token_kind(&tokens, &TokenKind::ParenOpen, 2);

    assert_eq_token_value(&tokens, &TokenKind::ParenClose, ")");
    assert_eq_token_kind(&tokens, &TokenKind::ParenClose, 2);
}

#[test]
fn test_tokenize_colon() {
    let css = "a { width: 100%; }";
    let mut lexer = Lexer::new(css);
    let tokens = lexer.tokenize();

    assert_eq_token_value(&tokens, &TokenKind::Colon, ":");
    assert_eq_token_kind(&tokens, &TokenKind::Colon, 1);
}

#[test]
fn test_tokenize_semicolon() {
    let css = "a { width: 100%; }";
    let mut lexer = Lexer::new(css);
    let tokens = lexer.tokenize();

    assert_eq_token_value(&tokens, &TokenKind::Semicolon, ";");
    assert_eq_token_kind(&tokens, &TokenKind::Semicolon, 1);
}

#[test]
fn test_tokenize_at_rule() {
    let css = "@media (max-width: 768px) {  }";
    let mut lexer = Lexer::new(css);
    let tokens = lexer.tokenize();

    assert_eq_token_value(&tokens, &TokenKind::AtRule, "@media");
    assert_eq_token_kind(&tokens, &TokenKind::AtRule, 1);
}

#[test]
fn test_tokenize_comment() {
    let css = "/* comment */";
    let mut lexer = Lexer::new(css);
    let tokens = lexer.tokenize();

    assert_eq_token_value(&tokens, &TokenKind::Comment, "/* comment */");
    assert_eq_token_kind(&tokens, &TokenKind::Comment, 1);
}

#[test]
fn test_tokenize_dimension() {
    let css = "a { width: 100px; }";
    let mut lexer = Lexer::new(css);
    let tokens = lexer.tokenize();

    assert_eq_token_value(&tokens, &TokenKind::Dimension, "100px");
    assert_eq_token_kind(&tokens, &TokenKind::Dimension, 1);
}

#[test]
fn test_tokenize_percentage() {
    let css = "a { width: 100%; }";
    let mut lexer = Lexer::new(css);
    let tokens = lexer.tokenize();

    assert_eq_token_value(&tokens, &TokenKind::Percentage, "100%");
    assert_eq_token_kind(&tokens, &TokenKind::Percentage, 1);
}

#[test]
fn test_tokenize_number() {
    let css = "a { color: rgb(255, 35, 105); }";
    let mut lexer = Lexer::new(css);
    let tokens = lexer.tokenize();

    assert_eq_token_values(&tokens, &TokenKind::Number, &["255", "35", "105"]);
    assert_eq_token_kind(&tokens, &TokenKind::Number, 3);
}

#[test]
fn test_tokenize_whole_input() {
    let css = "a { width: 100px; }";
    let mut lexer = Lexer::new(css);
    let tokens = lexer.tokenize();

    // Check the correct order of tokens with the correct values
    assert_eq!(tokens[0].kind, TokenKind::TypeSelector);
    assert_eq!(tokens[0].value, "a");

    assert_eq!(tokens[1].kind, TokenKind::Whitespace);

    assert_eq!(tokens[2].kind, TokenKind::CurlyOpen);
    assert_eq!(tokens[2].value, "{");

    assert_eq!(tokens[3].kind, TokenKind::Whitespace);

    assert_eq!(tokens[4].kind, TokenKind::Identifier);
    assert_eq!(tokens[4].value, "width");

    assert_eq!(tokens[5].kind, TokenKind::Colon);
    assert_eq!(tokens[5].value, ":");

    assert_eq!(tokens[6].kind, TokenKind::Whitespace);

    assert_eq!(tokens[7].kind, TokenKind::Dimension);
    assert_eq!(tokens[7].value, "100px");

    assert_eq!(tokens[8].kind, TokenKind::Semicolon);
    assert_eq!(tokens[8].value, ";");

    assert_eq!(tokens[9].kind, TokenKind::Whitespace);

    assert_eq!(tokens[10].kind, TokenKind::CurlyClose);
    assert_eq!(tokens[10].value, "}");
}

#[test]
fn test_tokenize_string() {
    let css = "@import url(\"../styles.test\")";
    let mut lexer = Lexer::new(css);
    let tokens = lexer.tokenize();

    assert_eq_token_kind(&tokens, &TokenKind::String, 1);
}

#[test]
fn test_tokenize_attribute_selector() {
    let css = "input[type=\"text\"] { color: blue; }";
    let mut lexer = Lexer::new(css);
    let tokens = lexer.tokenize();

    assert_eq!(tokens[0].kind, TokenKind::TypeSelector);
    assert_eq!(tokens[0].value, "input");

    assert_eq!(tokens[1].kind, TokenKind::BracketOpen);
    assert_eq!(tokens[1].value, "[");

    assert_eq!(tokens[2].kind, TokenKind::Identifier);
    assert_eq!(tokens[2].value, "type");

    assert_eq!(tokens[3].kind, TokenKind::Equals);
    assert_eq!(tokens[3].value, "=");

    assert_eq!(tokens[4].kind, TokenKind::String);
    assert_eq!(tokens[4].value, "\"text\"");

    assert_eq!(tokens[5].kind, TokenKind::BracketClose);
    assert_eq!(tokens[5].value, "]");
}
