use css_autoprefixer::lexer::{Lexer, Token, TokenKind};
use css_autoprefixer::parser::{NodeKind, ParseError, Parser};

#[test]
fn test_to_ast_on_empty_tokens() {
    let tokens: Vec<Token> = Vec::new();
    let mut parser = Parser::new(tokens);
    let ast = parser.to_ast().unwrap();

    assert_eq!(ast.body.len(), 0);
}

#[test]
fn test_full_rule_with_declarations() {
    let input = "#block > .child { color: red; font-size: 20px; }";
    let tokens = Lexer::new(input).tokenize();
    let mut parser = Parser::new(tokens);
    let ast = parser.to_ast().unwrap();

    let rule = &ast.body[0];
    let declarations = &rule.children.as_ref().unwrap();

    assert_eq!(ast.body.len(), 1);

    assert_eq!(
        rule._type,
        NodeKind::Rule {
            selector: "#block > .child".to_string()
        }
    );
    assert!(rule.children.is_some());
    assert_eq!(
        declarations[0]._type,
        NodeKind::Declaration {
            property: "color".to_string(),
            value: "red".to_string()
        }
    );

    assert_eq!(
        declarations[1]._type,
        NodeKind::Declaration {
            property: "font-size".to_string(),
            value: "20px".to_string()
        }
    );
}

#[test]
fn test_complex_selector() {
    let css: &str = "div:hover > form:nth-child(2) { color: blue; }";
    let mut lexer = Lexer::new(css);
    let tokens = lexer.tokenize();
    let mut parser = Parser::new(tokens);
    let ast = parser.to_ast().unwrap();

    let rule = &ast.body[0];
    let declarations = &rule.children.as_ref().unwrap();

    assert_eq!(
        rule._type,
        NodeKind::Rule {
            selector: "div:hover > form:nth-child(2)".to_string()
        }
    );
    assert!(rule.children.is_some());

    assert_eq!(
        declarations[0]._type,
        NodeKind::Declaration {
            property: "color".to_string(),
            value: "blue".to_string()
        }
    );
}

#[test]
fn test_selector_with_attributes() {
    let css: &str = "input[type=\"email\"] { color: blue; }";
    let mut lexer = Lexer::new(css);
    let tokens = lexer.tokenize();
    let mut parser = Parser::new(tokens);
    let ast = parser.to_ast().unwrap();

    let rule = &ast.body[0];
    let declarations = &rule.children.as_ref().unwrap();

    assert_eq!(
        rule._type,
        NodeKind::Rule {
            selector: "input[type=\"email\"]".to_string()
        }
    );
    assert!(rule.children.is_some());

    assert_eq!(
        declarations[0]._type,
        NodeKind::Declaration {
            property: "color".to_string(),
            value: "blue".to_string()
        }
    );
}

#[test]
fn test_parse_property_and_value() {
    let css = ".block { background-color: rgba(255, 0, 0, 0.5); }";
    let mut lexer = Lexer::new(css);
    let tokens = lexer.tokenize();

    let mut parser = Parser::new(tokens);
    let ast = parser.to_ast().unwrap();

    let rule = &ast.body[0];
    let declarations = &rule.children.as_ref().unwrap();

    assert_eq!(
        declarations[0]._type,
        NodeKind::Declaration {
            property: "background-color".to_string(),
            value: "rgba(255, 0, 0, 0.5)".to_string()
        }
    );
}

#[test]
fn test_parse_at_rule() {
    let css = "@media (min-width: 767px) { .block { color: blue; } }";
    let mut lexer = Lexer::new(css);
    let tokens = lexer.tokenize();

    let mut parser = Parser::new(tokens);
    let ast = parser.to_ast().unwrap();

    let at_rule = &ast.body[0];
    let inner_rule = &at_rule.children.as_ref().unwrap()[0];
    let declarations = &inner_rule.children.as_ref().unwrap();

    assert_eq!(
        at_rule._type,
        NodeKind::AtRule {
            name: "@media".to_string(),
            params: "(min-width: 767px)".to_string()
        }
    );

    assert_eq!(
        declarations[0]._type,
        NodeKind::Declaration {
            property: "color".to_string(),
            value: "blue".to_string()
        }
    );
}

#[test]
fn test_parse_comment() {
    let css = "/* This is a comment */ .block { color: red; }";
    let mut lexer = Lexer::new(css);
    let tokens = lexer.tokenize();

    let mut parser = Parser::new(tokens);
    let ast = parser.to_ast().unwrap();

    let comment = &ast.body[0];

    assert_eq!(
        comment._type,
        NodeKind::Comment {
            text: "/* This is a comment */".to_string()
        }
    );

    assert_eq!(ast.body.len(), 2);
}

#[test]
fn test_parse_single_quoted_string() {
    let css = ".block { content: ''; }";
    let mut lexer = Lexer::new(css);
    let tokens = lexer.tokenize();
    let mut parser = Parser::new(tokens);
    let ast = parser.to_ast().unwrap();

    let rule = &ast.body[0];
    let declarations = &rule.children.as_ref().unwrap();

    println!("Declaration: {:?}", declarations[0]._type);

    assert_eq!(
        declarations[0]._type,
        NodeKind::Declaration {
            property: "content".to_string(),
            value: "''".to_string()
        }
    );
}

#[test]
fn test_parse_invalid_declaration_returns_unexpected_token() {
    let css = ".block { ==invalid; }";
    let mut lexer = Lexer::new(css);
    let tokens = lexer.tokenize();
    let mut parser = Parser::new(tokens);
    let result = parser.to_ast();

    assert!(result.is_err());

    match result.unwrap_err() {
        ParseError::UnexpectedToken {
            expected, found, ..
        } => {
            assert_eq!(expected, TokenKind::Identifier);
            assert_eq!(found, TokenKind::Equals);
        }
        e => panic!("Expected UnexpectedToken, got {:?}", e),
    }
}

#[test]
fn test_parse_empty_selector_returns_invalid_selector() {
    let css = "{ color: red; }";
    let mut lexer = Lexer::new(css);
    let tokens = lexer.tokenize();
    let mut parser = Parser::new(tokens);
    let result = parser.to_ast();

    assert!(result.is_err());

    match result.unwrap_err() {
        ParseError::InvalidSelector { .. } => {}
        e => panic!("Expected InvalidSelector, got {:?}", e),
    }
}
