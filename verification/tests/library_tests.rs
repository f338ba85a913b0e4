use css_autoprefixer::autoprefix::{autoprefix, parse_css};
use css_autoprefixer::cli::is_css_file;
use css_autoprefixer::generator::Generator;
use css_autoprefixer::lexer::{Lexer, SelectorDelimiter, Token, TokenKind};
use css_autoprefixer::parser::{Node, NodeKind, ParseError, Parser, AST};
use css_autoprefixer::text::{push_decimal, str_chars, string_from_chars, trim_chars};

fn kinds_and_values(css: &str) -> Vec<(TokenKind, String)> {
    Lexer::new(css)
        .tokenize()
        .into_iter()
        .map(|t| (t.kind, t.value))
        .collect()
}

#[test]
fn lexer_token_list_example() {
    let css = ".card {\n  transition: all 0.3s ease;\n}";
    let expected = vec![
        (TokenKind::ClassSelector, ".card"),
        (TokenKind::Whitespace, " "),
        (TokenKind::CurlyOpen, "{"),
        (TokenKind::Whitespace, "\n  "),
        (TokenKind::Identifier, "transition"),
        (TokenKind::Colon, ":"),
        (TokenKind::Whitespace, " "),
        (TokenKind::Identifier, "all"),
        (TokenKind::Whitespace, " "),
        (TokenKind::Dimension, "0.3s"),
        (TokenKind::Whitespace, " "),
        (TokenKind::Identifier, "ease"),
        (TokenKind::Semicolon, ";"),
        (TokenKind::Whitespace, "\n"),
        (TokenKind::CurlyClose, "}"),
    ];
    let got = kinds_and_values(css);
    assert_eq!(got.len(), expected.len());
    for (g, e) in got.iter().zip(expected.iter()) {
        assert_eq!(g.0, e.0);
        assert_eq!(g.1, e.1);
    }
}

#[test]
fn autoprefix_card_example() {
    let css = ".card {\n  transition: all 0.3s ease;\n  transform: translateY(-4px);\n  backdrop-filter: blur(10px);\n}\n";
    let out = autoprefix(css).unwrap();
    assert_eq!(
        out,
        ".card {\n  -webkit-transition: all 0.3s ease;\n  transition: all 0.3s ease;\n  -webkit-transform: translateY(-4px);\n  transform: translateY(-4px);\n  -webkit-backdrop-filter: blur(10px);\n  backdrop-filter: blur(10px);\n}\n\n"
    );
}

#[test]
fn tokenize_twice_gives_nothing_the_second_time() {
    let mut lexer = Lexer::new("a { color: red; }");
    let first = lexer.tokenize();
    assert!(!first.is_empty());
    let second = lexer.tokenize();
    assert!(second.is_empty());
}

#[test]
fn columns_count_utf8_bytes_and_lines_count_newlines() {
    // A name runs up to a selector delimiter; a newline is not one.
    let word = Lexer::new("ab\ncd").tokenize();
    assert_eq!(word[0].value, "ab\ncd");

    let tokens = Lexer::new("\u{e9} .a \n\n  #b").tokenize();
    let class = tokens.iter().find(|t| t.kind == TokenKind::ClassSelector).unwrap();
    assert_eq!(class.value, ".a");
    assert_eq!(class.line, 1);
    assert_eq!(class.column, 3);
    let id = tokens.iter().find(|t| t.kind == TokenKind::IdSelector).unwrap();
    assert_eq!(id.line, 3);
    assert_eq!(id.column, 2);
}

#[test]
fn comment_is_closed_by_the_first_star() {
    let got = kinds_and_values("/* a * b */x");
    assert_eq!(got[0].0, TokenKind::Comment);
    assert_eq!(got[0].1, "/* a */");
    assert_eq!(got[1].0, TokenKind::Identifier);
    assert_eq!(got[1].1, "b");
}

#[test]
fn unterminated_comment_and_string_are_closed() {
    let got = kinds_and_values("/* open");
    assert_eq!(got.len(), 1);
    assert_eq!(got[0].1, "/* open*/");
    let got = kinds_and_values("\"open");
    assert_eq!(got.len(), 1);
    assert_eq!(got[0].0, TokenKind::String);
    assert_eq!(got[0].1, "\"open\"");
}

#[test]
fn single_quoted_string_token() {
    let got = kinds_and_values("'a b'");
    assert_eq!(got.len(), 1);
    assert_eq!(got[0].0, TokenKind::String);
    assert_eq!(got[0].1, "'a b'");
}

#[test]
fn lone_slash_and_unknown_characters_are_skipped() {
    let got = kinds_and_values("/ * !");
    let kinds: Vec<TokenKind> = got.iter().map(|t| t.0).collect();
    assert_eq!(kinds, vec![TokenKind::Whitespace, TokenKind::Whitespace]);
}

#[test]
fn colon_forms() {
    let got = kinds_and_values("::x :y :1");
    assert_eq!(got[0], (TokenKind::PseudoElement, "::x".to_string()));
    assert_eq!(got[2], (TokenKind::PseudoClass, ":y".to_string()));
    assert_eq!(got[4], (TokenKind::Colon, ":".to_string()));
    assert_eq!(got[5], (TokenKind::Number, "1".to_string()));
}

#[test]
fn numbers_percentages_dimensions() {
    let got = kinds_and_values("1.5 50% 2em .5");
    assert_eq!(got[0], (TokenKind::Number, "1.5".to_string()));
    assert_eq!(got[2], (TokenKind::Percentage, "50%".to_string()));
    assert_eq!(got[4], (TokenKind::Dimension, "2em".to_string()));
    assert_eq!(got[6], (TokenKind::ClassSelector, ".5".to_string()));
}

#[test]
fn combinators_and_unicode_white_space() {
    let got = kinds_and_values("a>b~c+d \u{a0}\u{3000}");
    let kinds: Vec<TokenKind> = got.iter().map(|t| t.0).collect();
    assert_eq!(
        kinds,
        vec![
            TokenKind::TypeSelector,
            TokenKind::Combinator,
            TokenKind::Identifier,
            TokenKind::Combinator,
            TokenKind::Identifier,
            TokenKind::Combinator,
            TokenKind::Identifier,
            TokenKind::Whitespace,
        ]
    );
    assert_eq!(got[7].1, " \u{a0}\u{3000}");
}

#[test]
fn selector_delimiters_in_order() {
    assert_eq!(
        SelectorDelimiter::all(),
        vec![' ', '.', '{', '}', ':', ';', '#', '(', ')', ',', '+', '>', '~', '[', ']', '=']
    );
}

#[test]
fn missing_colon_is_unexpected_eof() {
    let tokens = Lexer::new(".block { color red; }").tokenize();
    let result = Parser::new(tokens).to_ast();
    match result {
        Err(ParseError::UnexpectedEOF) => {}
        other => panic!("unexpected {:?}", other.map(|a| a.body.len())),
    }
}

#[test]
fn at_rule_without_end_is_unexpected_eof() {
    let tokens = Lexer::new("@import url(x)").tokenize();
    assert!(matches!(Parser::new(tokens).to_ast(), Err(ParseError::UnexpectedEOF)));
}

#[test]
fn empty_value_is_unexpected_token_at_value_start() {
    let tokens = Lexer::new(".a { color: ; }").tokenize();
    match Parser::new(tokens).to_ast() {
        Err(ParseError::UnexpectedToken { expected, found, line, column }) => {
            assert_eq!(expected, TokenKind::Identifier);
            assert_eq!(found, TokenKind::Semicolon);
            assert_eq!(line, 1);
            assert_eq!(column, 12);
        }
        _ => panic!("expected UnexpectedToken"),
    }
}

#[test]
fn error_messages() {
    let e = ParseError::UnexpectedToken {
        expected: TokenKind::Identifier,
        found: TokenKind::Equals,
        line: 12,
        column: 305,
    };
    assert_eq!(e.to_string(), "Expected Identifier but found Equals at line 12, column 305 ");
    assert_eq!(ParseError::UnexpectedEOF.to_string(), "Unexpected end of input");
    let e = ParseError::InvalidSelector { line: 0, column: 7 };
    assert_eq!(e.to_string(), "Invalid selector at line 0, column 7");
}

#[test]
fn universal_selector_token_starts_a_rule() {
    let tokens = vec![
        Token::new(TokenKind::UniversalSelector, "*".to_string(), 1, 0),
        Token::new(TokenKind::CurlyOpen, "{".to_string(), 1, 1),
        Token::new(TokenKind::CurlyClose, "}".to_string(), 1, 2),
    ];
    let ast = Parser::new(tokens).to_ast().unwrap();
    assert_eq!(ast.body.len(), 1);
    assert_eq!(ast.body[0]._type, NodeKind::Rule { selector: "*".to_string() });
    assert_eq!(ast.body[0].children.as_ref().unwrap().len(), 0);
}

#[test]
fn parsed_tree_shape() {
    let ast = parse_css("/* c */ @media  screen  and (x) { a { b: c  d ; } } p { q: r; }").unwrap();
    assert_eq!(ast.body.len(), 3);
    assert_eq!(ast.body[0]._type, NodeKind::Comment { text: "/* c */".to_string() });
    assert!(ast.body[0].children.is_none());
    assert_eq!(
        ast.body[1]._type,
        NodeKind::AtRule { name: "@media".to_string(), params: "screen and (x)".to_string() }
    );
    let inner = ast.body[1].children.as_ref().unwrap();
    assert_eq!(inner[0]._type, NodeKind::Rule { selector: "a".to_string() });
    let decls = inner[0].children.as_ref().unwrap();
    assert_eq!(
        decls[0]._type,
        NodeKind::Declaration { property: "b".to_string(), value: "c d".to_string() }
    );
    assert!(decls[0].children.is_none());
    assert_eq!(ast.body[2]._type, NodeKind::Rule { selector: "p".to_string() });
}

#[test]
fn generate_twice_gives_the_same_text() {
    let ast = parse_css("@media print { .a { appearance: none; tab-size: 4; } }").unwrap();
    let mut generator = Generator::new(ast);
    let first = generator.generate();
    let second = generator.generate();
    assert_eq!(first, second);
    assert_eq!(
        first,
        "@media print {\n  .a {\n    -webkit-appearance: none;\n    -moz-appearance: none;\n    appearance: none;\n    -moz-tab-size: 4;\n    tab-size: 4;\n  }\n}\n\n"
    );
}

#[test]
fn unprefixed_property_is_printed_once() {
    assert_eq!(autoprefix("a { color: red; }").unwrap(), "a {\n  color: red;\n}\n\n");
}

#[test]
fn autoprefix_reports_parse_errors() {
    assert!(matches!(autoprefix("{ }"), Err(ParseError::InvalidSelector { line: 1, column: 0 })));
}

#[test]
fn css_file_names() {
    assert!(is_css_file("style.css"));
    assert!(is_css_file(".css"));
    assert!(!is_css_file("style.scss.txt"));
    assert!(!is_css_file("css"));
    assert!(!is_css_file("style.CSS"));
}

#[test]
fn text_helpers() {
    let v = str_chars("  a b \u{2028}");
    assert_eq!(v, vec![' ', ' ', 'a', ' ', 'b', ' ', '\u{2028}']);
    assert_eq!(trim_chars(&v), vec!['a', ' ', 'b']);
    assert_eq!(string_from_chars(&vec!['x', 'y']), "xy");
    let mut s = String::from("n=");
    push_decimal(&mut s, 1907);
    assert_eq!(s, "n=1907");
    let mut z = String::new();
    push_decimal(&mut z, 0);
    assert_eq!(z, "0");
}

#[test]
fn cloned_tree_prints_the_same() {
    let ast = parse_css("@media x { a { b: c; } } /* d */").unwrap();
    let copy = ast.clone();
    assert_eq!(copy.body.len(), ast.body.len());
    let node_copy = ast.body[0].clone();
    assert_eq!(node_copy._type, ast.body[0]._type);
    assert_eq!(node_copy.children.as_ref().unwrap().len(), 1);
    assert_eq!(Generator::new(copy).generate(), Generator::new(ast).generate());
}

#[test]
fn joined_body_prints_joined_text() {
    let a = parse_css(".a { transform: none; }").unwrap();
    let b = parse_css("@import x; /* c */").unwrap();
    let mut joined = a.clone().body;
    joined.extend(b.clone().body);
    let whole = Generator::new(AST { body: joined }).generate();
    let parts = Generator::new(a).generate() + &Generator::new(b).generate();
    assert_eq!(whole, parts);
}

#[test]
fn positions_only_change_error_locations() {
    let moved = |tokens: &Vec<Token>| -> Vec<Token> {
        tokens
            .iter()
            .map(|t| Token::new(t.kind, t.value.clone(), t.line + 7, t.column + 3))
            .collect()
    };
    let good = Lexer::new("a { b: c; }").tokenize();
    let moved_good = moved(&good);
    let t1 = Parser::new(good).to_ast().unwrap();
    let t2 = Parser::new(moved_good).to_ast().unwrap();
    assert_eq!(t1.body[0]._type, t2.body[0]._type);
    let bad = Lexer::new("a { = }").tokenize();
    let moved_bad = moved(&bad);
    match (Parser::new(bad).to_ast(), Parser::new(moved_bad).to_ast()) {
        (
            Err(ParseError::UnexpectedToken { expected: e1, found: f1, line: l1, column: c1 }),
            Err(ParseError::UnexpectedToken { expected: e2, found: f2, line: l2, column: c2 }),
        ) => {
            assert_eq!(e1, e2);
            assert_eq!(f1, f2);
            assert_eq!(l2, l1 + 7);
            assert_eq!(c2, c1 + 3);
        }
        _ => panic!("expected two UnexpectedToken errors"),
    }
}

#[test]
fn rule_node_without_children_prints_empty_block() {
    let ast = AST { body: vec![Node::new(NodeKind::Rule { selector: "a".to_string() }, None)] };
    assert_eq!(Generator::new(ast).generate(), "a {\n}\n\n");
}
