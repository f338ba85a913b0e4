use css_autoprefixer::generator::Generator;
use css_autoprefixer::lexer::Lexer;
use css_autoprefixer::parser::Parser;

#[test]
fn test_generate_basic_rule() {
    let css = ".block { color: red; }";
    let mut lexer = Lexer::new(css);
    let tokens = lexer.tokenize();
    let mut parser = Parser::new(tokens);
    let ast = parser.to_ast().unwrap();
    let mut generator = Generator::new(ast);
    let output = generator.generate();

    assert_eq!(output, ".block {\n  color: red;\n}\n\n");
}

#[test]
fn test_generate_comment() {
    let css = "/* my comment */";
    let mut lexer = Lexer::new(css);
    let tokens = lexer.tokenize();
    let mut parser = Parser::new(tokens);
    let ast = parser.to_ast().unwrap();
    let mut generator = Generator::new(ast);
    let output = generator.generate();
    // assert the comment appears with a trailing newline
    assert_eq!(output, "/* my comment */\n");
}

#[test]
fn test_generate_prefixes_transition() {
    let css = ".row { transition: 0.5s ease-in; }";
    let mut lexer = Lexer::new(css);
    let tokens = lexer.tokenize();
    let mut parser = Parser::new(tokens);
    let ast = parser.to_ast().unwrap();
    let mut generator = Generator::new(ast);
    let output = generator.generate();

    // assert -webkit-transition appears BEFORE transition
    assert_eq!(
        output,
        ".row {\n  -webkit-transition: 0.5s ease-in;\n  transition: 0.5s ease-in;\n}\n\n"
    );
}

#[test]
fn test_generate_at_rule_statement() {
    let css = "@import url(\"styles.css\");";
    let mut lexer = Lexer::new(css);
    let tokens = lexer.tokenize();
    let mut parser = Parser::new(tokens);
    let ast = parser.to_ast().unwrap();
    let mut generator = Generator::new(ast);
    let output = generator.generate();

    // assert the at rule is output correctly
    assert_eq!(output, "@import url(\"styles.css\");\n");
}

#[test]
fn test_generate_at_rule_block() {
    let css = "@media screen { .block { color: red; } }";
    let mut lexer = Lexer::new(css);
    let tokens = lexer.tokenize();
    let mut parser = Parser::new(tokens);
    let ast = parser.to_ast().unwrap();
    let mut generator = Generator::new(ast);
    let output = generator.generate();

    assert_eq!(
        output,
        "@media screen {\n  .block {\n    color: red;\n  }\n}\n\n"
    );
}
