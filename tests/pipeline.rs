use yawlang::asmgen::AssemblerTargetFile;
use yawlang::lexer::{Keyword, LexError, Literal, Operator, Token};
use yawlang::parser::{ParseError, SyntaxNode};

fn tokens(code: &str) -> Vec<Token> {
    Token::extract_tokens(code).expect("tokenization failed")
}

fn compile(code: &str) -> String {
    let ast = SyntaxNode::generate_ast(tokens(code)).expect("parsing failed");
    AssemblerTargetFile::from_ast("out.s".to_string(), ast).content().to_string()
}

fn return_five_ast() -> SyntaxNode {
    SyntaxNode::Program(vec![Box::new(SyntaxNode::Function {
        name: "main".to_string(),
        parameters: vec![],
        return_type: "int".to_string(),
        body: Box::new(SyntaxNode::Block(vec![Box::new(SyntaxNode::ReturnStatement(Box::new(
            SyntaxNode::Literals(Literal::Integer(5)),
        )))])),
    })])
}

#[test]
fn whitespace_and_comments_only() {
    let toks = tokens("  \n// a comment\n\t// another\n");
    assert!(!toks.is_empty());
    assert!(toks.iter().all(|t| *t == Token::Whitespace || *t == Token::Comment));
    let ast = SyntaxNode::generate_ast(toks).unwrap();
    assert!(matches!(ast, SyntaxNode::Program(ref v) if v.is_empty()));
}

#[test]
fn empty_input() {
    assert_eq!(tokens(""), vec![]);
    let ast = SyntaxNode::generate_ast(vec![]).unwrap();
    assert!(matches!(ast, SyntaxNode::Program(ref v) if v.is_empty()));
}

#[test]
fn integer_literal_round_trip() {
    assert_eq!(tokens("42"), vec![Token::Literal(Literal::Integer(42))]);
    assert_eq!(tokens("0"), vec![Token::Literal(Literal::Integer(0))]);
    assert_eq!(
        tokens("9223372036854775807"),
        vec![Token::Literal(Literal::Integer(i64::MAX))]
    );
}

#[test]
fn integer_out_of_range() {
    assert_eq!(
        Token::extract_tokens("x 9223372036854775808;"),
        Err(LexError::IntegerOutOfRange("9223372036854775808;".to_string()))
    );
}

#[test]
fn invalid_token_reports_rest() {
    assert_eq!(
        Token::extract_tokens("return 1.5;"),
        Err(LexError::InvalidToken(".5;".to_string()))
    );
    assert_eq!(Token::extract_tokens("a @b"), Err(LexError::InvalidToken("@b".to_string())));
}

#[test]
fn tokens_of_a_function() {
    assert_eq!(
        tokens("int main() { return 5; }"),
        vec![
            Token::Identifier("int".to_string()),
            Token::Whitespace,
            Token::Identifier("main".to_string()),
            Token::OpenParenthesis,
            Token::CloseParenthesis,
            Token::Whitespace,
            Token::OpenBrace,
            Token::Whitespace,
            Token::Keyword(Keyword::Return),
            Token::Whitespace,
            Token::Literal(Literal::Integer(5)),
            Token::Semicolon,
            Token::Whitespace,
            Token::CloseBrace,
        ]
    );
}

#[test]
fn literal_kinds() {
    assert_eq!(
        tokens("'a' \"hi there\" true false"),
        vec![
            Token::Literal(Literal::Character('a')),
            Token::Whitespace,
            Token::Literal(Literal::String("\"hi there\"".to_string())),
            Token::Whitespace,
            Token::Literal(Literal::Boolean(true)),
            Token::Whitespace,
            Token::Literal(Literal::Boolean(false)),
        ]
    );
}

#[test]
fn keywords_and_brackets() {
    assert_eq!(
        tokens("let if else return[]"),
        vec![
            Token::Keyword(Keyword::Let),
            Token::Whitespace,
            Token::Keyword(Keyword::If),
            Token::Whitespace,
            Token::Keyword(Keyword::Else),
            Token::Whitespace,
            Token::Keyword(Keyword::Return),
            Token::OpenBracket,
            Token::CloseBracket,
        ]
    );
}

#[test]
fn keyword_prefix_of_identifier() {
    assert_eq!(
        tokens("lettuce"),
        vec![Token::Keyword(Keyword::Let), Token::Identifier("tuce".to_string())]
    );
}

#[test]
fn operators_two_character_forms() {
    assert_eq!(
        tokens("+-*/ == != < > <= >="),
        vec![
            Token::Operator(Operator::Plus),
            Token::Operator(Operator::Minus),
            Token::Operator(Operator::Multiply),
            Token::Operator(Operator::Divide),
            Token::Whitespace,
            Token::Operator(Operator::Equal),
            Token::Whitespace,
            Token::Operator(Operator::NotEqual),
            Token::Whitespace,
            Token::Operator(Operator::LessThan),
            Token::Whitespace,
            Token::Operator(Operator::GreaterThan),
            Token::Whitespace,
            Token::Operator(Operator::LessThanOrEqual),
            Token::Whitespace,
            Token::Operator(Operator::GreaterThanOrEqual),
        ]
    );
}

#[test]
fn unicode_whitespace() {
    assert_eq!(tokens("\u{a0}\u{3000}x"), vec![Token::Whitespace, Token::Identifier("x".to_string())]);
}

#[test]
fn parse_return_five() {
    let ast = SyntaxNode::generate_ast(tokens("int main() { return 5; }")).unwrap();
    assert_eq!(ast, return_five_ast());
}

#[test]
fn parse_with_trailing_newline() {
    let ast = SyntaxNode::generate_ast(tokens("int main() { return 5; }\n")).unwrap();
    assert_eq!(ast, return_five_ast());
}

#[test]
fn generate_return_five() {
    let target = AssemblerTargetFile::from_ast("main.yaw.s".to_string(), return_five_ast());
    assert_eq!(target.filename(), "main.yaw.s");
    assert_eq!(target.content(), ".globl main\nmain:\nmovl $5, %eax\nret\n");
    let text = target.content();
    let g = text.find(".globl main").unwrap();
    let l = text.find("main:").unwrap();
    let m = text.find("movl $5, %eax").unwrap();
    let r = text.find("ret").unwrap();
    assert!(g < l && l < m && m < r);
}

#[test]
fn unclosed_brace_is_an_error() {
    assert_eq!(
        SyntaxNode::generate_ast(tokens("int main() { return 5;")),
        Err(ParseError::UnexpectedEnd)
    );
    assert_eq!(SyntaxNode::generate_ast(tokens("{")), Err(ParseError::UnexpectedEnd));
}

#[test]
fn unmatched_token_is_an_error() {
    assert_eq!(
        SyntaxNode::generate_ast(tokens("{ + }")),
        Err(ParseError::UnexpectedToken(2))
    );
    assert_eq!(SyntaxNode::generate_ast(tokens("main")), Err(ParseError::UnexpectedToken(0)));
    assert_eq!(SyntaxNode::generate_ast(tokens("return")), Err(ParseError::UnexpectedEnd));
}

#[test]
fn filtering_before_parsing_keeps_the_ast() {
    let toks = tokens("{ return 7; // seven\n }\n{ return true; }");
    let filtered: Vec<Token> = toks
        .iter()
        .filter(|t| **t != Token::Whitespace && **t != Token::Comment)
        .cloned()
        .collect();
    let a = SyntaxNode::generate_ast(toks).unwrap();
    let b = SyntaxNode::generate_ast(filtered).unwrap();
    assert_eq!(a, b);
}

#[test]
fn boolean_return_loads_nothing() {
    assert_eq!(compile("int main() { return true; }"), ".globl main\nmain:\nret\n");
    assert_eq!(compile("int f() { return 'c'; }"), ".globl f\nf:\nret\n");
}

#[test]
fn negative_and_large_values_in_code() {
    let ast = SyntaxNode::Program(vec![Box::new(SyntaxNode::ReturnStatement(Box::new(
        SyntaxNode::Literals(Literal::Integer(i64::MIN)),
    )))]);
    let target = AssemblerTargetFile::from_ast("x.s".to_string(), ast);
    assert_eq!(target.content(), "movl $-9223372036854775808, %eax\nret\n");
    assert_eq!(compile("{ return 1234567890; }"), "movl $1234567890, %eax\nret\n");
}

#[test]
fn unknown_nodes_emit_nothing() {
    let ast = SyntaxNode::Program(vec![
        Box::new(SyntaxNode::Empty),
        Box::new(SyntaxNode::Identifier("x".to_string())),
        Box::new(SyntaxNode::Literals(Literal::Integer(3))),
    ]);
    assert_eq!(AssemblerTargetFile::from_ast("e.s".to_string(), ast).content(), "");
}

#[test]
fn two_functions_in_order() {
    assert_eq!(
        compile("int a() { return 1; }\nint b() { return 2; }"),
        ".globl a\na:\nmovl $1, %eax\nret\n.globl b\nb:\nmovl $2, %eax\nret\n"
    );
}

#[test]
fn extra_closing_brace_is_an_error() {
    assert_eq!(SyntaxNode::generate_ast(tokens("{ } }")), Err(ParseError::UnexpectedToken(4)));
    assert_eq!(SyntaxNode::generate_ast(tokens("}")), Err(ParseError::UnexpectedToken(0)));
}
