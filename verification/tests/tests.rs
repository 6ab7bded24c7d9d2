use lisp_parser::parser::ParseError;
use lisp_parser::parser::Parser;
use lisp_parser::scanner::ScanError;
use lisp_parser::scanner::Scanner;
use lisp_parser::scanner::Token;

fn test_parse(input: &str, expected: &str) {
    let scanner = Scanner::new(input);
    let tokens = scanner.scan().expect("scan failed");
    let mut parser = Parser::new(tokens);
    let result = parser.parse().expect("parse failed").render();
    assert_eq!(result, expected);
}

fn parse_error(input: &str) -> ParseError {
    let scanner = Scanner::new(input);
    let tokens = scanner.scan().expect("scan failed");
    let mut parser = Parser::new(tokens);
    match parser.parse() {
        Ok(expr) => panic!("expected a parse error, got {}", expr.render()),
        Err(e) => e,
    }
}

#[test]
fn test_empty() {
    test_parse("", "[]");
}

#[test]
fn test_parse_number() {
    test_parse("42", "42");
}

#[test]
fn test_parse_identifier() {
    test_parse("foo", "\"foo\"");
}

#[test]
fn test_parse_identifiers() {
    test_parse("(foo bar)", "[\"foo\", \"bar\"]");
}

#[test]
fn test_parse_simple_list() {
    test_parse("(+ 1 2)", "[\"+\", 1, 2]");
}

#[test]
fn test_parse_nested_list() {
    test_parse(
        "(first (list 1 (+ 2 3) 9))",
        "[\"first\", [\"list\", 1, [\"+\", 2, 3], 9]]",
    );
}

#[test]
fn test_empty_list() {
    test_parse("()", "[]");
}

#[test]
fn test_nested_empty_lists() {
    test_parse("(() ())", "[[], []]");
}

#[test]
fn test_plus_alone() {
    test_parse("+", "\"+\"");
}

#[test]
fn test_identifier_with_digits() {
    test_parse("abc123", "\"abc123\"");
}

#[test]
fn test_identifier_absorbs_interior_delimiters() {
    test_parse("a(b1", "\"a(b1\"");
}

#[test]
fn test_trailing_tokens_ignored() {
    test_parse("foo bar", "\"foo\"");
}

#[test]
fn test_unknown_characters_skipped() {
    test_parse("*", "[]");
    test_parse("%3", "3");
}

#[test]
fn test_max_u64_literal() {
    test_parse("18446744073709551615", "18446744073709551615");
}

#[test]
fn test_numeric_overflow_is_an_error() {
    let scanner = Scanner::new("18446744073709551616");
    let result = scanner.scan();
    assert!(matches!(result, Err(ScanError::NumericOverflow)));
}

#[test]
fn test_unbalanced_open_paren_fails() {
    let err = parse_error("(foo");
    let ParseError::UnexpectedToken(desc) = err;
    assert_eq!(desc, "RightParen");
}

#[test]
fn test_unbalanced_close_paren_fails() {
    let err = parse_error(")");
    let ParseError::UnexpectedToken(desc) = err;
    assert_eq!(desc, "RightParen");
}

#[test]
fn test_error_message() {
    let err = parse_error("(foo");
    assert_eq!(err.render(), "Unexpected token: RightParen");
}

#[test]
fn test_scan_empty_yields_no_tokens() {
    let scanner = Scanner::new("");
    let tokens = scanner.scan().expect("scan failed");
    assert!(tokens.is_empty());
}

#[test]
fn test_scan_token_sequence() {
    let scanner = Scanner::new("(+ 1 x)");
    let tokens = scanner.scan().expect("scan failed");
    assert_eq!(
        tokens,
        vec![
            Token::LeftParen,
            Token::Identifier(String::from("+")),
            Token::Number(1),
            Token::Identifier(String::from("x")),
            Token::RightParen,
        ]
    );
}

#[test]
fn test_token_descriptions() {
    assert_eq!(Token::LeftParen.render(), "LeftParen");
    assert_eq!(Token::RightParen.render(), "RightParen");
    assert_eq!(Token::Identifier(String::from("foo")).render(), "Identifier(\"foo\")");
    assert_eq!(Token::Number(42).render(), "Number(42)");
}

#[test]
fn test_rendered_output_is_not_lisp_syntax() {
    let first = {
        let scanner = Scanner::new("(foo)");
        let tokens = scanner.scan().expect("scan failed");
        Parser::new(tokens).parse().expect("parse failed").render()
    };
    assert_eq!(first, "[\"foo\"]");
    let second = {
        let scanner = Scanner::new(&first);
        let tokens = scanner.scan().expect("scan failed");
        Parser::new(tokens).parse().expect("parse failed").render()
    };
    assert_ne!(second, first);
    assert_eq!(second, "\"foo\"]\"");
}
