use lox_rs::error::{u32_digits, LoxError, ParseMessage};
use lox_rs::interpreter::Interpreter;
use lox_rs::parser::Parser;
use lox_rs::scanner::Scanner;

fn parse_err(source: &str) -> LoxError {
    let mut scanner = Scanner::new(source);
    let tokens = scanner.scan_tokens();
    let mut parser = Parser::new(tokens);
    match parser.parse() {
        Err(e) => e,
        Ok(e) => panic!("expected a parse error, got {:?}", e),
    }
}

#[test]
fn decimal_rendering_of_line_numbers() {
    assert_eq!(u32_digits(0), "0");
    assert_eq!(u32_digits(7), "7");
    assert_eq!(u32_digits(10), "10");
    assert_eq!(u32_digits(305), "305");
    assert_eq!(u32_digits(4294967295), "4294967295");
}

#[test]
fn display_at_end_for_sentinel_offender() {
    let e = parse_err("(1 + 2");
    assert_eq!(e.to_display_string(), "1 at end Expect ')' after expression.");
}

#[test]
fn display_quotes_lexeme_for_ordinary_offender() {
    let e = parse_err(")");
    assert_eq!(e.to_display_string(), "1 at ')' Expect expression.");
}

#[test]
fn display_uses_line_of_offending_token() {
    let e = parse_err("\n\n)");
    assert_eq!(e.to_display_string(), "3 at ')' Expect expression.");
}

#[test]
fn io_errors_pass_through_in_message_form() {
    let e = LoxError::Io(String::from("file not found"));
    assert_eq!(e.to_display_string(), "IO Error: file not found");
}

#[test]
fn parse_message_texts() {
    assert_eq!(ParseMessage::ExpectExpression.message(), "Expect expression.");
    assert_eq!(
        ParseMessage::ExpectRightParen.message(),
        "Expect ')' after expression."
    );
}

#[test]
fn interpreter_constructor_exists() {
    let _it = Interpreter::new();
}
