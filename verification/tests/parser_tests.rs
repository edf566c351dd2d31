use lox_rs::error::{LoxError, ParseMessage};
use lox_rs::parser::{Expr, Literal, Parser};
use lox_rs::scanner::Scanner;
use lox_rs::token::{NumberValue, TokenType};

fn parse_source(source: &str) -> Result<Expr, LoxError> {
    let mut scanner = Scanner::new(source);
    let tokens = scanner.scan_tokens();
    let mut parser = Parser::new(tokens);
    parser.parse()
}

fn number_of(e: &Expr) -> NumberValue {
    match e {
        Expr::Literal(Literal::Number(v)) => *v,
        other => panic!("expected a number literal, got {:?}", other),
    }
}

#[test]
fn number_literal_parses() {
    let e = parse_source("42").unwrap();
    assert_eq!(number_of(&e), NumberValue { mantissa: 42, scale: 0 });
}

#[test]
fn true_false_nil_parse() {
    assert!(matches!(parse_source("true").unwrap(), Expr::Literal(Literal::True)));
    assert!(matches!(parse_source("false").unwrap(), Expr::Literal(Literal::False)));
    assert!(matches!(parse_source("nil").unwrap(), Expr::Literal(Literal::Nil)));
}

#[test]
fn string_literal_parses() {
    match parse_source("\"hello\"").unwrap() {
        Expr::Literal(Literal::String(s)) => assert_eq!(s, "hello"),
        other => panic!("expected a string literal, got {:?}", other),
    }
}

#[test]
fn chain_is_left_leaning() {
    // "1 - 2 - 3" must parse as (1 - 2) - 3.
    match parse_source("1 - 2 - 3").unwrap() {
        Expr::Binary(outer) => {
            assert_eq!(outer.operator.token_type, TokenType::Minus);
            assert_eq!(number_of(&outer.right), NumberValue { mantissa: 3, scale: 0 });
            match *outer.left {
                Expr::Binary(inner) => {
                    assert_eq!(inner.operator.token_type, TokenType::Minus);
                    assert_eq!(number_of(&inner.left), NumberValue { mantissa: 1, scale: 0 });
                    assert_eq!(number_of(&inner.right), NumberValue { mantissa: 2, scale: 0 });
                }
                other => panic!("expected a nested binary on the left, got {:?}", other),
            }
        }
        other => panic!("expected a binary expression, got {:?}", other),
    }
}

#[test]
fn precedence_binds_factor_tighter_than_term() {
    // "1 + 2 * 3" must parse as 1 + (2 * 3).
    match parse_source("1 + 2 * 3").unwrap() {
        Expr::Binary(outer) => {
            assert_eq!(outer.operator.token_type, TokenType::Plus);
            assert_eq!(number_of(&outer.left), NumberValue { mantissa: 1, scale: 0 });
            match *outer.right {
                Expr::Binary(inner) => {
                    assert_eq!(inner.operator.token_type, TokenType::Star);
                    assert_eq!(number_of(&inner.left), NumberValue { mantissa: 2, scale: 0 });
                    assert_eq!(number_of(&inner.right), NumberValue { mantissa: 3, scale: 0 });
                }
                other => panic!("expected a nested binary on the right, got {:?}", other),
            }
        }
        other => panic!("expected a binary expression, got {:?}", other),
    }
}

#[test]
fn round_trip_bang_true() {
    // "!true" -> tokens [Bang, True, Eof] -> Unary(Bang, Literal(True)).
    let mut scanner = Scanner::new("!true");
    let tokens = scanner.scan_tokens();
    let token_types: Vec<TokenType> = tokens.iter().map(|t| t.token_type).collect();
    assert_eq!(token_types, vec![TokenType::Bang, TokenType::True, TokenType::Eof]);
    let mut parser = Parser::new(tokens);
    match parser.parse().unwrap() {
        Expr::Unary(u) => {
            assert_eq!(u.operator.token_type, TokenType::Bang);
            assert!(matches!(*u.right, Expr::Literal(Literal::True)));
        }
        other => panic!("expected a unary expression, got {:?}", other),
    }
}

#[test]
fn double_unary_is_right_recursive() {
    match parse_source("!!false").unwrap() {
        Expr::Unary(outer) => {
            assert_eq!(outer.operator.token_type, TokenType::Bang);
            assert!(matches!(*outer.right, Expr::Unary(_)));
        }
        other => panic!("expected a unary expression, got {:?}", other),
    }
}

#[test]
fn grouping_parses() {
    match parse_source("(1 + 2) * 3").unwrap() {
        Expr::Binary(outer) => {
            assert_eq!(outer.operator.token_type, TokenType::Star);
            assert!(matches!(*outer.left, Expr::Grouping(_)));
        }
        other => panic!("expected a binary expression, got {:?}", other),
    }
}

#[test]
fn comparison_and_equality_levels_parse() {
    match parse_source("1 < 2 == true").unwrap() {
        Expr::Binary(outer) => {
            assert_eq!(outer.operator.token_type, TokenType::EqualEqual);
            match *outer.left {
                Expr::Binary(inner) => {
                    assert_eq!(inner.operator.token_type, TokenType::Less);
                }
                other => panic!("expected a comparison on the left, got {:?}", other),
            }
        }
        other => panic!("expected a binary expression, got {:?}", other),
    }
}

#[test]
fn missing_right_paren_reports_error_at_end() {
    match parse_source("(1 + 2") {
        Err(LoxError::ParserError(msg, line, token)) => {
            assert_eq!(msg, ParseMessage::ExpectRightParen);
            assert_eq!(msg.message(), "Expect ')' after expression.");
            assert_eq!(line, 1);
            assert_eq!(token.token_type, TokenType::Eof);
        }
        other => panic!("expected a parse error, got {:?}", other),
    }
}

#[test]
fn expect_expression_error_carries_offending_token() {
    match parse_source(")") {
        Err(LoxError::ParserError(msg, line, token)) => {
            assert_eq!(msg, ParseMessage::ExpectExpression);
            assert_eq!(msg.message(), "Expect expression.");
            assert_eq!(line, 1);
            assert_eq!(token.token_type, TokenType::RightParens);
            assert_eq!(token.lexeme, ")");
        }
        other => panic!("expected a parse error, got {:?}", other),
    }
}

#[test]
fn empty_input_is_expect_expression_at_end() {
    match parse_source("") {
        Err(LoxError::ParserError(msg, _, token)) => {
            assert_eq!(msg, ParseMessage::ExpectExpression);
            assert_eq!(token.token_type, TokenType::Eof);
        }
        other => panic!("expected a parse error, got {:?}", other),
    }
}

#[test]
fn parse_does_not_consume_beyond_the_expression() {
    // The parser stops after one expression; a following `;` is left for
    // a (future) statement grammar, so parsing succeeds on the prefix.
    let e = parse_source("1 + 2; 3").unwrap();
    assert!(matches!(e, Expr::Binary(_)));
}

#[test]
fn synchronize_skips_to_statement_boundary() {
    // After a `;` the recovery primitive stops, and the rest parses.
    let mut scanner = Scanner::new("; 42");
    let tokens = scanner.scan_tokens();
    let mut parser = Parser::new(tokens);
    parser.synchronize();
    let e = parser.parse().unwrap();
    assert_eq!(number_of(&e), NumberValue { mantissa: 42, scale: 0 });
}

#[test]
fn factor_chain_is_left_leaning() {
    // "8 / 2 / 2" must parse as (8 / 2) / 2.
    match parse_source("8 / 2 / 2").unwrap() {
        Expr::Binary(outer) => {
            assert_eq!(outer.operator.token_type, TokenType::Slash);
            assert_eq!(number_of(&outer.right), NumberValue { mantissa: 2, scale: 0 });
            assert!(matches!(*outer.left, Expr::Binary(_)));
        }
        other => panic!("expected a binary expression, got {:?}", other),
    }
}

#[test]
fn equality_chain_is_left_leaning() {
    // "1 == 2 == 3" must parse as (1 == 2) == 3.
    match parse_source("1 == 2 == 3").unwrap() {
        Expr::Binary(outer) => {
            assert_eq!(outer.operator.token_type, TokenType::EqualEqual);
            assert_eq!(number_of(&outer.right), NumberValue { mantissa: 3, scale: 0 });
            match *outer.left {
                Expr::Binary(inner) => {
                    assert_eq!(inner.operator.token_type, TokenType::EqualEqual);
                }
                other => panic!("expected a nested binary on the left, got {:?}", other),
            }
        }
        other => panic!("expected a binary expression, got {:?}", other),
    }
}

#[test]
fn unary_minus_on_number() {
    match parse_source("-1.5").unwrap() {
        Expr::Unary(u) => {
            assert_eq!(u.operator.token_type, TokenType::Minus);
            assert_eq!(number_of(&u.right), NumberValue { mantissa: 15, scale: 1 });
        }
        other => panic!("expected a unary expression, got {:?}", other),
    }
}

#[test]
fn mixed_literal_chain_is_left_leaning() {
    // "nil == \"a\" == true" must parse as (nil == "a") == true.
    match parse_source("nil == \"a\" == true").unwrap() {
        Expr::Binary(outer) => {
            assert_eq!(outer.operator.token_type, TokenType::EqualEqual);
            assert!(matches!(*outer.right, Expr::Literal(Literal::True)));
            match *outer.left {
                Expr::Binary(inner) => {
                    assert!(matches!(*inner.left, Expr::Literal(Literal::Nil)));
                    assert!(matches!(*inner.right, Expr::Literal(Literal::String(_))));
                }
                other => panic!("expected a nested binary on the left, got {:?}", other),
            }
        }
        other => panic!("expected a binary expression, got {:?}", other),
    }
}
