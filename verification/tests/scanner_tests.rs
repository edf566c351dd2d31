use lox_rs::scanner::Scanner;
use lox_rs::token::{LexMessage, Literal, NumberValue, Token, TokenType};

fn scan(source: &str) -> Vec<Token> {
    let mut scanner = Scanner::new(source);
    scanner.scan_tokens()
}

fn types(tokens: &[Token]) -> Vec<TokenType> {
    tokens.iter().map(|t| t.token_type).collect()
}

#[test]
fn maximal_munch_two_char_operators() {
    assert_eq!(types(&scan("<=")), vec![TokenType::LessEqual, TokenType::Eof]);
    assert_eq!(types(&scan(">=")), vec![TokenType::GreaterEqual, TokenType::Eof]);
    assert_eq!(types(&scan("!=")), vec![TokenType::BangEqual, TokenType::Eof]);
    assert_eq!(types(&scan("==")), vec![TokenType::EqualEqual, TokenType::Eof]);
}

#[test]
fn single_char_operators_when_no_equal_follows() {
    assert_eq!(
        types(&scan("<>!=")),
        vec![TokenType::Less, TokenType::Greater, TokenType::BangEqual, TokenType::Eof]
    );
    assert_eq!(types(&scan("=")), vec![TokenType::Equal, TokenType::Eof]);
}

#[test]
fn punctuation_tokens() {
    assert_eq!(
        types(&scan("(){},.-+;*/")),
        vec![
            TokenType::LeftParens,
            TokenType::RightParens,
            TokenType::LeftBrace,
            TokenType::RightBrace,
            TokenType::Comma,
            TokenType::Dot,
            TokenType::Minus,
            TokenType::Plus,
            TokenType::SemiColon,
            TokenType::Star,
            TokenType::Slash,
            TokenType::Eof,
        ]
    );
}

#[test]
fn integer_literal_exact_value() {
    let tokens = scan("42");
    assert_eq!(tokens.len(), 2);
    assert_eq!(tokens[0].token_type, TokenType::Number);
    assert_eq!(tokens[0].lexeme, "42");
    assert_eq!(
        tokens[0].literal,
        Some(Literal::Number(NumberValue { mantissa: 42, scale: 0 }))
    );
}

#[test]
fn fractional_literal_exact_value() {
    let tokens = scan("3.25");
    assert_eq!(tokens[0].token_type, TokenType::Number);
    assert_eq!(tokens[0].lexeme, "3.25");
    assert_eq!(
        tokens[0].literal,
        Some(Literal::Number(NumberValue { mantissa: 325, scale: 2 }))
    );
}

#[test]
fn dot_without_following_digit_is_separate_token() {
    let tokens = scan("1.");
    assert_eq!(types(&tokens), vec![TokenType::Number, TokenType::Dot, TokenType::Eof]);
    assert_eq!(tokens[0].lexeme, "1");
    assert_eq!(
        tokens[0].literal,
        Some(Literal::Number(NumberValue { mantissa: 1, scale: 0 }))
    );
}

#[test]
fn number_too_large_for_mantissa_is_error_token() {
    let tokens = scan("123456789012345678901");
    assert_eq!(
        tokens[0].token_type,
        TokenType::SyntaxError { error_msg: LexMessage::FailedNumberParse }
    );
    assert_eq!(
        LexMessage::FailedNumberParse.message(),
        "Failed to parse number."
    );
    assert_eq!(types(&tokens)[1], TokenType::Eof);
}

#[test]
fn every_stream_ends_with_exactly_one_eof() {
    for source in ["", "   ", "\n\n", "1 + 2", "\"abc", "// only a comment", "@#"] {
        let tokens = scan(source);
        assert!(!tokens.is_empty());
        assert_eq!(tokens.last().unwrap().token_type, TokenType::Eof);
        assert_eq!(tokens.last().unwrap().lexeme, "");
        let eofs = tokens
            .iter()
            .filter(|t| t.token_type == TokenType::Eof)
            .count();
        assert_eq!(eofs, 1);
    }
}

#[test]
fn empty_input_gives_only_eof() {
    let tokens = scan("");
    assert_eq!(tokens.len(), 1);
    assert_eq!(tokens[0].token_type, TokenType::Eof);
    assert_eq!(tokens[0].line, 1);
}

#[test]
fn unterminated_string_is_single_error_token() {
    let tokens = scan("\"abc");
    assert_eq!(tokens.len(), 2);
    assert_eq!(
        tokens[0].token_type,
        TokenType::SyntaxError { error_msg: LexMessage::UnterminatedString }
    );
    assert_eq!(LexMessage::UnterminatedString.message(), "Unterminated string.");
    assert_eq!(tokens[1].token_type, TokenType::Eof);
}

#[test]
fn string_lexeme_is_raw_and_literal_is_stripped() {
    let tokens = scan("\"hi there\"");
    assert_eq!(tokens[0].token_type, TokenType::String);
    assert_eq!(tokens[0].lexeme, "\"hi there\"");
    assert_eq!(tokens[0].literal, Some(Literal::Str(String::from("hi there"))));
}

#[test]
fn empty_string_literal() {
    let tokens = scan("\"\"");
    assert_eq!(tokens[0].token_type, TokenType::String);
    assert_eq!(tokens[0].lexeme, "\"\"");
    assert_eq!(tokens[0].literal, Some(Literal::Str(String::new())));
}

#[test]
fn newlines_in_strings_and_source_advance_line_counter() {
    let tokens = scan("1\n\"a\nb\"\n2");
    assert_eq!(tokens[0].line, 1);
    assert_eq!(tokens[1].token_type, TokenType::String);
    assert_eq!(tokens[1].line, 3);
    assert_eq!(tokens[2].line, 4);
    assert_eq!(tokens[3].token_type, TokenType::Eof);
    assert_eq!(tokens[3].line, 4);
}

#[test]
fn comments_are_discarded_to_end_of_line() {
    let tokens = scan("1 // the rest is ignored ===\n2");
    assert_eq!(types(&tokens), vec![TokenType::Number, TokenType::Number, TokenType::Eof]);
    assert_eq!(tokens[1].line, 2);
}

#[test]
fn slash_alone_is_a_token() {
    assert_eq!(types(&scan("1/2")), vec![
        TokenType::Number,
        TokenType::Slash,
        TokenType::Number,
        TokenType::Eof,
    ]);
}

#[test]
fn keywords_are_recognized() {
    let source = "and class else false for fun if nil or print return super this true var while";
    let tokens = scan(source);
    assert_eq!(
        types(&tokens),
        vec![
            TokenType::And,
            TokenType::Class,
            TokenType::Else,
            TokenType::False,
            TokenType::For,
            TokenType::Fun,
            TokenType::If,
            TokenType::Nil,
            TokenType::Or,
            TokenType::Print,
            TokenType::Return,
            TokenType::Super,
            TokenType::This,
            TokenType::True,
            TokenType::Var,
            TokenType::While,
            TokenType::Eof,
        ]
    );
}

#[test]
fn non_keywords_are_identifiers() {
    let tokens = scan("andx _foo a1_b");
    assert_eq!(types(&tokens), vec![
        TokenType::Identifer,
        TokenType::Identifer,
        TokenType::Identifer,
        TokenType::Eof,
    ]);
    assert_eq!(tokens[0].lexeme, "andx");
    assert_eq!(tokens[1].lexeme, "_foo");
    assert_eq!(tokens[2].lexeme, "a1_b");
}

#[test]
fn unexpected_character_is_error_token_and_scanning_continues() {
    let tokens = scan("@1");
    assert_eq!(
        tokens[0].token_type,
        TokenType::SyntaxError { error_msg: LexMessage::UnexpectedCharacter }
    );
    assert_eq!(LexMessage::UnexpectedCharacter.message(), "Unexpected character.");
    assert_eq!(tokens[1].token_type, TokenType::Number);
    assert_eq!(tokens[2].token_type, TokenType::Eof);
}

#[test]
fn rescanning_same_source_gives_equal_tokens() {
    let source = "var x = (1.5 + 2) * \"s\"; // tail\n!true";
    let first = scan(source);
    let second = scan(source);
    assert_eq!(first, second);
    let third = scan(source);
    assert_eq!(second, third);
}

#[test]
fn lexemes_tile_punctuation_runs() {
    // Maximal munch, covering form: without whitespace or comments the
    // lexemes spell the source back, cut into longest matches.
    for source in ["<=>=!===", "(){},.-+;*", "<=<", "1+2*(3.5)", "\"ab\"+\"cd\""] {
        let tokens = scan(source);
        let joined: String = tokens.iter().map(|t| t.lexeme.as_str()).collect();
        assert_eq!(joined, *source);
    }
}
