//! The token data model: one lexical unit of source text, the tag that
//! classifies it, and the literal value it may carry.

use vstd::prelude::*;

verus! {

/// Message carried by a `TokenType::SyntaxError` token. Lexical errors are
/// not fatal: the scanner tags the malformed fragment with one of these and
/// keeps going, so the message set is closed and each value maps to a fixed
/// piece of text (see [`LexMessage::message`]).
#[derive(Clone, Copy, Debug, PartialEq, Eq, Structural)]
pub enum LexMessage {
    UnterminatedString,
    UnexpectedCharacter,
    FailedNumberParse,
}

impl LexMessage {
    /// The text of this message, as a caller would print it.
    pub open spec fn spec_message(self) -> Seq<char> {
        match self {
            LexMessage::UnterminatedString => "Unterminated string."@,
            LexMessage::UnexpectedCharacter => "Unexpected character."@,
            LexMessage::FailedNumberParse => "Failed to parse number."@,
        }
    }

    pub fn message(&self) -> (s: String)
        ensures
            s@ == self.spec_message(),
    {
        match self {
            LexMessage::UnterminatedString => String::from_str("Unterminated string."),
            LexMessage::UnexpectedCharacter => String::from_str("Unexpected character."),
            LexMessage::FailedNumberParse => String::from_str("Failed to parse number."),
        }
    }
}

/// The closed set of token tags: single- and double-character punctuation,
/// literal kinds, keywords, the end-of-input sentinel, and the inline
/// lexical-error tag.
#[derive(Clone, Copy, Debug, PartialEq, Eq, Structural)]
pub enum TokenType {
    // Single-character tokens
    LeftParens,
    RightParens,
    LeftBrace,
    RightBrace,
    Comma,
    Dot,
    Minus,
    Plus,
    SemiColon,
    Slash,
    Star,
    // One- or two-character tokens
    Bang,
    BangEqual,
    Equal,
    EqualEqual,
    Greater,
    GreaterEqual,
    Less,
    LessEqual,
    // Literals
    Identifer,
    String,
    Number,
    // Keywords
    And,
    Class,
    Else,
    False,
    Fun,
    For,
    If,
    Nil,
    Or,
    Print,
    Return,
    Super,
    This,
    True,
    Var,
    While,
    Eof,
    SyntaxError { error_msg: LexMessage },
}

/// Exact value of a numeric lexeme `D+('.'D+)?`: the digits with the dot
/// removed, read as a base-10 integer (`mantissa`), and the count of digits
/// after the dot (`scale`). The mathematical value is
/// `mantissa / 10^scale`; a consumer that wants machine floating point
/// converts at its own boundary. The representation is exact up to its
/// machine limit: a lexeme whose digits exceed the 64-bit mantissa
/// becomes a `Failed to parse number.` error token instead of a rounded
/// value.
#[derive(Clone, Copy, Debug, PartialEq, Eq, Structural)]
pub struct NumberValue {
    pub mantissa: u64,
    pub scale: usize,
}

/// Semantic value extracted during scanning and held by a token.
#[derive(Debug, PartialEq)]
pub enum Literal {
    Identifer(String),
    Str(String),
    Number(NumberValue),
}

/// Mathematical model of a [`Literal`]: text as a character sequence.
pub enum SpecLiteral {
    Identifer(Seq<char>),
    Str(Seq<char>),
    Number(NumberValue),
}

impl DeepView for Literal {
    type V = SpecLiteral;

    open spec fn deep_view(&self) -> SpecLiteral {
        match self {
            Literal::Identifer(s) => SpecLiteral::Identifer(s@),
            Literal::Str(s) => SpecLiteral::Str(s@),
            Literal::Number(d) => SpecLiteral::Number(*d),
        }
    }
}

impl Literal {
    /// A copy with the same model.
    pub fn duplicate(&self) -> (l: Literal)
        ensures
            l.deep_view() == self.deep_view(),
    {
        match self {
            Literal::Identifer(s) => Literal::Identifer(s.clone()),
            Literal::Str(s) => Literal::Str(s.clone()),
            Literal::Number(d) => Literal::Number(*d),
        }
    }
}

/// Mathematical model of a [`Token`]: the lexeme as a character sequence and
/// the line as an unbounded natural number.
#[verifier::ext_equal]
pub struct SpecToken {
    pub token_type: TokenType,
    pub lexeme: Seq<char>,
    pub literal: Option<SpecLiteral>,
    pub line: nat,
}

/// A token whose tag announces a payload really carries it: `Number`
/// tokens hold a numeric literal and `String` tokens a string literal.
pub open spec fn token_carries_literal(t: SpecToken) -> bool {
    (t.token_type == TokenType::Number ==> (t.literal matches Some(SpecLiteral::Number(_)))) && (
    t.token_type == TokenType::String ==> (t.literal matches Some(SpecLiteral::Str(_))))
}

/// A well-formed token stream, as the scanner produces it: non-empty,
/// terminated by exactly one `Eof` sentinel (and none earlier), every
/// token carrying the literal its tag announces.
pub open spec fn stream_wf(ts: Seq<SpecToken>) -> bool {
    &&& ts.len() >= 1
    &&& ts.last().token_type == TokenType::Eof
    &&& forall|i: int| 0 <= i < ts.len() - 1 ==> ts[i].token_type != TokenType::Eof
    &&& forall|i: int| 0 <= i < ts.len() ==> token_carries_literal(ts[i])
}

/// One lexical unit: its tag, the source text it was scanned from, the
/// semantic value it carries (numbers and strings), and the line it ended on.
/// Tokens are created by the scanner and immutable thereafter.
#[derive(Debug, PartialEq)]
pub struct Token {
    pub token_type: TokenType,
    pub lexeme: String,
    pub literal: Option<Literal>,
    pub line: u32,
}

impl DeepView for Token {
    type V = SpecToken;

    open spec fn deep_view(&self) -> SpecToken {
        SpecToken {
            token_type: self.token_type,
            lexeme: self.lexeme@,
            literal: self.literal.deep_view(),
            line: self.line as nat,
        }
    }
}

impl Token {
    pub fn new(token_type: TokenType, lexeme: String, literal: Option<Literal>, line: u32) -> (t:
        Self)
        ensures
            t.token_type == token_type,
            t.lexeme@ == lexeme@,
            t.literal.deep_view() == literal.deep_view(),
            t.line == line,
    {
        Self { token_type, lexeme, literal, line }
    }

    /// A copy with the same model: tag, lexeme text, literal value and
    /// line all agree.
    pub fn duplicate(&self) -> (t: Token)
        ensures
            t.deep_view() == self.deep_view(),
    {
        let literal = match &self.literal {
            Some(l) => Some(l.duplicate()),
            None => None,
        };
        Token {
            token_type: self.token_type,
            lexeme: self.lexeme.clone(),
            literal,
            line: self.line,
        }
    }
}

} // verus!
