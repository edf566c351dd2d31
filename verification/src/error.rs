//! The single error channel handed back to callers: syntactic failures
//! with their line and offending token, and I/O failures from the outer
//! layers wrapped in message form. The compiler-style rendering
//! (`<line> at '<lexeme>' <message>`, or `<line> at end <message>` at the
//! sentinel) is specified exactly, down to the decimal digits of the line
//! number.

use vstd::prelude::*;

use crate::token::{Token, TokenType};

verus! {

/// The closed set of parse-error messages; each value maps to a fixed
/// piece of text (see [`ParseMessage::message`]).
#[derive(Clone, Copy, Debug, PartialEq, Eq, Structural)]
pub enum ParseMessage {
    ExpectExpression,
    ExpectRightParen,
}

impl ParseMessage {
    /// The text of this message, as a caller would print it.
    pub open spec fn spec_message(self) -> Seq<char> {
        match self {
            ParseMessage::ExpectExpression => "Expect expression."@,
            ParseMessage::ExpectRightParen => "Expect ')' after expression."@,
        }
    }

    pub fn message(&self) -> (s: String)
        ensures
            s@ == self.spec_message(),
    {
        match self {
            ParseMessage::ExpectExpression => String::from_str("Expect expression."),
            ParseMessage::ExpectRightParen => String::from_str("Expect ')' after expression."),
        }
    }
}

/// Errors returned to callers: the first syntactic failure of a parse
/// (message, line, offending token), or an I/O failure of the outer
/// boundary, passed through in message form.
#[derive(Debug)]
pub enum LoxError {
    ParserError(ParseMessage, u32, Token),
    Io(String),
}

/// The decimal digit character for `d` (meaningful for `0 <= d <= 9`).
pub open spec fn spec_digit_char(d: int) -> char {
    if d == 0 {
        '0'
    } else if d == 1 {
        '1'
    } else if d == 2 {
        '2'
    } else if d == 3 {
        '3'
    } else if d == 4 {
        '4'
    } else if d == 5 {
        '5'
    } else if d == 6 {
        '6'
    } else if d == 7 {
        '7'
    } else if d == 8 {
        '8'
    } else {
        '9'
    }
}

/// The usual base-10 rendering of a natural number, no sign, no leading
/// zeros (except for zero itself).
pub open spec fn spec_nat_string(n: nat) -> Seq<char>
    decreases n,
{
    if n < 10 {
        seq![spec_digit_char(n as int)]
    } else {
        spec_nat_string(n / 10) + seq![spec_digit_char((n % 10) as int)]
    }
}

/// One decimal digit as text.
fn digit_str(d: u32) -> (s: &'static str)
    requires
        d < 10,
    ensures
        s@ == seq![spec_digit_char(d as int)],
{
    proof {
        reveal_strlit("0");
        reveal_strlit("1");
        reveal_strlit("2");
        reveal_strlit("3");
        reveal_strlit("4");
        reveal_strlit("5");
        reveal_strlit("6");
        reveal_strlit("7");
        reveal_strlit("8");
        reveal_strlit("9");
    }
    let s = if d == 0 {
        "0"
    } else if d == 1 {
        "1"
    } else if d == 2 {
        "2"
    } else if d == 3 {
        "3"
    } else if d == 4 {
        "4"
    } else if d == 5 {
        "5"
    } else if d == 6 {
        "6"
    } else if d == 7 {
        "7"
    } else if d == 8 {
        "8"
    } else {
        "9"
    };
    proof {
        assert(s@ =~= seq![spec_digit_char(d as int)]);
    }
    s
}

/// Render `n` in decimal.
pub fn u32_digits(n: u32) -> (s: String)
    ensures
        s@ == spec_nat_string(n as nat),
    decreases n,
{
    if n < 10 {
        String::from_str(digit_str(n))
    } else {
        let mut s = u32_digits(n / 10);
        s.append(digit_str(n % 10));
        s
    }
}

impl LoxError {
    /// The compiler-style diagnostic for this error: the line, where it
    /// happened (`at end` when the offending token is the sentinel, else
    /// the offending lexeme in quotes), and the message.
    pub open spec fn spec_display(self) -> Seq<char> {
        match self {
            LoxError::ParserError(msg, line, token) => if token.token_type == TokenType::Eof {
                spec_nat_string(line as nat) + " at end "@ + msg.spec_message()
            } else {
                spec_nat_string(line as nat) + " at '"@ + token.lexeme@ + "' "@
                    + msg.spec_message()
            },
            LoxError::Io(s) => "IO Error: "@ + s@,
        }
    }

    /// Render the diagnostic; the result is exactly [`LoxError::spec_display`].
    pub fn to_display_string(&self) -> (s: String)
        ensures
            s@ == self.spec_display(),
    {
        match self {
            LoxError::ParserError(msg, line, token) => {
                let mut s = u32_digits(*line);
                if token.token_type == TokenType::Eof {
                    s.append(" at end ");
                    let m = msg.message();
                    s.append(m.as_str());
                } else {
                    s.append(" at '");
                    s.append(token.lexeme.as_str());
                    s.append("' ");
                    let m = msg.message();
                    s.append(m.as_str());
                }
                s
            },
            LoxError::Io(m) => {
                let mut s = String::from_str("IO Error: ");
                s.append(m.as_str());
                s
            },
        }
    }
}

} // verus!
