//! The lexical scanner: one forward pass over the source characters with
//! bounded lookahead, producing the token sequence that always ends in a
//! single `Eof` sentinel.
//!
//! The intended output is pinned down by [`spec_tokens`], a recursive
//! maximal-munch definition over the character sequence: each step
//! ([`scan_step`]) consumes at least one character and emits at most one
//! token, and the stream ends with the sentinel once the input is exhausted.
//! Lexical errors never stop the scan: they are emitted inline as
//! `SyntaxError`-tagged tokens.

use vstd::prelude::*;

use crate::token::{
    stream_wf, token_carries_literal, LexMessage, Literal, NumberValue, SpecLiteral, SpecToken,
    Token, TokenType,
};

verus! {

/// An ASCII decimal digit.
pub open spec fn is_digit_char(c: char) -> bool {
    '0' <= c && c <= '9'
}

/// A character that may start an identifier or keyword.
pub open spec fn is_alpha_char(c: char) -> bool {
    ('a' <= c && c <= 'z') || ('A' <= c && c <= 'Z') || c == '_'
}

/// A character that may continue an identifier or keyword.
pub open spec fn is_alnum_char(c: char) -> bool {
    is_alpha_char(c) || is_digit_char(c)
}

/// Whitespace: consumed and discarded, never part of a token.
pub open spec fn is_space_char(c: char) -> bool {
    c == ' ' || c == '\r' || c == '\t' || c == '\n'
}

/// The digit predicate, as a single function value shared by definitions
/// and proofs (distinct closure literals are not known to be equal).
pub open spec fn pred_digit() -> spec_fn(char) -> bool {
    |c: char| is_digit_char(c)
}

/// The identifier-continuation predicate.
pub open spec fn pred_alnum() -> spec_fn(char) -> bool {
    |c: char| is_alnum_char(c)
}

/// Everything but the closing quote of a string.
pub open spec fn pred_not_quote() -> spec_fn(char) -> bool {
    |c: char| c != '"'
}

/// Everything but the end of a comment line.
pub open spec fn pred_not_newline() -> spec_fn(char) -> bool {
    |c: char| c != '\n'
}

/// Length of the longest prefix of `s` whose characters all satisfy `f`
/// (the maximal-munch run).
pub open spec fn run_len(s: Seq<char>, f: spec_fn(char) -> bool) -> nat
    decreases s.len(),
{
    if s.len() > 0 && f(s[0]) {
        (1 + run_len(s.skip(1), f)) as nat
    } else {
        0
    }
}

/// `run_len` gives a prefix of matching characters, stopped by the first
/// non-matching character (if the run does not reach the end).
pub proof fn lemma_run_len(s: Seq<char>, f: spec_fn(char) -> bool)
    ensures
        run_len(s, f) <= s.len(),
        forall|i: int| 0 <= i < run_len(s, f) ==> f(s[i]),
        run_len(s, f) < s.len() ==> !f(s[run_len(s, f) as int]),
    decreases s.len(),
{
    if s.len() > 0 && f(s[0]) {
        lemma_run_len(s.skip(1), f);
        assert forall|i: int| 0 <= i < run_len(s, f) implies f(s[i]) by {
            if i > 0 {
                assert(s.skip(1)[i - 1] == s[i]);
            }
        }
        if run_len(s, f) < s.len() {
            assert(s.skip(1)[run_len(s, f) - 1] == s[run_len(s, f) as int]);
        }
    }
}

/// The converse: any index `n` bounding a matching prefix and stopped at a
/// non-matching character is exactly the run length.
pub proof fn lemma_run_len_is(s: Seq<char>, f: spec_fn(char) -> bool, n: nat)
    requires
        n <= s.len(),
        forall|i: int| 0 <= i < n ==> f(s[i]),
        n < s.len() ==> !f(s[n as int]),
    ensures
        run_len(s, f) == n,
    decreases s.len(),
{
    if n == 0 {
    } else {
        assert(f(s[0]));
        assert forall|i: int| 0 <= i < n - 1 implies f(s.skip(1)[i]) by {
            assert(s.skip(1)[i] == s[i + 1]);
        }
        if n - 1 < s.skip(1).len() {
            assert(s.skip(1)[n - 1] == s[n as int]);
        }
        lemma_run_len_is(s.skip(1), f, (n - 1) as nat);
    }
}

/// Number of `'\n'` characters in `s`; every one of them advances the
/// scanner's line counter, including inside strings and comments.
pub open spec fn newline_count(s: Seq<char>) -> nat
    decreases s.len(),
{
    if s.len() == 0 {
        0
    } else {
        newline_count(s.drop_last()) + if s.last() == '\n' {
            1nat
        } else {
            0nat
        }
    }
}

/// Newline counting distributes over splitting the sequence.
pub proof fn lemma_newline_split(s: Seq<char>, k: int)
    requires
        0 <= k <= s.len(),
    ensures
        newline_count(s) == newline_count(s.take(k)) + newline_count(s.skip(k)),
    decreases s.len(),
{
    if k == s.len() {
        assert(s.take(k) =~= s);
        assert(s.skip(k) =~= Seq::<char>::empty());
    } else {
        lemma_newline_split(s.drop_last(), k);
        assert(s.drop_last().take(k) =~= s.take(k));
        assert(s.drop_last().skip(k) =~= s.skip(k).drop_last());
        assert(s.skip(k).last() == s.last());
        assert(s.skip(k).len() > 0);
    }
}

/// A sequence without newlines counts zero of them.
pub proof fn lemma_newline_zero(s: Seq<char>)
    requires
        forall|i: int| 0 <= i < s.len() ==> s[i] != '\n',
    ensures
        newline_count(s) == 0,
    decreases s.len(),
{
    if s.len() > 0 {
        lemma_newline_zero(s.drop_last());
    }
}

/// Value of one digit character.
pub open spec fn digit_val(c: char) -> int {
    c as u32 - '0' as u32
}

/// The base-10 integer a digit sequence spells (most significant first).
pub open spec fn digits_val(s: Seq<char>) -> int
    decreases s.len(),
{
    if s.len() == 0 {
        0
    } else {
        digits_val(s.drop_last()) * 10 + digit_val(s.last())
    }
}

/// On digit characters the value is a nonnegative integer.
pub proof fn lemma_digits_val_nonneg(s: Seq<char>)
    requires
        forall|i: int| 0 <= i < s.len() ==> is_digit_char(s[i]),
    ensures
        digits_val(s) >= 0,
    decreases s.len(),
{
    if s.len() > 0 {
        lemma_digits_val_nonneg(s.drop_last());
        assert(is_digit_char(s.last()));
        assert(digit_val(s.last()) >= 0);
        assert(digits_val(s.drop_last()) * 10 >= 0) by (nonlinear_arith)
            requires
                digits_val(s.drop_last()) >= 0,
        ;
    }
}

/// Extending a digit sequence never shrinks its value: once a prefix
/// exceeds a bound, so does every extension.
pub proof fn lemma_digits_val_extend(s: Seq<char>, k: int)
    requires
        0 <= k <= s.len(),
        forall|i: int| 0 <= i < s.len() ==> is_digit_char(s[i]),
    ensures
        digits_val(s) >= digits_val(s.take(k)),
    decreases s.len(),
{
    if k < s.len() {
        lemma_digits_val_extend(s.drop_last(), k);
        assert(s.drop_last().take(k) =~= s.take(k));
        let pre = s.drop_last();
        lemma_digits_val_nonneg(pre);
        assert(digits_val(pre) * 10 >= digits_val(pre)) by (nonlinear_arith)
            requires
                digits_val(pre) >= 0,
        ;
        assert(is_digit_char(s.last()));
    } else {
        assert(s.take(k) =~= s);
    }
}

/// Keyword table: the fixed reserved words; anything else is an identifier.
pub open spec fn keyword_or_identifier(lex: Seq<char>) -> TokenType {
    if lex == "and"@ {
        TokenType::And
    } else if lex == "class"@ {
        TokenType::Class
    } else if lex == "else"@ {
        TokenType::Else
    } else if lex == "false"@ {
        TokenType::False
    } else if lex == "for"@ {
        TokenType::For
    } else if lex == "fun"@ {
        TokenType::Fun
    } else if lex == "if"@ {
        TokenType::If
    } else if lex == "nil"@ {
        TokenType::Nil
    } else if lex == "or"@ {
        TokenType::Or
    } else if lex == "print"@ {
        TokenType::Print
    } else if lex == "return"@ {
        TokenType::Return
    } else if lex == "super"@ {
        TokenType::Super
    } else if lex == "this"@ {
        TokenType::This
    } else if lex == "true"@ {
        TokenType::True
    } else if lex == "var"@ {
        TokenType::Var
    } else if lex == "while"@ {
        TokenType::While
    } else {
        TokenType::Identifer
    }
}

/// One step of the scanner: the token it emits (if any), how many
/// characters it consumes, and the line counter afterwards.
pub struct ScanStep {
    pub emit: Option<SpecToken>,
    pub consumed: nat,
    pub next_line: nat,
}

/// A one-character punctuation token.
pub open spec fn punct_step(tt: TokenType, s: Seq<char>, line: nat) -> ScanStep {
    ScanStep {
        emit: Some(SpecToken { token_type: tt, lexeme: s.take(1), literal: None, line }),
        consumed: 1,
        next_line: line,
    }
}

/// A character that forms a two-character operator exactly when followed
/// by `'='` (maximal munch).
pub open spec fn two_char_step(s: Seq<char>, line: nat, tt2: TokenType, tt1: TokenType) -> ScanStep {
    if s.len() >= 2 && s[1] == '=' {
        ScanStep {
            emit: Some(SpecToken { token_type: tt2, lexeme: s.take(2), literal: None, line }),
            consumed: 2,
            next_line: line,
        }
    } else {
        punct_step(tt1, s, line)
    }
}

/// A string literal: the lexeme is the raw quoted substring the token
/// was scanned from, the literal is the content between the quotes
/// (quotes stripped); if the input ends first, the whole remainder
/// becomes an `Unterminated string.` error token. Newlines inside the
/// string advance the line counter.
pub open spec fn string_step(s: Seq<char>, line: nat) -> ScanStep {
    let body = run_len(s.skip(1), pred_not_quote());
    if 1 + body < s.len() {
        let content = s.subrange(1, 1 + body as int);
        let end_line = line + newline_count(content);
        ScanStep {
            emit: Some(
                SpecToken {
                    token_type: TokenType::String,
                    lexeme: s.take(2 + body as int),
                    literal: Some(SpecLiteral::Str(content)),
                    line: end_line,
                },
            ),
            consumed: body + 2,
            next_line: end_line,
        }
    } else {
        let end_line = line + newline_count(s);
        ScanStep {
            emit: Some(
                SpecToken {
                    token_type: TokenType::SyntaxError { error_msg: LexMessage::UnterminatedString },
                    lexeme: s,
                    literal: None,
                    line: end_line,
                },
            ),
            consumed: s.len(),
            next_line: end_line,
        }
    }
}

/// A numeric literal `D+('.'D+)?`: the dot is consumed only when a digit
/// follows it. The literal is the exact decimal value of the lexeme; a
/// mantissa beyond the 64-bit range becomes a `Failed to parse number.`
/// error token.
pub open spec fn number_step(s: Seq<char>, line: nat) -> ScanStep {
    let ilen = run_len(s, pred_digit());
    let has_frac = ilen + 1 < s.len() && s[ilen as int] == '.' && is_digit_char(s[ilen as int + 1]);
    let flen = if has_frac {
        run_len(s.skip(ilen as int + 1), pred_digit())
    } else {
        0
    };
    let lexlen = if has_frac {
        ilen + 1 + flen
    } else {
        ilen
    };
    let lexeme = s.take(lexlen as int);
    let digits = if has_frac {
        s.take(ilen as int) + s.subrange(ilen as int + 1, lexlen as int)
    } else {
        s.take(ilen as int)
    };
    let v = digits_val(digits);
    if v <= u64::MAX {
        ScanStep {
            emit: Some(
                SpecToken {
                    token_type: TokenType::Number,
                    lexeme,
                    literal: Some(
                        SpecLiteral::Number(NumberValue { mantissa: v as u64, scale: flen as usize }),
                    ),
                    line,
                },
            ),
            consumed: lexlen,
            next_line: line,
        }
    } else {
        ScanStep {
            emit: Some(
                SpecToken {
                    token_type: TokenType::SyntaxError { error_msg: LexMessage::FailedNumberParse },
                    lexeme,
                    literal: None,
                    line,
                },
            ),
            consumed: lexlen,
            next_line: line,
        }
    }
}

/// An identifier or keyword: the maximal alphanumeric/underscore run,
/// classified by the keyword table.
pub open spec fn identifier_step(s: Seq<char>, line: nat) -> ScanStep {
    let len = run_len(s, pred_alnum());
    let lexeme = s.take(len as int);
    ScanStep {
        emit: Some(
            SpecToken { token_type: keyword_or_identifier(lexeme), lexeme, literal: None, line },
        ),
        consumed: len,
        next_line: line,
    }
}

/// One scanner step on a non-empty remainder `s`.
pub open spec fn scan_step(s: Seq<char>, line: nat) -> ScanStep {
    let c = s[0];
    if c == '(' {
        punct_step(TokenType::LeftParens, s, line)
    } else if c == ')' {
        punct_step(TokenType::RightParens, s, line)
    } else if c == '{' {
        punct_step(TokenType::LeftBrace, s, line)
    } else if c == '}' {
        punct_step(TokenType::RightBrace, s, line)
    } else if c == ',' {
        punct_step(TokenType::Comma, s, line)
    } else if c == '.' {
        punct_step(TokenType::Dot, s, line)
    } else if c == '-' {
        punct_step(TokenType::Minus, s, line)
    } else if c == '+' {
        punct_step(TokenType::Plus, s, line)
    } else if c == ';' {
        punct_step(TokenType::SemiColon, s, line)
    } else if c == '*' {
        punct_step(TokenType::Star, s, line)
    } else if c == '!' {
        two_char_step(s, line, TokenType::BangEqual, TokenType::Bang)
    } else if c == '=' {
        two_char_step(s, line, TokenType::EqualEqual, TokenType::Equal)
    } else if c == '<' {
        two_char_step(s, line, TokenType::LessEqual, TokenType::Less)
    } else if c == '>' {
        two_char_step(s, line, TokenType::GreaterEqual, TokenType::Greater)
    } else if c == '/' {
        if s.len() >= 2 && s[1] == '/' {
            // A comment runs to the end of the line and produces no token.
            ScanStep {
                emit: None,
                consumed: 2 + run_len(s.skip(2), pred_not_newline()),
                next_line: line,
            }
        } else {
            punct_step(TokenType::Slash, s, line)
        }
    } else if is_space_char(c) {
        ScanStep {
            emit: None,
            consumed: 1,
            next_line: line + if c == '\n' {
                1nat
            } else {
                0nat
            },
        }
    } else if c == '"' {
        string_step(s, line)
    } else if is_digit_char(c) {
        number_step(s, line)
    } else if is_alpha_char(c) {
        identifier_step(s, line)
    } else {
        ScanStep {
            emit: Some(
                SpecToken {
                    token_type: TokenType::SyntaxError { error_msg: LexMessage::UnexpectedCharacter },
                    lexeme: s.take(1),
                    literal: None,
                    line,
                },
            ),
            consumed: 1,
            next_line: line,
        }
    }
}

/// The end-of-input sentinel carrying the final line number.
pub open spec fn eof_token(line: nat) -> SpecToken {
    SpecToken { token_type: TokenType::Eof, lexeme: Seq::<char>::empty(), literal: None, line }
}

/// The full token sequence for source `s` starting at line `line`:
/// scanner steps until the input is exhausted, then exactly one `Eof`.
pub open spec fn spec_tokens(s: Seq<char>, line: nat) -> Seq<SpecToken>
    decreases s.len(),
{
    if s.len() == 0 {
        seq![eof_token(line)]
    } else {
        let st = scan_step(s, line);
        if 1 <= st.consumed <= s.len() {
            match st.emit {
                Some(t) => seq![t] + spec_tokens(s.skip(st.consumed as int), st.next_line),
                None => spec_tokens(s.skip(st.consumed as int), st.next_line),
            }
        } else {
            seq![eof_token(line)]
        }
    }
}

/// Every scanner step consumes between one character and the whole
/// remainder, and advances the line counter by exactly the newlines of
/// what it consumed.
pub proof fn lemma_scan_step(s: Seq<char>, line: nat)
    requires
        s.len() > 0,
    ensures
        1 <= scan_step(s, line).consumed <= s.len(),
        scan_step(s, line).next_line == line + newline_count(
            s.take(scan_step(s, line).consumed as int),
        ),
{
    let c = s[0];
    let st = scan_step(s, line);
    if c == '/' && s.len() >= 2 && s[1] == '/' {
        let f = pred_not_newline();
        lemma_run_len(s.skip(2), f);
        assert forall|i: int| 0 <= i < st.consumed implies s.take(st.consumed as int)[i]
            != '\n' by {
            if i >= 2 {
                assert(s.skip(2)[i - 2] == s[i]);
            }
        }
        lemma_newline_zero(s.take(st.consumed as int));
    } else if c == '"' {
        let f = pred_not_quote();
        let body = run_len(s.skip(1), f);
        lemma_run_len(s.skip(1), f);
        if 1 + body < s.len() {
            let content = s.subrange(1, 1 + body as int);
            assert(s.take(st.consumed as int) =~= s.take(1) + content + s.subrange(
                1 + body as int,
                2 + body as int,
            ));
            lemma_newline_split(s.take(st.consumed as int), 1 + body as int);
            lemma_newline_split(s.take(1 + body as int), 1);
            assert(s.take(st.consumed as int).take(1 + body as int) =~= s.take(1 + body as int));
            assert(s.take(1 + body as int).take(1) =~= s.take(1));
            assert(s.take(1 + body as int).skip(1) =~= content);
            lemma_newline_zero(s.take(1));
            let tail = s.take(st.consumed as int).skip(1 + body as int);
            assert(tail.len() == 1);
            assert(tail[0] == s[1 + body as int]);
            assert(s.skip(1)[body as int] == s[1 + body as int]);
            assert(s[1 + body as int] == '"');
            lemma_newline_zero(tail);
        } else {
            assert(st.consumed == s.len());
            assert(s.take(st.consumed as int) =~= s);
        }
    } else if is_digit_char(c) {
        let fd = pred_digit();
        let ilen = run_len(s, fd);
        lemma_run_len(s, fd);
        assert(ilen >= 1);
        let has_frac = ilen + 1 < s.len() && s[ilen as int] == '.' && is_digit_char(
            s[ilen as int + 1],
        );
        if has_frac {
            lemma_run_len(s.skip(ilen as int + 1), fd);
        }
        assert forall|i: int| 0 <= i < st.consumed implies s.take(st.consumed as int)[i]
            != '\n' by {
            if i < ilen {
                assert(is_digit_char(s[i]));
            } else if i == ilen {
                assert(s[i] == '.');
            } else {
                assert(s.skip(ilen as int + 1)[i - ilen - 1] == s[i]);
                assert(is_digit_char(s[i]));
            }
        }
        lemma_newline_zero(s.take(st.consumed as int));
    } else if is_alpha_char(c) {
        let fa = pred_alnum();
        lemma_run_len(s, fa);
        assert(run_len(s, fa) >= 1);
        assert forall|i: int| 0 <= i < st.consumed implies s.take(st.consumed as int)[i]
            != '\n' by {
            assert(is_alnum_char(s[i]));
        }
        lemma_newline_zero(s.take(st.consumed as int));
    } else {
        // One- and two-character tokens and whitespace.
        if st.consumed == 1 {
            if s[0] == '\n' {
                assert(s.take(1).last() == '\n');
                assert(s.take(1).drop_last() =~= Seq::<char>::empty());
                assert(newline_count(Seq::<char>::empty()) == 0);
                assert(newline_count(s.take(1)) == 1);
            } else {
                assert forall|i: int| 0 <= i < 1 implies s.take(1)[i] != '\n' by {
                    assert(s.take(1)[i] == s[0]);
                }
                lemma_newline_zero(s.take(1));
            }
        } else {
            assert(st.consumed == 2);
            assert forall|i: int| 0 <= i < 2 implies s.take(2)[i] != '\n' by {
                if i == 0 {
                    assert(s.take(2)[i] == s[0]);
                } else {
                    assert(s.take(2)[i] == s[1]);
                    assert(s[1] == '=');
                }
            }
            lemma_newline_zero(s.take(2));
        }
    }
}

/// Abstract state of a scanner: the characters not yet consumed and the
/// current line number.
pub struct ScannerModel {
    pub remaining: Seq<char>,
    pub line: nat,
}

/// The scanner: a materialized character array with a single forward
/// cursor and a line counter. One instance scans one source text.
pub struct Scanner {
    text: String,
    chars: Vec<char>,
    pos: usize,
    line: u32,
}

impl View for Scanner {
    type V = ScannerModel;

    closed spec fn view(&self) -> ScannerModel {
        ScannerModel {
            remaining: self.chars@.skip(self.pos as int),
            line: self.line as nat,
        }
    }
}

/// Decide whether `c` is an ASCII decimal digit.
fn digit_char(c: char) -> (b: bool)
    ensures
        b == is_digit_char(c),
{
    '0' <= c && c <= '9'
}

/// Decide whether `c` may start an identifier or keyword.
fn alpha_char(c: char) -> (b: bool)
    ensures
        b == is_alpha_char(c),
{
    ('a' <= c && c <= 'z') || ('A' <= c && c <= 'Z') || c == '_'
}

/// Decide whether `c` may continue an identifier or keyword.
fn alnum_char(c: char) -> (b: bool)
    ensures
        b == is_alnum_char(c),
{
    alpha_char(c) || digit_char(c)
}

impl Scanner {
    /// Internal consistency: the character array spells the text and the
    /// cursor is in range.
    pub closed spec fn wf(self) -> bool {
        self.chars@ == self.text@ && self.pos <= self.chars@.len()
    }

    /// A fresh scanner over `source`, cursor at the start, line counter 1.
    /// The characters are materialized up front so that the scan itself is
    /// a single forward pass with direct two-character lookahead.
    pub fn new(source: &str) -> (sc: Self)
        ensures
            sc.wf(),
            sc@.remaining == source@,
            sc@.line == 1,
    {
        let n = source.unicode_len();
        let mut chars: Vec<char> = Vec::new();
        let mut i: usize = 0;
        while i < n
            invariant
                i <= n,
                n == source@.len(),
                chars@ == source@.take(i as int),
            decreases n - i,
        {
            let c = source.get_char(i);
            chars.push(c);
            proof {
                assert(chars@ =~= source@.take(i as int + 1));
            }
            i = i + 1;
        }
        proof {
            assert(chars@ =~= source@);
        }
        let sc = Scanner { text: source.to_owned(), chars, pos: 0, line: 1 };
        proof {
            assert(sc@.remaining =~= source@);
        }
        sc
    }

    /// Build a token whose lexeme is the source slice `[start, end)` and
    /// whose line is the current line counter.
    fn make_token(&self, tt: TokenType, start: usize, end: usize, literal: Option<Literal>) -> (t:
        Token)
        requires
            self.wf(),
            start <= end <= self.chars@.len(),
        ensures
            t.deep_view() == (SpecToken {
                token_type: tt,
                lexeme: self.chars@.subrange(start as int, end as int),
                literal: literal.deep_view(),
                line: self.line as nat,
            }),
    {
        let lex = String::from_str(self.text.as_str().substring_char(start, end));
        Token { token_type: tt, lexeme: lex, literal, line: self.line }
    }

    /// Consume one character and emit the one-character token `tt`.
    fn single_token(&mut self, tt: TokenType) -> (t: Token)
        requires
            old(self).wf(),
            old(self).pos < old(self).chars@.len(),
        ensures
            final(self).wf(),
            final(self).chars == old(self).chars,
            final(self).text == old(self).text,
            final(self).line == old(self).line,
            final(self).pos == old(self).pos + 1,
            Some(t.deep_view()) == punct_step(
                tt,
                old(self).chars@.skip(old(self).pos as int),
                old(self).line as nat,
            ).emit,
    {
        let start = self.pos;
        let n = self.chars.len();
        assert(start < n);
        let t = self.make_token(tt, start, start + 1, None);
        self.pos = start + 1;
        proof {
            let rest = self.chars@.skip(start as int);
            assert(self.chars@.subrange(start as int, start as int + 1) =~= rest.take(1));
        }
        t
    }

    /// Consume one or two characters: the two-character operator `tt2` when
    /// the next character is `'='`, else the one-character operator `tt1`.
    fn one_or_two(&mut self, tt2: TokenType, tt1: TokenType) -> (t: Token)
        requires
            old(self).wf(),
            old(self).pos < old(self).chars@.len(),
        ensures
            final(self).wf(),
            final(self).chars == old(self).chars,
            final(self).text == old(self).text,
            final(self).line == old(self).line,
            ({
                let st = two_char_step(
                    old(self).chars@.skip(old(self).pos as int),
                    old(self).line as nat,
                    tt2,
                    tt1,
                );
                final(self).pos == old(self).pos + st.consumed && Some(t.deep_view())
                    == st.emit
            }),
    {
        let start = self.pos;
        let n = self.chars.len();
        assert(start < n);
        let ghost rest = self.chars@.skip(start as int);
        if start + 1 < n && self.chars[start + 1] == '=' {
            let t = self.make_token(tt2, start, start + 2, None);
            self.pos = start + 2;
            proof {
                assert(rest[1] == self.chars@[start as int + 1]);
                assert(self.chars@.subrange(start as int, start as int + 2) =~= rest.take(2));
            }
            t
        } else {
            let t = self.make_token(tt1, start, start + 1, None);
            self.pos = start + 1;
            proof {
                if 1 < rest.len() {
                    assert(rest[1] == self.chars@[start as int + 1]);
                }
                assert(self.chars@.subrange(start as int, start as int + 1) =~= rest.take(1));
            }
            t
        }
    }

    /// Consume a `//` comment through the end of the line; no token.
    fn skip_comment(&mut self)
        requires
            old(self).wf(),
            old(self).pos + 1 < old(self).chars@.len(),
            old(self).chars@[old(self).pos as int] == '/',
            old(self).chars@[old(self).pos as int + 1] == '/',
        ensures
            final(self).wf(),
            final(self).chars == old(self).chars,
            final(self).text == old(self).text,
            final(self).line == old(self).line,
            final(self).pos == old(self).pos + 2 + run_len(
                old(self).chars@.skip(old(self).pos as int + 2),
                pred_not_newline(),
            ),
    {
        let start = self.pos;
        let n = self.chars.len();
        let mut j = start + 2;
        while j < n && self.chars[j] != '\n'
            invariant
                start + 2 <= j <= n,
                n == self.chars@.len(),
                forall|i: int| start + 2 <= i < j ==> self.chars@[i] != '\n',
            decreases n - j,
        {
            j = j + 1;
        }
        proof {
            let tail = self.chars@.skip(start as int + 2);
            assert forall|i: int| 0 <= i < j - start - 2 implies pred_not_newline()(tail[i]) by {
                assert(tail[i] == self.chars@[start as int + 2 + i]);
            }
            if j - start - 2 < tail.len() {
                assert(tail[j - start - 2] == self.chars@[j as int]);
            }
            lemma_run_len_is(tail, pred_not_newline(), (j - start - 2) as nat);
        }
        self.pos = j;
    }

    /// Scan a string literal starting at the opening quote; on end of
    /// input before a closing quote, the whole remainder becomes an
    /// `Unterminated string.` error token.
    fn string_token(&mut self) -> (t: Token)
        requires
            old(self).wf(),
            old(self).pos < old(self).chars@.len(),
            old(self).chars@[old(self).pos as int] == '"',
            old(self).line as nat + newline_count(old(self).chars@.skip(old(self).pos as int))
                <= u32::MAX as nat,
        ensures
            final(self).wf(),
            final(self).chars == old(self).chars,
            final(self).text == old(self).text,
            ({
                let st = string_step(
                    old(self).chars@.skip(old(self).pos as int),
                    old(self).line as nat,
                );
                &&& final(self).pos == old(self).pos + st.consumed
                &&& final(self).line as nat == st.next_line
                &&& Some(t.deep_view()) == st.emit
            }),
    {
        let start = self.pos;
        let n = self.chars.len();
        let ghost line0 = self.line as nat;
        let ghost rest = self.chars@.skip(start as int);
        let mut j = start + 1;
        proof {
            assert(self.chars@.subrange(start as int + 1, start as int + 1) =~= Seq::<
                char,
            >::empty());
            assert(newline_count(Seq::<char>::empty()) == 0);
            lemma_newline_split(rest, 1);
            assert(rest.skip(1) =~= self.chars@.skip(start as int + 1));
        }
        while j < n && self.chars[j] != '"'
            invariant
                self.wf(),
                self.chars == old(self).chars,
                self.text == old(self).text,
                self.pos == old(self).pos,
                start == old(self).pos,
                start + 1 <= j <= n,
                n == self.chars@.len(),
                forall|i: int| start + 1 <= i < j ==> self.chars@[i] != '"',
                self.line as nat == line0 + newline_count(
                    self.chars@.subrange(start as int + 1, j as int),
                ),
                self.line as nat + newline_count(self.chars@.skip(j as int)) <= u32::MAX as nat,
            decreases n - j,
        {
            let c = self.chars[j];
            proof {
                lemma_newline_split(self.chars@.skip(j as int), 1);
                assert(self.chars@.skip(j as int).take(1) =~= self.chars@.subrange(
                    j as int,
                    j as int + 1,
                ));
                assert(self.chars@.skip(j as int).skip(1) =~= self.chars@.skip(j as int + 1));
                let one = self.chars@.subrange(j as int, j as int + 1);
                assert(one.last() == self.chars@[j as int]);
                assert(one.drop_last() =~= Seq::<char>::empty());
                assert(newline_count(Seq::<char>::empty()) == 0);
                assert(newline_count(one) == if self.chars@[j as int] == '\n' {
                    1nat
                } else {
                    0nat
                });
                assert(self.chars@.subrange(start as int + 1, j as int + 1).drop_last()
                    =~= self.chars@.subrange(start as int + 1, j as int));
                assert(self.chars@.subrange(start as int + 1, j as int + 1).last()
                    == self.chars@[j as int]);
            }
            if c == '\n' {
                self.line = self.line + 1;
            }
            j = j + 1;
        }
        proof {
            let body_tail = rest.skip(1);
            assert(body_tail =~= self.chars@.skip(start as int + 1));
            assert forall|i: int| 0 <= i < j - start - 1 implies pred_not_quote()(
                body_tail[i],
            ) by {
                assert(body_tail[i] == self.chars@[start as int + 1 + i]);
            }
            if j - start - 1 < body_tail.len() {
                assert(body_tail[j - start - 1] == self.chars@[j as int]);
            }
            lemma_run_len_is(body_tail, pred_not_quote(), (j - start - 1) as nat);
        }
        if j < n {
            let lex = String::from_str(self.text.as_str().substring_char(start, j + 1));
            let lit = String::from_str(self.text.as_str().substring_char(start + 1, j));
            self.pos = j + 1;
            let t = Token {
                token_type: TokenType::String,
                lexeme: lex,
                literal: Some(Literal::Str(lit)),
                line: self.line,
            };
            proof {
                let st = string_step(rest, line0);
                assert(rest.subrange(1, j - start as int) =~= self.chars@.subrange(
                    start as int + 1,
                    j as int,
                ));
                assert(rest.take(j + 1 - start as int) =~= self.chars@.subrange(
                    start as int,
                    j as int + 1,
                ));
                assert(t.deep_view() =~= st.emit->Some_0);
            }
            t
        } else {
            let lex = String::from_str(self.text.as_str().substring_char(start, n));
            self.pos = n;
            let t = Token {
                token_type: TokenType::SyntaxError { error_msg: LexMessage::UnterminatedString },
                lexeme: lex,
                literal: None,
                line: self.line,
            };
            proof {
                let st = string_step(rest, line0);
                assert(rest =~= self.chars@.subrange(start as int, n as int));
                lemma_newline_split(rest, 1);
                assert(rest.take(1) =~= self.chars@.subrange(start as int, start as int + 1));
                assert(rest.take(1).last() == '"');
                assert(rest.take(1).drop_last() =~= Seq::<char>::empty());
                assert(newline_count(Seq::<char>::empty()) == 0);
                assert(newline_count(rest.take(1)) == 0);
                assert(rest.skip(1) =~= self.chars@.subrange(start as int + 1, n as int));
                assert(t.deep_view() =~= st.emit->Some_0);
            }
            t
        }
    }

    /// Scan a numeric literal `D+('.'D+)?` starting at a digit. The exact
    /// decimal value is computed with checked arithmetic; a mantissa beyond
    /// the 64-bit range becomes a `Failed to parse number.` error token.
    #[verifier::rlimit(60)]
    fn number_token(&mut self) -> (t: Token)
        requires
            old(self).wf(),
            old(self).pos < old(self).chars@.len(),
            is_digit_char(old(self).chars@[old(self).pos as int]),
        ensures
            final(self).wf(),
            final(self).chars == old(self).chars,
            final(self).text == old(self).text,
            final(self).line == old(self).line,
            ({
                let st = number_step(
                    old(self).chars@.skip(old(self).pos as int),
                    old(self).line as nat,
                );
                &&& final(self).pos == old(self).pos + st.consumed
                &&& Some(t.deep_view()) == st.emit
            }),
    {
        let start = self.pos;
        let n = self.chars.len();
        let ghost rest = self.chars@.skip(start as int);
        let mut j = start;
        while j < n && digit_char(self.chars[j])
            invariant
                start <= j <= n,
                n == self.chars@.len(),
                self.wf(),
                start < self.chars@.len(),
                forall|i: int| start <= i < j ==> is_digit_char(self.chars@[i]),
            decreases n - j,
        {
            j = j + 1;
        }
        proof {
            assert forall|i: int| 0 <= i < j - start implies pred_digit()(rest[i]) by {
                assert(rest[i] == self.chars@[start as int + i]);
            }
            if j - start < rest.len() {
                assert(rest[j - start] == self.chars@[j as int]);
            }
            lemma_run_len_is(rest, pred_digit(), (j - start) as nat);
        }
        let has_frac = j < n && n - j > 1 && self.chars[j] == '.' && digit_char(
            self.chars[j + 1],
        );
        proof {
            if j < rest.len() + start {
                assert(rest[j - start] == self.chars@[j as int]);
            }
            if j + 1 < rest.len() + start {
                assert(rest[j - start + 1] == self.chars@[j as int + 1]);
            }
        }
        let mut end = j;
        if has_frac {
            let mut k = j + 1;
            while k < n && digit_char(self.chars[k])
                invariant
                    j + 1 <= k <= n,
                    n == self.chars@.len(),
                    self.wf(),
                    forall|i: int| j + 1 <= i < k ==> is_digit_char(self.chars@[i]),
                decreases n - k,
            {
                k = k + 1;
            }
            proof {
                let ftail = rest.skip(j - start + 1);
                assert(ftail =~= self.chars@.skip(j as int + 1));
                assert forall|i: int| 0 <= i < k - j - 1 implies pred_digit()(ftail[i]) by {
                    assert(ftail[i] == self.chars@[j as int + 1 + i]);
                }
                if k - j - 1 < ftail.len() {
                    assert(ftail[k - j - 1] == self.chars@[k as int]);
                }
                lemma_run_len_is(ftail, pred_digit(), (k - j - 1) as nat);
            }
            end = k;
        }
        let ghost ilen = (j - start) as nat;
        let ghost lexlen = (end - start) as nat;
        let ghost digits_all = if has_frac {
            rest.take(ilen as int) + rest.subrange(ilen as int + 1, lexlen as int)
        } else {
            rest.take(ilen as int)
        };
        proof {
            assert(rest.take(ilen as int) =~= self.chars@.subrange(start as int, j as int));
            if has_frac {
                assert(rest.subrange(ilen as int + 1, lexlen as int) =~= self.chars@.subrange(
                    j as int + 1,
                    end as int,
                ));
            }
            assert forall|i: int| 0 <= i < digits_all.len() implies is_digit_char(
                digits_all[i],
            ) by {
                if i < ilen {
                    assert(digits_all[i] == self.chars@[start as int + i]);
                } else {
                    assert(digits_all[i] == self.chars@[j as int + 1 + (i - ilen)]);
                }
            }
        }
        // The mantissa: all digits of the lexeme, dot removed, base 10.
        let mut m: u64 = 0;
        let mut fits = true;
        let mut i = start;
        while i < j
            invariant
                start <= i <= j <= end <= n,
                n == self.chars@.len(),
                self.wf(),
                ilen == j - start,
                lexlen == end - start,
                has_frac ==> j + 1 <= end,
                digits_all.len() == if has_frac {
                    lexlen - 1
                } else {
                    ilen as int
                },
                forall|q: int| start <= q < j ==> is_digit_char(self.chars@[q]),
                forall|q: int| 0 <= q < ilen ==> digits_all[q] == self.chars@[start + q],
                forall|q: int|
                    ilen <= q < digits_all.len() ==> digits_all[q] == self.chars@[j + 1 + (q
                        - ilen)],
                forall|q: int| 0 <= q < digits_all.len() ==> is_digit_char(digits_all[q]),
                fits ==> m == digits_val(digits_all.take(i - start)) && digits_val(
                    digits_all.take(i - start),
                ) <= u64::MAX,
                !fits ==> digits_val(digits_all.take(i - start)) > u64::MAX,
            decreases j - i,
        {
            let d = (self.chars[i] as u32 - 48) as u64;
            proof {
                let pref = digits_all.take(i - start);
                let pref1 = digits_all.take(i - start + 1);
                assert(digits_all[i - start] == self.chars@[i as int]);
                assert(pref1.drop_last() =~= pref);
                assert(pref1.last() == self.chars@[i as int]);
                assert(is_digit_char(self.chars@[i as int]));
                assert(d == digit_val(self.chars@[i as int]));
                assert(digits_val(pref1) == digits_val(pref) * 10 + d);
                lemma_digits_val_nonneg(pref);
                if !fits {
                    assert(digits_val(pref) * 10 >= digits_val(pref)) by (nonlinear_arith)
                        requires
                            digits_val(pref) >= 0,
                    ;
                }
            }
            if fits {
                match m.checked_mul(10) {
                    Some(m10) => {
                        match m10.checked_add(d) {
                            Some(m2) => {
                                m = m2;
                            },
                            None => {
                                fits = false;
                            },
                        }
                    },
                    None => {
                        fits = false;
                    },
                }
            }
            proof {
                let pref = digits_all.take(i - start);
                if !fits && digits_val(pref) <= u64::MAX {
                    assert(digits_val(digits_all.take(i - start + 1)) > u64::MAX);
                }
            }
            i = i + 1;
        }
        if has_frac {
            let mut i2 = j + 1;
            while i2 < end
                invariant
                    has_frac,
                    j + 1 <= i2 <= end <= n,
                    n == self.chars@.len(),
                    self.wf(),
                    start <= j,
                    ilen == j - start,
                    lexlen == end - start,
                    forall|q: int| j + 1 <= q < end ==> is_digit_char(self.chars@[q]),
                    digits_all.len() == end - start - 1,
                    digits_all.take(ilen as int) =~= self.chars@.subrange(
                        start as int,
                        j as int,
                    ),
                    forall|q: int|
                        ilen <= q < digits_all.len() ==> digits_all[q] == self.chars@[j + 1 + (q
                            - ilen)],
                    forall|q: int| 0 <= q < digits_all.len() ==> is_digit_char(digits_all[q]),
                    fits ==> m == digits_val(digits_all.take(ilen + i2 - (j + 1))) && digits_val(
                        digits_all.take(ilen + i2 - (j + 1)),
                    ) <= u64::MAX,
                    !fits ==> digits_val(digits_all.take(ilen + i2 - (j + 1))) > u64::MAX,
                decreases end - i2,
            {
                let d = (self.chars[i2] as u32 - 48) as u64;
                proof {
                    let t0 = ilen + i2 - (j + 1);
                    let pref = digits_all.take(t0);
                    let pref1 = digits_all.take(t0 + 1);
                    assert(digits_all[t0] == self.chars@[i2 as int]);
                    assert(pref1.drop_last() =~= pref);
                    assert(pref1.last() == self.chars@[i2 as int]);
                    assert(is_digit_char(self.chars@[i2 as int]));
                    assert(d == digit_val(self.chars@[i2 as int]));
                    assert(digits_val(pref1) == digits_val(pref) * 10 + d);
                    lemma_digits_val_nonneg(pref);
                    if !fits {
                        assert(digits_val(pref) * 10 >= digits_val(pref)) by (nonlinear_arith)
                            requires
                                digits_val(pref) >= 0,
                        ;
                    }
                }
                if fits {
                    match m.checked_mul(10) {
                        Some(m10) => {
                            match m10.checked_add(d) {
                                Some(m2) => {
                                    m = m2;
                                },
                                None => {
                                    fits = false;
                                },
                            }
                        },
                        None => {
                            fits = false;
                        },
                    }
                }
                i2 = i2 + 1;
            }
        }
        proof {
            assert(digits_all.take(digits_all.len() as int) =~= digits_all);
        }
        let scale: usize = if has_frac {
            end - (j + 1)
        } else {
            0
        };
        let t = if fits {
            self.make_token(
                TokenType::Number,
                start,
                end,
                Some(Literal::Number(NumberValue { mantissa: m, scale })),
            )
        } else {
            proof {
                lemma_digits_val_extend(digits_all, digits_all.len() as int);
            }
            self.make_token(
                TokenType::SyntaxError { error_msg: LexMessage::FailedNumberParse },
                start,
                end,
                None,
            )
        };
        self.pos = end;
        proof {
            let st = number_step(rest, old(self).line as nat);
            assert(rest.take(lexlen as int) =~= self.chars@.subrange(start as int, end as int));
            assert(t.deep_view() =~= st.emit->Some_0);
        }
        t
    }

    /// Classify an identifier lexeme against the fixed keyword table.
    fn keyword_type(lex: &String) -> (tt: TokenType)
        ensures
            tt == keyword_or_identifier(lex@),
    {
        if *lex == String::from_str("and") {
            TokenType::And
        } else if *lex == String::from_str("class") {
            TokenType::Class
        } else if *lex == String::from_str("else") {
            TokenType::Else
        } else if *lex == String::from_str("false") {
            TokenType::False
        } else if *lex == String::from_str("for") {
            TokenType::For
        } else if *lex == String::from_str("fun") {
            TokenType::Fun
        } else if *lex == String::from_str("if") {
            TokenType::If
        } else if *lex == String::from_str("nil") {
            TokenType::Nil
        } else if *lex == String::from_str("or") {
            TokenType::Or
        } else if *lex == String::from_str("print") {
            TokenType::Print
        } else if *lex == String::from_str("return") {
            TokenType::Return
        } else if *lex == String::from_str("super") {
            TokenType::Super
        } else if *lex == String::from_str("this") {
            TokenType::This
        } else if *lex == String::from_str("true") {
            TokenType::True
        } else if *lex == String::from_str("var") {
            TokenType::Var
        } else if *lex == String::from_str("while") {
            TokenType::While
        } else {
            TokenType::Identifer
        }
    }

    /// Scan an identifier or keyword starting at a letter or underscore.
    fn identifier_token(&mut self) -> (t: Token)
        requires
            old(self).wf(),
            old(self).pos < old(self).chars@.len(),
            is_alpha_char(old(self).chars@[old(self).pos as int]),
        ensures
            final(self).wf(),
            final(self).chars == old(self).chars,
            final(self).text == old(self).text,
            final(self).line == old(self).line,
            ({
                let st = identifier_step(
                    old(self).chars@.skip(old(self).pos as int),
                    old(self).line as nat,
                );
                &&& final(self).pos == old(self).pos + st.consumed
                &&& Some(t.deep_view()) == st.emit
            }),
    {
        let start = self.pos;
        let n = self.chars.len();
        let ghost rest = self.chars@.skip(start as int);
        let mut j = start;
        while j < n && alnum_char(self.chars[j])
            invariant
                start <= j <= n,
                n == self.chars@.len(),
                self.wf(),
                start < self.chars@.len(),
                is_alpha_char(self.chars@[start as int]),
                forall|i: int| start <= i < j ==> is_alnum_char(self.chars@[i]),
            decreases n - j,
        {
            j = j + 1;
        }
        proof {
            assert forall|i: int| 0 <= i < j - start implies pred_alnum()(rest[i]) by {
                assert(rest[i] == self.chars@[start as int + i]);
            }
            if j - start < rest.len() {
                assert(rest[j - start] == self.chars@[j as int]);
            }
            lemma_run_len_is(rest, pred_alnum(), (j - start) as nat);
            assert(rest[0] == self.chars@[start as int]);
            if j == start {
                assert(is_alnum_char(rest[0]));
                assert(false);
            }
        }
        let lex = String::from_str(self.text.as_str().substring_char(start, j));
        let tt = Self::keyword_type(&lex);
        self.pos = j;
        let t = Token { token_type: tt, lexeme: lex, literal: None, line: self.line };
        proof {
            let st = identifier_step(rest, old(self).line as nat);
            assert(rest.take(j - start as int) =~= self.chars@.subrange(start as int, j as int));
            assert(t.deep_view() =~= st.emit->Some_0);
        }
        t
    }

    /// Scan one lexical unit at the cursor: dispatch on the first
    /// character, consume what the unit needs, and return the token it
    /// emits (`None` for whitespace and comments, which produce none).
    fn scan_token(&mut self) -> (t: Option<Token>)
        requires
            old(self).wf(),
            old(self).pos < old(self).chars@.len(),
            old(self).line as nat + newline_count(old(self).chars@.skip(old(self).pos as int))
                <= u32::MAX as nat,
        ensures
            final(self).wf(),
            final(self).chars == old(self).chars,
            final(self).text == old(self).text,
            ({
                let st = scan_step(
                    old(self).chars@.skip(old(self).pos as int),
                    old(self).line as nat,
                );
                &&& final(self).pos == old(self).pos + st.consumed
                &&& final(self).line as nat == st.next_line
                &&& match t {
                    Some(tok) => st.emit == Some(tok.deep_view()),
                    None => st.emit is None,
                }
            }),
    {
        let start = self.pos;
        let n = self.chars.len();
        let ghost rest = self.chars@.skip(start as int);
        let ghost line0 = self.line as nat;
        let c = self.chars[start];
        proof {
            assert(rest[0] == self.chars@[start as int]);
        }
        if c == '(' {
            Some(self.single_token(TokenType::LeftParens))
        } else if c == ')' {
            Some(self.single_token(TokenType::RightParens))
        } else if c == '{' {
            Some(self.single_token(TokenType::LeftBrace))
        } else if c == '}' {
            Some(self.single_token(TokenType::RightBrace))
        } else if c == ',' {
            Some(self.single_token(TokenType::Comma))
        } else if c == '.' {
            Some(self.single_token(TokenType::Dot))
        } else if c == '-' {
            Some(self.single_token(TokenType::Minus))
        } else if c == '+' {
            Some(self.single_token(TokenType::Plus))
        } else if c == ';' {
            Some(self.single_token(TokenType::SemiColon))
        } else if c == '*' {
            Some(self.single_token(TokenType::Star))
        } else if c == '!' {
            Some(self.one_or_two(TokenType::BangEqual, TokenType::Bang))
        } else if c == '=' {
            Some(self.one_or_two(TokenType::EqualEqual, TokenType::Equal))
        } else if c == '<' {
            Some(self.one_or_two(TokenType::LessEqual, TokenType::Less))
        } else if c == '>' {
            Some(self.one_or_two(TokenType::GreaterEqual, TokenType::Greater))
        } else if c == '/' {
            if start < n && n - start > 1 && self.chars[start + 1] == '/' {
                proof {
                    assert(rest[1] == self.chars@[start as int + 1]);
                    assert(rest.skip(2) =~= self.chars@.skip(start as int + 2));
                }
                self.skip_comment();
                None
            } else {
                proof {
                    if rest.len() > 1 {
                        assert(rest[1] == self.chars@[start as int + 1]);
                    }
                }
                Some(self.single_token(TokenType::Slash))
            }
        } else if c == ' ' || c == '\r' || c == '\t' {
            self.pos = start + 1;
            None
        } else if c == '\n' {
            proof {
                lemma_newline_split(rest, 1);
                assert(rest.take(1).last() == rest[0]);
                assert(rest.take(1).drop_last() =~= Seq::<char>::empty());
                assert(newline_count(Seq::<char>::empty()) == 0);
                assert(newline_count(rest.take(1)) == 1);
            }
            self.line = self.line + 1;
            self.pos = start + 1;
            None
        } else if c == '"' {
            Some(self.string_token())
        } else if digit_char(c) {
            Some(self.number_token())
        } else if alpha_char(c) {
            Some(self.identifier_token())
        } else {
            let t = self.make_token(
                TokenType::SyntaxError { error_msg: LexMessage::UnexpectedCharacter },
                start,
                start + 1,
                None,
            );
            self.pos = start + 1;
            proof {
                assert(self.chars@.subrange(start as int, start as int + 1) =~= rest.take(1));
            }
            Some(t)
        }
    }

    /// Scan the whole remaining source: the ordered token sequence that
    /// [`spec_tokens`] assigns to it, ending in exactly one `Eof` sentinel.
    /// Whitespace and comments never appear in the output; malformed
    /// fragments appear as `SyntaxError` tokens and never stop the scan.
    pub fn scan_tokens(&mut self) -> (tokens: Vec<Token>)
        requires
            old(self).wf(),
            old(self)@.line + newline_count(old(self)@.remaining) <= u32::MAX as nat,
        ensures
            final(self).wf(),
            final(self)@.remaining.len() == 0,
            tokens.deep_view() == spec_tokens(old(self)@.remaining, old(self)@.line),
            stream_wf(tokens.deep_view()),
    {
        proof {
            lemma_spec_tokens_wf(self@.remaining, self@.line);
        }
        let ghost chars0 = self.chars@;
        let ghost orig_rest = self.chars@.skip(self.pos as int);
        let ghost line0 = self.line as nat;
        let mut tokens: Vec<Token> = Vec::new();
        proof {
            assert(tokens.deep_view() =~= Seq::<SpecToken>::empty());
        }
        while self.pos < self.chars.len()
            invariant
                self.wf(),
                self.chars@ == chars0,
                self.pos <= chars0.len(),
                self.line as nat + newline_count(chars0.skip(self.pos as int)) <= u32::MAX as nat,
                tokens.deep_view() + spec_tokens(chars0.skip(self.pos as int), self.line as nat)
                    == spec_tokens(orig_rest, line0),
            decreases chars0.len() - self.pos,
        {
            let ghost rest_i = self.chars@.skip(self.pos as int);
            let ghost line_i = self.line as nat;
            let ghost st = scan_step(rest_i, line_i);
            proof {
                lemma_scan_step(rest_i, line_i);
                lemma_newline_split(rest_i, st.consumed as int);
            }
            let t_opt = self.scan_token();
            proof {
                assert(self.chars@.skip(self.pos as int) =~= rest_i.skip(st.consumed as int));
            }
            match t_opt {
                Some(t) => {
                    let ghost pre = tokens.deep_view();
                    tokens.push(t);
                    proof {
                        assert(tokens.deep_view() =~= pre.push(t.deep_view()));
                        assert(spec_tokens(rest_i, line_i) == seq![t.deep_view()] + spec_tokens(
                            rest_i.skip(st.consumed as int),
                            st.next_line,
                        ));
                        assert(pre.push(t.deep_view()) + spec_tokens(
                            rest_i.skip(st.consumed as int),
                            st.next_line,
                        ) =~= pre + (seq![t.deep_view()] + spec_tokens(
                            rest_i.skip(st.consumed as int),
                            st.next_line,
                        )));
                    }
                },
                None => {
                    proof {
                        assert(spec_tokens(rest_i, line_i) == spec_tokens(
                            rest_i.skip(st.consumed as int),
                            st.next_line,
                        ));
                    }
                },
            }
        }
        let line_now = self.line;
        let ghost pre = tokens.deep_view();
        tokens.push(Token::new(TokenType::Eof, String::new(), None, line_now));
        proof {
            assert(chars0.skip(self.pos as int) =~= Seq::<char>::empty());
            assert(spec_tokens(Seq::<char>::empty(), line_now as nat) == seq![eof_token(
                line_now as nat,
            )]);
            assert(tokens.deep_view() =~= pre.push(tokens@[tokens@.len() - 1].deep_view()));
            assert(tokens@[tokens@.len() - 1].deep_view() =~= eof_token(line_now as nat));
            assert(pre.push(eof_token(line_now as nat)) =~= pre + seq![eof_token(line_now as nat)]);
            assert(tokens.deep_view() =~= spec_tokens(orig_rest, line0));
        }
        tokens
    }
}

/// Law: every token sequence the scanner assigns to a source ends with
/// exactly one `Eof` sentinel, whatever the input (the empty input
/// included), and every token carries the literal its tag announces.
pub proof fn lemma_spec_tokens_wf(s: Seq<char>, line: nat)
    ensures
        stream_wf(spec_tokens(s, line)),
    decreases s.len(),
{
    let ts = spec_tokens(s, line);
    if s.len() == 0 {
        assert(ts == seq![eof_token(line)]);
        assert(ts.last() == eof_token(line));
    } else {
        lemma_scan_step(s, line);
        let st = scan_step(s, line);
        let tail = spec_tokens(s.skip(st.consumed as int), st.next_line);
        lemma_spec_tokens_wf(s.skip(st.consumed as int), st.next_line);
        match st.emit {
            Some(t) => {
                assert(t.token_type != TokenType::Eof);
                assert(token_carries_literal(t));
                assert(ts == seq![t] + tail);
                assert(ts.last() == tail.last());
                assert forall|i: int| 0 <= i < ts.len() - 1 implies ts[i].token_type
                    != TokenType::Eof by {
                    if i > 0 {
                        assert(ts[i] == tail[i - 1]);
                    }
                }
                assert forall|i: int| 0 <= i < ts.len() implies token_carries_literal(ts[i]) by {
                    if i > 0 {
                        assert(ts[i] == tail[i - 1]);
                    }
                }
            },
            None => {
                assert(ts == tail);
            },
        }
    }
}

/// Law: scanning has no hidden state: the token sequence is a function
/// of the source text and the starting line alone, so re-scanning
/// identical source always yields a sequence equal by value. (Together
/// with the contract of [`Scanner::scan_tokens`], whose result is
/// exactly `spec_tokens` of the scanner's remaining text and line.)
pub proof fn lemma_scan_deterministic(
    tokens1: Seq<SpecToken>,
    tokens2: Seq<SpecToken>,
    s: Seq<char>,
    line: nat,
)
    requires
        tokens1 == spec_tokens(s, line),
        tokens2 == spec_tokens(s, line),
    ensures
        tokens1 == tokens2,
{
}

/// Concatenation of the lexemes of a token sequence, in order.
pub open spec fn concat_lexemes(ts: Seq<SpecToken>) -> Seq<char>
    decreases ts.len(),
{
    if ts.len() == 0 {
        Seq::<char>::empty()
    } else {
        ts[0].lexeme + concat_lexemes(ts.skip(1))
    }
}

/// Law (maximal munch, covering form): on source text that holds no
/// whitespace and opens no comment, every character lands in exactly one
/// token: the lexemes of the emitted tokens, concatenated in order,
/// spell the source. In particular a run of punctuation and operator
/// characters is cut into longest-match tokens that tile it, never into
/// shorter overlapping ones.
pub proof fn lemma_lexemes_tile_source(s: Seq<char>, line: nat)
    requires
        forall|i: int| 0 <= i < s.len() ==> !is_space_char(s[i]),
        forall|i: int| 0 <= i && i + 1 < s.len() ==> !(#[trigger] s[i] == '/' && s[i + 1] == '/'),
    ensures
        concat_lexemes(spec_tokens(s, line)) == s,
    decreases s.len(),
{
    if s.len() == 0 {
        let ts = seq![eof_token(line)];
        assert(spec_tokens(s, line) == ts);
        assert(ts.skip(1) =~= Seq::<SpecToken>::empty());
        assert(concat_lexemes(Seq::<SpecToken>::empty()) =~= Seq::<char>::empty());
        assert(concat_lexemes(ts) =~= s);
    } else {
        lemma_scan_step(s, line);
        let st = scan_step(s, line);
        let k = st.consumed as int;
        // No whitespace and no comment opener: the step emits a token,
        // and its lexeme is exactly the consumed prefix.
        assert(!is_space_char(s[0]));
        if s.len() >= 2 {
            assert(!(s[0] == '/' && s[1] == '/'));
        }
        assert(st.emit matches Some(t) && t.lexeme == s.take(k)) by {
            if s[0] == '"' {
                let body = run_len(s.skip(1), pred_not_quote());
                if 1 + body < s.len() {
                } else {
                    assert(s.take(k) =~= s);
                }
            }
        }
        let t = st.emit->Some_0;
        let rest = s.skip(k);
        assert forall|i: int| 0 <= i < rest.len() implies !is_space_char(rest[i]) by {
            assert(rest[i] == s[k + i]);
        }
        assert forall|i: int| 0 <= i && i + 1 < rest.len() implies !(#[trigger] rest[i] == '/'
            && rest[i + 1] == '/') by {
            assert(rest[i] == s[k + i]);
            assert(rest[i + 1] == s[k + i + 1]);
        }
        lemma_lexemes_tile_source(rest, st.next_line);
        let tail = spec_tokens(rest, st.next_line);
        let ts = seq![t] + tail;
        assert(spec_tokens(s, line) == ts);
        assert(ts[0] == t);
        assert(ts.skip(1) =~= tail);
        assert(concat_lexemes(ts) == t.lexeme + concat_lexemes(tail));
        assert(s.take(k) + s.skip(k) =~= s);
    }
}

/// The two-character operator type that `c` heads when `'='` follows.
pub open spec fn two_char_type(c: char) -> TokenType {
    if c == '!' {
        TokenType::BangEqual
    } else if c == '=' {
        TokenType::EqualEqual
    } else if c == '<' {
        TokenType::LessEqual
    } else {
        TokenType::GreaterEqual
    }
}

/// Law (maximal munch): wherever `!`, `=`, `<` or `>` is followed by `=`,
/// the scanner emits the single two-character operator token covering both
/// characters — never the one-character operator followed by `Equal` — and
/// scanning continues after the pair.
pub proof fn lemma_maximal_munch_two_char(s: Seq<char>, line: nat)
    ensures
        s.len() >= 2 && (s[0] == '!' || s[0] == '=' || s[0] == '<' || s[0] == '>') && s[1] == '='
            ==> spec_tokens(s, line) == seq![
            (SpecToken {
                token_type: two_char_type(s[0]),
                lexeme: s.take(2),
                literal: None,
                line,
            }),
        ] + spec_tokens(s.skip(2), line),
{
    if s.len() >= 2 && (s[0] == '!' || s[0] == '=' || s[0] == '<' || s[0] == '>') && s[1] == '=' {
        lemma_scan_step(s, line);
    }
}

/// Law: a well-formed fractional numeric lexeme `D+ '.' D+` standing alone
/// is scanned as a single `Number` token (followed by the sentinel) whose
/// literal is the exact mathematical value of the lexeme: the digits with
/// the dot removed as mantissa, the fractional digit count as scale.
pub proof fn lemma_number_literal_exact(ip: Seq<char>, fp: Seq<char>, line: nat)
    requires
        ip.len() >= 1,
        fp.len() >= 1,
        forall|i: int| 0 <= i < ip.len() ==> is_digit_char(ip[i]),
        forall|i: int| 0 <= i < fp.len() ==> is_digit_char(fp[i]),
        digits_val(ip + fp) <= u64::MAX,
        ip.len() + 1 + fp.len() <= usize::MAX,
    ensures
        ({
            let s = ip + seq!['.'] + fp;
            spec_tokens(s, line) == seq![
                (SpecToken {
                    token_type: TokenType::Number,
                    lexeme: s,
                    literal: Some(
                        SpecLiteral::Number(
                            NumberValue {
                                mantissa: digits_val(ip + fp) as u64,
                                scale: fp.len() as usize,
                            },
                        ),
                    ),
                    line,
                }),
                eof_token(line),
            ]
        }),
{
    let s = ip + seq!['.'] + fp;
    let ilen = ip.len();
    assert(is_digit_char(s[0]));
    assert forall|i: int| 0 <= i < ilen implies pred_digit()(s[i]) by {
        assert(s[i] == ip[i]);
    }
    assert(s[ilen as int] == '.');
    lemma_run_len_is(s, pred_digit(), ilen);
    let ftail = s.skip(ilen as int + 1);
    assert(ftail =~= fp);
    lemma_run_len_is(ftail, pred_digit(), fp.len());
    assert(s[ilen as int + 1] == fp[0]);
    let st = scan_step(s, line);
    assert(st.consumed == s.len());
    assert(s.take(s.len() as int) =~= s);
    assert(s.take(ilen as int) =~= ip);
    assert(s.subrange(ilen as int + 1, s.len() as int) =~= fp);
    assert(st.emit == Some(
        SpecToken {
            token_type: TokenType::Number,
            lexeme: s,
            literal: Some(
                SpecLiteral::Number(
                    NumberValue { mantissa: digits_val(ip + fp) as u64, scale: fp.len() as usize },
                ),
            ),
            line,
        },
    ));
    lemma_scan_step(s, line);
    assert(s.skip(s.len() as int) =~= Seq::<char>::empty());
    assert(spec_tokens(Seq::<char>::empty(), line) == seq![eof_token(line)]);
    assert(spec_tokens(s, line) =~= seq![st.emit->Some_0, eof_token(line)]);
}

/// Law: a whole-number lexeme `D+` standing alone is scanned as a single
/// `Number` token with the exact value of its digits and scale zero.
pub proof fn lemma_integer_literal_exact(ip: Seq<char>, line: nat)
    requires
        ip.len() >= 1,
        forall|i: int| 0 <= i < ip.len() ==> is_digit_char(ip[i]),
        digits_val(ip) <= u64::MAX,
    ensures
        spec_tokens(ip, line) == seq![
            (SpecToken {
                token_type: TokenType::Number,
                lexeme: ip,
                literal: Some(
                    SpecLiteral::Number(NumberValue { mantissa: digits_val(ip) as u64, scale: 0 }),
                ),
                line,
            }),
            eof_token(line),
        ],
{
    assert(is_digit_char(ip[0]));
    assert forall|i: int| 0 <= i < ip.len() implies pred_digit()(ip[i]) by {}
    lemma_run_len_is(ip, pred_digit(), ip.len());
    let st = scan_step(ip, line);
    assert(ip.take(ip.len() as int) =~= ip);
    assert(st.consumed == ip.len());
    lemma_scan_step(ip, line);
    assert(ip.skip(ip.len() as int) =~= Seq::<char>::empty());
    assert(spec_tokens(Seq::<char>::empty(), line) == seq![eof_token(line)]);
    assert(spec_tokens(ip, line) =~= seq![st.emit->Some_0, eof_token(line)]);
}

} // verus!
