//! The recursive-descent expression parser: a six-level precedence grammar
//! over the scanner's token stream, producing one expression tree or the
//! first structured parse error.
//!
//! The grammar, loosest-binding rule first:
//!
//! ```text
//! expression -> equality
//! equality   -> comparison (("!=" | "==") comparison)*
//! comparison -> term ((">" | ">=" | "<" | "<=") term)*
//! term       -> factor (("-" | "+") factor)*
//! factor     -> unary (("/" | "*") unary)*
//! unary      -> ("!" | "-") unary | primary
//! primary    -> NUMBER | STRING | "true" | "false" | "nil" | "(" expression ")"
//! ```
//!
//! The intended result is pinned down by the `spec_*` functions below, one
//! per grammar rule, each consuming a suffix of the token sequence and
//! returning the parsed tree together with the tokens left over, or the
//! first failure. Binary levels fold left-associatively: the `*_chain`
//! functions carry the tree built so far and wrap it as the left child of
//! each new operator node.

use vstd::prelude::*;
use vstd::pervasive::unreached;

use crate::error::{LoxError, ParseMessage};
use crate::token::{stream_wf, NumberValue, SpecLiteral, SpecToken, Token, TokenType};

verus! {

/// Literal value at an expression leaf.
#[derive(Debug)]
pub enum Literal {
    String(String),
    Number(NumberValue),
    True,
    False,
    Nil,
}

/// Mathematical model of a leaf [`Literal`].
pub enum SpecExprLiteral {
    String(Seq<char>),
    Number(NumberValue),
    True,
    False,
    Nil,
}

impl DeepView for Literal {
    type V = SpecExprLiteral;

    open spec fn deep_view(&self) -> SpecExprLiteral {
        match self {
            Literal::String(s) => SpecExprLiteral::String(s@),
            Literal::Number(v) => SpecExprLiteral::Number(*v),
            Literal::True => SpecExprLiteral::True,
            Literal::False => SpecExprLiteral::False,
            Literal::Nil => SpecExprLiteral::Nil,
        }
    }
}

/// An expression tree node. Non-leaf nodes own their children outright:
/// the tree is built bottom-up during parsing and never mutated after.
#[derive(Debug)]
pub enum Expr {
    Binary(BinaryExpr),
    Grouping(GroupingExpr),
    Literal(Literal),
    Unary(UnaryExpr),
}

/// A binary application: `left operator right`.
#[derive(Debug)]
pub struct BinaryExpr {
    pub left: Box<Expr>,
    pub operator: Token,
    pub right: Box<Expr>,
}

/// A parenthesized sub-expression.
#[derive(Debug)]
pub struct GroupingExpr {
    pub expression: Box<Expr>,
}

/// A prefix application: `operator right`.
#[derive(Debug)]
pub struct UnaryExpr {
    pub operator: Token,
    pub right: Box<Expr>,
}

/// Mathematical model of an [`Expr`] tree.
#[verifier::ext_equal]
pub enum SpecExpr {
    Binary(Box<SpecExpr>, SpecToken, Box<SpecExpr>),
    Grouping(Box<SpecExpr>),
    Literal(SpecExprLiteral),
    Unary(SpecToken, Box<SpecExpr>),
}

impl DeepView for Expr {
    type V = SpecExpr;

    open spec fn deep_view(&self) -> SpecExpr
        decreases self,
    {
        match self {
            Expr::Binary(b) => SpecExpr::Binary(
                Box::new((*b.left).deep_view()),
                b.operator.deep_view(),
                Box::new((*b.right).deep_view()),
            ),
            Expr::Grouping(g) => SpecExpr::Grouping(Box::new((*g.expression).deep_view())),
            Expr::Literal(l) => SpecExpr::Literal(l.deep_view()),
            Expr::Unary(u) => SpecExpr::Unary(
                u.operator.deep_view(),
                Box::new((*u.right).deep_view()),
            ),
        }
    }
}

/// Result of one grammar rule on a token suffix: the tree and the tokens
/// left over, or the first failure (its message and offending token).
#[verifier::ext_equal]
pub enum SpecParse {
    Parsed(SpecExpr, Seq<SpecToken>),
    Failed(ParseMessage, SpecToken),
}

/// `!=` `==`, the equality level.
pub open spec fn is_equality_op(tt: TokenType) -> bool {
    tt == TokenType::BangEqual || tt == TokenType::EqualEqual
}

/// `>` `>=` `<` `<=`, the comparison level.
pub open spec fn is_comparison_op(tt: TokenType) -> bool {
    tt == TokenType::Greater || tt == TokenType::GreaterEqual || tt == TokenType::Less || tt
        == TokenType::LessEqual
}

/// `-` `+`, the term level.
pub open spec fn is_term_op(tt: TokenType) -> bool {
    tt == TokenType::Minus || tt == TokenType::Plus
}

/// `/` `*`, the factor level.
pub open spec fn is_factor_op(tt: TokenType) -> bool {
    tt == TokenType::Slash || tt == TokenType::Star
}

/// `!` `-`, the prefix operators.
pub open spec fn is_unary_op(tt: TokenType) -> bool {
    tt == TokenType::Bang || tt == TokenType::Minus
}

/// The `primary` rule: literals and parenthesized sub-expressions; the
/// only rule that can fail outright.
pub open spec fn spec_primary(ts: Seq<SpecToken>) -> SpecParse
    decreases ts.len(), 0nat,
{
    if ts.len() == 0 {
        SpecParse::Failed(ParseMessage::ExpectExpression, arbitrary())
    } else {
        let t = ts[0];
        if t.token_type == TokenType::False {
            SpecParse::Parsed(SpecExpr::Literal(SpecExprLiteral::False), ts.skip(1))
        } else if t.token_type == TokenType::True {
            SpecParse::Parsed(SpecExpr::Literal(SpecExprLiteral::True), ts.skip(1))
        } else if t.token_type == TokenType::Nil {
            SpecParse::Parsed(SpecExpr::Literal(SpecExprLiteral::Nil), ts.skip(1))
        } else if t.token_type == TokenType::Number {
            match t.literal {
                Some(SpecLiteral::Number(v)) => SpecParse::Parsed(
                    SpecExpr::Literal(SpecExprLiteral::Number(v)),
                    ts.skip(1),
                ),
                _ => SpecParse::Failed(ParseMessage::ExpectExpression, t),
            }
        } else if t.token_type == TokenType::String {
            match t.literal {
                Some(SpecLiteral::Str(sv)) => SpecParse::Parsed(
                    SpecExpr::Literal(SpecExprLiteral::String(sv)),
                    ts.skip(1),
                ),
                _ => SpecParse::Failed(ParseMessage::ExpectExpression, t),
            }
        } else if t.token_type == TokenType::LeftParens {
            match spec_expression(ts.skip(1)) {
                SpecParse::Parsed(e, rest) => {
                    if rest.len() > 0 && rest[0].token_type == TokenType::RightParens {
                        SpecParse::Parsed(SpecExpr::Grouping(Box::new(e)), rest.skip(1))
                    } else if rest.len() > 0 {
                        SpecParse::Failed(ParseMessage::ExpectRightParen, rest[0])
                    } else {
                        SpecParse::Failed(ParseMessage::ExpectRightParen, arbitrary())
                    }
                },
                SpecParse::Failed(m, tok) => SpecParse::Failed(m, tok),
            }
        } else {
            SpecParse::Failed(ParseMessage::ExpectExpression, t)
        }
    }
}

/// The `unary` rule: right-recursive prefix operators over `primary`.
pub open spec fn spec_unary(ts: Seq<SpecToken>) -> SpecParse
    decreases ts.len(), 1nat,
{
    if ts.len() > 0 && is_unary_op(ts[0].token_type) {
        match spec_unary(ts.skip(1)) {
            SpecParse::Parsed(e, rest) => SpecParse::Parsed(
                SpecExpr::Unary(ts[0], Box::new(e)),
                rest,
            ),
            f => f,
        }
    } else {
        spec_primary(ts)
    }
}

/// Left-associative fold at the `factor` level: while a factor operator
/// is next, parse the next `unary` and wrap the tree built so far as the
/// new left child.
pub open spec fn spec_factor_chain(e: SpecExpr, ts: Seq<SpecToken>) -> SpecParse
    decreases ts.len(), 2nat,
{
    if ts.len() > 0 && is_factor_op(ts[0].token_type) {
        match spec_unary(ts.skip(1)) {
            SpecParse::Parsed(r, rest) => {
                let folded = SpecExpr::Binary(Box::new(e), ts[0], Box::new(r));
                if rest.len() < ts.len() {
                    spec_factor_chain(folded, rest)
                } else {
                    arbitrary()
                }
            },
            f => f,
        }
    } else {
        SpecParse::Parsed(e, ts)
    }
}

/// The `factor` rule.
pub open spec fn spec_factor(ts: Seq<SpecToken>) -> SpecParse
    decreases ts.len(), 3nat,
{
    match spec_unary(ts) {
        SpecParse::Parsed(e, rest) => {
            if rest.len() <= ts.len() {
                spec_factor_chain(e, rest)
            } else {
                arbitrary()
            }
        },
        f => f,
    }
}

/// Left-associative fold at the `term` level.
pub open spec fn spec_term_chain(e: SpecExpr, ts: Seq<SpecToken>) -> SpecParse
    decreases ts.len(), 4nat,
{
    if ts.len() > 0 && is_term_op(ts[0].token_type) {
        match spec_factor(ts.skip(1)) {
            SpecParse::Parsed(r, rest) => {
                let folded = SpecExpr::Binary(Box::new(e), ts[0], Box::new(r));
                if rest.len() < ts.len() {
                    spec_term_chain(folded, rest)
                } else {
                    arbitrary()
                }
            },
            f => f,
        }
    } else {
        SpecParse::Parsed(e, ts)
    }
}

/// The `term` rule.
pub open spec fn spec_term(ts: Seq<SpecToken>) -> SpecParse
    decreases ts.len(), 5nat,
{
    match spec_factor(ts) {
        SpecParse::Parsed(e, rest) => {
            if rest.len() <= ts.len() {
                spec_term_chain(e, rest)
            } else {
                arbitrary()
            }
        },
        f => f,
    }
}

/// Left-associative fold at the `comparison` level.
pub open spec fn spec_comparison_chain(e: SpecExpr, ts: Seq<SpecToken>) -> SpecParse
    decreases ts.len(), 6nat,
{
    if ts.len() > 0 && is_comparison_op(ts[0].token_type) {
        match spec_term(ts.skip(1)) {
            SpecParse::Parsed(r, rest) => {
                let folded = SpecExpr::Binary(Box::new(e), ts[0], Box::new(r));
                if rest.len() < ts.len() {
                    spec_comparison_chain(folded, rest)
                } else {
                    arbitrary()
                }
            },
            f => f,
        }
    } else {
        SpecParse::Parsed(e, ts)
    }
}

/// The `comparison` rule.
pub open spec fn spec_comparison(ts: Seq<SpecToken>) -> SpecParse
    decreases ts.len(), 7nat,
{
    match spec_term(ts) {
        SpecParse::Parsed(e, rest) => {
            if rest.len() <= ts.len() {
                spec_comparison_chain(e, rest)
            } else {
                arbitrary()
            }
        },
        f => f,
    }
}

/// Left-associative fold at the `equality` level.
pub open spec fn spec_equality_chain(e: SpecExpr, ts: Seq<SpecToken>) -> SpecParse
    decreases ts.len(), 8nat,
{
    if ts.len() > 0 && is_equality_op(ts[0].token_type) {
        match spec_comparison(ts.skip(1)) {
            SpecParse::Parsed(r, rest) => {
                let folded = SpecExpr::Binary(Box::new(e), ts[0], Box::new(r));
                if rest.len() < ts.len() {
                    spec_equality_chain(folded, rest)
                } else {
                    arbitrary()
                }
            },
            f => f,
        }
    } else {
        SpecParse::Parsed(e, ts)
    }
}

/// The `equality` rule.
pub open spec fn spec_equality(ts: Seq<SpecToken>) -> SpecParse
    decreases ts.len(), 9nat,
{
    match spec_comparison(ts) {
        SpecParse::Parsed(e, rest) => {
            if rest.len() <= ts.len() {
                spec_equality_chain(e, rest)
            } else {
                arbitrary()
            }
        },
        f => f,
    }
}

/// The start rule: one whole expression.
pub open spec fn spec_expression(ts: Seq<SpecToken>) -> SpecParse
    decreases ts.len(), 10nat,
{
    spec_equality(ts)
}

/// Progress of the left-associative folds: a fold never grows the
/// remaining suffix. `level` selects the grammar level: 0 `factor`,
/// 1 `term`, 2 `comparison`, 3 `equality`.
pub proof fn lemma_chain_progress(e: SpecExpr, ts: Seq<SpecToken>, level: int)
    requires
        0 <= level <= 3,
    ensures
        level == 0 ==> (spec_factor_chain(e, ts) matches SpecParse::Parsed(e2, rest) ==> rest.len()
            <= ts.len()),
        level == 1 ==> (spec_term_chain(e, ts) matches SpecParse::Parsed(e2, rest) ==> rest.len()
            <= ts.len()),
        level == 2 ==> (spec_comparison_chain(e, ts) matches SpecParse::Parsed(e2, rest)
            ==> rest.len() <= ts.len()),
        level == 3 ==> (spec_equality_chain(e, ts) matches SpecParse::Parsed(e2, rest)
            ==> rest.len() <= ts.len()),
    decreases ts.len(), 2 + 2 * level,
{
    if level == 0 {
        if ts.len() > 0 && is_factor_op(ts[0].token_type) {
            lemma_unary_progress(ts.skip(1));
            match spec_unary(ts.skip(1)) {
                SpecParse::Parsed(r, rest) => {
                    lemma_chain_progress(
                        SpecExpr::Binary(Box::new(e), ts[0], Box::new(r)),
                        rest,
                        0,
                    );
                },
                _ => {},
            }
        }
    } else if level == 1 {
        if ts.len() > 0 && is_term_op(ts[0].token_type) {
            lemma_factor_progress(ts.skip(1));
            match spec_factor(ts.skip(1)) {
                SpecParse::Parsed(r, rest) => {
                    lemma_chain_progress(
                        SpecExpr::Binary(Box::new(e), ts[0], Box::new(r)),
                        rest,
                        1,
                    );
                },
                _ => {},
            }
        }
    } else if level == 2 {
        if ts.len() > 0 && is_comparison_op(ts[0].token_type) {
            lemma_term_progress(ts.skip(1));
            match spec_term(ts.skip(1)) {
                SpecParse::Parsed(r, rest) => {
                    lemma_chain_progress(
                        SpecExpr::Binary(Box::new(e), ts[0], Box::new(r)),
                        rest,
                        2,
                    );
                },
                _ => {},
            }
        }
    } else {
        if ts.len() > 0 && is_equality_op(ts[0].token_type) {
            lemma_comparison_progress(ts.skip(1));
            match spec_comparison(ts.skip(1)) {
                SpecParse::Parsed(r, rest) => {
                    lemma_chain_progress(
                        SpecExpr::Binary(Box::new(e), ts[0], Box::new(r)),
                        rest,
                        3,
                    );
                },
                _ => {},
            }
        }
    }
}

/// A successful `primary` consumes at least one token.
pub proof fn lemma_primary_progress(ts: Seq<SpecToken>)
    ensures
        spec_primary(ts) matches SpecParse::Parsed(e, rest) ==> rest.len() < ts.len(),
    decreases ts.len(), 0int,
{
    if ts.len() > 0 && ts[0].token_type == TokenType::LeftParens {
        lemma_expression_progress(ts.skip(1));
    }
}

/// A successful `unary` consumes at least one token.
pub proof fn lemma_unary_progress(ts: Seq<SpecToken>)
    ensures
        spec_unary(ts) matches SpecParse::Parsed(e, rest) ==> rest.len() < ts.len(),
    decreases ts.len(), 1int,
{
    if ts.len() > 0 && is_unary_op(ts[0].token_type) {
        lemma_unary_progress(ts.skip(1));
    } else {
        lemma_primary_progress(ts);
    }
}

/// A successful `factor` consumes at least one token.
pub proof fn lemma_factor_progress(ts: Seq<SpecToken>)
    ensures
        spec_factor(ts) matches SpecParse::Parsed(e, rest) ==> rest.len() < ts.len(),
    decreases ts.len(), 3int,
{
    lemma_unary_progress(ts);
    match spec_unary(ts) {
        SpecParse::Parsed(e, rest) => {
            lemma_chain_progress(e, rest, 0);
        },
        _ => {},
    }
}

/// A successful `term` consumes at least one token.
pub proof fn lemma_term_progress(ts: Seq<SpecToken>)
    ensures
        spec_term(ts) matches SpecParse::Parsed(e, rest) ==> rest.len() < ts.len(),
    decreases ts.len(), 5int,
{
    lemma_factor_progress(ts);
    match spec_factor(ts) {
        SpecParse::Parsed(e, rest) => {
            lemma_chain_progress(e, rest, 1);
        },
        _ => {},
    }
}

/// A successful `comparison` consumes at least one token.
pub proof fn lemma_comparison_progress(ts: Seq<SpecToken>)
    ensures
        spec_comparison(ts) matches SpecParse::Parsed(e, rest) ==> rest.len() < ts.len(),
    decreases ts.len(), 7int,
{
    lemma_term_progress(ts);
    match spec_term(ts) {
        SpecParse::Parsed(e, rest) => {
            lemma_chain_progress(e, rest, 2);
        },
        _ => {},
    }
}

/// A successful `equality` consumes at least one token.
pub proof fn lemma_equality_progress(ts: Seq<SpecToken>)
    ensures
        spec_equality(ts) matches SpecParse::Parsed(e, rest) ==> rest.len() < ts.len(),
    decreases ts.len(), 9int,
{
    lemma_comparison_progress(ts);
    match spec_comparison(ts) {
        SpecParse::Parsed(e, rest) => {
            lemma_chain_progress(e, rest, 3);
        },
        _ => {},
    }
}

/// A successful parse consumes at least one token: the remaining suffix
/// strictly shrinks.
pub proof fn lemma_expression_progress(ts: Seq<SpecToken>)
    ensures
        spec_expression(ts) matches SpecParse::Parsed(e, rest) ==> rest.len() < ts.len(),
    decreases ts.len(), 10int,
{
    lemma_equality_progress(ts);
}

/// How an executable rule's result relates to its specification: on
/// success the tree and the leftover suffix are the specification's; on
/// failure the error carries the specification's message and offending
/// token, with that token's line.
pub open spec fn parse_outcome(sp: SpecParse, r: Result<Expr, LoxError>, after: Seq<SpecToken>) -> bool {
    match r {
        Ok(e) => sp == SpecParse::Parsed(e.deep_view(), after),
        Err(err) => match err {
            LoxError::ParserError(m, l, t) => sp == SpecParse::Failed(m, t.deep_view()) && l as nat
                == t.deep_view().line,
            LoxError::Io(_) => false,
        },
    }
}

/// Abstract state of a parser: the token stream and the cursor.
pub struct ParserModel {
    pub tokens: Seq<SpecToken>,
    pub curr: nat,
}

/// The stream is well formed (as the scanner guarantees) and the cursor
/// sits on a valid token; since the cursor never passes the sentinel,
/// this is an invariant of every parser operation.
pub open spec fn parser_wf(m: ParserModel) -> bool {
    stream_wf(m.tokens) && m.curr < m.tokens.len()
}

/// The tokens not yet consumed.
pub open spec fn parser_suffix(m: ParserModel) -> Seq<SpecToken> {
    m.tokens.skip(m.curr as int)
}

/// Statement-boundary keywords at which error recovery comes to rest.
pub open spec fn is_sync_boundary(tt: TokenType) -> bool {
    tt == TokenType::Class || tt == TokenType::Fun || tt == TokenType::Var || tt == TokenType::For
        || tt == TokenType::If || tt == TokenType::While || tt == TokenType::Print || tt
        == TokenType::Return
}

/// Where the cursor comes to rest when discarding tokens from position
/// `i`: at the sentinel, just after a `;`, or on a keyword that starts a
/// declaration or statement.
pub open spec fn spec_synchronize(ts: Seq<SpecToken>, i: int) -> int
    decreases ts.len() - i,
{
    if i < 0 || i >= ts.len() {
        i
    } else if ts[i].token_type == TokenType::Eof {
        i
    } else if i >= 1 && ts[i - 1].token_type == TokenType::SemiColon {
        i
    } else if is_sync_boundary(ts[i].token_type) {
        i
    } else {
        spec_synchronize(ts, i + 1)
    }
}

/// The recursive-descent parser: a token stream and a single forward
/// cursor that never passes the `Eof` sentinel.
pub struct Parser {
    tokens: Vec<Token>,
    curr: usize,
}

impl View for Parser {
    type V = ParserModel;

    closed spec fn view(&self) -> ParserModel {
        ParserModel { tokens: self.tokens.deep_view(), curr: self.curr as nat }
    }
}

impl Parser {
    /// A parser over `tokens`, cursor at the start.
    pub fn new(tokens: Vec<Token>) -> (p: Self)
        ensures
            p@.tokens == tokens.deep_view(),
            p@.curr == 0,
    {
        Parser { tokens, curr: 0 }
    }

    /// Tag of the current token.
    fn peek_type(&self) -> (tt: TokenType)
        requires
            parser_wf(self@),
        ensures
            tt == self@.tokens[self@.curr as int].token_type,
    {
        self.tokens[self.curr].token_type
    }

    /// Tag of the token just consumed.
    fn previous_type(&self) -> (tt: TokenType)
        requires
            parser_wf(self@),
            self@.curr >= 1,
        ensures
            tt == self@.tokens[self@.curr as int - 1].token_type,
    {
        self.tokens[self.curr - 1].token_type
    }

    /// Whether the cursor is at the end-of-input sentinel.
    fn is_at_end(&self) -> (b: bool)
        requires
            parser_wf(self@),
        ensures
            b == (self@.tokens[self@.curr as int].token_type == TokenType::Eof),
    {
        self.peek_type() == TokenType::Eof
    }

    /// Whether the current token has tag `tt` (never true at the
    /// sentinel, whatever `tt`).
    fn check(&self, tt: TokenType) -> (b: bool)
        requires
            parser_wf(self@),
        ensures
            b == (self@.tokens[self@.curr as int].token_type != TokenType::Eof
                && self@.tokens[self@.curr as int].token_type == tt),
    {
        if self.is_at_end() {
            false
        } else {
            self.peek_type() == tt
        }
    }

    /// Move past the current token; the cursor never passes the sentinel.
    fn advance(&mut self)
        requires
            parser_wf(old(self)@),
        ensures
            parser_wf(final(self)@),
            final(self)@.tokens == old(self)@.tokens,
            final(self)@.curr == if old(self)@.tokens[old(self)@.curr as int].token_type
                == TokenType::Eof {
                old(self)@.curr
            } else {
                (old(self)@.curr + 1) as nat
            },
    {
        let n = self.tokens.len();
        if !self.is_at_end() {
            proof {
                let ts = self@.tokens;
                if self.curr as int == ts.len() - 1 {
                    assert(ts[self.curr as int] == ts.last());
                    assert(false);
                }
                assert(self.curr < n);
            }
            self.curr = self.curr + 1;
        }
    }

    /// Consume the current token if its tag is one of `types`; report
    /// whether it was.
    fn match_token(&mut self, types: &Vec<TokenType>) -> (b: bool)
        requires
            parser_wf(old(self)@),
        ensures
            parser_wf(final(self)@),
            final(self)@.tokens == old(self)@.tokens,
            b == (old(self)@.tokens[old(self)@.curr as int].token_type != TokenType::Eof
                && types@.contains(old(self)@.tokens[old(self)@.curr as int].token_type)),
            final(self)@.curr == old(self)@.curr + if b {
                1nat
            } else {
                0nat
            },
    {
        let ghost cur_tt = self@.tokens[self@.curr as int].token_type;
        let n = types.len();
        let mut i: usize = 0;
        while i < n
            invariant
                i <= n,
                n == types@.len(),
                parser_wf(self@),
                self@ == old(self)@,
                cur_tt == self@.tokens[self@.curr as int].token_type,
                forall|k: int| 0 <= k < i ==> !(cur_tt != TokenType::Eof && types@[k] == cur_tt),
            decreases n - i,
        {
            if self.check(types[i]) {
                self.advance();
                return true;
            }
            i = i + 1;
        }
        proof {
            if cur_tt != TokenType::Eof {
                assert(!types@.contains(cur_tt)) by {
                    assert(forall|k: int| 0 <= k < types@.len() ==> types@[k] != cur_tt);
                }
            }
        }
        false
    }

    /// Consume the current token if its tag is `tt`; otherwise report a
    /// parse error carrying `msg` and the current token.
    fn consume(&mut self, tt: TokenType, msg: ParseMessage) -> (r: Result<(), LoxError>)
        requires
            parser_wf(old(self)@),
        ensures
            parser_wf(final(self)@),
            final(self)@.tokens == old(self)@.tokens,
            ({
                let cur = old(self)@.tokens[old(self)@.curr as int];
                if cur.token_type != TokenType::Eof && cur.token_type == tt {
                    r is Ok && final(self)@.curr == old(self)@.curr + 1
                } else {
                    &&& final(self)@.curr == old(self)@.curr
                    &&& match r {
                        Ok(_) => false,
                        Err(err) => match err {
                            LoxError::ParserError(m, l, t) => m == msg && t.deep_view() == cur && (
                            l as nat) == cur.line,
                            LoxError::Io(_) => false,
                        },
                    }
                }
            }),
    {
        if self.check(tt) {
            self.advance();
            Ok(())
        } else {
            let tok = self.tokens[self.curr].duplicate();
            let line = tok.line;
            Err(LoxError::ParserError(msg, line, tok))
        }
    }

    /// Error recovery: discard tokens until just after a `;` or before a
    /// keyword that starts a declaration or statement. Not invoked by the
    /// expression grammar itself; kept for a statement-level caller to
    /// resume after an error without cascading failures.
    pub fn synchronize(&mut self)
        requires
            parser_wf(old(self)@),
        ensures
            parser_wf(final(self)@),
            final(self)@.tokens == old(self)@.tokens,
            final(self)@.curr == spec_synchronize(
                old(self)@.tokens,
                if old(self)@.tokens[old(self)@.curr as int].token_type == TokenType::Eof {
                    old(self)@.curr as int
                } else {
                    old(self)@.curr as int + 1
                },
            ),
    {
        let ghost toks = self@.tokens;
        self.advance();
        let ghost i0 = self@.curr as int;
        let mut stop = false;
        while !stop && !self.is_at_end()
            invariant
                parser_wf(self@),
                self@.tokens == toks,
                self@.tokens[self@.curr as int].token_type != TokenType::Eof ==> self@.curr >= 1,
                !stop ==> spec_synchronize(toks, self@.curr as int) == spec_synchronize(toks, i0),
                stop ==> self@.curr as int == spec_synchronize(toks, i0),
            decreases toks.len() - self@.curr + if stop {
                0int
            } else {
                1int
            },
        {
            let ghost j = self@.curr as int;
            proof {
                assert(self@.tokens[j].token_type != TokenType::Eof);
                assert(self@.curr >= 1);
            }
            if self.previous_type() == TokenType::SemiColon {
                proof {
                    assert(spec_synchronize(toks, j) == j);
                }
                stop = true;
            } else {
                let pt = self.peek_type();
                if pt == TokenType::Class || pt == TokenType::Fun || pt == TokenType::Var || pt
                    == TokenType::For || pt == TokenType::If || pt == TokenType::While || pt
                    == TokenType::Print || pt == TokenType::Return {
                    proof {
                        assert(spec_synchronize(toks, j) == j);
                    }
                    stop = true;
                } else {
                    self.advance();
                }
            }
        }
        proof {
            if !stop {
                assert(self@.tokens[self@.curr as int].token_type == TokenType::Eof);
                assert(spec_synchronize(toks, self@.curr as int) == self@.curr as int);
            }
        }
    }

    /// The `primary` rule: literals and parenthesized sub-expressions.
    /// The result is exactly [`spec_primary`] on the unconsumed suffix.
    #[verifier::rlimit(100)]
    fn primary(&mut self) -> (r: Result<Expr, LoxError>)
        requires
            parser_wf(old(self)@),
        ensures
            parser_wf(final(self)@),
            final(self)@.tokens == old(self)@.tokens,
            old(self)@.curr <= final(self)@.curr,
            parse_outcome(
                spec_primary(parser_suffix(old(self)@)),
                r,
                parser_suffix(final(self)@),
            ),
        decreases old(self)@.tokens.len() - old(self)@.curr, 0int,
    {
        let ghost ts0 = parser_suffix(old(self)@);
        proof {
            assert(ts0[0] == self@.tokens[self@.curr as int]);
        }
        let v_false = vec![TokenType::False];
        if self.match_token(&v_false) {
            proof {
                assert(parser_suffix(self@) =~= ts0.skip(1));
            }
            return Ok(Expr::Literal(Literal::False));
        }
        let v_true = vec![TokenType::True];
        if self.match_token(&v_true) {
            proof {
                assert(parser_suffix(self@) =~= ts0.skip(1));
            }
            return Ok(Expr::Literal(Literal::True));
        }
        let v_nil = vec![TokenType::Nil];
        if self.match_token(&v_nil) {
            proof {
                assert(parser_suffix(self@) =~= ts0.skip(1));
            }
            return Ok(Expr::Literal(Literal::Nil));
        }
        let v_num = vec![TokenType::Number];
        if self.match_token(&v_num) {
            let lit = match &self.tokens[self.curr - 1].literal {
                Some(crate::token::Literal::Number(v)) => Literal::Number(*v),
                _ => unreached(),
            };
            proof {
                assert(parser_suffix(self@) =~= ts0.skip(1));
            }
            return Ok(Expr::Literal(lit));
        }
        let v_str = vec![TokenType::String];
        if self.match_token(&v_str) {
            let lit = match &self.tokens[self.curr - 1].literal {
                Some(crate::token::Literal::Str(sv)) => Literal::String(sv.clone()),
                _ => unreached(),
            };
            proof {
                assert(parser_suffix(self@) =~= ts0.skip(1));
            }
            return Ok(Expr::Literal(lit));
        }
        let v_lp = vec![TokenType::LeftParens];
        if self.match_token(&v_lp) {
            proof {
                assert(parser_suffix(self@) =~= ts0.skip(1));
                lemma_expression_progress(ts0.skip(1));
            }
            let e = match self.expression() {
                Ok(e) => e,
                Err(er) => {
                    return Err(er);
                },
            };
            let ghost rest_g = parser_suffix(self@);
            proof {
                assert(rest_g[0] == self@.tokens[self@.curr as int]);
            }
            match self.consume(TokenType::RightParens, ParseMessage::ExpectRightParen) {
                Ok(_) => {
                    proof {
                        assert(parser_suffix(self@) =~= rest_g.skip(1));
                    }
                    return Ok(Expr::Grouping(GroupingExpr { expression: Box::new(e) }));
                },
                Err(er) => {
                    return Err(er);
                },
            }
        }
        let tok = self.tokens[self.curr].duplicate();
        let line = tok.line;
        Err(LoxError::ParserError(ParseMessage::ExpectExpression, line, tok))
    }

    /// The `unary` rule: `!`/`-` prefixes over `primary`; exactly
    /// [`spec_unary`] on the unconsumed suffix.
    fn unary(&mut self) -> (r: Result<Expr, LoxError>)
        requires
            parser_wf(old(self)@),
        ensures
            parser_wf(final(self)@),
            final(self)@.tokens == old(self)@.tokens,
            old(self)@.curr <= final(self)@.curr,
            parse_outcome(spec_unary(parser_suffix(old(self)@)), r, parser_suffix(final(self)@)),
        decreases old(self)@.tokens.len() - old(self)@.curr, 1int,
    {
        let ghost ts0 = parser_suffix(old(self)@);
        proof {
            assert(ts0[0] == self@.tokens[self@.curr as int]);
        }
        let ops = vec![TokenType::Bang, TokenType::Minus];
        if self.match_token(&ops) {
            let operator = self.tokens[self.curr - 1].duplicate();
            proof {
                assert(parser_suffix(self@) =~= ts0.skip(1));
            }
            match self.unary() {
                Ok(right) => Ok(Expr::Unary(UnaryExpr { operator, right: Box::new(right) })),
                Err(er) => Err(er),
            }
        } else {
            self.primary()
        }
    }

    /// Left-associative fold at the `factor` level, continuing from the
    /// tree `e` built so far; exactly [`spec_factor_chain`].
    fn factor_rest(&mut self, e: Expr) -> (r: Result<Expr, LoxError>)
        requires
            parser_wf(old(self)@),
        ensures
            parser_wf(final(self)@),
            final(self)@.tokens == old(self)@.tokens,
            old(self)@.curr <= final(self)@.curr,
            parse_outcome(
                spec_factor_chain(e.deep_view(), parser_suffix(old(self)@)),
                r,
                parser_suffix(final(self)@),
            ),
        decreases old(self)@.tokens.len() - old(self)@.curr, 2int,
    {
        let ghost ts0 = parser_suffix(old(self)@);
        proof {
            assert(ts0[0] == self@.tokens[self@.curr as int]);
        }
        let ops = vec![TokenType::Slash, TokenType::Star];
        if self.match_token(&ops) {
            let operator = self.tokens[self.curr - 1].duplicate();
            proof {
                assert(parser_suffix(self@) =~= ts0.skip(1));
                lemma_unary_progress(ts0.skip(1));
            }
            match self.unary() {
                Ok(right) => {
                    let folded = Expr::Binary(
                        BinaryExpr { left: Box::new(e), operator, right: Box::new(right) },
                    );
                    self.factor_rest(folded)
                },
                Err(er) => Err(er),
            }
        } else {
            Ok(e)
        }
    }

    /// The `factor` rule; exactly [`spec_factor`].
    fn factor(&mut self) -> (r: Result<Expr, LoxError>)
        requires
            parser_wf(old(self)@),
        ensures
            parser_wf(final(self)@),
            final(self)@.tokens == old(self)@.tokens,
            old(self)@.curr <= final(self)@.curr,
            parse_outcome(spec_factor(parser_suffix(old(self)@)), r, parser_suffix(final(self)@)),
        decreases old(self)@.tokens.len() - old(self)@.curr, 3int,
    {
        let ghost ts0 = parser_suffix(old(self)@);
        proof {
            lemma_unary_progress(ts0);
        }
        match self.unary() {
            Ok(e) => self.factor_rest(e),
            Err(er) => Err(er),
        }
    }

    /// Left-associative fold at the `term` level; exactly
    /// [`spec_term_chain`].
    fn term_rest(&mut self, e: Expr) -> (r: Result<Expr, LoxError>)
        requires
            parser_wf(old(self)@),
        ensures
            parser_wf(final(self)@),
            final(self)@.tokens == old(self)@.tokens,
            old(self)@.curr <= final(self)@.curr,
            parse_outcome(
                spec_term_chain(e.deep_view(), parser_suffix(old(self)@)),
                r,
                parser_suffix(final(self)@),
            ),
        decreases old(self)@.tokens.len() - old(self)@.curr, 4int,
    {
        let ghost ts0 = parser_suffix(old(self)@);
        proof {
            assert(ts0[0] == self@.tokens[self@.curr as int]);
        }
        let ops = vec![TokenType::Minus, TokenType::Plus];
        if self.match_token(&ops) {
            let operator = self.tokens[self.curr - 1].duplicate();
            proof {
                assert(parser_suffix(self@) =~= ts0.skip(1));
                lemma_factor_progress(ts0.skip(1));
            }
            match self.factor() {
                Ok(right) => {
                    let folded = Expr::Binary(
                        BinaryExpr { left: Box::new(e), operator, right: Box::new(right) },
                    );
                    self.term_rest(folded)
                },
                Err(er) => Err(er),
            }
        } else {
            Ok(e)
        }
    }

    /// The `term` rule; exactly [`spec_term`].
    fn term(&mut self) -> (r: Result<Expr, LoxError>)
        requires
            parser_wf(old(self)@),
        ensures
            parser_wf(final(self)@),
            final(self)@.tokens == old(self)@.tokens,
            old(self)@.curr <= final(self)@.curr,
            parse_outcome(spec_term(parser_suffix(old(self)@)), r, parser_suffix(final(self)@)),
        decreases old(self)@.tokens.len() - old(self)@.curr, 5int,
    {
        let ghost ts0 = parser_suffix(old(self)@);
        proof {
            lemma_factor_progress(ts0);
        }
        match self.factor() {
            Ok(e) => self.term_rest(e),
            Err(er) => Err(er),
        }
    }

    /// Left-associative fold at the `comparison` level; exactly
    /// [`spec_comparison_chain`].
    fn comparison_rest(&mut self, e: Expr) -> (r: Result<Expr, LoxError>)
        requires
            parser_wf(old(self)@),
        ensures
            parser_wf(final(self)@),
            final(self)@.tokens == old(self)@.tokens,
            old(self)@.curr <= final(self)@.curr,
            parse_outcome(
                spec_comparison_chain(e.deep_view(), parser_suffix(old(self)@)),
                r,
                parser_suffix(final(self)@),
            ),
        decreases old(self)@.tokens.len() - old(self)@.curr, 6int,
    {
        let ghost ts0 = parser_suffix(old(self)@);
        proof {
            assert(ts0[0] == self@.tokens[self@.curr as int]);
        }
        let ops = vec![
            TokenType::Greater,
            TokenType::GreaterEqual,
            TokenType::Less,
            TokenType::LessEqual,
        ];
        if self.match_token(&ops) {
            let operator = self.tokens[self.curr - 1].duplicate();
            proof {
                assert(parser_suffix(self@) =~= ts0.skip(1));
                lemma_term_progress(ts0.skip(1));
            }
            match self.term() {
                Ok(right) => {
                    let folded = Expr::Binary(
                        BinaryExpr { left: Box::new(e), operator, right: Box::new(right) },
                    );
                    self.comparison_rest(folded)
                },
                Err(er) => Err(er),
            }
        } else {
            Ok(e)
        }
    }

    /// The `comparison` rule; exactly [`spec_comparison`].
    fn comparison(&mut self) -> (r: Result<Expr, LoxError>)
        requires
            parser_wf(old(self)@),
        ensures
            parser_wf(final(self)@),
            final(self)@.tokens == old(self)@.tokens,
            old(self)@.curr <= final(self)@.curr,
            parse_outcome(
                spec_comparison(parser_suffix(old(self)@)),
                r,
                parser_suffix(final(self)@),
            ),
        decreases old(self)@.tokens.len() - old(self)@.curr, 7int,
    {
        let ghost ts0 = parser_suffix(old(self)@);
        proof {
            lemma_term_progress(ts0);
        }
        match self.term() {
            Ok(e) => self.comparison_rest(e),
            Err(er) => Err(er),
        }
    }

    /// Left-associative fold at the `equality` level; exactly
    /// [`spec_equality_chain`].
    fn equality_rest(&mut self, e: Expr) -> (r: Result<Expr, LoxError>)
        requires
            parser_wf(old(self)@),
        ensures
            parser_wf(final(self)@),
            final(self)@.tokens == old(self)@.tokens,
            old(self)@.curr <= final(self)@.curr,
            parse_outcome(
                spec_equality_chain(e.deep_view(), parser_suffix(old(self)@)),
                r,
                parser_suffix(final(self)@),
            ),
        decreases old(self)@.tokens.len() - old(self)@.curr, 8int,
    {
        let ghost ts0 = parser_suffix(old(self)@);
        proof {
            assert(ts0[0] == self@.tokens[self@.curr as int]);
        }
        let ops = vec![TokenType::BangEqual, TokenType::EqualEqual];
        if self.match_token(&ops) {
            let operator = self.tokens[self.curr - 1].duplicate();
            proof {
                assert(parser_suffix(self@) =~= ts0.skip(1));
                lemma_comparison_progress(ts0.skip(1));
            }
            match self.comparison() {
                Ok(right) => {
                    let folded = Expr::Binary(
                        BinaryExpr { left: Box::new(e), operator, right: Box::new(right) },
                    );
                    self.equality_rest(folded)
                },
                Err(er) => Err(er),
            }
        } else {
            Ok(e)
        }
    }

    /// The `equality` rule; exactly [`spec_equality`].
    fn equality(&mut self) -> (r: Result<Expr, LoxError>)
        requires
            parser_wf(old(self)@),
        ensures
            parser_wf(final(self)@),
            final(self)@.tokens == old(self)@.tokens,
            old(self)@.curr <= final(self)@.curr,
            parse_outcome(
                spec_equality(parser_suffix(old(self)@)),
                r,
                parser_suffix(final(self)@),
            ),
        decreases old(self)@.tokens.len() - old(self)@.curr, 9int,
    {
        let ghost ts0 = parser_suffix(old(self)@);
        proof {
            lemma_comparison_progress(ts0);
        }
        match self.comparison() {
            Ok(e) => self.equality_rest(e),
            Err(er) => Err(er),
        }
    }

    /// The start rule.
    fn expression(&mut self) -> (r: Result<Expr, LoxError>)
        requires
            parser_wf(old(self)@),
        ensures
            parser_wf(final(self)@),
            final(self)@.tokens == old(self)@.tokens,
            old(self)@.curr <= final(self)@.curr,
            parse_outcome(
                spec_expression(parser_suffix(old(self)@)),
                r,
                parser_suffix(final(self)@),
            ),
        decreases old(self)@.tokens.len() - old(self)@.curr, 10int,
    {
        self.equality()
    }

    /// Parse exactly one expression from the stream: the tree that
    /// [`spec_expression`] assigns to the unconsumed suffix, or the first
    /// parse error (its message, line and offending token); no token
    /// beyond what the grammar needs is consumed, and the cursor never
    /// passes the sentinel.
    pub fn parse(&mut self) -> (r: Result<Expr, LoxError>)
        requires
            parser_wf(old(self)@),
        ensures
            parser_wf(final(self)@),
            final(self)@.tokens == old(self)@.tokens,
            old(self)@.curr <= final(self)@.curr,
            parse_outcome(
                spec_expression(parser_suffix(old(self)@)),
                r,
                parser_suffix(final(self)@),
            ),
    {
        self.expression()
    }
}

/// A literal token as the `primary` rule accepts it: a boolean, `nil`,
/// or a number/string carrying the payload its tag announces.
pub open spec fn is_literal_token(t: SpecToken) -> bool {
    ||| t.token_type == TokenType::True
    ||| t.token_type == TokenType::False
    ||| t.token_type == TokenType::Nil
    ||| (t.token_type == TokenType::Number && (t.literal matches Some(SpecLiteral::Number(_))))
    ||| (t.token_type == TokenType::String && (t.literal matches Some(SpecLiteral::Str(_))))
}

/// The leaf a literal token parses to (meaningful when
/// [`is_literal_token`] holds).
pub open spec fn literal_leaf(t: SpecToken) -> SpecExpr {
    if t.token_type == TokenType::True {
        SpecExpr::Literal(SpecExprLiteral::True)
    } else if t.token_type == TokenType::False {
        SpecExpr::Literal(SpecExprLiteral::False)
    } else if t.token_type == TokenType::Nil {
        SpecExpr::Literal(SpecExprLiteral::Nil)
    } else if t.token_type == TokenType::Number {
        match t.literal {
            Some(SpecLiteral::Number(v)) => SpecExpr::Literal(SpecExprLiteral::Number(v)),
            _ => arbitrary(),
        }
    } else {
        match t.literal {
            Some(SpecLiteral::Str(sv)) => SpecExpr::Literal(SpecExprLiteral::String(sv)),
            _ => arbitrary(),
        }
    }
}

/// The token stream of an operator chain continuation:
/// `op0 v0 op1 v1 ...`.
pub open spec fn chain_tokens(ops: Seq<SpecToken>, vals: Seq<SpecToken>) -> Seq<SpecToken>
    decreases ops.len(),
{
    if ops.len() == 0 {
        Seq::<SpecToken>::empty()
    } else {
        seq![ops[0], vals[0]] + chain_tokens(ops.skip(1), vals.skip(1))
    }
}

/// The left-leaning tree of an operator chain: each step wraps the tree
/// built so far as the left child of the next operator.
pub open spec fn left_fold_chain(e: SpecExpr, ops: Seq<SpecToken>, vals: Seq<SpecToken>) -> SpecExpr
    decreases ops.len(),
{
    if ops.len() == 0 {
        e
    } else {
        left_fold_chain(
            SpecExpr::Binary(Box::new(e), ops[0], Box::new(literal_leaf(vals[0]))),
            ops.skip(1),
            vals.skip(1),
        )
    }
}

/// Law (left associativity), continuation form: at the `term` level, a
/// chain `e op0 v0 op1 v1 ... eof` of `-`/`+` operators over literal
/// operands folds into the left-leaning tree, with only the sentinel
/// left over.
pub proof fn lemma_term_chain_left_leaning(
    e: SpecExpr,
    ops: Seq<SpecToken>,
    vals: Seq<SpecToken>,
    eof: SpecToken,
)
    requires
        ops.len() == vals.len(),
        forall|i: int| 0 <= i < ops.len() ==> is_term_op(ops[i].token_type),
        forall|i: int| 0 <= i < vals.len() ==> is_literal_token(vals[i]),
        eof.token_type == TokenType::Eof,
    ensures
        spec_term_chain(e, chain_tokens(ops, vals) + seq![eof]) == SpecParse::Parsed(
            left_fold_chain(e, ops, vals),
            seq![eof],
        ),
    decreases ops.len(),
{
    let ts = chain_tokens(ops, vals) + seq![eof];
    if ops.len() == 0 {
        assert(ts =~= seq![eof]);
        assert(!is_term_op(eof.token_type));
        assert(spec_term_chain(e, ts) == SpecParse::Parsed(e, ts));
    } else {
        let rest = chain_tokens(ops.skip(1), vals.skip(1)) + seq![eof];
        assert(ts[0] == ops[0]);
        assert(ts[1] == vals[0]);
        assert(ts.skip(1) =~= seq![vals[0]] + rest);
        // The factor after the operator is exactly the literal operand.
        let after_op = ts.skip(1);
        assert(after_op[0] == vals[0]);
        assert(is_literal_token(vals[0]));
        assert(spec_primary(after_op) == SpecParse::Parsed(literal_leaf(vals[0]), after_op.skip(1)));
        assert(!is_unary_op(vals[0].token_type));
        assert(spec_unary(after_op) == spec_primary(after_op));
        assert(after_op.skip(1) =~= rest);
        // No factor operator follows: the next token is a term operator or
        // the sentinel.
        if ops.len() > 1 {
            assert(rest[0] == ops[1]);
            assert(is_term_op(ops[1].token_type));
            assert(!is_factor_op(rest[0].token_type));
        } else {
            assert(rest =~= seq![eof]);
            assert(!is_factor_op(rest[0].token_type));
        }
        assert(spec_factor_chain(literal_leaf(vals[0]), rest) == SpecParse::Parsed(
            literal_leaf(vals[0]),
            rest,
        ));
        assert(spec_factor(after_op) == SpecParse::Parsed(literal_leaf(vals[0]), rest));
        let folded = SpecExpr::Binary(Box::new(e), ops[0], Box::new(literal_leaf(vals[0])));
        assert(rest.len() < ts.len());
        lemma_term_chain_left_leaning(folded, ops.skip(1), vals.skip(1), eof);
        assert(spec_term_chain(e, ts) == spec_term_chain(folded, rest));
    }
}

/// Law (left associativity): a chain of `-`/`+` operators at one
/// precedence level over literal operands, `v0 op0 v1 op1 v2 ... eof`,
/// parses to the left-leaning tree: `a - b - c` means `(a - b) - c`.
pub proof fn lemma_left_associative_term_chain(
    first: SpecToken,
    ops: Seq<SpecToken>,
    vals: Seq<SpecToken>,
    eof: SpecToken,
)
    requires
        ops.len() == vals.len(),
        is_literal_token(first),
        forall|i: int| 0 <= i < ops.len() ==> is_term_op(ops[i].token_type),
        forall|i: int| 0 <= i < vals.len() ==> is_literal_token(vals[i]),
        eof.token_type == TokenType::Eof,
    ensures
        spec_expression(seq![first] + chain_tokens(ops, vals) + seq![eof]) == SpecParse::Parsed(
            left_fold_chain(literal_leaf(first), ops, vals),
            seq![eof],
        ),
{
    let ts = seq![first] + chain_tokens(ops, vals) + seq![eof];
    let rest = chain_tokens(ops, vals) + seq![eof];
    assert(ts[0] == first);
    assert(spec_primary(ts) == SpecParse::Parsed(literal_leaf(first), ts.skip(1)));
    assert(!is_unary_op(first.token_type));
    assert(spec_unary(ts) == spec_primary(ts));
    assert(ts.skip(1) =~= rest);
    if ops.len() > 0 {
        assert(rest[0] == ops[0]);
        assert(!is_factor_op(rest[0].token_type));
        assert(!is_comparison_op(rest[0].token_type));
        assert(!is_equality_op(rest[0].token_type));
    } else {
        assert(rest =~= seq![eof]);
        assert(!is_factor_op(rest[0].token_type));
        assert(!is_comparison_op(rest[0].token_type));
        assert(!is_equality_op(rest[0].token_type));
    }
    assert(spec_factor_chain(literal_leaf(first), rest) == SpecParse::Parsed(
        literal_leaf(first),
        rest,
    ));
    assert(spec_factor(ts) == SpecParse::Parsed(literal_leaf(first), rest));
    lemma_term_chain_left_leaning(literal_leaf(first), ops, vals, eof);
    assert(spec_term(ts) == SpecParse::Parsed(left_fold_chain(literal_leaf(first), ops, vals), seq![
        eof,
    ]));
    let tree = left_fold_chain(literal_leaf(first), ops, vals);
    assert(!is_comparison_op(eof.token_type));
    assert(spec_comparison_chain(tree, seq![eof]) == SpecParse::Parsed(tree, seq![eof]));
    assert(spec_comparison(ts) == SpecParse::Parsed(tree, seq![eof]));
    assert(!is_equality_op(eof.token_type));
    assert(spec_equality_chain(tree, seq![eof]) == SpecParse::Parsed(tree, seq![eof]));
    assert(spec_equality(ts) == SpecParse::Parsed(tree, seq![eof]));
}

/// Law (precedence): in `v1 op1 v2 op2 v3` where `op1` is `+` or `-` and
/// `op2` is `*` or `/`, the tighter-binding operator groups first:
/// `1 + 2 * 3` parses as `1 + (2 * 3)`.
pub proof fn lemma_precedence(
    v1: SpecToken,
    op1: SpecToken,
    v2: SpecToken,
    op2: SpecToken,
    v3: SpecToken,
    eof: SpecToken,
)
    requires
        is_literal_token(v1),
        is_literal_token(v2),
        is_literal_token(v3),
        is_term_op(op1.token_type),
        is_factor_op(op2.token_type),
        eof.token_type == TokenType::Eof,
    ensures
        spec_expression(seq![v1, op1, v2, op2, v3, eof]) == SpecParse::Parsed(
            SpecExpr::Binary(
                Box::new(literal_leaf(v1)),
                op1,
                Box::new(
                    SpecExpr::Binary(Box::new(literal_leaf(v2)), op2, Box::new(literal_leaf(v3))),
                ),
            ),
            seq![eof],
        ),
{
    let ts = seq![v1, op1, v2, op2, v3, eof];
    // First factor: just `v1`.
    assert(spec_primary(ts) == SpecParse::Parsed(literal_leaf(v1), ts.skip(1)));
    assert(spec_unary(ts) == spec_primary(ts));
    assert(ts.skip(1) =~= seq![op1, v2, op2, v3, eof]);
    let t1 = seq![op1, v2, op2, v3, eof];
    assert(!is_factor_op(op1.token_type));
    assert(spec_factor_chain(literal_leaf(v1), t1) == SpecParse::Parsed(literal_leaf(v1), t1));
    assert(spec_factor(ts) == SpecParse::Parsed(literal_leaf(v1), t1));
    // The term chain folds `op1` with the factor `v2 op2 v3`.
    let t2 = t1.skip(1);
    assert(t2 =~= seq![v2, op2, v3, eof]);
    assert(spec_primary(t2) == SpecParse::Parsed(literal_leaf(v2), t2.skip(1)));
    assert(spec_unary(t2) == spec_primary(t2));
    let t3 = t2.skip(1);
    assert(t3 =~= seq![op2, v3, eof]);
    // The factor chain sees `op2` and folds `v3` in.
    let t4 = t3.skip(1);
    assert(t4 =~= seq![v3, eof]);
    assert(spec_primary(t4) == SpecParse::Parsed(literal_leaf(v3), t4.skip(1)));
    assert(spec_unary(t4) == spec_primary(t4));
    assert(t4.skip(1) =~= seq![eof]);
    let inner = SpecExpr::Binary(Box::new(literal_leaf(v2)), op2, Box::new(literal_leaf(v3)));
    assert(!is_factor_op(eof.token_type));
    assert(spec_factor_chain(inner, seq![eof]) == SpecParse::Parsed(inner, seq![eof]));
    assert(seq![eof].len() < t3.len());
    assert(spec_factor_chain(literal_leaf(v2), t3) == spec_factor_chain(inner, seq![eof]));
    assert(spec_factor(t2) == SpecParse::Parsed(inner, seq![eof]));
    let outer = SpecExpr::Binary(Box::new(literal_leaf(v1)), op1, Box::new(inner));
    assert(!is_term_op(eof.token_type));
    assert(spec_term_chain(outer, seq![eof]) == SpecParse::Parsed(outer, seq![eof]));
    assert(seq![eof].len() < t1.len());
    assert(spec_term_chain(literal_leaf(v1), t1) == spec_term_chain(outer, seq![eof]));
    assert(spec_term(ts) == SpecParse::Parsed(outer, seq![eof]));
    assert(!is_comparison_op(eof.token_type));
    assert(spec_comparison_chain(outer, seq![eof]) == SpecParse::Parsed(outer, seq![eof]));
    assert(spec_comparison(ts) == SpecParse::Parsed(outer, seq![eof]));
    assert(!is_equality_op(eof.token_type));
    assert(spec_equality_chain(outer, seq![eof]) == SpecParse::Parsed(outer, seq![eof]));
    assert(spec_equality(ts) == SpecParse::Parsed(outer, seq![eof]));
}

/// Law (left associativity), continuation form at the `factor` level:
/// a chain of `*`/`/` operators over literal operands folds into the
/// left-leaning tree.
pub proof fn lemma_factor_chain_left_leaning(
    e: SpecExpr,
    ops: Seq<SpecToken>,
    vals: Seq<SpecToken>,
    eof: SpecToken,
)
    requires
        ops.len() == vals.len(),
        forall|i: int| 0 <= i < ops.len() ==> is_factor_op(ops[i].token_type),
        forall|i: int| 0 <= i < vals.len() ==> is_literal_token(vals[i]),
        eof.token_type == TokenType::Eof,
    ensures
        spec_factor_chain(e, chain_tokens(ops, vals) + seq![eof]) == SpecParse::Parsed(
            left_fold_chain(e, ops, vals),
            seq![eof],
        ),
    decreases ops.len(),
{
    let ts = chain_tokens(ops, vals) + seq![eof];
    if ops.len() == 0 {
        assert(ts =~= seq![eof]);
        assert(!is_factor_op(eof.token_type));
    } else {
        let rest = chain_tokens(ops.skip(1), vals.skip(1)) + seq![eof];
        assert(ts[0] == ops[0]);
        assert(ts[1] == vals[0]);
        let after_op = ts.skip(1);
        assert(after_op =~= seq![vals[0]] + rest);
        assert(after_op[0] == vals[0]);
        assert(spec_primary(after_op) == SpecParse::Parsed(literal_leaf(vals[0]), after_op.skip(1)));
        assert(!is_unary_op(vals[0].token_type));
        assert(spec_unary(after_op) == spec_primary(after_op));
        assert(after_op.skip(1) =~= rest);
        let folded = SpecExpr::Binary(Box::new(e), ops[0], Box::new(literal_leaf(vals[0])));
        assert(rest.len() < ts.len());
        lemma_factor_chain_left_leaning(folded, ops.skip(1), vals.skip(1), eof);
        assert(spec_factor_chain(e, ts) == spec_factor_chain(folded, rest));
    }
}

/// Law (left associativity): a chain of `*`/`/` operators at one
/// precedence level over literal operands parses to the left-leaning
/// tree: `a / b / c` means `(a / b) / c`.
pub proof fn lemma_left_associative_factor_chain(
    first: SpecToken,
    ops: Seq<SpecToken>,
    vals: Seq<SpecToken>,
    eof: SpecToken,
)
    requires
        ops.len() == vals.len(),
        is_literal_token(first),
        forall|i: int| 0 <= i < ops.len() ==> is_factor_op(ops[i].token_type),
        forall|i: int| 0 <= i < vals.len() ==> is_literal_token(vals[i]),
        eof.token_type == TokenType::Eof,
    ensures
        spec_expression(seq![first] + chain_tokens(ops, vals) + seq![eof]) == SpecParse::Parsed(
            left_fold_chain(literal_leaf(first), ops, vals),
            seq![eof],
        ),
{
    let ts = seq![first] + chain_tokens(ops, vals) + seq![eof];
    let rest = chain_tokens(ops, vals) + seq![eof];
    assert(ts[0] == first);
    assert(spec_primary(ts) == SpecParse::Parsed(literal_leaf(first), ts.skip(1)));
    assert(!is_unary_op(first.token_type));
    assert(spec_unary(ts) == spec_primary(ts));
    assert(ts.skip(1) =~= rest);
    lemma_factor_chain_left_leaning(literal_leaf(first), ops, vals, eof);
    assert(spec_factor(ts) == SpecParse::Parsed(left_fold_chain(literal_leaf(first), ops, vals),
        seq![eof]));
    let tree = left_fold_chain(literal_leaf(first), ops, vals);
    assert(!is_term_op(eof.token_type));
    assert(spec_term_chain(tree, seq![eof]) == SpecParse::Parsed(tree, seq![eof]));
    assert(spec_term(ts) == SpecParse::Parsed(tree, seq![eof]));
    assert(!is_comparison_op(eof.token_type));
    assert(spec_comparison_chain(tree, seq![eof]) == SpecParse::Parsed(tree, seq![eof]));
    assert(spec_comparison(ts) == SpecParse::Parsed(tree, seq![eof]));
    assert(!is_equality_op(eof.token_type));
    assert(spec_equality_chain(tree, seq![eof]) == SpecParse::Parsed(tree, seq![eof]));
    assert(spec_equality(ts) == SpecParse::Parsed(tree, seq![eof]));
}

/// Law (left associativity), continuation form at the `comparison`
/// level: a chain of `>` `>=` `<` `<=` operators over literal operands
/// folds into the left-leaning tree.
pub proof fn lemma_comparison_chain_left_leaning(
    e: SpecExpr,
    ops: Seq<SpecToken>,
    vals: Seq<SpecToken>,
    eof: SpecToken,
)
    requires
        ops.len() == vals.len(),
        forall|i: int| 0 <= i < ops.len() ==> is_comparison_op(ops[i].token_type),
        forall|i: int| 0 <= i < vals.len() ==> is_literal_token(vals[i]),
        eof.token_type == TokenType::Eof,
    ensures
        spec_comparison_chain(e, chain_tokens(ops, vals) + seq![eof]) == SpecParse::Parsed(
            left_fold_chain(e, ops, vals),
            seq![eof],
        ),
    decreases ops.len(),
{
    let ts = chain_tokens(ops, vals) + seq![eof];
    if ops.len() == 0 {
        assert(ts =~= seq![eof]);
        assert(!is_comparison_op(eof.token_type));
    } else {
        let rest = chain_tokens(ops.skip(1), vals.skip(1)) + seq![eof];
        assert(ts[0] == ops[0]);
        assert(ts[1] == vals[0]);
        let after_op = ts.skip(1);
        assert(after_op =~= seq![vals[0]] + rest);
        assert(after_op[0] == vals[0]);
        assert(spec_primary(after_op) == SpecParse::Parsed(literal_leaf(vals[0]), after_op.skip(1)));
        assert(!is_unary_op(vals[0].token_type));
        assert(spec_unary(after_op) == spec_primary(after_op));
        assert(after_op.skip(1) =~= rest);
        if ops.len() > 1 {
            assert(rest[0] == ops[1]);
            assert(!is_factor_op(rest[0].token_type));
            assert(!is_term_op(rest[0].token_type));
        } else {
            assert(rest =~= seq![eof]);
            assert(!is_factor_op(rest[0].token_type));
            assert(!is_term_op(rest[0].token_type));
        }
        let leaf = literal_leaf(vals[0]);
        assert(spec_factor_chain(leaf, rest) == SpecParse::Parsed(leaf, rest));
        assert(spec_factor(after_op) == SpecParse::Parsed(leaf, rest));
        assert(spec_term_chain(leaf, rest) == SpecParse::Parsed(leaf, rest));
        assert(spec_term(after_op) == SpecParse::Parsed(leaf, rest));
        let folded = SpecExpr::Binary(Box::new(e), ops[0], Box::new(leaf));
        assert(rest.len() < ts.len());
        lemma_comparison_chain_left_leaning(folded, ops.skip(1), vals.skip(1), eof);
        assert(spec_comparison_chain(e, ts) == spec_comparison_chain(folded, rest));
    }
}

/// Law (left associativity): a chain of comparison operators at one
/// precedence level over literal operands parses to the left-leaning
/// tree: `a < b < c` means `(a < b) < c`.
pub proof fn lemma_left_associative_comparison_chain(
    first: SpecToken,
    ops: Seq<SpecToken>,
    vals: Seq<SpecToken>,
    eof: SpecToken,
)
    requires
        ops.len() == vals.len(),
        is_literal_token(first),
        forall|i: int| 0 <= i < ops.len() ==> is_comparison_op(ops[i].token_type),
        forall|i: int| 0 <= i < vals.len() ==> is_literal_token(vals[i]),
        eof.token_type == TokenType::Eof,
    ensures
        spec_expression(seq![first] + chain_tokens(ops, vals) + seq![eof]) == SpecParse::Parsed(
            left_fold_chain(literal_leaf(first), ops, vals),
            seq![eof],
        ),
{
    let ts = seq![first] + chain_tokens(ops, vals) + seq![eof];
    let rest = chain_tokens(ops, vals) + seq![eof];
    assert(ts[0] == first);
    assert(spec_primary(ts) == SpecParse::Parsed(literal_leaf(first), ts.skip(1)));
    assert(!is_unary_op(first.token_type));
    assert(spec_unary(ts) == spec_primary(ts));
    assert(ts.skip(1) =~= rest);
    if ops.len() > 0 {
        assert(rest[0] == ops[0]);
        assert(!is_factor_op(rest[0].token_type));
        assert(!is_term_op(rest[0].token_type));
        assert(!is_equality_op(rest[0].token_type));
    } else {
        assert(rest =~= seq![eof]);
        assert(!is_factor_op(rest[0].token_type));
        assert(!is_term_op(rest[0].token_type));
        assert(!is_equality_op(rest[0].token_type));
    }
    let leaf = literal_leaf(first);
    assert(spec_factor_chain(leaf, rest) == SpecParse::Parsed(leaf, rest));
    assert(spec_factor(ts) == SpecParse::Parsed(leaf, rest));
    assert(spec_term_chain(leaf, rest) == SpecParse::Parsed(leaf, rest));
    assert(spec_term(ts) == SpecParse::Parsed(leaf, rest));
    lemma_comparison_chain_left_leaning(leaf, ops, vals, eof);
    assert(spec_comparison(ts) == SpecParse::Parsed(left_fold_chain(leaf, ops, vals), seq![eof]));
    let tree = left_fold_chain(leaf, ops, vals);
    assert(!is_equality_op(eof.token_type));
    assert(spec_equality_chain(tree, seq![eof]) == SpecParse::Parsed(tree, seq![eof]));
    assert(spec_equality(ts) == SpecParse::Parsed(tree, seq![eof]));
}

/// Law (left associativity), continuation form at the `equality` level:
/// a chain of `!=`/`==` operators over literal operands folds into the
/// left-leaning tree.
pub proof fn lemma_equality_chain_left_leaning(
    e: SpecExpr,
    ops: Seq<SpecToken>,
    vals: Seq<SpecToken>,
    eof: SpecToken,
)
    requires
        ops.len() == vals.len(),
        forall|i: int| 0 <= i < ops.len() ==> is_equality_op(ops[i].token_type),
        forall|i: int| 0 <= i < vals.len() ==> is_literal_token(vals[i]),
        eof.token_type == TokenType::Eof,
    ensures
        spec_equality_chain(e, chain_tokens(ops, vals) + seq![eof]) == SpecParse::Parsed(
            left_fold_chain(e, ops, vals),
            seq![eof],
        ),
    decreases ops.len(),
{
    let ts = chain_tokens(ops, vals) + seq![eof];
    if ops.len() == 0 {
        assert(ts =~= seq![eof]);
        assert(!is_equality_op(eof.token_type));
    } else {
        let rest = chain_tokens(ops.skip(1), vals.skip(1)) + seq![eof];
        assert(ts[0] == ops[0]);
        assert(ts[1] == vals[0]);
        let after_op = ts.skip(1);
        assert(after_op =~= seq![vals[0]] + rest);
        assert(after_op[0] == vals[0]);
        assert(spec_primary(after_op) == SpecParse::Parsed(literal_leaf(vals[0]), after_op.skip(1)));
        assert(!is_unary_op(vals[0].token_type));
        assert(spec_unary(after_op) == spec_primary(after_op));
        assert(after_op.skip(1) =~= rest);
        if ops.len() > 1 {
            assert(rest[0] == ops[1]);
            assert(!is_factor_op(rest[0].token_type));
            assert(!is_term_op(rest[0].token_type));
            assert(!is_comparison_op(rest[0].token_type));
        } else {
            assert(rest =~= seq![eof]);
            assert(!is_factor_op(rest[0].token_type));
            assert(!is_term_op(rest[0].token_type));
            assert(!is_comparison_op(rest[0].token_type));
        }
        let leaf = literal_leaf(vals[0]);
        assert(spec_factor_chain(leaf, rest) == SpecParse::Parsed(leaf, rest));
        assert(spec_factor(after_op) == SpecParse::Parsed(leaf, rest));
        assert(spec_term_chain(leaf, rest) == SpecParse::Parsed(leaf, rest));
        assert(spec_term(after_op) == SpecParse::Parsed(leaf, rest));
        assert(spec_comparison_chain(leaf, rest) == SpecParse::Parsed(leaf, rest));
        assert(spec_comparison(after_op) == SpecParse::Parsed(leaf, rest));
        let folded = SpecExpr::Binary(Box::new(e), ops[0], Box::new(leaf));
        assert(rest.len() < ts.len());
        lemma_equality_chain_left_leaning(folded, ops.skip(1), vals.skip(1), eof);
        assert(spec_equality_chain(e, ts) == spec_equality_chain(folded, rest));
    }
}

/// Law (left associativity): a chain of `!=`/`==` operators at one
/// precedence level over literal operands parses to the left-leaning
/// tree: `a == b == c` means `(a == b) == c`.
pub proof fn lemma_left_associative_equality_chain(
    first: SpecToken,
    ops: Seq<SpecToken>,
    vals: Seq<SpecToken>,
    eof: SpecToken,
)
    requires
        ops.len() == vals.len(),
        is_literal_token(first),
        forall|i: int| 0 <= i < ops.len() ==> is_equality_op(ops[i].token_type),
        forall|i: int| 0 <= i < vals.len() ==> is_literal_token(vals[i]),
        eof.token_type == TokenType::Eof,
    ensures
        spec_expression(seq![first] + chain_tokens(ops, vals) + seq![eof]) == SpecParse::Parsed(
            left_fold_chain(literal_leaf(first), ops, vals),
            seq![eof],
        ),
{
    let ts = seq![first] + chain_tokens(ops, vals) + seq![eof];
    let rest = chain_tokens(ops, vals) + seq![eof];
    assert(ts[0] == first);
    assert(spec_primary(ts) == SpecParse::Parsed(literal_leaf(first), ts.skip(1)));
    assert(!is_unary_op(first.token_type));
    assert(spec_unary(ts) == spec_primary(ts));
    assert(ts.skip(1) =~= rest);
    if ops.len() > 0 {
        assert(rest[0] == ops[0]);
        assert(!is_factor_op(rest[0].token_type));
        assert(!is_term_op(rest[0].token_type));
        assert(!is_comparison_op(rest[0].token_type));
    } else {
        assert(rest =~= seq![eof]);
        assert(!is_factor_op(rest[0].token_type));
        assert(!is_term_op(rest[0].token_type));
        assert(!is_comparison_op(rest[0].token_type));
    }
    let leaf = literal_leaf(first);
    assert(spec_factor_chain(leaf, rest) == SpecParse::Parsed(leaf, rest));
    assert(spec_factor(ts) == SpecParse::Parsed(leaf, rest));
    assert(spec_term_chain(leaf, rest) == SpecParse::Parsed(leaf, rest));
    assert(spec_term(ts) == SpecParse::Parsed(leaf, rest));
    assert(spec_comparison_chain(leaf, rest) == SpecParse::Parsed(leaf, rest));
    assert(spec_comparison(ts) == SpecParse::Parsed(leaf, rest));
    lemma_equality_chain_left_leaning(leaf, ops, vals, eof);
    assert(spec_equality(ts) == SpecParse::Parsed(left_fold_chain(leaf, ops, vals), seq![eof]));
}

} // verus!
