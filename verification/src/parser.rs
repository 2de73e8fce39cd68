//! The parser: recursive descent over the token sequence, one rule per
//! precedence level.
//!
//! ```text
//! expr   := term (('+' | '-') term)*
//! term   := power (('*' | '/') power)*
//! power  := factor ('**' power)?
//! factor := '(' expr ')' | Number
//! ```
//!
//! The rules are stated twice: as specification functions on a sequence of
//! tokens and a cursor, which say what each rule yields, and as methods of
//! [`Parser`], which are proved to yield exactly that.
//!
//! Where a specification function goes on from the cursor that another rule
//! has returned, it first asks that this cursor lies behind its own and
//! within the tokens. That is what makes the mutual recursion well-founded.
//! Every rule that succeeds consumes a token, so the question is always
//! answered with yes: [`lemma_rules_unfold`] and [`lemma_loops_unfold`] state
//! the rules without it.

use vstd::prelude::*;
use crate::grammar::{expr_ends_at, lemma_parser_accepts_the_grammar};
use crate::tokenize::Token;

verus! {

/// A binary operator of the expression language.
#[derive(Debug, Clone, Copy, PartialEq, Eq, Structural)]
pub enum BinOp {
    /// `+`
    Add,
    /// `-`
    Sub,
    /// `*`
    Mul,
    /// `/`
    Div,
    /// `**`
    Power,
}

/// An expression tree. Every inner node has exactly two children, which it
/// owns.
#[derive(Debug, PartialEq, Eq)]
pub enum Ast {
    /// A literal.
    Number(i32),
    /// An operator applied to a left and a right operand.
    BinOp(Box<Ast>, BinOp, Box<Ast>),
}

/// Why a token sequence is not an expression.
#[derive(Debug, Clone, Copy, PartialEq, Eq, Structural)]
pub enum ParseError {
    /// An operand was expected at `position`, where `found` stands; `found`
    /// is neither a number nor an opening parenthesis.
    UnexpectedToken { position: usize, found: Token },
    /// The expression behind an opening parenthesis ended at `position`, and
    /// what stands there is not a closing parenthesis: another token, or the
    /// end of the tokens.
    ExpectedCloseParen { position: usize },
    /// An operand was expected where the tokens end.
    UnexpectedEndOfInput,
}

/// What a rule yields: the tree it built and the cursor behind the tokens it
/// consumed, or the reason it failed.
pub type Parsed = Result<(Ast, nat), ParseError>;

/// The token under the cursor, if the cursor is not at the end.
pub open spec fn token_at(tokens: Seq<Token>, pos: nat) -> Option<Token> {
    if pos < tokens.len() {
        Some(tokens[pos as int])
    } else {
        None
    }
}

/// The operator of the lowest precedence level that a token stands for.
pub open spec fn additive(token: Option<Token>) -> Option<BinOp> {
    match token {
        Some(Token::Plus) => Some(BinOp::Add),
        Some(Token::Minus) => Some(BinOp::Sub),
        _ => None,
    }
}

/// The operator of the middle precedence level that a token stands for.
pub open spec fn multiplicative(token: Option<Token>) -> Option<BinOp> {
    match token {
        Some(Token::Asterisk) => Some(BinOp::Mul),
        Some(Token::Slash) => Some(BinOp::Div),
        _ => None,
    }
}

/// The inner node with the given operands.
pub open spec fn node(left: Ast, op: BinOp, right: Ast) -> Ast {
    Ast::BinOp(Box::new(left), op, Box::new(right))
}

/// `factor := '(' expr ')' | Number`
pub open spec fn parse_factor(tokens: Seq<Token>, pos: nat) -> Parsed
    decreases tokens.len() - pos, 0nat,
{
    match token_at(tokens, pos) {
        None => Err(ParseError::UnexpectedEndOfInput),
        Some(Token::Number(n)) => Ok((Ast::Number(n), pos + 1)),
        Some(Token::LParen) => match parse_expr(tokens, pos + 1) {
            Err(e) => Err(e),
            Ok((inner, next)) => if token_at(tokens, next) == Some(Token::RParen) {
                Ok((inner, next + 1))
            } else {
                Err(ParseError::ExpectedCloseParen { position: next as usize })
            },
        },
        Some(found) => Err(ParseError::UnexpectedToken { position: pos as usize, found }),
    }
}

/// `power := factor ('**' power)?`
///
/// The right operand is again a `power`, so the operator associates to the
/// right.
pub open spec fn parse_power(tokens: Seq<Token>, pos: nat) -> Parsed
    decreases tokens.len() - pos, 1nat,
{
    match parse_factor(tokens, pos) {
        Err(e) => Err(e),
        Ok((base, next)) => if pos < next && token_at(tokens, next) == Some(Token::Power) {
            match parse_power(tokens, next + 1) {
                Err(e) => Err(e),
                Ok((exponent, end)) => Ok((node(base, BinOp::Power, exponent), end)),
            }
        } else {
            Ok((base, next))
        },
    }
}

/// `(('*' | '/') power)*`, continuing the term whose operands so far form
/// `left`. Each further operand becomes the right child of a new root, so the
/// operators associate to the left.
pub open spec fn parse_term_rest(tokens: Seq<Token>, pos: nat, left: Ast) -> Parsed
    decreases tokens.len() - pos, 2nat,
{
    match multiplicative(token_at(tokens, pos)) {
        None => Ok((left, pos)),
        Some(op) => match parse_power(tokens, pos + 1) {
            Err(e) => Err(e),
            Ok((right, next)) => if pos < next <= tokens.len() {
                parse_term_rest(tokens, next, node(left, op, right))
            } else {
                Ok((node(left, op, right), next))
            },
        },
    }
}

/// `term := power (('*' | '/') power)*`
pub open spec fn parse_term(tokens: Seq<Token>, pos: nat) -> Parsed
    decreases tokens.len() - pos, 3nat,
{
    match parse_power(tokens, pos) {
        Err(e) => Err(e),
        Ok((first, next)) => if pos < next <= tokens.len() {
            parse_term_rest(tokens, next, first)
        } else {
            Ok((first, next))
        },
    }
}

/// `(('+' | '-') term)*`, continuing the expression whose operands so far
/// form `left`. The operators associate to the left.
pub open spec fn parse_expr_rest(tokens: Seq<Token>, pos: nat, left: Ast) -> Parsed
    decreases tokens.len() - pos, 4nat,
{
    match additive(token_at(tokens, pos)) {
        None => Ok((left, pos)),
        Some(op) => match parse_term(tokens, pos + 1) {
            Err(e) => Err(e),
            Ok((right, next)) => if pos < next <= tokens.len() {
                parse_expr_rest(tokens, next, node(left, op, right))
            } else {
                Ok((node(left, op, right), next))
            },
        },
    }
}

/// `expr := term (('+' | '-') term)*`
pub open spec fn parse_expr(tokens: Seq<Token>, pos: nat) -> Parsed
    decreases tokens.len() - pos, 5nat,
{
    match parse_term(tokens, pos) {
        Err(e) => Err(e),
        Ok((first, next)) => if pos < next <= tokens.len() {
            parse_expr_rest(tokens, next, first)
        } else {
            Ok((first, next))
        },
    }
}

/// The expression at the front of `tokens`. Tokens behind it are not looked
/// at.
pub open spec fn parse_tokens(tokens: Seq<Token>) -> Parsed {
    parse_expr(tokens, 0)
}

/// A rule that succeeds from `pos` ends behind `pos` and within the tokens.
pub open spec fn advances(tokens: Seq<Token>, pos: nat, outcome: Parsed) -> bool {
    outcome matches Ok((_, next)) ==> pos < next <= tokens.len()
}

/// A continuation that succeeds from `pos` ends at or behind `pos` and
/// within the tokens.
pub open spec fn keeps(tokens: Seq<Token>, pos: nat, outcome: Parsed) -> bool {
    outcome matches Ok((_, next)) ==> pos <= next <= tokens.len()
}

/// A factor consumes at least one token.
pub proof fn lemma_factor_advances(tokens: Seq<Token>, pos: nat)
    ensures
        advances(tokens, pos, parse_factor(tokens, pos)),
    decreases tokens.len() - pos, 0nat,
{
    if token_at(tokens, pos) == Some(Token::LParen) {
        lemma_expr_advances(tokens, pos + 1);
    }
}

/// A power consumes at least one token.
pub proof fn lemma_power_advances(tokens: Seq<Token>, pos: nat)
    ensures
        advances(tokens, pos, parse_power(tokens, pos)),
    decreases tokens.len() - pos, 1nat,
{
    lemma_factor_advances(tokens, pos);
    if let Ok((_, next)) = parse_factor(tokens, pos) {
        if token_at(tokens, next) == Some(Token::Power) {
            lemma_power_advances(tokens, next + 1);
        }
    }
}

/// The continuation of a term never moves the cursor back.
pub proof fn lemma_term_rest_keeps(tokens: Seq<Token>, pos: nat, left: Ast)
    requires
        pos <= tokens.len(),
    ensures
        keeps(tokens, pos, parse_term_rest(tokens, pos, left)),
    decreases tokens.len() - pos, 2nat,
{
    if let Some(op) = multiplicative(token_at(tokens, pos)) {
        lemma_power_advances(tokens, pos + 1);
        if let Ok((right, next)) = parse_power(tokens, pos + 1) {
            lemma_term_rest_keeps(tokens, next, node(left, op, right));
        }
    }
}

/// A term consumes at least one token.
pub proof fn lemma_term_advances(tokens: Seq<Token>, pos: nat)
    ensures
        advances(tokens, pos, parse_term(tokens, pos)),
    decreases tokens.len() - pos, 3nat,
{
    lemma_power_advances(tokens, pos);
    if let Ok((first, next)) = parse_power(tokens, pos) {
        lemma_term_rest_keeps(tokens, next, first);
    }
}

/// The continuation of an expression never moves the cursor back.
pub proof fn lemma_expr_rest_keeps(tokens: Seq<Token>, pos: nat, left: Ast)
    requires
        pos <= tokens.len(),
    ensures
        keeps(tokens, pos, parse_expr_rest(tokens, pos, left)),
    decreases tokens.len() - pos, 4nat,
{
    if let Some(op) = additive(token_at(tokens, pos)) {
        lemma_term_advances(tokens, pos + 1);
        if let Ok((right, next)) = parse_term(tokens, pos + 1) {
            lemma_expr_rest_keeps(tokens, next, node(left, op, right));
        }
    }
}

/// An expression consumes at least one token.
pub proof fn lemma_expr_advances(tokens: Seq<Token>, pos: nat)
    ensures
        advances(tokens, pos, parse_expr(tokens, pos)),
    decreases tokens.len() - pos, 5nat,
{
    lemma_term_advances(tokens, pos);
    if let Ok((first, next)) = parse_term(tokens, pos) {
        lemma_expr_rest_keeps(tokens, next, first);
    }
}

/// The rules as the grammar writes them: each goes on from wherever the rule
/// before it has stopped.
pub proof fn lemma_rules_unfold(tokens: Seq<Token>, pos: nat)
    ensures
        parse_power(tokens, pos) == match parse_factor(tokens, pos) {
            Err(e) => Err(e),
            Ok((base, next)) => if token_at(tokens, next) == Some(Token::Power) {
                match parse_power(tokens, next + 1) {
                    Err(e) => Err(e),
                    Ok((exponent, end)) => Ok((node(base, BinOp::Power, exponent), end)),
                }
            } else {
                Ok((base, next))
            },
        },
        parse_term(tokens, pos) == match parse_power(tokens, pos) {
            Err(e) => Err(e),
            Ok((first, next)) => parse_term_rest(tokens, next, first),
        },
        parse_expr(tokens, pos) == match parse_term(tokens, pos) {
            Err(e) => Err(e),
            Ok((first, next)) => parse_expr_rest(tokens, next, first),
        },
{
    lemma_term_advances(tokens, pos);
}

/// The loops as the grammar writes them: after an operator and its right
/// operand, each goes on from wherever the operand has stopped.
pub proof fn lemma_loops_unfold(tokens: Seq<Token>, pos: nat, left: Ast)
    ensures
        parse_term_rest(tokens, pos, left) == match multiplicative(token_at(tokens, pos)) {
            None => Ok((left, pos)),
            Some(op) => match parse_power(tokens, pos + 1) {
                Err(e) => Err(e),
                Ok((right, next)) => parse_term_rest(tokens, next, node(left, op, right)),
            },
        },
        parse_expr_rest(tokens, pos, left) == match additive(token_at(tokens, pos)) {
            None => Ok((left, pos)),
            Some(op) => match parse_term(tokens, pos + 1) {
                Err(e) => Err(e),
                Ok((right, next)) => parse_expr_rest(tokens, next, node(left, op, right)),
            },
        },
{
    lemma_term_advances(tokens, pos + 1);
}

/// The state of a parser, as the contracts see it.
pub struct ParserState {
    /// The tokens that the parser reads. They never change.
    pub tokens: Seq<Token>,
    /// The number of tokens consumed so far.
    pub cursor: nat,
}

/// A cursor over a token sequence. The cursor only moves forward.
pub struct Parser {
    tokens: Vec<Token>,
    pos: usize,
}

impl View for Parser {
    type V = ParserState;

    closed spec fn view(&self) -> ParserState {
        ParserState { tokens: self.tokens@, cursor: self.pos as nat }
    }
}

/// Where a rule that fails leaves the cursor: at the token it could not
/// accept, or at the end where a token is missing.
pub open spec fn stopped_at(error: ParseError, len: nat) -> nat {
    match error {
        ParseError::UnexpectedToken { position, .. } => position as nat,
        ParseError::ExpectedCloseParen { position } => position as nat,
        ParseError::UnexpectedEndOfInput => len,
    }
}

/// What a rule method returns and where it leaves the cursor, given what the
/// rule yields on the parser's state before the call.
pub open spec fn follows(
    before: ParserState,
    after: ParserState,
    r: Result<Ast, ParseError>,
    rule: Parsed,
) -> bool {
    &&& after.tokens == before.tokens
    &&& before.cursor <= after.cursor <= after.tokens.len()
    &&& match rule {
        Ok((ast, next)) => r == Ok::<Ast, ParseError>(ast) && after.cursor == next,
        Err(e) => r == Err::<Ast, ParseError>(e) && after.cursor == stopped_at(
            e,
            after.tokens.len(),
        ),
    }
}

impl Parser {
    #[verifier::type_invariant]
    spec fn cursor_in_range(&self) -> bool {
        self.pos <= self.tokens.len()
    }

    /// A parser at the front of `tokens`.
    pub fn new(tokens: Vec<Token>) -> (parser: Parser)
        ensures
            parser@.tokens == tokens@,
            parser@.cursor == 0,
    {
        Parser { tokens, pos: 0 }
    }

    /// The cursor: the number of tokens consumed so far.
    pub fn position(&self) -> (pos: usize)
        ensures
            pos == self@.cursor,
            pos <= self@.tokens.len(),
    {
        proof {
            use_type_invariant(self);
        }
        self.pos
    }

    /// Whether every token has been consumed.
    pub fn at_end(&self) -> (done: bool)
        ensures
            done == (self@.cursor == self@.tokens.len()),
    {
        proof {
            use_type_invariant(self);
        }
        self.pos == self.tokens.len()
    }

    /// Consumes the token under the cursor if it is `token`, and says whether
    /// it did.
    pub fn consume(&mut self, token: Token) -> (taken: bool)
        ensures
            taken == (token_at(old(self)@.tokens, old(self)@.cursor) == Some(token)),
            final(self)@.tokens == old(self)@.tokens,
            final(self)@.cursor == old(self)@.cursor + (if taken {
                1nat
            } else {
                0nat
            }),
    {
        proof {
            use_type_invariant(&*self);
        }
        if self.pos >= self.tokens.len() {
            return false;
        }
        if self.tokens[self.pos] == token {
            self.pos = self.pos + 1;
            true
        } else {
            false
        }
    }

    /// The token under the cursor, if the cursor is not at the end.
    pub fn peek(&self) -> (token: Option<Token>)
        ensures
            token == token_at(self@.tokens, self@.cursor),
    {
        proof {
            use_type_invariant(self);
        }
        if self.pos < self.tokens.len() {
            Some(self.tokens[self.pos])
        } else {
            None
        }
    }

    /// Parses the expression that starts at the cursor and leaves the cursor
    /// behind it. Tokens that follow the expression are left unread.
    ///
    /// The call succeeds exactly if the tokens from the cursor on start with
    /// an expression of the grammar that no operator follows. It then returns
    /// the tree that the grammar gives to that expression.
    pub fn parse(&mut self) -> (r: Result<Ast, ParseError>)
        ensures
            follows(
                old(self)@,
                final(self)@,
                r,
                parse_expr(old(self)@.tokens, old(self)@.cursor),
            ),
            r matches Ok(ast) ==> expr_ends_at(
                old(self)@.tokens,
                old(self)@.cursor,
                final(self)@.cursor,
                ast,
            ),
            r is Ok <==> exists|ast: Ast, end: nat|
                expr_ends_at(old(self)@.tokens, old(self)@.cursor, end, ast),
    {
        let ghost tokens = self@.tokens;
        let ghost pos = self@.cursor;
        let r = self.expr();
        proof {
            if r is Ok {
                lemma_parser_accepts_the_grammar(tokens, pos, r->Ok_0, self@.cursor);
            } else {
                assert forall|ast: Ast, end: nat| !expr_ends_at(tokens, pos, end, ast) by {
                    lemma_parser_accepts_the_grammar(tokens, pos, ast, end);
                }
            }
        }
        r
    }

    /// `expr := term (('+' | '-') term)*`
    pub fn expr(&mut self) -> (r: Result<Ast, ParseError>)
        ensures
            follows(
                old(self)@,
                final(self)@,
                r,
                parse_expr(old(self)@.tokens, old(self)@.cursor),
            ),
        decreases old(self)@.tokens.len() - old(self)@.cursor, 5nat,
    {
        proof {
            use_type_invariant(&*self);
        }
        let mut left = match self.term() {
            Ok(first) => first,
            Err(e) => {
                return Err(e);
            },
        };
        loop
            invariant
                self@.tokens == old(self)@.tokens,
                old(self)@.cursor <= self@.cursor <= self@.tokens.len(),
                parse_expr_rest(self@.tokens, self@.cursor, left) == parse_expr(
                    old(self)@.tokens,
                    old(self)@.cursor,
                ),
            decreases self@.tokens.len() - self@.cursor,
        {
            let op = if self.consume(Token::Plus) {
                BinOp::Add
            } else if self.consume(Token::Minus) {
                BinOp::Sub
            } else {
                return Ok(left);
            };
            let right = match self.term() {
                Ok(right) => right,
                Err(e) => {
                    return Err(e);
                },
            };
            left = Ast::BinOp(Box::new(left), op, Box::new(right));
        }
    }

    /// `term := power (('*' | '/') power)*`
    pub fn term(&mut self) -> (r: Result<Ast, ParseError>)
        ensures
            follows(
                old(self)@,
                final(self)@,
                r,
                parse_term(old(self)@.tokens, old(self)@.cursor),
            ),
        decreases old(self)@.tokens.len() - old(self)@.cursor, 3nat,
    {
        proof {
            use_type_invariant(&*self);
        }
        let mut left = match self.power() {
            Ok(first) => first,
            Err(e) => {
                return Err(e);
            },
        };
        loop
            invariant
                self@.tokens == old(self)@.tokens,
                old(self)@.cursor <= self@.cursor <= self@.tokens.len(),
                parse_term_rest(self@.tokens, self@.cursor, left) == parse_term(
                    old(self)@.tokens,
                    old(self)@.cursor,
                ),
            decreases self@.tokens.len() - self@.cursor,
        {
            let op = if self.consume(Token::Asterisk) {
                BinOp::Mul
            } else if self.consume(Token::Slash) {
                BinOp::Div
            } else {
                return Ok(left);
            };
            let right = match self.power() {
                Ok(right) => right,
                Err(e) => {
                    return Err(e);
                },
            };
            left = Ast::BinOp(Box::new(left), op, Box::new(right));
        }
    }

    /// `power := factor ('**' power)?`
    pub fn power(&mut self) -> (r: Result<Ast, ParseError>)
        ensures
            follows(
                old(self)@,
                final(self)@,
                r,
                parse_power(old(self)@.tokens, old(self)@.cursor),
            ),
        decreases old(self)@.tokens.len() - old(self)@.cursor, 1nat,
    {
        proof {
            use_type_invariant(&*self);
        }
        let base = match self.factor() {
            Ok(base) => base,
            Err(e) => {
                return Err(e);
            },
        };
        if self.consume(Token::Power) {
            match self.power() {
                Ok(exponent) => Ok(Ast::BinOp(Box::new(base), BinOp::Power, Box::new(exponent))),
                Err(e) => Err(e),
            }
        } else {
            Ok(base)
        }
    }

    /// `factor := '(' expr ')' | Number`
    pub fn factor(&mut self) -> (r: Result<Ast, ParseError>)
        ensures
            follows(
                old(self)@,
                final(self)@,
                r,
                parse_factor(old(self)@.tokens, old(self)@.cursor),
            ),
        decreases old(self)@.tokens.len() - old(self)@.cursor, 0nat,
    {
        proof {
            use_type_invariant(&*self);
        }
        if self.consume(Token::LParen) {
            let inner = match self.expr() {
                Ok(inner) => inner,
                Err(e) => {
                    return Err(e);
                },
            };
            if self.consume(Token::RParen) {
                Ok(inner)
            } else {
                Err(ParseError::ExpectedCloseParen { position: self.pos })
            }
        } else {
            match self.peek() {
                Some(Token::Number(n)) => {
                    self.pos = self.pos + 1;
                    Ok(Ast::Number(n))
                },
                Some(found) => Err(ParseError::UnexpectedToken { position: self.pos, found }),
                None => Err(ParseError::UnexpectedEndOfInput),
            }
        }
    }
}

} // verus!
