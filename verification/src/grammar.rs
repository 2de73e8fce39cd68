//! The grammar of expressions, stated on sentences rather than on a cursor,
//! and the proof that the parser accepts exactly this grammar: it only
//! builds trees that the grammar allows, and it builds the tree of every
//! sentence that is not followed by an operator that would continue it.
//!
//! ```text
//! expr   := term   | expr ('+' | '-') term
//! term   := power  | term ('*' | '/') power
//! power  := factor | factor '**' power
//! factor := Number | '(' expr ')'
//! ```
//!
//! The left recursion of `expr` and `term` is what makes their operators
//! associate to the left, the right recursion of `power` what makes `**`
//! associate to the right, and the order of the rules is the order of
//! precedence.

use vstd::prelude::*;
use crate::parser::{
    additive,
    lemma_factor_advances,
    multiplicative,
    node,
    parse_expr,
    parse_expr_rest,
    parse_factor,
    parse_power,
    parse_term,
    parse_term_rest,
    token_at,
    Ast,
    BinOp,
    ParseError,
};
use crate::tokenize::Token;

verus! {

/// The tokens before position `k`.
pub open spec fn before(tokens: Seq<Token>, k: int) -> Seq<Token> {
    tokens.subrange(0, k)
}

/// The tokens behind position `k`.
pub open spec fn behind(tokens: Seq<Token>, k: int) -> Seq<Token> {
    tokens.subrange(k + 1, tokens.len() as int)
}

/// The tokens strictly between the first and the last.
pub open spec fn inside(tokens: Seq<Token>) -> Seq<Token> {
    tokens.subrange(1, tokens.len() - 1)
}

/// `tokens` is a factor that denotes `ast`: a number, or an expression in
/// parentheses, which denotes what the expression denotes.
pub open spec fn is_factor(tokens: Seq<Token>, ast: Ast) -> bool
    decreases tokens.len(), 0nat,
{
    ||| (ast matches Ast::Number(n) && tokens == seq![Token::Number(n)])
    ||| (tokens.len() >= 2 && tokens.first() == Token::LParen && tokens.last() == Token::RParen
        && is_expr(inside(tokens), ast))
}

/// `tokens` is a power that denotes `ast`: a factor, or a factor and a power
/// joined by `**`.
pub open spec fn is_power(tokens: Seq<Token>, ast: Ast) -> bool
    decreases tokens.len(), 1nat,
{
    ||| is_factor(tokens, ast)
    ||| (ast matches Ast::BinOp(left, op, right) && op == BinOp::Power && exists|k: int|
        0 <= k < tokens.len() && tokens[k] == Token::Power && is_factor(
            #[trigger] before(tokens, k),
            *left,
        ) && is_power(behind(tokens, k), *right))
}

/// `tokens` is a term that denotes `ast`: a power, or a term and a power
/// joined by `*` or `/`.
pub open spec fn is_term(tokens: Seq<Token>, ast: Ast) -> bool
    decreases tokens.len(), 2nat,
{
    ||| is_power(tokens, ast)
    ||| (ast matches Ast::BinOp(left, op, right) && exists|k: int|
        0 <= k < tokens.len() && multiplicative(Some(tokens[k])) == Some(op) && is_term(
            #[trigger] before(tokens, k),
            *left,
        ) && is_power(behind(tokens, k), *right))
}

/// `tokens` is an expression that denotes `ast`: a term, or an expression
/// and a term joined by `+` or `-`.
pub open spec fn is_expr(tokens: Seq<Token>, ast: Ast) -> bool
    decreases tokens.len(), 3nat,
{
    ||| is_term(tokens, ast)
    ||| (ast matches Ast::BinOp(left, op, right) && exists|k: int|
        0 <= k < tokens.len() && additive(Some(tokens[k])) == Some(op) && is_expr(
            #[trigger] before(tokens, k),
            *left,
        ) && is_term(behind(tokens, k), *right))
}

/// What may follow a power: anything but `**`, which would continue it.
pub open spec fn ends_power(next: Option<Token>) -> bool {
    next != Some(Token::Power)
}

/// What may follow a term: anything but `**`, `*` and `/`.
pub open spec fn ends_term(next: Option<Token>) -> bool {
    ends_power(next) && multiplicative(next) is None
}

/// What may follow an expression: anything but an operator.
pub open spec fn ends_expr(next: Option<Token>) -> bool {
    ends_term(next) && additive(next) is None
}

/// A sentence split at an operator: the left part, the operator's place and
/// the right part of `tokens[start..end]`, where the operator stands at
/// `at`.
proof fn lemma_split(tokens: Seq<Token>, start: nat, at: nat, end: nat)
    requires
        start <= at < end <= tokens.len(),
    ensures
        ({
            let sentence = tokens.subrange(start as int, end as int);
            &&& 0 <= at - start < sentence.len()
            &&& sentence[at - start] == tokens[at as int]
            &&& before(sentence, at - start) == tokens.subrange(start as int, at as int)
            &&& behind(sentence, at - start) == tokens.subrange(at as int + 1, end as int)
        }),
{
    let sentence = tokens.subrange(start as int, end as int);
    assert(before(sentence, at - start) =~= tokens.subrange(start as int, at as int));
    assert(behind(sentence, at - start) =~= tokens.subrange(at as int + 1, end as int));
}

/// What the `factor` rule of the parser accepts is a factor of the grammar.
pub proof fn lemma_factor_sound(tokens: Seq<Token>, pos: nat)
    ensures
        parse_factor(tokens, pos) matches Ok((ast, end)) ==> pos < end <= tokens.len()
            && is_factor(tokens.subrange(pos as int, end as int), ast),
    decreases tokens.len() - pos, 0nat,
{
    lemma_factor_advances(tokens, pos);
    if let Ok((ast, end)) = parse_factor(tokens, pos) {
        let sentence = tokens.subrange(pos as int, end as int);
        if token_at(tokens, pos) == Some(Token::LParen) {
            lemma_expr_sound(tokens, pos + 1);
            assert(inside(sentence) =~= tokens.subrange(pos as int + 1, end as int - 1));
            assert(sentence.first() == tokens[pos as int]);
            assert(sentence.last() == tokens[end as int - 1]);
        } else {
            assert(sentence =~= seq![tokens[pos as int]]);
        }
    }
}

/// What the `power` rule of the parser accepts is a power of the grammar,
/// and no `**` follows it.
pub proof fn lemma_power_sound(tokens: Seq<Token>, pos: nat)
    ensures
        parse_power(tokens, pos) matches Ok((ast, end)) ==> pos < end <= tokens.len()
            && is_power(tokens.subrange(pos as int, end as int), ast) && ends_power(
            token_at(tokens, end),
        ),
    decreases tokens.len() - pos, 1nat,
{
    lemma_factor_sound(tokens, pos);
    if let Ok((base, next)) = parse_factor(tokens, pos) {
        if token_at(tokens, next) == Some(Token::Power) {
            lemma_power_sound(tokens, next + 1);
            if let Ok((exponent, end)) = parse_power(tokens, next + 1) {
                lemma_split(tokens, pos, next, end);
                let sentence = tokens.subrange(pos as int, end as int);
                assert(is_factor(before(sentence, next - pos), base));
            }
        }
    }
}

/// Continuing a term of the grammar with the parser's `term` loop gives a
/// term of the grammar, and no operator of a term follows it.
pub proof fn lemma_term_rest_sound(tokens: Seq<Token>, start: nat, pos: nat, left: Ast)
    requires
        start <= pos <= tokens.len(),
        is_term(tokens.subrange(start as int, pos as int), left),
        ends_power(token_at(tokens, pos)),
    ensures
        parse_term_rest(tokens, pos, left) matches Ok((ast, end)) ==> pos <= end <= tokens.len()
            && is_term(tokens.subrange(start as int, end as int), ast) && ends_term(
            token_at(tokens, end),
        ),
    decreases tokens.len() - pos, 2nat,
{
    if let Some(op) = multiplicative(token_at(tokens, pos)) {
        lemma_power_sound(tokens, pos + 1);
        if let Ok((right, next)) = parse_power(tokens, pos + 1) {
            lemma_split(tokens, start, pos, next);
            let sentence = tokens.subrange(start as int, next as int);
            assert(is_term(before(sentence, pos - start), left));
            assert(is_term(sentence, node(left, op, right)));
            lemma_term_rest_sound(tokens, start, next, node(left, op, right));
        }
    }
}

/// What the `term` rule of the parser accepts is a term of the grammar, and
/// no operator of a term follows it.
pub proof fn lemma_term_sound(tokens: Seq<Token>, pos: nat)
    ensures
        parse_term(tokens, pos) matches Ok((ast, end)) ==> pos < end <= tokens.len() && is_term(
            tokens.subrange(pos as int, end as int),
            ast,
        ) && ends_term(token_at(tokens, end)),
    decreases tokens.len() - pos, 3nat,
{
    lemma_power_sound(tokens, pos);
    if let Ok((first, next)) = parse_power(tokens, pos) {
        lemma_term_rest_sound(tokens, pos, next, first);
    }
}

/// Continuing an expression of the grammar with the parser's `expr` loop
/// gives an expression of the grammar, and no operator follows it.
pub proof fn lemma_expr_rest_sound(tokens: Seq<Token>, start: nat, pos: nat, left: Ast)
    requires
        start <= pos <= tokens.len(),
        is_expr(tokens.subrange(start as int, pos as int), left),
        ends_term(token_at(tokens, pos)),
    ensures
        parse_expr_rest(tokens, pos, left) matches Ok((ast, end)) ==> pos <= end <= tokens.len()
            && is_expr(tokens.subrange(start as int, end as int), ast) && ends_expr(
            token_at(tokens, end),
        ),
    decreases tokens.len() - pos, 4nat,
{
    if let Some(op) = additive(token_at(tokens, pos)) {
        lemma_term_sound(tokens, pos + 1);
        if let Ok((right, next)) = parse_term(tokens, pos + 1) {
            lemma_split(tokens, start, pos, next);
            let sentence = tokens.subrange(start as int, next as int);
            assert(is_expr(before(sentence, pos - start), left));
            assert(is_expr(sentence, node(left, op, right)));
            lemma_expr_rest_sound(tokens, start, next, node(left, op, right));
        }
    }
}

/// What the `expr` rule of the parser accepts is an expression of the
/// grammar, and no operator follows it.
pub proof fn lemma_expr_sound(tokens: Seq<Token>, pos: nat)
    ensures
        parse_expr(tokens, pos) matches Ok((ast, end)) ==> pos < end <= tokens.len() && is_expr(
            tokens.subrange(pos as int, end as int),
            ast,
        ) && ends_expr(token_at(tokens, end)),
    decreases tokens.len() - pos, 5nat,
{
    lemma_term_sound(tokens, pos);
    if let Ok((first, next)) = parse_term(tokens, pos) {
        lemma_expr_rest_sound(tokens, pos, next, first);
    }
}

/// The `factor` rule of the parser accepts every factor of the grammar.
pub proof fn lemma_factor_complete(tokens: Seq<Token>, pos: nat, end: nat, ast: Ast)
    requires
        pos <= end <= tokens.len(),
        is_factor(tokens.subrange(pos as int, end as int), ast),
    ensures
        parse_factor(tokens, pos) == Ok::<(Ast, nat), ParseError>((ast, end)),
    decreases end - pos, 0nat,
{
    let sentence = tokens.subrange(pos as int, end as int);
    if sentence.len() >= 2 {
        assert(sentence.first() == tokens[pos as int]);
        assert(sentence.last() == tokens[end as int - 1]);
        assert(inside(sentence) =~= tokens.subrange(pos as int + 1, end as int - 1));
        lemma_expr_complete(tokens, pos + 1, (end - 1) as nat, ast);
    } else {
        assert(sentence[0] == tokens[pos as int]);
    }
}

/// The `power` rule of the parser accepts every power of the grammar that
/// no `**` follows.
pub proof fn lemma_power_complete(tokens: Seq<Token>, pos: nat, end: nat, ast: Ast)
    requires
        pos <= end <= tokens.len(),
        is_power(tokens.subrange(pos as int, end as int), ast),
        ends_power(token_at(tokens, end)),
    ensures
        parse_power(tokens, pos) == Ok::<(Ast, nat), ParseError>((ast, end)),
    decreases end - pos, 1nat,
{
    let sentence = tokens.subrange(pos as int, end as int);
    if is_factor(sentence, ast) {
        lemma_factor_complete(tokens, pos, end, ast);
    } else {
        match ast {
            Ast::BinOp(left, op, right) => {
                let k = choose|k: int|
                    0 <= k < sentence.len() && sentence[k] == Token::Power && is_factor(
                        #[trigger] before(sentence, k),
                        *left,
                    ) && is_power(behind(sentence, k), *right);
                let at = (pos + k) as nat;
                lemma_split(tokens, pos, at, end);
                lemma_factor_complete(tokens, pos, at, *left);
                lemma_power_complete(tokens, at + 1, end, *right);
            },
            Ast::Number(_) => {},
        }
    }
}

/// The `term` rule of the parser reads every term of the grammar that no
/// `**` follows, and goes on behind it with the term's tree as the left
/// operand.
pub proof fn lemma_term_complete(tokens: Seq<Token>, pos: nat, end: nat, ast: Ast)
    requires
        pos <= end <= tokens.len(),
        is_term(tokens.subrange(pos as int, end as int), ast),
        ends_power(token_at(tokens, end)),
    ensures
        parse_term(tokens, pos) == parse_term_rest(tokens, end, ast),
    decreases end - pos, 2nat,
{
    let sentence = tokens.subrange(pos as int, end as int);
    if is_power(sentence, ast) {
        lemma_power_complete(tokens, pos, end, ast);
    } else {
        match ast {
            Ast::BinOp(left, op, right) => {
                let k = choose|k: int|
                    0 <= k < sentence.len() && multiplicative(Some(sentence[k])) == Some(op)
                        && is_term(#[trigger] before(sentence, k), *left) && is_power(
                        behind(sentence, k),
                        *right,
                    );
                let at = (pos + k) as nat;
                lemma_split(tokens, pos, at, end);
                lemma_term_complete(tokens, pos, at, *left);
                lemma_power_complete(tokens, at + 1, end, *right);
            },
            Ast::Number(_) => {},
        }
    }
}

/// The `expr` rule of the parser reads every expression of the grammar that
/// no operator of a term follows, and goes on behind it with the
/// expression's tree as the left operand.
pub proof fn lemma_expr_complete(tokens: Seq<Token>, pos: nat, end: nat, ast: Ast)
    requires
        pos <= end <= tokens.len(),
        is_expr(tokens.subrange(pos as int, end as int), ast),
        ends_term(token_at(tokens, end)),
    ensures
        parse_expr(tokens, pos) == parse_expr_rest(tokens, end, ast),
    decreases end - pos, 3nat,
{
    let sentence = tokens.subrange(pos as int, end as int);
    if is_term(sentence, ast) {
        lemma_term_complete(tokens, pos, end, ast);
    } else {
        match ast {
            Ast::BinOp(left, op, right) => {
                let k = choose|k: int|
                    0 <= k < sentence.len() && additive(Some(sentence[k])) == Some(op) && is_expr(
                        #[trigger] before(sentence, k),
                        *left,
                    ) && is_term(behind(sentence, k), *right);
                let at = (pos + k) as nat;
                lemma_split(tokens, pos, at, end);
                lemma_expr_complete(tokens, pos, at, *left);
                lemma_term_complete(tokens, at + 1, end, *right);
            },
            Ast::Number(_) => {},
        }
    }
}

/// The tokens from `start` up to `end` are an expression that denotes
/// `ast`, and the token at `end`, if there is one, is not an operator.
pub open spec fn expr_ends_at(tokens: Seq<Token>, start: nat, end: nat, ast: Ast) -> bool {
    &&& start <= end <= tokens.len()
    &&& is_expr(tokens.subrange(start as int, end as int), ast)
    &&& ends_expr(token_at(tokens, end))
}

/// The parser accepts exactly the grammar: from `pos` it returns `ast` and
/// stops at `end` if and only if the tokens from `pos` up to `end` are an
/// expression that denotes `ast` and no operator follows them.
pub proof fn lemma_parser_accepts_the_grammar(tokens: Seq<Token>, pos: nat, ast: Ast, end: nat)
    ensures
        parse_expr(tokens, pos) == Ok::<(Ast, nat), ParseError>((ast, end)) <==> expr_ends_at(
            tokens,
            pos,
            end,
            ast,
        ),
{
    lemma_expr_sound(tokens, pos);
    if expr_ends_at(tokens, pos, end, ast) {
        lemma_expr_complete(tokens, pos, end, ast);
    }
}

/// Every sentence of the grammar is parsed to the end, into the tree that
/// it denotes.
pub proof fn lemma_parser_reads_every_sentence(tokens: Seq<Token>, ast: Ast)
    requires
        is_expr(tokens, ast),
    ensures
        parse_expr(tokens, 0) == Ok::<(Ast, nat), ParseError>((ast, tokens.len())),
{
    assert(tokens.subrange(0, tokens.len() as int) =~= tokens);
    lemma_parser_accepts_the_grammar(tokens, 0, ast, tokens.len());
}

/// The grammar is unambiguous: a sentence denotes one tree only.
pub proof fn lemma_grammar_is_unambiguous(tokens: Seq<Token>, first: Ast, second: Ast)
    requires
        is_expr(tokens, first),
        is_expr(tokens, second),
    ensures
        first == second,
{
    lemma_parser_reads_every_sentence(tokens, first);
    lemma_parser_reads_every_sentence(tokens, second);
}

} // verus!
