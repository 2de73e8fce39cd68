//! Precedence and associativity, as laws of the parser's rules.
//!
//! `**` binds tighter than `*` and `/`, which bind tighter than `+` and `-`.
//! `**` associates to the right, the other four operators to the left.

use vstd::prelude::*;
use crate::parser::{
    additive,
    lemma_factor_advances,
    lemma_power_advances,
    lemma_loops_unfold,
    lemma_rules_unfold,
    lemma_term_advances,
    multiplicative,
    node,
    parse_expr,
    parse_expr_rest,
    parse_factor,
    parse_power,
    parse_term,
    parse_term_rest,
    parse_tokens,
    token_at,
    Ast,
    BinOp,
    ParseError,
};
use crate::tokenize::Token;

verus! {

/// Operators of the lowest level associate to the left, and each of their
/// operands is a whole term: where three terms `a`, `b`, `c` are joined by
/// two such operators, the expression continues with `(a inner b) outer c`
/// as its left operand.
pub proof fn lemma_expr_associates_left(
    tokens: Seq<Token>,
    pos: nat,
    a: Ast,
    inner: BinOp,
    b: Ast,
    outer: BinOp,
    c: Ast,
    end_a: nat,
    end_b: nat,
    end_c: nat,
)
    requires
        parse_term(tokens, pos) == Ok::<(Ast, nat), ParseError>((a, end_a)),
        additive(token_at(tokens, end_a)) == Some(inner),
        parse_term(tokens, end_a + 1) == Ok::<(Ast, nat), ParseError>((b, end_b)),
        additive(token_at(tokens, end_b)) == Some(outer),
        parse_term(tokens, end_b + 1) == Ok::<(Ast, nat), ParseError>((c, end_c)),
    ensures
        parse_expr(tokens, pos) == parse_expr_rest(
            tokens,
            end_c,
            node(node(a, inner, b), outer, c),
        ),
{
    lemma_term_advances(tokens, pos);
    lemma_term_advances(tokens, end_a + 1);
    lemma_term_advances(tokens, end_b + 1);
    reveal_with_fuel(parse_expr_rest, 3);
}

/// Operators of the middle level associate to the left, and each of their
/// operands is a whole power: where three powers `a`, `b`, `c` are joined by
/// two such operators, the term continues with `(a inner b) outer c` as its
/// left operand.
pub proof fn lemma_term_associates_left(
    tokens: Seq<Token>,
    pos: nat,
    a: Ast,
    inner: BinOp,
    b: Ast,
    outer: BinOp,
    c: Ast,
    end_a: nat,
    end_b: nat,
    end_c: nat,
)
    requires
        parse_power(tokens, pos) == Ok::<(Ast, nat), ParseError>((a, end_a)),
        multiplicative(token_at(tokens, end_a)) == Some(inner),
        parse_power(tokens, end_a + 1) == Ok::<(Ast, nat), ParseError>((b, end_b)),
        multiplicative(token_at(tokens, end_b)) == Some(outer),
        parse_power(tokens, end_b + 1) == Ok::<(Ast, nat), ParseError>((c, end_c)),
    ensures
        parse_term(tokens, pos) == parse_term_rest(
            tokens,
            end_c,
            node(node(a, inner, b), outer, c),
        ),
{
    lemma_power_advances(tokens, pos);
    lemma_power_advances(tokens, end_a + 1);
    lemma_power_advances(tokens, end_b + 1);
    reveal_with_fuel(parse_term_rest, 3);
}

/// The power operator associates to the right: where two factors `a`, `b`
/// and a power `c` are joined by two power operators, the result is
/// `a ** (b ** c)`.
pub proof fn lemma_power_associates_right(
    tokens: Seq<Token>,
    pos: nat,
    a: Ast,
    b: Ast,
    c: Ast,
    end_a: nat,
    end_b: nat,
    end_c: nat,
)
    requires
        parse_factor(tokens, pos) == Ok::<(Ast, nat), ParseError>((a, end_a)),
        token_at(tokens, end_a) == Some(Token::Power),
        parse_factor(tokens, end_a + 1) == Ok::<(Ast, nat), ParseError>((b, end_b)),
        token_at(tokens, end_b) == Some(Token::Power),
        parse_power(tokens, end_b + 1) == Ok::<(Ast, nat), ParseError>((c, end_c)),
    ensures
        parse_power(tokens, pos) == Ok::<(Ast, nat), ParseError>(
            (node(a, BinOp::Power, node(b, BinOp::Power, c)), end_c),
        ),
{
    lemma_factor_advances(tokens, pos);
    lemma_factor_advances(tokens, end_a + 1);
    reveal_with_fuel(parse_power, 3);
}

/// A number followed by a token other than `**` is a whole power. If the
/// token is not `*` or `/` either, the number is a whole term.
proof fn lemma_number_is_a_power(tokens: Seq<Token>, pos: nat, n: i32)
    requires
        token_at(tokens, pos) == Some(Token::Number(n)),
        token_at(tokens, pos + 1) != Some(Token::Power),
    ensures
        parse_factor(tokens, pos) == Ok::<(Ast, nat), ParseError>((Ast::Number(n), pos + 1)),
        parse_power(tokens, pos) == Ok::<(Ast, nat), ParseError>((Ast::Number(n), pos + 1)),
        multiplicative(token_at(tokens, pos + 1)) is None ==> parse_term(tokens, pos) == Ok::<
            (Ast, nat),
            ParseError,
        >((Ast::Number(n), pos + 1)),
{
}

/// `x - y - z` is `(x - y) - z`, and likewise for every pair of `+` and `-`.
pub proof fn lemma_sum_of_three(x: i32, first: Token, y: i32, second: Token, z: i32)
    requires
        additive(Some(first)) is Some,
        additive(Some(second)) is Some,
    ensures
        parse_tokens(
            seq![Token::Number(x), first, Token::Number(y), second, Token::Number(z)],
        ) == Ok::<(Ast, nat), ParseError>(
            (
                node(
                    node(Ast::Number(x), additive(Some(first))->0, Ast::Number(y)),
                    additive(Some(second))->0,
                    Ast::Number(z),
                ),
                5nat,
            ),
        ),
{
    let tokens = seq![Token::Number(x), first, Token::Number(y), second, Token::Number(z)];
    lemma_number_is_a_power(tokens, 0, x);
    lemma_number_is_a_power(tokens, 2, y);
    lemma_number_is_a_power(tokens, 4, z);
    lemma_expr_associates_left(
        tokens,
        0,
        Ast::Number(x),
        additive(Some(first))->0,
        Ast::Number(y),
        additive(Some(second))->0,
        Ast::Number(z),
        1,
        3,
        5,
    );
}

/// `x / y / z` is `(x / y) / z`, and likewise for every pair of `*` and `/`.
pub proof fn lemma_product_of_three(x: i32, first: Token, y: i32, second: Token, z: i32)
    requires
        multiplicative(Some(first)) is Some,
        multiplicative(Some(second)) is Some,
    ensures
        parse_tokens(
            seq![Token::Number(x), first, Token::Number(y), second, Token::Number(z)],
        ) == Ok::<(Ast, nat), ParseError>(
            (
                node(
                    node(Ast::Number(x), multiplicative(Some(first))->0, Ast::Number(y)),
                    multiplicative(Some(second))->0,
                    Ast::Number(z),
                ),
                5nat,
            ),
        ),
{
    let tokens = seq![Token::Number(x), first, Token::Number(y), second, Token::Number(z)];
    lemma_number_is_a_power(tokens, 0, x);
    lemma_number_is_a_power(tokens, 2, y);
    lemma_number_is_a_power(tokens, 4, z);
    lemma_term_associates_left(
        tokens,
        0,
        Ast::Number(x),
        multiplicative(Some(first))->0,
        Ast::Number(y),
        multiplicative(Some(second))->0,
        Ast::Number(z),
        1,
        3,
        5,
    );
}

/// `x ** y ** z` is `x ** (y ** z)`.
pub proof fn lemma_power_of_three(x: i32, y: i32, z: i32)
    ensures
        parse_tokens(
            seq![Token::Number(x), Token::Power, Token::Number(y), Token::Power, Token::Number(z)],
        ) == Ok::<(Ast, nat), ParseError>(
            (
                node(
                    Ast::Number(x),
                    BinOp::Power,
                    node(Ast::Number(y), BinOp::Power, Ast::Number(z)),
                ),
                5nat,
            ),
        ),
{
    let tokens = seq![
        Token::Number(x),
        Token::Power,
        Token::Number(y),
        Token::Power,
        Token::Number(z),
    ];
    lemma_number_is_a_power(tokens, 4, z);
    lemma_power_associates_right(
        tokens,
        0,
        Ast::Number(x),
        Ast::Number(y),
        Ast::Number(z),
        1,
        3,
        5,
    );
}

/// `x + y * z` is `x + (y * z)`: an operator of a term binds tighter than one
/// of an expression.
pub proof fn lemma_product_binds_tighter(x: i32, outer: Token, y: i32, inner: Token, z: i32)
    requires
        additive(Some(outer)) is Some,
        multiplicative(Some(inner)) is Some,
    ensures
        parse_tokens(
            seq![Token::Number(x), outer, Token::Number(y), inner, Token::Number(z)],
        ) == Ok::<(Ast, nat), ParseError>(
            (
                node(
                    Ast::Number(x),
                    additive(Some(outer))->0,
                    node(Ast::Number(y), multiplicative(Some(inner))->0, Ast::Number(z)),
                ),
                5nat,
            ),
        ),
{
    let tokens = seq![Token::Number(x), outer, Token::Number(y), inner, Token::Number(z)];
    let product = node(Ast::Number(y), multiplicative(Some(inner))->0, Ast::Number(z));
    let sum = node(Ast::Number(x), additive(Some(outer))->0, product);
    lemma_number_is_a_power(tokens, 0, x);
    lemma_number_is_a_power(tokens, 2, y);
    lemma_number_is_a_power(tokens, 4, z);
    lemma_loops_unfold(tokens, 5, product);
    lemma_loops_unfold(tokens, 3, Ast::Number(y));
    lemma_rules_unfold(tokens, 2);
    lemma_loops_unfold(tokens, 5, sum);
    lemma_loops_unfold(tokens, 1, Ast::Number(x));
    lemma_rules_unfold(tokens, 0);
}

} // verus!
