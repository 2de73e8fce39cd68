//! The evaluator: a post-order walk that reduces an expression tree to one
//! integer.
//!
//! Arithmetic is on 32-bit signed integers and wraps around silently: every
//! result is the mathematical one brought into range by
//! [`wrap`](crate::wrap::wrap). Division truncates toward zero. Dividing by
//! zero and raising to a negative power are errors.

use vstd::prelude::*;
use vstd::arithmetic::div_mod::{
    lemma_div_basics,
    lemma_div_is_ordered_by_denominator,
    lemma_div_pos_is_pos,
    lemma_fundamental_div_mod,
    lemma_fundamental_div_mod_converse,
    lemma_mod_bound,
};
use vstd::arithmetic::mul::lemma_mul_is_associative;
use vstd::arithmetic::power::{
    lemma_pow0,
    lemma_pow1,
    lemma_pow_adds,
    lemma_pow_multiplies,
    lemma_square_is_pow2,
    pow,
};
use crate::parser::{Ast, BinOp};
use crate::wrap::{
    lemma_wrap_in_range,
    lemma_wrap_mul,
    lemma_wrap_pow,
    lemma_wrapping_add,
    lemma_wrapping_mul,
    lemma_wrapping_sub,
    modulus,
    wrap,
};

verus! {

/// Why an expression has no value.
#[derive(Debug, Clone, Copy, PartialEq, Eq, Structural)]
pub enum EvalError {
    /// The right operand of a division is zero.
    DivisionByZero,
    /// The right operand of a power is negative.
    NegativeExponent,
}

/// The absolute value of an integer.
pub open spec fn magnitude(x: int) -> int {
    if x < 0 {
        -x
    } else {
        x
    }
}

/// The quotient of `a` by `b` rounded toward zero.
pub open spec fn truncated_quotient(a: int, b: int) -> int
    recommends
        b != 0,
{
    if (a < 0) == (b < 0) {
        magnitude(a) / magnitude(b)
    } else {
        -(magnitude(a) / magnitude(b))
    }
}

/// What an operator makes of two operand values.
pub open spec fn apply(op: BinOp, a: i32, b: i32) -> Result<i32, EvalError> {
    match op {
        BinOp::Add => Ok(wrap(a + b)),
        BinOp::Sub => Ok(wrap(a - b)),
        BinOp::Mul => Ok(wrap(a * b)),
        BinOp::Div => if b == 0 {
            Err(EvalError::DivisionByZero)
        } else {
            Ok(wrap(truncated_quotient(a as int, b as int)))
        },
        BinOp::Power => if b < 0 {
            Err(EvalError::NegativeExponent)
        } else {
            Ok(wrap(pow(a as int, b as nat)))
        },
    }
}

/// The value of an expression tree. The left operand is evaluated first, so
/// when both operands fail the error is the left one's.
pub open spec fn value(ast: Ast) -> Result<i32, EvalError>
    decreases ast,
{
    match ast {
        Ast::Number(n) => Ok(n),
        Ast::BinOp(left, op, right) => match value(*left) {
            Err(e) => Err(e),
            Ok(a) => match value(*right) {
                Err(e) => Err(e),
                Ok(b) => apply(op, a, b),
            },
        },
    }
}

/// The truncated quotient is the one whose remainder is smaller in magnitude
/// than the divisor and does not have the sign opposite to the dividend's.
pub proof fn lemma_truncated_quotient(a: int, b: int)
    requires
        b != 0,
    ensures
        ({
            let r = a - truncated_quotient(a, b) * b;
            &&& magnitude(r) < magnitude(b)
            &&& (a >= 0 ==> r >= 0)
            &&& (a <= 0 ==> r <= 0)
        }),
{
    let q = magnitude(a) / magnitude(b);
    lemma_fundamental_div_mod(magnitude(a), magnitude(b));
    lemma_mod_bound(magnitude(a), magnitude(b));
    assert(magnitude(a) == magnitude(b) * q + magnitude(a) % magnitude(b));
    assert((-q) * b == -(q * b)) by (nonlinear_arith);
    assert(q * (-b) == -(q * b)) by (nonlinear_arith);
    assert(magnitude(b) * q == q * magnitude(b)) by (nonlinear_arith);
}

/// A power with an even or odd exponent, in terms of the power of the square
/// with half the exponent.
proof fn lemma_pow_halves(b: int, e: nat)
    ensures
        e % 2 == 0 ==> pow(b, e) == pow(b * b, e / 2),
        e % 2 == 1 ==> pow(b, e) == b * pow(b * b, e / 2),
{
    let half = e / 2;
    lemma_square_is_pow2(b);
    lemma_pow_multiplies(b, 2, half);
    assert(pow(b * b, half) == pow(b, 2 * half));
    if e % 2 == 1 {
        lemma_pow_adds(b, 1, 2 * half);
        lemma_pow1(b);
        assert(e == 1 + 2 * half);
    } else {
        assert(e == 2 * half);
    }
}

/// One round of square-and-multiply keeps the wrapped product.
proof fn lemma_power_step(result: i32, square: i32, remaining: u32)
    requires
        remaining > 0,
    ensures
        ({
            let next = if remaining % 2 == 1 {
                wrap(result * square)
            } else {
                result
            };
            wrap(next * pow(wrap(square * square) as int, (remaining / 2) as nat)) == wrap(
                result * pow(square as int, remaining as nat),
            )
        }),
{
    let half = (remaining / 2) as nat;
    let squared = square * square;
    let rest = pow(squared, half);
    let next: int = if remaining % 2 == 1 {
        wrap(result * square) as int
    } else {
        result as int
    };
    lemma_pow_halves(square as int, remaining as nat);
    lemma_wrap_pow(squared, half);
    lemma_wrap_mul(next, pow(wrap(squared) as int, half));
    lemma_wrap_mul(next, rest);
    assert(wrap(next * pow(wrap(squared) as int, half)) == wrap(next * rest));
    if remaining % 2 == 1 {
        lemma_wrap_mul(result * square, rest);
        lemma_mul_is_associative(result as int, square as int, rest);
    }
}

/// `base` raised to `exponent`, wrapped into 32 bits, by repeated squaring.
pub fn wrapping_power(base: i32, exponent: u32) -> (r: i32)
    ensures
        r == wrap(pow(base as int, exponent as nat)),
{
    let mut result: i32 = 1;
    let mut square: i32 = base;
    let mut remaining: u32 = exponent;
    proof {
        assert(1 * pow(base as int, exponent as nat) == pow(base as int, exponent as nat));
    }
    while remaining > 0
        invariant
            wrap(result * pow(square as int, remaining as nat)) == wrap(
                pow(base as int, exponent as nat),
            ),
        decreases remaining,
    {
        proof {
            lemma_power_step(result, square, remaining);
            lemma_wrapping_mul(result, square);
            lemma_wrapping_mul(square, square);
        }
        if remaining % 2 == 1 {
            result = result.wrapping_mul(square);
        }
        remaining = remaining / 2;
        square = square.wrapping_mul(square);
    }
    proof {
        lemma_pow0(square as int);
        lemma_wrap_in_range(result as int);
        assert(result * 1 == result);
    }
    result
}

/// The truncated quotient of two 32-bit values leaves the range only for the
/// least value divided by minus one, which wraps back to the least value.
proof fn lemma_quotient_in_range(a: i32, b: i32)
    requires
        b != 0,
    ensures
        ({
            let q = truncated_quotient(a as int, b as int);
            &&& q == if a == 0 {
                0
            } else if a > 0 && b > 0 {
                a as int / b as int
            } else if a < 0 && b < 0 {
                (a * -1) / (b * -1)
            } else if a < 0 {
                ((a * -1) / (b as int)) * -1
            } else {
                (a as int / (b * -1)) * -1
            }
            &&& (a == i32::MIN && b == -1) ==> q == i32::MAX + 1 && wrap(q) == i32::MIN
            &&& !(a == i32::MIN && b == -1) ==> i32::MIN <= q <= i32::MAX && wrap(q) == q
        }),
{
    let q = truncated_quotient(a as int, b as int);
    let m = magnitude(a as int);
    let d = magnitude(b as int);
    lemma_div_pos_is_pos(m, d);
    lemma_div_is_ordered_by_denominator(m, 1, d);
    lemma_div_basics(m);
    assert(0 <= m / d <= m);
    if a == 0 {
        assert(m / d == 0);
    }
    if a == i32::MIN && b == -1 {
        assert(q == i32::MAX + 1);
        lemma_fundamental_div_mod_converse(q, modulus(), 0, q);
    } else {
        if a == i32::MIN && d >= 2 {
            lemma_div_is_ordered_by_denominator(m, 2, d);
        }
        lemma_wrap_in_range(q);
    }
}

/// Applies an operator to two operand values.
pub fn combine(op: BinOp, a: i32, b: i32) -> (r: Result<i32, EvalError>)
    ensures
        r == apply(op, a, b),
{
    match op {
        BinOp::Add => {
            proof {
                lemma_wrapping_add(a, b);
            }
            Ok(a.wrapping_add(b))
        },
        BinOp::Sub => {
            proof {
                lemma_wrapping_sub(a, b);
            }
            Ok(a.wrapping_sub(b))
        },
        BinOp::Mul => {
            proof {
                lemma_wrapping_mul(a, b);
            }
            Ok(a.wrapping_mul(b))
        },
        BinOp::Div => {
            if b == 0 {
                Err(EvalError::DivisionByZero)
            } else {
                proof {
                    lemma_quotient_in_range(a, b);
                }
                match a.checked_div(b) {
                    Some(q) => Ok(q),
                    None => Ok(i32::MIN),
                }
            }
        },
        BinOp::Power => {
            if b < 0 {
                Err(EvalError::NegativeExponent)
            } else {
                Ok(wrapping_power(a, b as u32))
            }
        },
    }
}

/// Reduces an expression tree to its value.
///
/// Both operands of a node are evaluated, the left one first, before the
/// operator is applied. Results wrap around at 32 bits.
pub fn eval(ast: Ast) -> (r: Result<i32, EvalError>)
    ensures
        r == value(ast),
    decreases ast,
{
    match ast {
        Ast::Number(n) => Ok(n),
        Ast::BinOp(left, op, right) => {
            let a = match eval(*left) {
                Ok(a) => a,
                Err(e) => {
                    return Err(e);
                },
            };
            let b = match eval(*right) {
                Ok(b) => b,
                Err(e) => {
                    return Err(e);
                },
            };
            combine(op, a, b)
        },
    }
}

} // verus!
