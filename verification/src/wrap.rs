//! Two's-complement wraparound of mathematical integers into `i32`.
//!
//! All arithmetic of the calculator is carried out on 32-bit signed integers
//! with silent wraparound. The contracts state results over unbounded
//! integers and bring them into range with [`wrap`]; the lemmas here connect
//! that statement to the machine operations.

use vstd::prelude::*;
use vstd::arithmetic::div_mod::{
    lemma_add_mod_noop,
    lemma_fundamental_div_mod,
    lemma_fundamental_div_mod_converse,
    lemma_mul_mod_noop,
    lemma_small_mod,
};
use vstd::arithmetic::power::{lemma_pow_mod_noop, pow};
use vstd::wrapping::i32_specs;

verus! {

/// The number of distinct 32-bit values, `2^32`.
pub open spec fn modulus() -> int {
    0x1_0000_0000
}

/// The unique `i32` that differs from `x` by a multiple of `2^32`.
pub open spec fn wrap(x: int) -> i32 {
    let r = x % modulus();
    if r > i32::MAX {
        (r - modulus()) as i32
    } else {
        r as i32
    }
}

/// Two integers are congruent when they differ by a multiple of `2^32`.
pub open spec fn congruent(x: int, y: int) -> bool {
    x % modulus() == y % modulus()
}

/// `wrap(x)` is congruent to `x`.
pub proof fn lemma_wrap_congruent(x: int)
    ensures
        congruent(wrap(x) as int, x),
{
    let r = x % modulus();
    if r > i32::MAX {
        lemma_fundamental_div_mod(x, modulus());
        lemma_fundamental_div_mod_converse(r - modulus(), modulus(), -1, r);
    } else {
        lemma_small_mod(r as nat, modulus() as nat);
    }
}

/// Values already in range are left alone.
pub proof fn lemma_wrap_in_range(x: int)
    requires
        i32::MIN <= x <= i32::MAX,
    ensures
        wrap(x) == x,
{
    if x >= 0 {
        lemma_small_mod(x as nat, modulus() as nat);
    } else {
        lemma_fundamental_div_mod_converse(x, modulus(), -1, x + modulus());
    }
}

/// `wrap(x)` is the only 32-bit value congruent to `x`.
pub proof fn lemma_wrap_unique(x: int, y: i32)
    requires
        congruent(y as int, x),
    ensures
        y == wrap(x),
{
    lemma_wrap_in_range(y as int);
}

/// Wrapping an operand of a sum first does not change the wrapped sum.
pub proof fn lemma_wrap_add(x: int, y: int)
    ensures
        wrap(wrap(x) + wrap(y)) == wrap(x + y),
        wrap(wrap(x) + y) == wrap(x + y),
        wrap(x + wrap(y)) == wrap(x + y),
{
    let m = modulus();
    lemma_wrap_congruent(x);
    lemma_wrap_congruent(y);
    lemma_add_mod_noop(x, y, m);
    lemma_add_mod_noop(wrap(x) as int, wrap(y) as int, m);
    lemma_add_mod_noop(wrap(x) as int, y, m);
    lemma_add_mod_noop(x, wrap(y) as int, m);
}

/// Wrapping an operand of a product first does not change the wrapped
/// product.
pub proof fn lemma_wrap_mul(x: int, y: int)
    ensures
        wrap(wrap(x) * wrap(y)) == wrap(x * y),
        wrap(wrap(x) * y) == wrap(x * y),
        wrap(x * wrap(y)) == wrap(x * y),
{
    let m = modulus();
    lemma_wrap_congruent(x);
    lemma_wrap_congruent(y);
    lemma_mul_mod_noop(x, y, m);
    lemma_mul_mod_noop(wrap(x) as int, wrap(y) as int, m);
    lemma_mul_mod_noop(wrap(x) as int, y, m);
    lemma_mul_mod_noop(x, wrap(y) as int, m);
}

/// Wrapping the base of a power first does not change the wrapped power.
pub proof fn lemma_wrap_pow(b: int, e: nat)
    ensures
        wrap(pow(wrap(b) as int, e)) == wrap(pow(b, e)),
{
    let m = modulus();
    lemma_wrap_congruent(b);
    lemma_pow_mod_noop(b, e, m);
    lemma_pow_mod_noop(wrap(b) as int, e, m);
}

/// The machine's wrapping addition is addition followed by `wrap`.
pub proof fn lemma_wrapping_add(a: i32, b: i32)
    ensures
        i32_specs::wrapping_add(a, b) == wrap(a + b),
{
    let s = a + b;
    if s > i32::MAX {
        lemma_wrap_in_range(s - modulus());
        lemma_fundamental_div_mod_converse(s, modulus(), 0, s);
    } else if s < i32::MIN {
        lemma_wrap_in_range(s + modulus());
        lemma_fundamental_div_mod_converse(s, modulus(), -1, s + modulus());
    } else {
        lemma_wrap_in_range(s);
    }
}

/// The machine's wrapping subtraction is subtraction followed by `wrap`.
pub proof fn lemma_wrapping_sub(a: i32, b: i32)
    ensures
        i32_specs::wrapping_sub(a, b) == wrap(a - b),
{
    let s = a - b;
    if s > i32::MAX {
        lemma_wrap_in_range(s - modulus());
        lemma_fundamental_div_mod_converse(s, modulus(), 0, s);
    } else if s < i32::MIN {
        lemma_wrap_in_range(s + modulus());
        lemma_fundamental_div_mod_converse(s, modulus(), -1, s + modulus());
    } else {
        lemma_wrap_in_range(s);
    }
}

/// The machine's wrapping multiplication is multiplication followed by
/// `wrap`.
pub proof fn lemma_wrapping_mul(a: i32, b: i32)
    ensures
        i32_specs::wrapping_mul(a, b) == wrap(a * b),
{
}

} // verus!
