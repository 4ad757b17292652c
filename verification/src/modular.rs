//! Facts about arithmetic modulo a fixed number.

use vstd::arithmetic::div_mod::{
    lemma_add_mod_noop, lemma_mul_mod_noop_left, lemma_mul_mod_noop_right, lemma_sub_mod_noop,
};
use vstd::prelude::*;

verus! {

/// Reducing the factors first leaves a product of three unchanged.
pub proof fn lemma_mod_mul3(a: int, b: int, c: int, m: int)
    requires
        0 < m,
    ensures
        (((a * b) % m) * c) % m == (a * b * c) % m,
        (a * ((b * c) % m)) % m == (a * b * c) % m,
{
    lemma_mul_mod_noop_left(a * b, c, m);
    lemma_mul_mod_noop_right(a, b * c, m);
    assert(a * (b * c) == a * b * c) by (nonlinear_arith);
}

/// Two numbers congruent to each other stay so when multiplied by a third.
pub proof fn lemma_mod_mul_congruent(a: int, b: int, c: int, m: int)
    requires
        0 < m,
        a % m == b % m,
    ensures
        (a * c) % m == (b * c) % m,
{
    lemma_mul_mod_noop_left(a, c, m);
    lemma_mul_mod_noop_left(b, c, m);
}

/// What an invertible factor multiplies is determined by the product.
pub proof fn lemma_mod_cancel(a: int, b: int, x: int, inv: int, m: int)
    requires
        1 < m,
        (x * inv) % m == 1,
        (a * x) % m == (b * x) % m,
    ensures
        a % m == b % m,
{
    lemma_mod_mul_congruent(a * x, b * x, inv, m);
    assert(a * x * inv == a * (x * inv)) by (nonlinear_arith);
    assert(b * x * inv == b * (x * inv)) by (nonlinear_arith);
    lemma_mul_mod_noop_right(a, x * inv, m);
    lemma_mul_mod_noop_right(b, x * inv, m);
    assert(a * 1 == a && b * 1 == b);
}

/// Adding a reduced number is adding the number.
pub proof fn lemma_mod_add(a: int, b: int, m: int)
    requires
        0 < m,
    ensures
        ((a % m) + b) % m == (a + b) % m,
        (a + (b % m)) % m == (a + b) % m,
        ((a % m) + (b % m)) % m == (a + b) % m,
{
    lemma_add_mod_noop(a, b, m);
    lemma_add_mod_noop(a % m, b, m);
    lemma_add_mod_noop(a, b % m, m);
    vstd::arithmetic::div_mod::lemma_mod_twice(a, m);
    vstd::arithmetic::div_mod::lemma_mod_twice(b, m);
}

/// Subtracting a reduced number is subtracting the number.
pub proof fn lemma_mod_sub(a: int, b: int, m: int)
    requires
        0 < m,
    ensures
        ((a % m) - b) % m == (a - b) % m,
        (a - (b % m)) % m == (a - b) % m,
        ((a % m) - (b % m)) % m == (a - b) % m,
{
    lemma_sub_mod_noop(a, b, m);
    lemma_sub_mod_noop(a % m, b, m);
    lemma_sub_mod_noop(a, b % m, m);
    vstd::arithmetic::div_mod::lemma_mod_twice(a, m);
    vstd::arithmetic::div_mod::lemma_mod_twice(b, m);
}

} // verus!
