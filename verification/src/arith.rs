//! Small arithmetic facts about halving, alignment and powers of two that
//! the transform proofs use repeatedly.

use vstd::arithmetic::div_mod::{
    lemma_fundamental_div_mod, lemma_fundamental_div_mod_converse, lemma_mod_bound,
    lemma_mod_multiples_basic,
};
use vstd::arithmetic::power2::{lemma_pow2_adds, lemma_pow2_strictly_increases, pow2};
use vstd::prelude::*;

verus! {

/// Adding an even number to `x` does not change `x`'s low binary digit
/// and shifts the rest: `(m + x) / 2 == m / 2 + x / 2`.
pub proof fn lemma_even_plus_div2(m: int, x: int)
    requires
        m >= 0,
        x >= 0,
        m % 2 == 0,
    ensures
        (m + x) / 2 == m / 2 + x / 2,
        (m + x) % 2 == x % 2,
{
    lemma_fundamental_div_mod(m, 2);
    lemma_fundamental_div_mod(x, 2);
    lemma_mod_bound(x, 2);
    lemma_fundamental_div_mod_converse(m + x, 2, m / 2 + x / 2, x % 2);
}

/// Halving respects a strict upper bound by a doubled quantity.
pub proof fn lemma_div2_strict_bound(x: int, a: int)
    requires
        0 <= x < 2 * a,
    ensures
        x / 2 < a,
{
    lemma_fundamental_div_mod(x, 2);
    lemma_mod_bound(x, 2);
}

/// Halving respects a lower bound by a doubled quantity.
pub proof fn lemma_div2_lower_bound(x: int, a: int)
    requires
        0 <= a,
        2 * a <= x,
    ensures
        a <= x / 2,
{
    lemma_fundamental_div_mod(x, 2);
    lemma_mod_bound(x, 2);
}

/// Between two distinct multiples of `m` there is room for a whole `m`.
pub proof fn lemma_multiple_step(a: int, b: int, m: int)
    requires
        m > 0,
        a % m == 0,
        b % m == 0,
        a < b,
    ensures
        a + m <= b,
{
    lemma_fundamental_div_mod(a, m);
    lemma_fundamental_div_mod(b, m);
    assert(a + m <= b) by (nonlinear_arith)
        requires
            m > 0,
            a == m * (a / m),
            b == m * (b / m),
            a < b,
    ;
}

/// Stepping from one multiple of `m` to the next stays a multiple.
pub proof fn lemma_mod_add_self(a: int, m: int)
    requires
        m > 0,
        a >= 0,
        a % m == 0,
    ensures
        (a + m) % m == 0,
{
    lemma_fundamental_div_mod(a, m);
    assert(a + m == (a / m + 1) * m) by (nonlinear_arith)
        requires
            a == m * (a / m),
    ;
    lemma_fundamental_div_mod_converse(a + m, m, a / m + 1, 0);
}

/// An offset below `m` from a multiple of `m` is the remainder mod `m`.
pub proof fn lemma_mod_offset(s: int, off: int, m: int)
    requires
        m > 0,
        s >= 0,
        s % m == 0,
        0 <= off < m,
    ensures
        (s + off) % m == off,
{
    lemma_fundamental_div_mod(s, m);
    assert(m * (s / m) == (s / m) * m) by (nonlinear_arith);
    lemma_fundamental_div_mod_converse(s + off, m, s / m, off);
}

/// `pow2` is monotone.
pub proof fn lemma_pow2_le(e1: nat, e2: nat)
    requires
        e1 <= e2,
    ensures
        pow2(e1) <= pow2(e2),
{
    if e1 < e2 {
        lemma_pow2_strictly_increases(e1, e2);
    }
}

/// A smaller power of two divides a larger one.
pub proof fn lemma_pow2_mod_zero(e1: nat, e2: nat)
    requires
        e1 <= e2,
    ensures
        pow2(e2) as int % (pow2(e1) as int) == 0,
{
    vstd::arithmetic::power2::lemma_pow2_pos(e1);
    lemma_pow2_adds(e1, (e2 - e1) as nat);
    lemma_mod_multiples_basic(pow2((e2 - e1) as nat) as int, pow2(e1) as int);
    assert(pow2(e1) * pow2((e2 - e1) as nat) == pow2((e2 - e1) as nat) * pow2(e1)) by (nonlinear_arith);
}

} // verus!
