//! Global properties of the ANF transform: it is an involution, the
//! constant term is the value at input zero, and the packed and explicit
//! encodings of the same truth table transform to the same table.

use crate::anf::{
    anf_table, is_pow2, lemma_anf_table_linear, lemma_coefficient_at_zero,
    lemma_coefficient_split_high, lemma_coefficient_split_low, seq_xor,
};
use crate::packed::{
    lemma_packed_of_truth_table, lemma_truth_table_of_packed, packed_value, truth_table,
};
use vstd::arithmetic::power2::{lemma2_to64, lemma_pow2_pos, lemma_pow2_unfold, pow2};
use vstd::prelude::*;

verus! {

/// On a table of two half-tables the coefficient table is the low half's
/// coefficients followed by the XOR of the two halves' coefficients.
proof fn lemma_anf_table_decompose(t: Seq<bool>, kb: nat)
    requires
        t.len() == 2 * pow2(kb),
    ensures
        anf_table(t) == anf_table(t.subrange(0, pow2(kb) as int)) + seq_xor(
            anf_table(t.subrange(0, pow2(kb) as int)),
            anf_table(t.subrange(pow2(kb) as int, t.len() as int)),
        ),
{
    let m: int = pow2(kb) as int;
    lemma_pow2_pos(kb);
    let lo = t.subrange(0, m);
    let hi = t.subrange(m, t.len() as int);
    let rhs = anf_table(lo) + seq_xor(anf_table(lo), anf_table(hi));
    assert forall|i: int| 0 <= i < t.len() implies anf_table(t)[i] == rhs[i] by {
        if i < m {
            lemma_coefficient_split_low(t, kb, i as nat);
        } else {
            lemma_coefficient_split_high(t, kb, (i - m) as nat);
        }
    }
    assert(anf_table(t) =~= rhs);
}

/// The transform is an involution: taking the coefficient table of the
/// coefficient table gives back the original truth table, for every table
/// whose length is a power of two.
pub proof fn lemma_anf_involution(t: Seq<bool>, n: nat)
    requires
        t.len() == pow2(n),
    ensures
        anf_table(anf_table(t)) == t,
    decreases n,
{
    if n == 0 {
        assert(pow2(0) == 1) by {
            lemma2_to64();
        }
        lemma_coefficient_at_zero(t);
        assert(anf_table(t) =~= t);
    } else {
        lemma_pow2_unfold(n);
        lemma_pow2_pos((n - 1) as nat);
        let m: int = pow2((n - 1) as nat) as int;
        let lo = t.subrange(0, m);
        let hi = t.subrange(m, t.len() as int);
        lemma_anf_table_decompose(t, (n - 1) as nat);
        let al = anf_table(lo);
        let ah = anf_table(hi);
        let a = anf_table(t);
        assert(a.subrange(0, m) =~= al);
        assert(a.subrange(m, a.len() as int) =~= seq_xor(al, ah));
        lemma_anf_table_decompose(a, (n - 1) as nat);
        lemma_anf_involution(lo, (n - 1) as nat);
        lemma_anf_involution(hi, (n - 1) as nat);
        lemma_anf_table_linear(al, ah);
        assert(seq_xor(lo, seq_xor(lo, hi)) =~= hi);
        assert(anf_table(a) =~= t);
    }
}

/// The coefficient at index `0` is the truth-table entry at index `0`,
/// for every non-empty table.
pub proof fn lemma_anf_constant_term(t: Seq<bool>)
    requires
        t.len() >= 1,
    ensures
        anf_table(t)[0] == t[0],
{
    lemma_coefficient_at_zero(t);
}

/// The two encodings agree: packing a table and decoding it again is the
/// identity, so the packed transform (whose bits are the coefficients of
/// its decoded table) and the explicit transform produce, bit for bit,
/// the same coefficient table.
pub proof fn lemma_representation_equivalence(t: Seq<bool>, n: nat)
    requires
        t.len() == pow2(n),
    ensures
        truth_table(packed_value(t), n) == t,
        anf_table(truth_table(packed_value(t), n)) == anf_table(t),
        truth_table(packed_value(anf_table(t)), n) == anf_table(t),
{
    lemma_truth_table_of_packed(t, n);
    lemma_truth_table_of_packed(anf_table(t), n);
}

/// The packed form of the involution: transforming a packed value twice
/// gives back the value.
pub proof fn lemma_packed_involution(v: nat, n: nat)
    requires
        v < pow2(pow2(n)),
    ensures
        packed_value(anf_table(truth_table(packed_value(anf_table(truth_table(v, n))), n))) == v,
{
    let t = truth_table(v, n);
    lemma_truth_table_of_packed(anf_table(t), n);
    lemma_anf_involution(t, n);
    lemma_packed_of_truth_table(v, n);
}

/// Every `2^n` satisfies `is_pow2`; callers discharge the explicit
/// transform's length precondition with this.
pub proof fn lemma_pow2_is_pow2(n: nat)
    ensures
        is_pow2(pow2(n)),
    decreases n,
{
    if n == 0 {
        assert(pow2(0) == 1) by {
            lemma2_to64();
        }
    } else {
        lemma_pow2_unfold(n);
        lemma_pow2_pos((n - 1) as nat);
        lemma_pow2_is_pow2((n - 1) as nat);
    }
}

} // verus!
