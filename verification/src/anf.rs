//! The mathematical model: what the ANF coefficient of a truth table is.

use crate::arith::{lemma_div2_lower_bound, lemma_div2_strict_bound, lemma_even_plus_div2};
use vstd::arithmetic::power2::{lemma_pow2_pos, lemma_pow2_unfold, pow2};
use vstd::prelude::*;

verus! {

/// `j` selects a subset of the variables selected by `i`: every binary
/// digit of `j` is at most the corresponding digit of `i`.
pub open spec fn is_submask(j: nat, i: nat) -> bool
    decreases j,
{
    if j == 0 {
        true
    } else {
        j % 2 <= i % 2 && is_submask(j / 2, i / 2)
    }
}

/// Mod-2 sum of the table entries `t[j]` over all `j < k` with `j` a
/// submask of `i`.
pub open spec fn parity_of_subsets(t: Seq<bool>, i: nat, k: nat) -> bool
    decreases k,
{
    if k == 0 {
        false
    } else {
        parity_of_subsets(t, i, (k - 1) as nat) ^ (is_submask((k - 1) as nat, i) && t[k - 1])
    }
}

/// The ANF coefficient at index `i` of the truth table `t`: the mod-2 sum
/// of all outputs on assignments that are submasks of `i`.
pub open spec fn anf_coefficient(t: Seq<bool>, i: nat) -> bool {
    parity_of_subsets(t, i, t.len())
}

/// The full ANF coefficient table of `t`, in the same index space.
pub open spec fn anf_table(t: Seq<bool>) -> Seq<bool> {
    Seq::new(t.len(), |j: int| anf_coefficient(t, j as nat))
}

/// Pointwise XOR of two tables of equal length.
pub open spec fn seq_xor(a: Seq<bool>, b: Seq<bool>) -> Seq<bool> {
    Seq::new(a.len(), |j: int| a[j] ^ b[j])
}

/// `l` is an exact power of two.
pub open spec fn is_pow2(l: nat) -> bool
    decreases l,
{
    if l == 0 {
        false
    } else if l == 1 {
        true
    } else {
        l % 2 == 0 && is_pow2(l / 2)
    }
}

/// Only `0` is a submask of `0`.
proof fn lemma_submask_zero(j: nat)
    ensures
        is_submask(j, 0) == (j == 0),
    decreases j,
{
    if j > 0 {
        if j % 2 == 0 {
            lemma_div2_lower_bound(j as int, 1);
            lemma_submask_zero(j / 2);
        }
    }
}

/// An index with a digit at or above position `kb` is no submask of an
/// index below `2^kb`.
proof fn lemma_submask_high(j: nat, i: nat, kb: nat)
    requires
        i < pow2(kb),
        pow2(kb) <= j,
    ensures
        !is_submask(j, i),
    decreases kb,
{
    if kb == 0 {
        assert(pow2(0) == 1) by {
            vstd::arithmetic::power2::lemma2_to64();
        }
        lemma_submask_zero(j);
    } else {
        lemma_pow2_unfold(kb);
        let h: nat = pow2((kb - 1) as nat);
        lemma_pow2_pos((kb - 1) as nat);
        lemma_div2_strict_bound(i as int, h as int);
        lemma_div2_lower_bound(j as int, h as int);
        lemma_submask_high(j / 2, i / 2, (kb - 1) as nat);
    }
}

/// Digits above position `kb` of the right operand do not matter for
/// submasks below `2^kb`.
proof fn lemma_submask_add_high(j: nat, i: nat, kb: nat)
    requires
        j < pow2(kb),
        i < pow2(kb),
    ensures
        is_submask(j, pow2(kb) + i) == is_submask(j, i),
    decreases kb,
{
    if kb == 0 {
        assert(pow2(0) == 1) by {
            vstd::arithmetic::power2::lemma2_to64();
        }
    }
    if kb > 0 && j > 0 {
        let m: nat = pow2(kb);
        lemma_pow2_unfold(kb);
        lemma_pow2_pos((kb - 1) as nat);
        lemma_even_plus_div2(m as int, i as int);
        lemma_div2_strict_bound(j as int, (m / 2) as int);
        lemma_div2_strict_bound(i as int, (m / 2) as int);
        lemma_submask_add_high(j / 2, i / 2, (kb - 1) as nat);
        assert((m + i) / 2 == m / 2 + i / 2);
        assert((m + i) % 2 == i % 2);
    }
}

/// Adding the same digit at position `kb` to both sides keeps the submask
/// relation, for indices below `2^kb`.
proof fn lemma_submask_both_high(j: nat, i: nat, kb: nat)
    requires
        j < pow2(kb),
        i < pow2(kb),
    ensures
        is_submask(pow2(kb) + j, pow2(kb) + i) == is_submask(j, i),
    decreases kb,
{
    let m: nat = pow2(kb);
    lemma_pow2_pos(kb);
    if kb == 0 {
        assert(pow2(0) == 1) by {
            vstd::arithmetic::power2::lemma2_to64();
        }
        assert(is_submask(1, 1) == is_submask(0, 0));
    } else {
        lemma_pow2_unfold(kb);
        lemma_pow2_pos((kb - 1) as nat);
        lemma_even_plus_div2(m as int, j as int);
        lemma_even_plus_div2(m as int, i as int);
        lemma_div2_strict_bound(j as int, (m / 2) as int);
        lemma_div2_strict_bound(i as int, (m / 2) as int);
        lemma_submask_both_high(j / 2, i / 2, (kb - 1) as nat);
        assert(is_submask(m + j, m + i) == (j % 2 <= i % 2 && is_submask(m / 2 + j / 2, m / 2 + i
            / 2)));
        if j == 0 {
            assert(is_submask(m + j, m + i) == is_submask(0, i));
        } else {
            assert(is_submask(j, i) == (j % 2 <= i % 2 && is_submask(j / 2, i / 2)));
        }
    }
}

/// Two parity sums agree whenever their terms agree.
proof fn lemma_parity_congruent(a: Seq<bool>, ia: nat, b: Seq<bool>, ib: nat, k: nat)
    requires
        forall|j: nat|
            j < k ==> ((is_submask(j, ia) && a[j as int]) == (#[trigger] is_submask(j, ib)
                && b[j as int])),
    ensures
        parity_of_subsets(a, ia, k) == parity_of_subsets(b, ib, k),
    decreases k,
{
    if k > 0 {
        lemma_parity_congruent(a, ia, b, ib, (k - 1) as nat);
        assert((is_submask((k - 1) as nat, ia) && a[k - 1]) == (is_submask((k - 1) as nat, ib)
            && b[k - 1]));
    }
}

/// Terms that contribute nothing can be dropped from a parity sum.
proof fn lemma_parity_skip(t: Seq<bool>, i: nat, k1: nat, k2: nat)
    requires
        k1 <= k2,
        forall|j: nat| k1 <= j < k2 ==> !(#[trigger] is_submask(j, i) && t[j as int]),
    ensures
        parity_of_subsets(t, i, k2) == parity_of_subsets(t, i, k1),
    decreases k2,
{
    if k2 > k1 {
        lemma_parity_skip(t, i, k1, (k2 - 1) as nat);
        assert(!(is_submask((k2 - 1) as nat, i) && t[k2 - 1]));
    }
}

/// On a table of two half-tables, the parity sum at a high index splits
/// into a sum over the low half and a sum over the high half.
proof fn lemma_parity_split_high(t: Seq<bool>, kb: nat, i: nat, d: nat)
    requires
        t.len() == 2 * pow2(kb),
        i < pow2(kb),
        d <= pow2(kb),
    ensures
        parity_of_subsets(t, pow2(kb) + i, pow2(kb) + d) == (parity_of_subsets(
            t,
            pow2(kb) + i,
            pow2(kb),
        ) ^ parity_of_subsets(t.subrange(pow2(kb) as int, t.len() as int), i, d)),
    decreases d,
{
    let m: nat = pow2(kb);
    let hi = t.subrange(m as int, t.len() as int);
    if d > 0 {
        lemma_parity_split_high(t, kb, i, (d - 1) as nat);
        lemma_submask_both_high((d - 1) as nat, i, kb);
        assert(hi[d - 1] == t[m + d - 1]);
    }
}

/// On a table of length `2^(kb+1)`, the coefficient at a low index is the
/// coefficient of the low half-table.
pub(crate) proof fn lemma_coefficient_split_low(t: Seq<bool>, kb: nat, i: nat)
    requires
        t.len() == 2 * pow2(kb),
        i < pow2(kb),
    ensures
        anf_coefficient(t, i) == anf_coefficient(t.subrange(0, pow2(kb) as int), i),
{
    let m: nat = pow2(kb);
    lemma_pow2_pos(kb);
    let lo = t.subrange(0, m as int);
    assert forall|j: nat| m <= j < 2 * m implies !(#[trigger] is_submask(j, i) && t[j as int]) by {
        lemma_submask_high(j, i, kb);
    }
    lemma_parity_skip(t, i, m, (2 * m) as nat);
    assert forall|j: nat|
        j < m implies ((is_submask(j, i) && t[j as int]) == (#[trigger] is_submask(j, i)
        && lo[j as int])) by {
        assert(lo[j as int] == t[j as int]);
    }
    lemma_parity_congruent(t, i, lo, i, m);
}

/// On a table of length `2^(kb+1)`, the coefficient at a high index is the
/// XOR of the two half-tables' coefficients at the reduced index.
pub(crate) proof fn lemma_coefficient_split_high(t: Seq<bool>, kb: nat, i: nat)
    requires
        t.len() == 2 * pow2(kb),
        i < pow2(kb),
    ensures
        anf_coefficient(t, pow2(kb) + i) == (anf_coefficient(t.subrange(0, pow2(kb) as int), i)
            ^ anf_coefficient(t.subrange(pow2(kb) as int, t.len() as int), i)),
{
    let m: nat = pow2(kb);
    lemma_pow2_pos(kb);
    let lo = t.subrange(0, m as int);
    lemma_parity_split_high(t, kb, i, m);
    assert forall|j: nat|
        j < m implies ((is_submask(j, (m + i) as nat) && t[j as int]) == (#[trigger] is_submask(
        j,
        i,
    ) && lo[j as int])) by {
        lemma_submask_add_high(j, i, kb);
        assert(lo[j as int] == t[j as int]);
    }
    lemma_parity_congruent(t, (m + i) as nat, lo, i, m);
}

/// The coefficient table is XOR-linear in the truth table.
proof fn lemma_parity_linear(a: Seq<bool>, b: Seq<bool>, i: nat, k: nat)
    requires
        a.len() == b.len(),
        k <= a.len(),
    ensures
        parity_of_subsets(seq_xor(a, b), i, k) == (parity_of_subsets(a, i, k) ^ parity_of_subsets(
            b,
            i,
            k,
        )),
    decreases k,
{
    if k > 0 {
        lemma_parity_linear(a, b, i, (k - 1) as nat);
        assert(seq_xor(a, b)[k - 1] == (a[k - 1] ^ b[k - 1]));
    }
}

/// The whole-table form of XOR-linearity.
pub(crate) proof fn lemma_anf_table_linear(a: Seq<bool>, b: Seq<bool>)
    requires
        a.len() == b.len(),
    ensures
        anf_table(seq_xor(a, b)) == seq_xor(anf_table(a), anf_table(b)),
{
    assert forall|j: int| 0 <= j < a.len() implies anf_table(seq_xor(a, b))[j] == seq_xor(
        anf_table(a),
        anf_table(b),
    )[j] by {
        lemma_parity_linear(a, b, j as nat, a.len());
    }
    assert(anf_table(seq_xor(a, b)) =~= seq_xor(anf_table(a), anf_table(b)));
}

/// Every submask of `0` but `0` itself contributes nothing, so the
/// coefficient at index `0` is the entry at index `0`.
pub(crate) proof fn lemma_coefficient_at_zero(t: Seq<bool>)
    requires
        t.len() >= 1,
    ensures
        anf_coefficient(t, 0) == t[0],
{
    assert forall|j: nat| 1 <= j < t.len() implies !(#[trigger] is_submask(j, 0) && t[j as int]) by {
        lemma_submask_zero(j);
    }
    lemma_parity_skip(t, 0, 1, t.len());
    assert(parity_of_subsets(t, 0, 1) == (parity_of_subsets(t, 0, 0) ^ (is_submask(0, 0) && t[0])));
}

} // verus!
