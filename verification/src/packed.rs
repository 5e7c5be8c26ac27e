//! The bit-packed encoding of a truth table and its relation to the
//! explicit `Seq<bool>` encoding.

use crate::arith::lemma_pow2_le;
use vstd::arithmetic::div_mod::{
    lemma_div_denominator, lemma_fundamental_div_mod, lemma_fundamental_div_mod_converse,
    lemma_mod_bound,
};
use vstd::arithmetic::power2::{lemma2_to64, lemma_pow2_pos, lemma_pow2_unfold, pow2};
use vstd::prelude::*;

verus! {

/// Binary digit `i` of `v`.
pub open spec fn bit_of(v: nat, i: nat) -> bool {
    (v / pow2(i)) % 2 == 1
}

/// The truth table of `n` variables packed into the number `v`: entry `i`
/// is bit `i` of `v`.
pub open spec fn truth_table(v: nat, n: nat) -> Seq<bool> {
    Seq::new(pow2(n), |i: int| bit_of(v, i as nat))
}

/// The number whose bit `i` is entry `i` of the table `t`.
pub open spec fn packed_value(t: Seq<bool>) -> nat
    decreases t.len(),
{
    if t.len() == 0 {
        0
    } else {
        (if t[0] {
            1nat
        } else {
            0nat
        }) + 2 * packed_value(t.drop_first())
    }
}

/// A table of length `l` packs into a value below `2^l`.
pub proof fn lemma_packed_value_bound(t: Seq<bool>)
    ensures
        packed_value(t) < pow2(t.len()),
    decreases t.len(),
{
    if t.len() == 0 {
        assert(pow2(0) == 1) by {
            lemma2_to64();
        }
    } else {
        lemma_packed_value_bound(t.drop_first());
        lemma_pow2_unfold(t.len());
    }
}

/// Packing is inverted by reading the bits back.
pub proof fn lemma_bit_of_packed_value(t: Seq<bool>, i: nat)
    requires
        i < t.len(),
    ensures
        bit_of(packed_value(t), i) == t[i as int],
    decreases i,
{
    let v: nat = packed_value(t);
    let rest: nat = packed_value(t.drop_first());
    let b0: nat = if t[0] {
        1nat
    } else {
        0nat
    };
    lemma_fundamental_div_mod_converse(v as int, 2, rest as int, b0 as int);
    assert(pow2(0) == 1) by {
        lemma2_to64();
    }
    if i == 0 {
        assert(v / pow2(0) == v);
    } else {
        lemma_bit_of_packed_value(t.drop_first(), (i - 1) as nat);
        lemma_pow2_unfold(i);
        lemma_pow2_pos((i - 1) as nat);
        lemma_div_denominator(v as int, 2, pow2((i - 1) as nat) as int);
        assert(v / pow2(i) == (v / 2) / pow2((i - 1) as nat));
        assert(t.drop_first()[i - 1] == t[i as int]);
    }
}

/// Decoding a packed table gives the table back, entry for entry.
pub proof fn lemma_truth_table_of_packed(t: Seq<bool>, n: nat)
    requires
        t.len() == pow2(n),
    ensures
        truth_table(packed_value(t), n) == t,
{
    assert forall|i: int| 0 <= i < pow2(n) implies truth_table(packed_value(t), n)[i] == t[i] by {
        lemma_bit_of_packed_value(t, i as nat);
    }
    assert(truth_table(packed_value(t), n) =~= t);
}

/// Reading `len` bits of `v` and packing them back gives `v % 2^len`.
proof fn lemma_packed_of_bits(v: nat, len: nat)
    ensures
        packed_value(Seq::new(len, |i: int| bit_of(v, i as nat))) == v % pow2(len),
    decreases len,
{
    let s = Seq::new(len, |i: int| bit_of(v, i as nat));
    assert(pow2(0) == 1) by {
        lemma2_to64();
    }
    if len == 0 {
        lemma_fundamental_div_mod_converse(v as int, 1, v as int, 0);
    } else {
        let a: nat = v / 2;
        lemma_packed_of_bits(a, (len - 1) as nat);
        let s1 = Seq::new((len - 1) as nat, |i: int| bit_of(a, i as nat));
        assert(s.drop_first() =~= s1) by {
            assert forall|i: int| 0 <= i < len - 1 implies s.drop_first()[i] == s1[i] by {
                lemma_pow2_unfold((i + 1) as nat);
                lemma_pow2_pos(i as nat);
                lemma_div_denominator(v as int, 2, pow2(i as nat) as int);
                assert(v / pow2((i + 1) as nat) == a / pow2(i as nat));
            }
        }
        assert(v / pow2(0) == v);
        lemma_fundamental_div_mod(v as int, 2);
        lemma_mod_bound(v as int, 2);
        let m: nat = pow2((len - 1) as nat);
        lemma_pow2_unfold(len);
        lemma_pow2_pos((len - 1) as nat);
        lemma_fundamental_div_mod(a as int, m as int);
        lemma_mod_bound(a as int, m as int);
        // v == 2*m*(a/m) + (2*(a % m) + v % 2), and the tail is in [0, 2m)
        assert(v as int == (a as int / m as int) * (2 * m) + (2 * (a as int % m as int) + v as int
            % 2)) by (nonlinear_arith)
            requires
                v as int == 2 * (a as int) + (v as int % 2),
                a as int == m as int * (a as int / m as int) + (a as int % m as int),
        ;
        lemma_fundamental_div_mod_converse(
            v as int,
            2 * (m as int),
            a as int / m as int,
            2 * (a as int % m as int) + v as int % 2,
        );
        assert(packed_value(s) == (if s[0] {
            1nat
        } else {
            0nat
        }) + 2 * packed_value(s.drop_first()));
    }
}

/// Encoding a value below `2^(2^n)` as a table and packing it back gives
/// the value.
pub proof fn lemma_packed_of_truth_table(v: nat, n: nat)
    requires
        v < pow2(pow2(n)),
    ensures
        packed_value(truth_table(v, n)) == v,
{
    lemma_packed_of_bits(v, pow2(n));
    lemma_pow2_pos(pow2(n));
    vstd::arithmetic::div_mod::lemma_small_mod(v, pow2(pow2(n)));
}

/// `2^e` as a `usize`.
pub(crate) fn pow2_exec_usize(e: usize) -> (r: usize)
    requires
        pow2(e as nat) <= usize::MAX,
    ensures
        r == pow2(e as nat),
{
    let mut r: usize = 1;
    let mut i: usize = 0;
    proof {
        lemma2_to64();
    }
    while i < e
        invariant
            i <= e,
            r == pow2(i as nat),
            pow2(e as nat) <= usize::MAX,
        decreases e - i,
    {
        proof {
            lemma_pow2_unfold((i + 1) as nat);
            lemma_pow2_le((i + 1) as nat, e as nat);
        }
        r = 2 * r;
        i = i + 1;
    }
    r
}

/// `2^e` as a `u64`.
pub(crate) fn pow2_exec_u64(e: usize) -> (r: u64)
    requires
        pow2(e as nat) <= u64::MAX,
    ensures
        r as nat == pow2(e as nat),
{
    let mut r: u64 = 1;
    let mut i: usize = 0;
    proof {
        lemma2_to64();
    }
    while i < e
        invariant
            i <= e,
            r as nat == pow2(i as nat),
            pow2(e as nat) <= u64::MAX,
        decreases e - i,
    {
        proof {
            lemma_pow2_unfold((i + 1) as nat);
            lemma_pow2_le((i + 1) as nat, e as nat);
        }
        r = 2 * r;
        i = i + 1;
    }
    r
}

/// The low `len` bits of `value`, lowest first, as an explicit table.
pub(crate) fn unpack_bits(value: u64, len: usize) -> (t: Vec<bool>)
    ensures
        t@.len() == len,
        forall|i: int| 0 <= i < len ==> #[trigger] t@[i] == bit_of(value as nat, i as nat),
{
    let mut t: Vec<bool> = Vec::new();
    let mut cur: u64 = value;
    let mut i: usize = 0;
    proof {
        lemma2_to64();
    }
    while i < len
        invariant
            t@.len() == i,
            i <= len,
            cur as nat == (value as nat) / pow2(i as nat),
            forall|k: int| 0 <= k < i ==> #[trigger] t@[k] == bit_of(value as nat, k as nat),
        decreases len - i,
    {
        t.push(cur % 2 == 1);
        proof {
            lemma_pow2_unfold((i + 1) as nat);
            lemma_pow2_pos(i as nat);
            lemma_div_denominator(value as int, pow2(i as nat) as int, 2);
            assert((value as nat) / pow2((i + 1) as nat) == (cur as nat) / 2);
        }
        cur = cur / 2;
        i = i + 1;
    }
    t
}

/// The table packed back into a `u64`, entry `i` at bit `i`.
pub(crate) fn pack_bits(t: &Vec<bool>) -> (r: u64)
    requires
        t@.len() <= 64,
    ensures
        r as nat == packed_value(t@),
{
    let len: usize = t.len();
    let mut r: u64 = 0;
    let mut k: usize = len;
    proof {
        lemma2_to64();
        assert(t@.subrange(len as int, len as int) =~= Seq::<bool>::empty());
    }
    while k > 0
        invariant
            k <= len,
            len == t@.len(),
            len <= 64,
            r as nat == packed_value(t@.subrange(k as int, len as int)),
            (r as nat) < pow2((len - k) as nat),
        decreases k,
    {
        k = k - 1;
        let b: bool = t[k];
        proof {
            lemma_pow2_unfold((len - k) as nat);
            lemma_pow2_le((len - k) as nat, 64);
            lemma2_to64();
            assert(t@.subrange(k as int, len as int).drop_first() =~= t@.subrange(
                k as int + 1,
                len as int,
            ));
            assert(t@.subrange(k as int, len as int)[0] == t@[k as int]);
        }
        r = 2 * r + (if b {
            1
        } else {
            0
        });
    }
    proof {
        assert(t@.subrange(0, len as int) =~= t@);
    }
    r
}

} // verus!
