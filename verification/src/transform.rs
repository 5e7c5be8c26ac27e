//! The in-place XOR butterfly over the Boolean lattice, at two
//! granularities: an explicit `Vec<bool>` truth table and a truth table
//! packed into the bits of a `u64`.

use crate::anf::{
    anf_coefficient, anf_table, is_pow2, is_submask, lemma_coefficient_split_high,
    lemma_coefficient_split_low, parity_of_subsets,
};
use crate::arith::{
    lemma_mod_add_self, lemma_mod_offset, lemma_multiple_step, lemma_pow2_le, lemma_pow2_mod_zero,
};
use crate::packed::{
    lemma_packed_value_bound, lemma_truth_table_of_packed, pack_bits, pow2_exec_u64,
    pow2_exec_usize, truth_table, unpack_bits,
};
use vstd::arithmetic::div_mod::{
    lemma_fundamental_div_mod, lemma_fundamental_div_mod_converse, lemma_mod_bound,
    lemma_mod_multiples_basic, lemma_small_mod,
};
use vstd::arithmetic::power2::{
    lemma2_to64, lemma_pow2_pos, lemma_pow2_strictly_increases, lemma_pow2_unfold, pow2,
};
use vstd::prelude::*;

verus! {

/// Why a checked transform refused its input.
#[derive(Clone, Copy, Debug, PartialEq, Eq, Structural)]
pub enum AnfError {
    /// The packed value has bits set at positions `>= 2^n`.
    OutOfDomain,
    /// The integer width cannot hold `2^n` bits.
    InsufficientCapacity,
    /// The table length is not an exact power of two.
    InvalidLength,
}

/// Start of the aligned block of `size` entries that holds index `j`.
spec fn block_start(j: int, size: nat) -> int {
    j - j % (size as int)
}

/// The aligned block of `size` entries of `t` that holds index `j`.
spec fn block_of(t: Seq<bool>, size: nat, j: int) -> Seq<bool> {
    t.subrange(block_start(j, size), block_start(j, size) + size)
}

/// The ANF coefficient, within `j`'s aligned block of `size` entries, at
/// `j`'s offset in that block.
spec fn block_coeff(t: Seq<bool>, size: nat, j: int) -> bool {
    anf_coefficient(block_of(t, size, j), (j % (size as int)) as nat)
}

/// In blocks of one entry the coefficient is the entry itself.
proof fn lemma_block_coeff_unit(t: Seq<bool>, j: int)
    requires
        0 <= j < t.len(),
    ensures
        block_coeff(t, 1, j) == t[j],
{
    lemma_fundamental_div_mod_converse(j, 1, j, 0);
    let bl = block_of(t, 1, j);
    assert(bl.len() == 1);
    assert(bl[0] == t[j]);
    assert(parity_of_subsets(bl, 0, 0) == false);
    assert(is_submask(0, 0));
    assert(anf_coefficient(bl, 0) == (parity_of_subsets(bl, 0, 0) ^ (is_submask(0, 0) && bl[0])));
}

/// When one block covers the whole table, the block coefficient is the
/// coefficient of the table.
proof fn lemma_block_coeff_full(t: Seq<bool>, n: nat, j: int)
    requires
        t.len() == pow2(n),
        0 <= j < t.len(),
    ensures
        block_coeff(t, pow2(n), j) == anf_coefficient(t, j as nat),
{
    lemma_pow2_pos(n);
    lemma_small_mod(j as nat, pow2(n));
    assert(block_of(t, pow2(n), j) =~= t);
}

/// One butterfly pass doubles the block size: at a low offset the
/// coefficient is carried over from the low half-block, at a high offset
/// it becomes the XOR of the two half-blocks' coefficients.
proof fn lemma_block_coeff_step(t: Seq<bool>, kb: nat, j: int)
    requires
        0 <= j < t.len(),
        t.len() as int % (pow2((kb + 1) as nat) as int) == 0,
    ensures
        j % (pow2((kb + 1) as nat) as int) < pow2(kb) ==> block_coeff(t, pow2((kb + 1) as nat), j)
            == block_coeff(t, pow2(kb), j),
        j % (pow2((kb + 1) as nat) as int) >= pow2(kb) ==> block_coeff(t, pow2((kb + 1) as nat), j)
            == (block_coeff(t, pow2(kb), j) ^ block_coeff(t, pow2(kb), j - pow2(kb))),
{
    let b: int = pow2(kb) as int;
    let b2: int = pow2((kb + 1) as nat) as int;
    lemma_pow2_unfold((kb + 1) as nat);
    lemma_pow2_pos(kb);
    lemma_fundamental_div_mod(j, b2);
    lemma_mod_bound(j, b2);
    let q: int = j / b2;
    let r: int = j % b2;
    let s2: int = j - r;
    assert(q >= 0) by (nonlinear_arith)
        requires
            b2 > 0,
            j >= 0,
            j == b2 * q + r,
            r < b2,
    ;
    assert(s2 == q * b2) by (nonlinear_arith)
        requires
            s2 == b2 * q,
    ;
    lemma_mod_multiples_basic(q, b2);
    if s2 < t.len() as int {
        lemma_multiple_step(s2, t.len() as int, b2);
    }
    assert(s2 + b2 <= t.len() as int);
    let tt = t.subrange(s2, s2 + b2);
    assert(block_of(t, pow2((kb + 1) as nat), j) =~= tt);
    if r < b {
        assert(j == (2 * q) * b + r) by (nonlinear_arith)
            requires
                j == b2 * q + r,
                b2 == 2 * b,
        ;
        lemma_fundamental_div_mod_converse(j, b, 2 * q, r);
        assert(block_of(t, pow2(kb), j) =~= tt.subrange(0, b));
        lemma_coefficient_split_low(tt, kb, r as nat);
    } else {
        assert(j == (2 * q + 1) * b + (r - b)) by (nonlinear_arith)
            requires
                j == b2 * q + r,
                b2 == 2 * b,
        ;
        lemma_fundamental_div_mod_converse(j, b, 2 * q + 1, r - b);
        assert(j - b == (2 * q) * b + (r - b)) by (nonlinear_arith)
            requires
                j == b2 * q + r,
                b2 == 2 * b,
        ;
        lemma_fundamental_div_mod_converse(j - b, b, 2 * q, r - b);
        assert(block_of(t, pow2(kb), j) =~= tt.subrange(b, b2));
        assert(block_of(t, pow2(kb), j - b) =~= tt.subrange(0, b));
        lemma_coefficient_split_high(tt, kb, (r - b) as nat);
        assert(anf_coefficient(tt, pow2(kb) + (r - b) as nat) == anf_coefficient(tt, r as nat));
    }
}

/// The butterfly itself: `num_variables` passes over a table of exactly
/// `2^num_variables` entries, each pass XORing every block's low half
/// into its high half, with the block size doubling between passes.
fn transform_core(table: &mut Vec<bool>, num_variables: usize)
    requires
        old(table)@.len() == pow2(num_variables as nat),
    ensures
        final(table)@ == anf_table(old(table)@),
{
    let ghost orig: Seq<bool> = table@;
    let ghost n: nat = num_variables as nat;
    let len: usize = table.len();
    proof {
        lemma2_to64();
        assert forall|j: int| 0 <= j < len implies #[trigger] table@[j] == block_coeff(
            orig,
            pow2(0),
            j,
        ) by {
            lemma_block_coeff_unit(orig, j);
        }
    }
    let mut pass: usize = 0;
    let mut blocksize: usize = 1;
    while pass < num_variables
        invariant
            table@.len() == len,
            orig.len() == len,
            len == pow2(n),
            n == num_variables,
            pass <= num_variables,
            blocksize == pow2(pass as nat),
            forall|j: int| 0 <= j < len ==> #[trigger] table@[j] == block_coeff(
                orig,
                pow2(pass as nat),
                j,
            ),
        decreases num_variables - pass,
    {
        proof {
            lemma_pow2_unfold((pass + 1) as nat);
            lemma_pow2_le((pass + 1) as nat, n);
            lemma_pow2_mod_zero((pass + 1) as nat, n);
            lemma_pow2_pos(pass as nat);
        }
        let mut source: usize = 0;
        while source < len
            invariant
                table@.len() == len,
                orig.len() == len,
                len == pow2(n),
                n == num_variables,
                pass < num_variables,
                blocksize == pow2(pass as nat),
                2 * blocksize == pow2((pass + 1) as nat),
                2 * blocksize <= len,
                source <= len,
                source as int % (2 * (blocksize as int)) == 0,
                len as int % (2 * (blocksize as int)) == 0,
                forall|j: int| 0 <= j < source ==> #[trigger] table@[j] == block_coeff(
                    orig,
                    pow2((pass + 1) as nat),
                    j,
                ),
                forall|j: int| source <= j < len ==> #[trigger] table@[j] == block_coeff(
                    orig,
                    pow2(pass as nat),
                    j,
                ),
            decreases len - source,
        {
            proof {
                lemma_pow2_pos(pass as nat);
                lemma_multiple_step(source as int, len as int, 2 * (blocksize as int));
            }
            let target: usize = source + blocksize;
            let mut i: usize = 0;
            while i < blocksize
                invariant
                    table@.len() == len,
                    orig.len() == len,
                    i <= blocksize,
                    target == source + blocksize,
                    source + 2 * blocksize <= len,
                    forall|j: int| 0 <= j < source ==> #[trigger] table@[j] == block_coeff(
                        orig,
                        pow2((pass + 1) as nat),
                        j,
                    ),
                    forall|j: int| source <= j < target ==> #[trigger] table@[j] == block_coeff(
                        orig,
                        pow2(pass as nat),
                        j,
                    ),
                    forall|j: int| target <= j < target + i ==> #[trigger] table@[j] == (
                    block_coeff(orig, pow2(pass as nat), j) ^ block_coeff(
                        orig,
                        pow2(pass as nat),
                        j - blocksize,
                    )),
                    forall|j: int| target + i <= j < len ==> #[trigger] table@[j] == block_coeff(
                        orig,
                        pow2(pass as nat),
                        j,
                    ),
                decreases blocksize - i,
            {
                let low: bool = table[source + i];
                let high: bool = table[target + i];
                table[target + i] = high ^ low;
                i = i + 1;
            }
            proof {
                assert forall|j: int| source <= j < source + 2 * blocksize implies #[trigger] table@[j]
                    == block_coeff(orig, pow2((pass + 1) as nat), j) by {
                    lemma_mod_offset(source as int, j - source, 2 * (blocksize as int));
                    lemma_block_coeff_step(orig, pass as nat, j);
                }
            }
            proof {
                lemma_mod_add_self(source as int, 2 * (blocksize as int));
            }
            source = source + 2 * blocksize;
        }
        blocksize = 2 * blocksize;
        pass = pass + 1;
    }
    proof {
        assert forall|j: int| 0 <= j < len implies table@[j] == anf_table(orig)[j] by {
            lemma_block_coeff_full(orig, n, j);
        }
        assert(table@ =~= anf_table(orig));
    }
}

/// The binary logarithm of `len`, if `len` is an exact power of two.
fn try_log2(len: usize) -> (r: Option<usize>)
    ensures
        r matches Some(nn) ==> len == pow2(nn as nat),
        (r is Some) == is_pow2(len as nat),
{
    if len == 0 {
        return None;
    }
    let mut m: usize = len;
    let mut nn: usize = 0;
    proof {
        lemma2_to64();
    }
    while m > 1
        invariant
            m >= 1,
            len as nat == (m as nat) * pow2(nn as nat),
            is_pow2(len as nat) == is_pow2(m as nat),
            nn <= 64,
        decreases m,
    {
        if m % 2 == 1 {
            return None;
        }
        proof {
            lemma2_to64();
            lemma_pow2_unfold((nn + 1) as nat);
            assert(len as nat == ((m / 2) as nat) * pow2((nn + 1) as nat)) by (nonlinear_arith)
                requires
                    len as nat == (m as nat) * pow2(nn as nat),
                    m as nat == 2 * ((m / 2) as nat),
                    pow2((nn + 1) as nat) == 2 * pow2(nn as nat),
            ;
            assert(pow2((nn + 1) as nat) <= len as nat) by (nonlinear_arith)
                requires
                    len as nat == ((m / 2) as nat) * pow2((nn + 1) as nat),
                    (m / 2) as nat >= 1,
            ;
            if nn + 1 > 64 {
                lemma_pow2_strictly_increases(64, (nn + 1) as nat);
                assert(usize::MAX as nat <= u64::MAX as nat);
                assert(false);
            }
        }
        m = m / 2;
        nn = nn + 1;
    }
    proof {
        assert(len as nat == pow2(nn as nat));
    }
    Some(nn)
}

/// ANF transform of a truth table given as an explicit boolean table.
///
/// The table must have exactly `2^n` entries for some `n >= 0`; it is
/// replaced, in place, by its ANF coefficient table: entry `i` becomes
/// the mod-2 sum of the original entries over all submasks of `i`.
pub fn fast_bool_anf_transform_bool_array(rule_truth_table: &mut Vec<bool>)
    requires
        is_pow2(old(rule_truth_table)@.len()),
    ensures
        final(rule_truth_table)@ == anf_table(old(rule_truth_table)@),
{
    match try_log2(rule_truth_table.len()) {
        Some(nn) => transform_core(rule_truth_table, nn),
        None => {
            proof {
                assert(false);
            }
        },
    }
}

/// Checked ANF transform of an explicit boolean table.
///
/// Validates the length before touching any entry: on a length that is
/// not an exact power of two it returns `InvalidLength` and leaves the
/// table exactly as it was; otherwise it transforms in place and returns
/// `Ok`.
pub fn checked_bool_anf_transform_bool_array(rule_truth_table: &mut Vec<bool>) -> (r: Result<
    (),
    AnfError,
>)
    ensures
        is_pow2(old(rule_truth_table)@.len()) ==> (r == Ok::<(), AnfError>(()) && final(rule_truth_table)@
            == anf_table(old(rule_truth_table)@)),
        !is_pow2(old(rule_truth_table)@.len()) ==> (r == Err::<(), AnfError>(
            AnfError::InvalidLength,
        ) && final(rule_truth_table)@ == old(rule_truth_table)@),
{
    match try_log2(rule_truth_table.len()) {
        Some(nn) => {
            transform_core(rule_truth_table, nn);
            Ok(())
        },
        None => Err(AnfError::InvalidLength),
    }
}

/// ANF transform of a truth table packed into the bits of a `u64`.
///
/// Bit `i` of `rule_number` is the output of the function on input
/// assignment `i`; bit `i` of the result is the ANF coefficient at `i`.
/// The width of `u64` must hold all `2^n` table bits, and `rule_number`
/// must not have bits set at or above position `2^n`.
pub fn fast_bool_anf_transform_unsigned(rule_number: u64, num_variables: usize) -> (r: u64)
    requires
        pow2(num_variables as nat) <= 64,
        (rule_number as nat) < pow2(pow2(num_variables as nat)),
    ensures
        (r as nat) < pow2(pow2(num_variables as nat)),
        truth_table(r as nat, num_variables as nat) == anf_table(
            truth_table(rule_number as nat, num_variables as nat),
        ),
{
    proof {
        lemma2_to64();
        if num_variables > 6 {
            lemma_pow2_strictly_increases(6, num_variables as nat);
            assert(false);
        }
    }
    let len: usize = pow2_exec_usize(num_variables);
    let mut table: Vec<bool> = unpack_bits(rule_number, len);
    proof {
        assert(table@ =~= truth_table(rule_number as nat, num_variables as nat));
    }
    transform_core(&mut table, num_variables);
    let r: u64 = pack_bits(&table);
    proof {
        lemma_truth_table_of_packed(table@, num_variables as nat);
        lemma_packed_value_bound(table@);
    }
    r
}

/// Checked ANF transform of a packed truth table.
///
/// Validates before computing: `InsufficientCapacity` when `u64` has
/// fewer than `2^n` bits, `OutOfDomain` when `rule_number >= 2^(2^n)`;
/// on valid input it returns the transformed value.
pub fn checked_bool_anf_transform_unsigned(rule_number: u64, num_variables: usize) -> (r: Result<
    u64,
    AnfError,
>)
    ensures
        pow2(num_variables as nat) > 64 ==> r == Err::<u64, AnfError>(
            AnfError::InsufficientCapacity,
        ),
        pow2(num_variables as nat) <= 64 && (rule_number as nat) >= pow2(
            pow2(num_variables as nat),
        ) ==> r == Err::<u64, AnfError>(AnfError::OutOfDomain),
        pow2(num_variables as nat) <= 64 && (rule_number as nat) < pow2(
            pow2(num_variables as nat),
        ) ==> (r matches Ok(v) && (v as nat) < pow2(pow2(num_variables as nat)) && truth_table(
            v as nat,
            num_variables as nat,
        ) == anf_table(truth_table(rule_number as nat, num_variables as nat))),
{
    proof {
        lemma2_to64();
    }
    if num_variables > 6 {
        proof {
            lemma_pow2_strictly_increases(6, num_variables as nat);
        }
        return Err(AnfError::InsufficientCapacity);
    }
    proof {
        lemma_pow2_le(num_variables as nat, 6);
    }
    if num_variables <= 5 {
        let bits: usize = pow2_exec_usize(num_variables);
        proof {
            lemma_pow2_le(bits as nat, 32);
        }
        let threshold: u64 = pow2_exec_u64(bits);
        if rule_number >= threshold {
            return Err(AnfError::OutOfDomain);
        }
    }
    Ok(fast_bool_anf_transform_unsigned(rule_number, num_variables))
}

} // verus!
