//! Sums and products of sequences of sizes, and the facts about them that
//! the partition and count computations rely on.

use vstd::prelude::*;

verus! {

/// Sum of a sequence of sizes, as a mathematical integer.
pub open spec fn seq_sum(s: Seq<usize>) -> int
    decreases s.len(),
{
    if s.len() == 0 {
        0
    } else {
        seq_sum(s.drop_last()) + s.last()
    }
}

/// Product of a sequence of sizes, as a mathematical integer.
pub open spec fn seq_prod(s: Seq<usize>) -> int
    decreases s.len(),
{
    if s.len() == 0 {
        1
    } else {
        seq_prod(s.drop_last()) * s.last()
    }
}

/// Extending a prefix by one element adds that element to its sum.
pub proof fn lemma_seq_sum_take_succ(s: Seq<usize>, k: int)
    requires
        0 <= k < s.len(),
    ensures
        seq_sum(s.take(k + 1)) == seq_sum(s.take(k)) + s[k],
{
    assert(s.take(k + 1).drop_last() =~= s.take(k));
    assert(s.take(k + 1).last() == s[k]);
}

/// The sum of a full take is the sum of the sequence.
pub proof fn lemma_seq_sum_take_all(s: Seq<usize>)
    ensures
        seq_sum(s.take(s.len() as int)) == seq_sum(s),
{
    assert(s.take(s.len() as int) =~= s);
}

/// A prefix sum never exceeds the total.
pub proof fn lemma_seq_sum_take_le(s: Seq<usize>, k: int)
    requires
        0 <= k <= s.len(),
    ensures
        seq_sum(s.take(k)) <= seq_sum(s),
    decreases s.len() - k,
{
    if k == s.len() {
        lemma_seq_sum_take_all(s);
    } else {
        lemma_seq_sum_take_succ(s, k);
        lemma_seq_sum_take_le(s, k + 1);
    }
}

pub proof fn lemma_seq_prod_nonneg(s: Seq<usize>)
    ensures
        seq_prod(s) >= 0,
    decreases s.len(),
{
    if s.len() > 0 {
        lemma_seq_prod_nonneg(s.drop_last());
        let a = seq_prod(s.drop_last());
        let b = s.last() as int;
        assert(a * b >= 0) by (nonlinear_arith)
            requires
                a >= 0,
                b >= 0,
        ;
    }
}

/// A product of factors that are all at least one is at least one.
pub proof fn lemma_seq_prod_pos(s: Seq<usize>)
    requires
        forall|i: int| 0 <= i < s.len() ==> s[i] >= 1,
    ensures
        seq_prod(s) >= 1,
    decreases s.len(),
{
    if s.len() > 0 {
        lemma_seq_prod_pos(s.drop_last());
        let a = seq_prod(s.drop_last());
        let b = s.last() as int;
        assert(a * b >= 1) by (nonlinear_arith)
            requires
                a >= 1,
                b >= 1,
        ;
    }
}

/// Extending a prefix by one element multiplies its product by that element.
pub proof fn lemma_seq_prod_take_succ(s: Seq<usize>, k: int)
    requires
        0 <= k < s.len(),
    ensures
        seq_prod(s.take(k + 1)) == seq_prod(s.take(k)) * s[k],
{
    assert(s.take(k + 1).drop_last() =~= s.take(k));
    assert(s.take(k + 1).last() == s[k]);
}

pub proof fn lemma_seq_prod_take_all(s: Seq<usize>)
    ensures
        seq_prod(s.take(s.len() as int)) == seq_prod(s),
{
    assert(s.take(s.len() as int) =~= s);
}

/// When every factor is at least one, a prefix product never exceeds the
/// total product.
pub proof fn lemma_seq_prod_take_le(s: Seq<usize>, k: int)
    requires
        0 <= k <= s.len(),
        forall|i: int| 0 <= i < s.len() ==> s[i] >= 1,
    ensures
        seq_prod(s.take(k)) <= seq_prod(s),
    decreases s.len() - k,
{
    if k == s.len() {
        lemma_seq_prod_take_all(s);
    } else {
        lemma_seq_prod_take_succ(s, k);
        lemma_seq_prod_nonneg(s.take(k));
        let a = seq_prod(s.take(k));
        let b = s[k] as int;
        assert(a <= a * b) by (nonlinear_arith)
            requires
                a >= 0,
                b >= 1,
        ;
        lemma_seq_prod_take_le(s, k + 1);
    }
}

/// Pointwise larger factors give a larger product.
pub proof fn lemma_seq_prod_le(a: Seq<usize>, b: Seq<usize>)
    requires
        a.len() == b.len(),
        forall|i: int| 0 <= i < a.len() ==> a[i] <= b[i],
    ensures
        seq_prod(a) <= seq_prod(b),
    decreases a.len(),
{
    if a.len() > 0 {
        lemma_seq_prod_le(a.drop_last(), b.drop_last());
        lemma_seq_prod_nonneg(a.drop_last());
        lemma_seq_prod_nonneg(b.drop_last());
        let pa = seq_prod(a.drop_last());
        let pb = seq_prod(b.drop_last());
        let xa = a.last() as int;
        let xb = b.last() as int;
        assert(pa * xa <= pb * xb) by (nonlinear_arith)
            requires
                0 <= pa <= pb,
                0 <= xa <= xb,
        ;
    }
}

/// Replacing the factor at one position scales the product of the sequence
/// with a one at that position.
pub proof fn lemma_seq_prod_update(s: Seq<usize>, j: int, t: usize)
    requires
        0 <= j < s.len(),
    ensures
        seq_prod(s.update(j, t)) == seq_prod(s.update(j, 1)) * t,
    decreases s.len(),
{
    if j == s.len() - 1 {
        assert(s.update(j, t).drop_last() =~= s.drop_last());
        assert(s.update(j, 1).drop_last() =~= s.drop_last());
        let p = seq_prod(s.drop_last());
        assert(p * (1 as usize) as int == p) by (nonlinear_arith);
        assert(seq_prod(s.update(j, t)) == p * t);
        assert(seq_prod(s.update(j, 1)) == p);
    } else {
        assert(s.update(j, t).drop_last() =~= s.drop_last().update(j, t));
        assert(s.update(j, 1).drop_last() =~= s.drop_last().update(j, 1));
        lemma_seq_prod_update(s.drop_last(), j, t);
        let p1 = seq_prod(s.drop_last().update(j, 1));
        let x = s.last() as int;
        let tt = t as int;
        assert(seq_prod(s.update(j, t)) == (p1 * tt) * x);
        assert(seq_prod(s.update(j, 1)) == p1 * x);
        assert((p1 * tt) * x == (p1 * x) * tt) by (nonlinear_arith);
    }
}

/// A row-major position of a two-dimensional index is in bounds.
pub proof fn lemma_index2_bounds(s0: int, s1: int, i: int, j: int)
    by (nonlinear_arith)
    requires
        0 <= i < s0,
        0 <= j < s1,
    ensures
        0 <= i * s1 + j,
        i * s1 + j < s0 * s1,
{
}

/// Distinct two-dimensional indices have distinct row-major positions.
pub proof fn lemma_index2_injective(s1: int, i: int, j: int, i2: int, j2: int)
    by (nonlinear_arith)
    requires
        0 <= j < s1,
        0 <= j2 < s1,
        i != i2 || j != j2,
    ensures
        i * s1 + j != i2 * s1 + j2,
{
}

/// Every position below `s0 * s1` is the row-major position of exactly one
/// two-dimensional index, recovered by division and remainder.
pub proof fn lemma_index2_decompose(s0: int, s1: int, pos: int)
    requires
        1 <= s1,
        0 <= pos < s0 * s1,
    ensures
        pos == (pos / s1) * s1 + pos % s1,
        0 <= pos / s1 < s0,
        0 <= pos % s1 < s1,
{
    vstd::arithmetic::div_mod::lemma_fundamental_div_mod(pos, s1);
    vstd::arithmetic::div_mod::lemma_mod_division_less_than_divisor(pos, s1);
    assert(pos == (pos / s1) * s1 + pos % s1) by (nonlinear_arith)
        requires
            pos == s1 * (pos / s1) + pos % s1,
    ;
    assert(pos / s1 < s0) by (nonlinear_arith)
        requires
            pos == (pos / s1) * s1 + pos % s1,
            0 <= pos < s0 * s1,
            0 <= pos % s1 < s1,
            1 <= s1,
    ;
    assert(0 <= pos / s1) by (nonlinear_arith)
        requires
            pos == (pos / s1) * s1 + pos % s1,
            0 <= pos,
            0 <= pos % s1 < s1,
            1 <= s1,
    ;
}

/// A row-major position of a three-dimensional index is in bounds.
pub proof fn lemma_index3_bounds(s0: int, s1: int, s2: int, i: int, j: int, k: int)
    by (nonlinear_arith)
    requires
        0 <= i < s0,
        0 <= j < s1,
        0 <= k < s2,
    ensures
        0 <= i * (s1 * s2) + j * s2 + k,
        i * (s1 * s2) + j * s2 + k < s0 * (s1 * s2),
        0 <= i * (s1 * s2),
        0 <= j * s2,
        j * s2 + k < s1 * s2,
{
}

/// A sequence equals itself with a position overwritten by its own value.
pub proof fn lemma_seq_update_self(s: Seq<usize>, j: int)
    requires
        0 <= j < s.len(),
    ensures
        s.update(j, s[j]) == s,
{
    assert(s.update(j, s[j]) =~= s);
}

} // verus!
