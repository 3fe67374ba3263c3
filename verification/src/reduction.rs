//! Reductions: the built-in commutative-associative operators on `u64`
//! scalars, the left fold that merges per-worker partial results, and the
//! algebraic facts (commutativity, associativity, identity, permutation
//! invariance) that make a parallel reduction equal its serial fold.
//!
//! Additive and multiplicative reductions wrap modulo 2^64; boolean
//! conjunction and disjunction are the bitwise operators on 0/1 values.

#![allow(unused_imports)]

use vstd::arithmetic::div_mod::{
    lemma_add_mod_noop, lemma_mod_add_multiples_vanish, lemma_mul_mod_noop_general,
    lemma_small_mod,
};
use vstd::arithmetic::mul::lemma_mul_is_associative;
use vstd::prelude::*;
use vstd::seq_lib::{commutative_foldl, lemma_fold_left_permutation};

verus! {

/// A built-in reduction operator: one of `+ * & | ^` on `u64` scalars.
/// Boolean `&&` and `||` reductions are `&` and `|` on 0/1 values.
#[derive(Clone, Copy, Debug, PartialEq, Eq, Structural)]
pub enum ReduceOp {
    Add,
    Mul,
    BitAnd,
    BitOr,
    BitXor,
}

/// What one application of `op` yields: addition and multiplication wrap
/// modulo 2^64, the bitwise operators are exact.
pub open spec fn op_spec(op: ReduceOp, a: u64, b: u64) -> u64 {
    match op {
        ReduceOp::Add => vstd::wrapping::u64_specs::wrapping_add(a, b),
        ReduceOp::Mul => vstd::wrapping::u64_specs::wrapping_mul(a, b),
        ReduceOp::BitAnd => a & b,
        ReduceOp::BitOr => a | b,
        ReduceOp::BitXor => a ^ b,
    }
}

/// The identity element of `op`: folding it in changes nothing.
pub open spec fn op_identity(op: ReduceOp) -> u64 {
    match op {
        ReduceOp::Add => 0,
        ReduceOp::Mul => 1,
        ReduceOp::BitAnd => 0xFFFF_FFFF_FFFF_FFFF,
        ReduceOp::BitOr => 0,
        ReduceOp::BitXor => 0,
    }
}

/// `op` as a fold operator, accumulator on the left.
pub open spec fn op_sfn(op: ReduceOp) -> spec_fn(u64, u64) -> u64 {
    |b: u64, a: u64| op_spec(op, b, a)
}

/// The left fold of `op` over `s` starting from `init`: the value a single
/// worker ends with after folding in every element of `s` in order.
pub open spec fn fold_op(op: ReduceOp, init: u64, s: Seq<u64>) -> u64 {
    s.fold_left(init, op_sfn(op))
}

/// Applies `op` once.
pub fn op_apply(op: ReduceOp, a: u64, b: u64) -> (r: u64)
    ensures
        r == op_spec(op, a, b),
{
    match op {
        ReduceOp::Add => a.wrapping_add(b),
        ReduceOp::Mul => a.wrapping_mul(b),
        ReduceOp::BitAnd => a & b,
        ReduceOp::BitOr => a | b,
        ReduceOp::BitXor => a ^ b,
    }
}

/// The identity element of `op`.
pub fn op_identity_value(op: ReduceOp) -> (r: u64)
    ensures
        r == op_identity(op),
{
    match op {
        ReduceOp::Add => 0,
        ReduceOp::Mul => 1,
        ReduceOp::BitAnd => 0xFFFF_FFFF_FFFF_FFFF,
        ReduceOp::BitOr => 0,
        ReduceOp::BitXor => 0,
    }
}

/// Folds `op` over the partial results in `partials`, in order, starting
/// from `r0`: the merge step that combines the workers' partial reductions
/// into the caller's scalar.
pub fn merge_partials(op: ReduceOp, r0: u64, partials: &Vec<u64>) -> (r: u64)
    ensures
        r == fold_op(op, r0, partials@),
{
    let mut acc: u64 = r0;
    let mut j: usize = 0;
    while j < partials.len()
        invariant
            0 <= j <= partials@.len(),
            acc == fold_op(op, r0, partials@.take(j as int)),
        decreases partials@.len() - j,
    {
        let next = op_apply(op, acc, partials[j]);
        proof {
            lemma_fold_op_push(op, r0, partials@.take(j as int), partials@[j as int]);
            assert(partials@.take(j as int).push(partials@[j as int]) =~= partials@.take(
                j + 1 as int,
            ));
        }
        acc = next;
        j = j + 1;
    }
    proof {
        assert(partials@.take(partials@.len() as int) =~= partials@);
    }
    acc
}

/// Every operator commutes: `a op b == b op a`.
pub proof fn lemma_op_comm(op: ReduceOp, a: u64, b: u64)
    ensures
        op_spec(op, a, b) == op_spec(op, b, a),
{
    match op {
        ReduceOp::Add => {},
        ReduceOp::Mul => {},
        ReduceOp::BitAnd => {
            assert(a & b == b & a) by (bit_vector);
        },
        ReduceOp::BitOr => {
            assert(a | b == b | a) by (bit_vector);
        },
        ReduceOp::BitXor => {
            assert(a ^ b == b ^ a) by (bit_vector);
        },
    }
}

/// Every operator associates: `(a op b) op c == a op (b op c)`.
pub proof fn lemma_op_assoc(op: ReduceOp, a: u64, b: u64, c: u64)
    ensures
        op_spec(op, op_spec(op, a, b), c) == op_spec(op, a, op_spec(op, b, c)),
{
    let m = 0x1_0000_0000_0000_0000int;
    match op {
        ReduceOp::Add => {
            lemma_wrapping_add_is_mod(a, b);
            lemma_wrapping_add_is_mod(op_spec(op, a, b), c);
            lemma_wrapping_add_is_mod(b, c);
            lemma_wrapping_add_is_mod(a, op_spec(op, b, c));
            lemma_small_mod(a as nat, m as nat);
            lemma_small_mod(c as nat, m as nat);
            lemma_add_mod_noop(a + b, c as int, m);
            lemma_add_mod_noop(a as int, b + c, m);
        },
        ReduceOp::Mul => {
            lemma_small_mod(a as nat, m as nat);
            lemma_small_mod(c as nat, m as nat);
            lemma_mul_mod_noop_general(a * b, c as int, m);
            lemma_mul_mod_noop_general(a as int, b * c, m);
            lemma_mul_is_associative(a as int, b as int, c as int);
        },
        ReduceOp::BitAnd => {
            assert((a & b) & c == a & (b & c)) by (bit_vector);
        },
        ReduceOp::BitOr => {
            assert((a | b) | c == a | (b | c)) by (bit_vector);
        },
        ReduceOp::BitXor => {
            assert((a ^ b) ^ c == a ^ (b ^ c)) by (bit_vector);
        },
    }
}

/// Folding in the identity changes nothing, on either side.
pub proof fn lemma_op_identity(op: ReduceOp, a: u64)
    ensures
        op_spec(op, op_identity(op), a) == a,
        op_spec(op, a, op_identity(op)) == a,
{
    let m = 0x1_0000_0000_0000_0000int;
    match op {
        ReduceOp::Add => {},
        ReduceOp::Mul => {
            lemma_small_mod(a as nat, m as nat);
        },
        ReduceOp::BitAnd => {
            assert(0xFFFF_FFFF_FFFF_FFFFu64 & a == a && a & 0xFFFF_FFFF_FFFF_FFFFu64 == a)
                by (bit_vector);
        },
        ReduceOp::BitOr => {
            assert(0u64 | a == a && a | 0u64 == a) by (bit_vector);
        },
        ReduceOp::BitXor => {
            assert(0u64 ^ a == a && a ^ 0u64 == a) by (bit_vector);
        },
    }
}

/// The wrapping sum is the integer sum modulo 2^64.
proof fn lemma_wrapping_add_is_mod(a: u64, b: u64)
    ensures
        vstd::wrapping::u64_specs::wrapping_add(a, b) == ((a + b) % 0x1_0000_0000_0000_0000int)
            as u64,
{
    let m = 0x1_0000_0000_0000_0000int;
    if a + b > u64::MAX {
        lemma_mod_add_multiples_vanish(a + b - m, m);
        lemma_small_mod((a + b - m) as nat, m as nat);
    } else {
        lemma_small_mod((a + b) as nat, m as nat);
    }
}

/// Unfolding a fold by its last element.
pub proof fn lemma_fold_op_push(op: ReduceOp, init: u64, s: Seq<u64>, x: u64)
    ensures
        fold_op(op, init, s.push(x)) == op_spec(op, fold_op(op, init, s), x),
{
    assert(s.push(x).drop_last() =~= s);
    assert(s.push(x).last() == x);
}

/// A fold over a concatenation is the fold over the second part, started
/// from the fold over the first.
pub proof fn lemma_fold_op_app(op: ReduceOp, init: u64, s1: Seq<u64>, s2: Seq<u64>)
    ensures
        fold_op(op, init, s1 + s2) == fold_op(op, fold_op(op, init, s1), s2),
{
    let k = s1.len() as int;
    (s1 + s2).lemma_fold_left_split(init, op_sfn(op), k);
    assert((s1 + s2).subrange(0, k) =~= s1);
    assert((s1 + s2).subrange(k, (s1 + s2).len() as int) =~= s2);
}

/// A fold from any start value is the start value combined with the fold
/// from the identity: the start can be hoisted out.
pub proof fn lemma_fold_op_hoist(op: ReduceOp, x: u64, s: Seq<u64>)
    ensures
        fold_op(op, x, s) == op_spec(op, x, fold_op(op, op_identity(op), s)),
    decreases s.len(),
{
    let e = op_identity(op);
    if s.len() == 0 {
        lemma_op_identity(op, x);
    } else {
        let s0 = s.drop_last();
        let y = s.last();
        lemma_fold_op_hoist(op, x, s0);
        assert(fold_op(op, x, s) == op_spec(op, fold_op(op, x, s0), y));
        assert(fold_op(op, e, s) == op_spec(op, fold_op(op, e, s0), y));
        lemma_op_assoc(op, x, fold_op(op, e, s0), y);
    }
}

/// `op` commutes as a left-fold operator, so fold order cannot matter.
pub proof fn lemma_op_commutative_foldl(op: ReduceOp)
    ensures
        commutative_foldl(op_sfn(op)),
{
    let f = op_sfn(op);
    assert forall|x: u64, y: u64, v: u64| #[trigger] f(f(v, x), y) == f(f(v, y), x) by {
        lemma_op_assoc(op, v, x, y);
        lemma_op_assoc(op, v, y, x);
        lemma_op_comm(op, x, y);
    }
}

/// Folding `op` over any permutation of a sequence gives the same value:
/// the order in which contributions are folded in does not matter.
pub proof fn lemma_fold_op_permutation(op: ReduceOp, init: u64, s1: Seq<u64>, s2: Seq<u64>)
    requires
        s1.to_multiset() == s2.to_multiset(),
    ensures
        fold_op(op, init, s1) == fold_op(op, init, s2),
{
    lemma_op_commutative_foldl(op);
    lemma_fold_left_permutation(s1, s2, op_sfn(op), init);
}

} // verus!
