//! The parallel-for orchestrator. Given the materialized iteration items, a
//! block size, and a loop body, it splits the iterations block-cyclically
//! across the pool's workers, runs the body on every worker's share through
//! one pool dispatch, and — for a reduction — folds each worker's partial
//! result back into the caller's scalar in worker order.
//!
//! Shared-immutable and thread-private variables enter a region as plain
//! captures of the body closure: the body borrows shared state immutably
//! and clones private templates worker-locally, so the caller's own
//! bindings are never handed out mutably and keep their values. Shared
//! mutable state travels through [`crate::Capture`] cells captured by the
//! body.

#![allow(unused_imports)]

use crate::reduction::{
    fold_op, lemma_fold_op_app, lemma_fold_op_hoist, lemma_fold_op_permutation,
    lemma_fold_op_push, lemma_op_identity, merge_partials, op_apply, op_identity, op_spec,
    ReduceOp,
};
use crate::threadpool::{bucket, buckets, lemma_bucket_map, lemma_split_conservation, owner_of, ThreadPoolManager};
use vstd::prelude::*;

verus! {

/// `cb` is a valid record of per-iteration contributions of `body` over the
/// iteration items `its`: one contribution per item, each a possible output
/// of the body on its item.
pub open spec fn contribs_ok<F: Fn(i64) -> u64>(body: &F, its: Seq<i64>, cb: Seq<u64>) -> bool {
    &&& cb.len() == its.len()
    &&& forall|j: int| 0 <= j < cb.len() ==> call_ensures(*body, (its[j],), #[trigger] cb[j])
}

/// Every iteration item in `its` has received one completed call of the
/// side-effecting body, with the body's postcondition holding of it.
pub open spec fn ran_all<F: Fn(i64)>(body: &F, its: Seq<i64>) -> bool {
    forall|j: int| 0 <= j < its.len() ==> #[trigger] call_ensures(*body, (its[j],), ())
}

/// The per-worker partial results: each worker folds its contribution
/// sequence starting from the caller's initial value `r0`.
pub open spec fn partials_of(op: ReduceOp, r0: u64, cbs: Seq<Seq<u64>>) -> Seq<u64> {
    Seq::new(cbs.len(), |k: int| fold_op(op, r0, cbs[k]))
}

/// What a completed reduction region guarantees: there is one contribution
/// sequence per worker, valid for that worker's block-cyclic share of the
/// items, and the result is the fold, in worker order and starting from the
/// caller's `r0`, of the workers' partial folds.
pub open spec fn region_reduce_ok<F: Fn(i64) -> u64>(
    body: &F,
    items: Seq<i64>,
    block_size: int,
    num_threads: int,
    op: ReduceOp,
    r0: u64,
    result: u64,
) -> bool {
    exists|cbs: Seq<Seq<u64>>|
        {
            &&& cbs.len() == num_threads
            &&& (forall|k: int|
                0 <= k < cbs.len() ==> contribs_ok(
                    body,
                    bucket(items, block_size, num_threads, k),
                    #[trigger] cbs[k],
                ))
            &&& result == fold_op(op, r0, partials_of(op, r0, cbs))
        }
}

/// Runs a reduction loop on the pool: the body maps each iteration item to
/// its contribution, worker `k` folds `op` over its block-cyclic share of
/// the items starting from `r0`, and the partial results are folded into
/// `r0` in worker order.
pub fn par_reduce<F: Fn(i64) -> u64 + Sync>(
    pool: &ThreadPoolManager,
    items: Vec<i64>,
    block_size: usize,
    op: ReduceOp,
    r0: u64,
    body: F,
) -> (result: u64)
    requires
        block_size >= 1,
        forall|j: int| 0 <= j < items@.len() ==> #[trigger] call_requires(body, (items@[j],)),
    ensures
        region_reduce_ok(&body, items@, block_size as int, pool.threads(), op, r0, result),
{
    let ghost items_view = items@;
    let ghost bs = block_size as int;
    let ghost nt = pool.threads();
    let assignments = pool.split_iterators(items, block_size);
    let bref = &body;
    let worker = |k: usize| -> (p: u64)
        requires
            k < assignments@.len(),
            forall|j: int|
                0 <= j < assignments@[k as int]@.len() ==> #[trigger] call_requires(
                    *bref,
                    (assignments@[k as int]@[j],),
                ),
        ensures
            exists|cb: Seq<u64>|
                contribs_ok(bref, assignments@[k as int]@, cb) && p == fold_op(op, r0, cb),
        {
            let my_items: &Vec<i64> = &assignments[k];
            let mut acc: u64 = r0;
            let ghost mut cb: Seq<u64> = Seq::empty();
            let mut j: usize = 0;
            while j < my_items.len()
                invariant
                    0 <= j <= my_items@.len(),
                    my_items@ == assignments@[k as int]@,
                    k < assignments@.len(),
                    forall|i: int|
                        0 <= i < my_items@.len() ==> #[trigger] call_requires(
                            *bref,
                            (my_items@[i],),
                        ),
                    cb.len() == j,
                    forall|i: int|
                        0 <= i < cb.len() ==> call_ensures(
                            *bref,
                            (my_items@[i],),
                            #[trigger] cb[i],
                        ),
                    acc == fold_op(op, r0, cb),
                decreases my_items@.len() - j,
            {
                let c = bref(my_items[j]);
                let next = op_apply(op, acc, c);
                proof {
                    lemma_fold_op_push(op, r0, cb, c);
                    cb = cb.push(c);
                }
                acc = next;
                j = j + 1;
            }
            proof {
                assert(contribs_ok(bref, assignments@[k as int]@, cb));
            }
            acc
        };
    proof {
        assert forall|k: usize| k < pool.threads() implies #[trigger] call_requires(
            worker,
            (k,),
        ) by {
            assert(assignments@[k as int]@ == bucket(items_view, bs, nt, k as int));
            assert forall|j: int|
                0 <= j < assignments@[k as int]@.len() implies #[trigger] call_requires(
                body,
                (assignments@[k as int]@[j],),
            ) by {
                lemma_bucket_membership(items_view, bs, nt, k as int, j);
                let idx = choose|idx: int|
                    0 <= idx < items_view.len() && items_view[idx] == bucket(
                        items_view,
                        bs,
                        nt,
                        k as int,
                    )[j];
                assert(call_requires(body, (items_view[idx],)));
            }
        }
    }
    let partials = pool.broadcast(worker);
    let result = merge_partials(op, r0, &partials);
    proof {
        let ghost cbs: Seq<Seq<u64>> = Seq::new(
            nt as nat,
            |k: int|
                choose|cb: Seq<u64>|
                    contribs_ok(&body, assignments@[k]@, cb) && partials@[k] == fold_op(
                        op,
                        r0,
                        cb,
                    ),
        );
        assert forall|k: int| 0 <= k < cbs.len() implies contribs_ok(
            &body,
            bucket(items_view, bs, nt, k),
            #[trigger] cbs[k],
        ) && partials@[k] == fold_op(op, r0, cbs[k]) by {
            assert(call_ensures(worker, (k as usize,), partials@[k]));
            let cb0 = choose|cb: Seq<u64>|
                contribs_ok(&body, assignments@[k]@, cb) && partials@[k] == fold_op(op, r0, cb);
            assert(contribs_ok(&body, assignments@[k]@, cb0) && partials@[k] == fold_op(
                op,
                r0,
                cb0,
            ));
            assert(assignments@[k]@ == bucket(items_view, bs, nt, k));
        }
        assert(partials_of(op, r0, cbs) =~= partials@);
        assert(region_reduce_ok(&body, items_view, bs, nt, op, r0, result));
    }
    result
}

/// Runs a side-effecting loop body over every iteration item on the pool:
/// worker `k` runs the body on its block-cyclic share of the items, in
/// order. All effects travel through what the body captures — shared cells
/// for mutable state, immutable borrows for shared-read state — and are
/// visible to the caller when this returns, since the dispatch waits for
/// every worker.
pub fn par_for_each<F: Fn(i64) + Sync>(
    pool: &ThreadPoolManager,
    items: Vec<i64>,
    block_size: usize,
    body: F,
)
    requires
        block_size >= 1,
        forall|j: int| 0 <= j < items@.len() ==> #[trigger] call_requires(body, (items@[j],)),
    ensures
        ran_all(&body, items@),
{
    let ghost items_view = items@;
    let ghost bs = block_size as int;
    let ghost nt = pool.threads();
    let num_threads = pool.num_threads();
    let assignments = pool.split_iterators(items, block_size);
    let bref = &body;
    let worker = |k: usize| -> (done: u64)
        requires
            k < assignments@.len(),
            forall|j: int|
                0 <= j < assignments@[k as int]@.len() ==> #[trigger] call_requires(
                    *bref,
                    (assignments@[k as int]@[j],),
                ),
        ensures
            ran_all(bref, assignments@[k as int]@),
        {
            let my_items: &Vec<i64> = &assignments[k];
            let mut j: usize = 0;
            while j < my_items.len()
                invariant
                    0 <= j <= my_items@.len(),
                    my_items@ == assignments@[k as int]@,
                    k < assignments@.len(),
                    forall|i: int|
                        0 <= i < my_items@.len() ==> #[trigger] call_requires(
                            *bref,
                            (my_items@[i],),
                        ),
                    forall|i: int|
                        0 <= i < j ==> #[trigger] call_ensures(*bref, (my_items@[i],), ()),
                decreases my_items@.len() - j,
            {
                bref(my_items[j]);
                j = j + 1;
            }
            0u64
        };
    proof {
        assert forall|k: usize| k < pool.threads() implies #[trigger] call_requires(
            worker,
            (k,),
        ) by {
            assert(assignments@[k as int]@ == bucket(items_view, bs, nt, k as int));
            assert forall|j: int|
                0 <= j < assignments@[k as int]@.len() implies #[trigger] call_requires(
                body,
                (assignments@[k as int]@[j],),
            ) by {
                lemma_bucket_membership(items_view, bs, nt, k as int, j);
                let idx = choose|idx: int|
                    0 <= idx < items_view.len() && items_view[idx] == bucket(
                        items_view,
                        bs,
                        nt,
                        k as int,
                    )[j];
                assert(call_requires(body, (items_view[idx],)));
            }
        }
    }
    let results = pool.broadcast(worker);
    proof {
        assert forall|j: int| 0 <= j < items_view.len() implies #[trigger] call_ensures(
            body,
            (items_view[j],),
            (),
        ) by {
            let w = owner_of(j, bs, nt);
            vstd::arithmetic::div_mod::lemma_mod_division_less_than_divisor(j / bs, nt);
            vstd::arithmetic::div_mod::lemma_div_pos_is_pos(j, bs);
            lemma_item_in_owner_bucket(items_view, bs, nt, j);
            let i = choose|i: int|
                0 <= i < bucket(items_view, bs, nt, w).len() && bucket(items_view, bs, nt, w)[i]
                    == items_view[j];
            assert(0 <= w < nt);
            let ku = w as usize;
            assert(call_ensures(worker, (ku,), results@[w]));
            assert(ran_all(bref, assignments@[ku as int]@));
            assert(assignments@[ku as int]@ == bucket(items_view, bs, nt, w));
            assert(0 <= i < assignments@[ku as int]@.len());
            assert(call_ensures(body, (assignments@[ku as int]@[i],), ()));
        }
    }
}

/// Every input element appears in the share of the worker that owns its
/// index: together with the membership fact, the shares are exactly the
/// input.
proof fn lemma_item_in_owner_bucket<T>(
    s: Seq<T>,
    block_size: int,
    num_threads: int,
    j: int,
)
    requires
        block_size >= 1,
        num_threads >= 1,
        0 <= j < s.len(),
    ensures
        exists|i: int|
            0 <= i < bucket(s, block_size, num_threads, owner_of(j, block_size, num_threads)).len()
                && bucket(s, block_size, num_threads, owner_of(j, block_size, num_threads))[i]
                == s[j],
    decreases s.len(),
{
    let w = owner_of(j, block_size, num_threads);
    let b = bucket(s, block_size, num_threads, w);
    if j == s.len() - 1 {
        assert(b[b.len() - 1] == s[j]);
    } else {
        lemma_item_in_owner_bucket(s.drop_last(), block_size, num_threads, j);
        let b0 = bucket(s.drop_last(), block_size, num_threads, w);
        let i = choose|i: int| 0 <= i < b0.len() && b0[i] == s.drop_last()[j];
        assert(b[i] == s[j]);
    }
}

/// Every element of a worker's share is an element of the iteration items.
proof fn lemma_bucket_membership<T>(s: Seq<T>, block_size: int, num_threads: int, k: int, j: int)
    requires
        0 <= j < bucket(s, block_size, num_threads, k).len(),
    ensures
        exists|idx: int|
            0 <= idx < s.len() && s[idx] == bucket(s, block_size, num_threads, k)[j],
    decreases s.len(),
{
    let b = bucket(s, block_size, num_threads, k);
    let s0 = s.drop_last();
    let b0 = bucket(s0, block_size, num_threads, k);
    if owner_of(s.len() - 1, block_size, num_threads) == k && j == b.len() - 1 {
        assert(s[s.len() - 1] == b[j]);
    } else {
        lemma_bucket_membership(s0, block_size, num_threads, k, j);
        let idx = choose|idx: int| 0 <= idx < s0.len() && s0[idx] == b0[j];
        assert(s[idx] == b[j]);
    }
}

/// Merging the per-worker folds of a block-cyclic split equals the serial
/// fold of the whole contribution sequence, when the caller's initial value
/// is the operator's identity: the split conserves the contributions and
/// the operator is associative and commutative.
pub proof fn lemma_merge_eq_serial(op: ReduceOp, c: Seq<u64>, block_size: int, num_threads: int)
    requires
        block_size >= 1,
        num_threads >= 1,
    ensures
        fold_op(
            op,
            op_identity(op),
            partials_of(op, op_identity(op), buckets(c, block_size, num_threads)),
        ) == fold_op(op, op_identity(op), c),
{
    let e = op_identity(op);
    let bks = buckets(c, block_size, num_threads);
    lemma_fold_op_flatten(op, bks);
    lemma_split_conservation(c, block_size, num_threads);
    lemma_fold_op_permutation(op, e, bks.flatten(), c);
}

/// Folding the workers' partial folds from the identity equals folding the
/// concatenation of all their shares from the identity.
proof fn lemma_fold_op_flatten(op: ReduceOp, ss: Seq<Seq<u64>>)
    ensures
        fold_op(op, op_identity(op), partials_of(op, op_identity(op), ss)) == fold_op(
            op,
            op_identity(op),
            ss.flatten(),
        ),
    decreases ss.len(),
{
    let e = op_identity(op);
    let ps = partials_of(op, e, ss);
    if ss.len() == 0 {
        assert(ps =~= Seq::<u64>::empty());
        assert(ss.flatten() =~= Seq::<u64>::empty());
    } else {
        let head = ss.first();
        let rest = ss.drop_first();
        let p0 = fold_op(op, e, head);
        lemma_fold_op_flatten(op, rest);
        // The partials decompose as the head's partial before the rest's.
        assert(ps =~= Seq::empty().push(p0) + partials_of(op, e, rest));
        lemma_fold_op_app(op, e, Seq::empty().push(p0), partials_of(op, e, rest));
        lemma_fold_op_push(op, e, Seq::empty(), p0);
        lemma_op_identity(op, p0);
        lemma_fold_op_hoist(op, p0, partials_of(op, e, rest));
        // The flattened items decompose as the head before the rest.
        assert(ss.flatten() =~= head + rest.flatten());
        lemma_fold_op_app(op, e, head, rest.flatten());
        lemma_fold_op_hoist(op, p0, rest.flatten());
    }
}

/// Serial equivalence of a reduction region: when the body computes the
/// pure function `g` of its item and the caller's initial value is the
/// operator's identity, the region's result is exactly the serial fold of
/// `g` over the items in iteration order.
pub proof fn lemma_region_serial_equivalence<F: Fn(i64) -> u64>(
    body: &F,
    items: Seq<i64>,
    block_size: int,
    num_threads: int,
    op: ReduceOp,
    r0: u64,
    result: u64,
    g: spec_fn(i64) -> u64,
)
    requires
        region_reduce_ok(body, items, block_size, num_threads, op, r0, result),
        forall|x: i64, y: u64| call_ensures(*body, (x,), y) ==> y == g(x),
        r0 == op_identity(op),
        block_size >= 1,
        num_threads >= 1,
    ensures
        result == fold_op(op, r0, items.map_values(g)),
{
    let cbs = choose|cbs: Seq<Seq<u64>>|
        {
            &&& cbs.len() == num_threads
            &&& (forall|k: int|
                0 <= k < cbs.len() ==> contribs_ok(
                    body,
                    bucket(items, block_size, num_threads, k),
                    #[trigger] cbs[k],
                ))
            &&& result == fold_op(op, r0, partials_of(op, r0, cbs))
        };
    let c = items.map_values(g);
    assert forall|k: int| 0 <= k < num_threads implies #[trigger] cbs[k] == bucket(
        c,
        block_size,
        num_threads,
        k,
    ) by {
        lemma_bucket_map(items, block_size, num_threads, k, g);
        assert(cbs[k] =~= bucket(items, block_size, num_threads, k).map_values(g));
    }
    assert(partials_of(op, r0, cbs) =~= partials_of(
        op,
        r0,
        buckets(c, block_size, num_threads),
    ));
    lemma_merge_eq_serial(op, c, block_size, num_threads);
}

/// Reduction identity: a region over an empty iteration space leaves an
/// identity-initialized reduction target at its pre-region value.
pub proof fn lemma_region_reduction_identity<F: Fn(i64) -> u64>(
    body: &F,
    block_size: int,
    num_threads: int,
    op: ReduceOp,
    r0: u64,
    result: u64,
)
    requires
        region_reduce_ok(body, Seq::<i64>::empty(), block_size, num_threads, op, r0, result),
        r0 == op_identity(op),
        block_size >= 1,
        num_threads >= 1,
    ensures
        result == r0,
{
    let cbs = choose|cbs: Seq<Seq<u64>>|
        {
            &&& cbs.len() == num_threads
            &&& (forall|k: int|
                0 <= k < cbs.len() ==> contribs_ok(
                    body,
                    bucket(Seq::<i64>::empty(), block_size, num_threads, k),
                    #[trigger] cbs[k],
                ))
            &&& result == fold_op(op, r0, partials_of(op, r0, cbs))
        };
    assert(cbs =~~= buckets(Seq::<u64>::empty(), block_size, num_threads));
    lemma_merge_eq_serial(op, Seq::<u64>::empty(), block_size, num_threads);
}


/// `rows` is a valid record of per-iteration contribution rows of `body`
/// over the iteration items `its`: one row per item, each a possible output
/// of the body on its item, holding one contribution per reduction target.
pub open spec fn contrib_rows_ok<F: Fn(i64) -> Vec<u64>>(
    body: &F,
    its: Seq<i64>,
    rows: Seq<Vec<u64>>,
) -> bool {
    &&& rows.len() == its.len()
    &&& forall|j: int| 0 <= j < rows.len() ==> call_ensures(*body, (its[j],), #[trigger] rows[j])
}

/// Contribution column `t` of a worker's rows: the per-item contributions
/// to the reduction target with index `t`, in iteration order.
pub open spec fn column(rows: Seq<Vec<u64>>, t: int) -> Seq<u64> {
    Seq::new(rows.len(), |j: int| rows[j]@[t])
}

/// What a completed multi-reduction region guarantees: there is one row of
/// contributions per worker and iteration, valid for the worker's
/// block-cyclic share of the items, and each target's result is the fold,
/// in worker order from that target's initial value, of the workers'
/// partial folds of that target's contribution column.
pub open spec fn region_reduce_list_ok<F: Fn(i64) -> Vec<u64>>(
    body: &F,
    items: Seq<i64>,
    block_size: int,
    num_threads: int,
    reds: Seq<(ReduceOp, u64)>,
    results: Seq<u64>,
) -> bool {
    exists|rows: Seq<Seq<Vec<u64>>>|
        {
            &&& rows.len() == num_threads
            &&& (forall|k: int|
                0 <= k < rows.len() ==> contrib_rows_ok(
                    body,
                    bucket(items, block_size, num_threads, k),
                    #[trigger] rows[k],
                ))
            &&& results.len() == reds.len()
            &&& (forall|t: int|
                0 <= t < reds.len() ==> #[trigger] results[t] == fold_op(
                    reds[t].0,
                    reds[t].1,
                    Seq::new(
                        num_threads as nat,
                        |k: int| fold_op(reds[t].0, reds[t].1, column(rows[k], t)),
                    ),
                ))
        }
}

/// Runs a loop with an ordered list of reductions on the pool: the body
/// maps each iteration item to one contribution per declared target, worker
/// `k` folds each target's operator over its block-cyclic share starting
/// from that target's initial value, and each target's partials are folded
/// back into its initial value in worker order — all in one dispatch.
pub fn par_reduce_list<F: Fn(i64) -> Vec<u64> + Sync>(
    pool: &ThreadPoolManager,
    items: Vec<i64>,
    block_size: usize,
    reds: &Vec<(ReduceOp, u64)>,
    body: F,
) -> (results: Vec<u64>)
    requires
        block_size >= 1,
        forall|j: int| 0 <= j < items@.len() ==> #[trigger] call_requires(body, (items@[j],)),
        forall|x: i64, y: Vec<u64>|
            #[trigger] call_ensures(body, (x,), y) ==> y@.len() == reds@.len(),
    ensures
        results@.len() == reds@.len(),
        region_reduce_list_ok(
            &body,
            items@,
            block_size as int,
            pool.threads(),
            reds@,
            results@,
        ),
{
    let ghost items_view = items@;
    let ghost bs = block_size as int;
    let ghost nt = pool.threads();
    let ghost rv = reds@;
    let rlen = reds.len();
    let assignments = pool.split_iterators(items, block_size);
    let bref = &body;
    let worker = |k: usize| -> (p: Vec<u64>)
        requires
            k < assignments@.len(),
            forall|j: int|
                0 <= j < assignments@[k as int]@.len() ==> #[trigger] call_requires(
                    *bref,
                    (assignments@[k as int]@[j],),
                ),
            forall|x: i64, y: Vec<u64>|
                #[trigger] call_ensures(*bref, (x,), y) ==> y@.len() == reds@.len(),
        ensures
            exists|rws: Seq<Vec<u64>>|
                {
                    &&& contrib_rows_ok(bref, assignments@[k as int]@, rws)
                    &&& p@.len() == reds@.len()
                    &&& (forall|t: int|
                        0 <= t < reds@.len() ==> #[trigger] p@[t] == fold_op(
                            reds@[t].0,
                            reds@[t].1,
                            column(rws, t),
                        ))
                },
        {
            let my_items: &Vec<i64> = &assignments[k];
            let mut accs: Vec<u64> = Vec::new();
            let mut t: usize = 0;
            while t < rlen
                invariant
                    rlen == reds@.len(),
                    0 <= t <= rlen,
                    accs@.len() == t,
                    forall|tt: int| 0 <= tt < t ==> #[trigger] accs@[tt] == reds@[tt].1,
                decreases rlen - t,
            {
                let rt = reds[t];
                accs.push(rt.1);
                t = t + 1;
            }
            let ghost mut rws: Seq<Vec<u64>> = Seq::empty();
            let mut j: usize = 0;
            while j < my_items.len()
                invariant
                    rlen == reds@.len(),
                    0 <= j <= my_items@.len(),
                    my_items@ == assignments@[k as int]@,
                    k < assignments@.len(),
                    forall|i: int|
                        0 <= i < my_items@.len() ==> #[trigger] call_requires(
                            *bref,
                            (my_items@[i],),
                        ),
                    forall|x: i64, y: Vec<u64>|
                        #[trigger] call_ensures(*bref, (x,), y) ==> y@.len() == reds@.len(),
                    rws.len() == j,
                    forall|i: int|
                        0 <= i < rws.len() ==> call_ensures(
                            *bref,
                            (my_items@[i],),
                            #[trigger] rws[i],
                        ),
                    accs@.len() == rlen,
                    forall|t: int|
                        0 <= t < rlen ==> #[trigger] accs@[t] == fold_op(
                            reds@[t].0,
                            reds@[t].1,
                            column(rws, t),
                        ),
                decreases my_items@.len() - j,
            {
                let row = bref(my_items[j]);
                let mut next: Vec<u64> = Vec::new();
                let mut t: usize = 0;
                while t < rlen
                    invariant
                        rlen == reds@.len(),
                        0 <= t <= rlen,
                        accs@.len() == rlen,
                        row@.len() == rlen,
                        next@.len() == t,
                        forall|tt: int|
                            0 <= tt < t ==> #[trigger] next@[tt] == op_spec(
                                reds@[tt].0,
                                accs@[tt],
                                row@[tt],
                            ),
                    decreases rlen - t,
                {
                    let rt = reds[t];
                    next.push(op_apply(rt.0, accs[t], row[t]));
                    t = t + 1;
                }
                proof {
                    assert forall|tt: int|
                        0 <= tt < rlen implies #[trigger] next@[tt] == fold_op(
                        reds@[tt].0,
                        reds@[tt].1,
                        column(rws.push(row), tt),
                    ) by {
                        lemma_fold_op_push(reds@[tt].0, reds@[tt].1, column(rws, tt), row@[tt]);
                        assert(column(rws.push(row), tt) =~= column(rws, tt).push(row@[tt]));
                    }
                    rws = rws.push(row);
                }
                accs = next;
                j = j + 1;
            }
            proof {
                assert(contrib_rows_ok(bref, assignments@[k as int]@, rws));
            }
            accs
        };
    proof {
        assert forall|k: usize| k < pool.threads() implies #[trigger] call_requires(
            worker,
            (k,),
        ) by {
            assert(assignments@[k as int]@ == bucket(items_view, bs, nt, k as int));
            assert forall|j: int|
                0 <= j < assignments@[k as int]@.len() implies #[trigger] call_requires(
                body,
                (assignments@[k as int]@[j],),
            ) by {
                lemma_bucket_membership(items_view, bs, nt, k as int, j);
                let idx = choose|idx: int|
                    0 <= idx < items_view.len() && items_view[idx] == bucket(
                        items_view,
                        bs,
                        nt,
                        k as int,
                    )[j];
                assert(call_requires(body, (items_view[idx],)));
            }
        }
    }
    let partials = pool.broadcast(worker);
    let ghost rows: Seq<Seq<Vec<u64>>> = Seq::new(
        nt as nat,
        |k: int|
            choose|rws: Seq<Vec<u64>>|
                {
                    &&& contrib_rows_ok(&body, assignments@[k]@, rws)
                    &&& partials@[k]@.len() == rv.len()
                    &&& (forall|t: int|
                        0 <= t < rv.len() ==> #[trigger] partials@[k]@[t] == fold_op(
                            rv[t].0,
                            rv[t].1,
                            column(rws, t),
                        ))
                },
    );
    proof {
        assert forall|k: int| 0 <= k < nt implies {
            &&& contrib_rows_ok(&body, bucket(items_view, bs, nt, k), #[trigger] rows[k])
            &&& partials@[k]@.len() == rv.len()
            &&& (forall|t: int|
                0 <= t < rv.len() ==> #[trigger] partials@[k]@[t] == fold_op(
                    rv[t].0,
                    rv[t].1,
                    column(rows[k], t),
                ))
        } by {
            assert(call_ensures(worker, (k as usize,), partials@[k]));
            let rws0 = choose|rws: Seq<Vec<u64>>|
                {
                    &&& contrib_rows_ok(&body, assignments@[k]@, rws)
                    &&& partials@[k]@.len() == rv.len()
                    &&& (forall|t: int|
                        0 <= t < rv.len() ==> #[trigger] partials@[k]@[t] == fold_op(
                            rv[t].0,
                            rv[t].1,
                            column(rws, t),
                        ))
                };
            assert(contrib_rows_ok(&body, assignments@[k]@, rws0));
            assert(assignments@[k]@ == bucket(items_view, bs, nt, k));
        }
    }
    let mut results: Vec<u64> = Vec::new();
    let mut t: usize = 0;
    while t < rlen
        invariant
            rv == reds@,
            rlen == rv.len(),
            0 <= t <= rlen,
            nt == pool.threads(),
            partials@.len() == nt,
            forall|k: int| 0 <= k < nt ==> #[trigger] partials@[k]@.len() == rv.len(),
            forall|k: int, tt: int|
                0 <= k < nt && 0 <= tt < rv.len() ==> #[trigger] partials@[k]@[tt] == fold_op(
                    rv[tt].0,
                    rv[tt].1,
                    column(rows[k], tt),
                ),
            results@.len() == t,
            forall|tt: int|
                0 <= tt < t ==> #[trigger] results@[tt] == fold_op(
                    rv[tt].0,
                    rv[tt].1,
                    Seq::new(nt as nat, |k: int| fold_op(rv[tt].0, rv[tt].1, column(rows[k], tt))),
                ),
        decreases rlen - t,
    {
        let rt = reds[t];
        let ghost colseq = Seq::new(
            nt as nat,
            |k: int| fold_op(rv[t as int].0, rv[t as int].1, column(rows[k], t as int)),
        );
        let mut acc: u64 = rt.1;
        let mut k: usize = 0;
        while k < partials.len()
            invariant
                rv == reds@,
                rlen == rv.len(),
                0 <= t < rlen,
                rt == rv[t as int],
                nt == pool.threads(),
                partials@.len() == nt,
                forall|kk: int| 0 <= kk < nt ==> #[trigger] partials@[kk]@.len() == rv.len(),
                forall|kk: int, tt: int|
                    0 <= kk < nt && 0 <= tt < rv.len() ==> #[trigger] partials@[kk]@[tt]
                        == fold_op(rv[tt].0, rv[tt].1, column(rows[kk], tt)),
                colseq == Seq::new(
                    nt as nat,
                    |kk: int| fold_op(rv[t as int].0, rv[t as int].1, column(rows[kk], t as int)),
                ),
                0 <= k <= nt,
                acc == fold_op(rt.0, rt.1, colseq.take(k as int)),
            decreases partials@.len() - k,
        {
            let next = op_apply(rt.0, acc, partials[k][t]);
            proof {
                lemma_fold_op_push(rt.0, rt.1, colseq.take(k as int), colseq[k as int]);
                assert(colseq.take(k as int).push(colseq[k as int]) =~= colseq.take(
                    k + 1 as int,
                ));
            }
            acc = next;
            k = k + 1;
        }
        proof {
            assert(colseq.take(nt as int) =~= colseq);
        }
        results.push(acc);
        t = t + 1;
    }
    proof {
        assert(rows.len() == nt);
        assert(forall|k: int|
            0 <= k < rows.len() ==> contrib_rows_ok(
                &body,
                bucket(items_view, bs, nt, k),
                #[trigger] rows[k],
            ));
        assert(results@.len() == rv.len());
        assert(forall|tt: int|
            0 <= tt < rv.len() ==> #[trigger] results@[tt] == fold_op(
                rv[tt].0,
                rv[tt].1,
                Seq::new(nt as nat, |k: int| fold_op(rv[tt].0, rv[tt].1, column(rows[k], tt))),
            ));
        assert(region_reduce_list_ok(&body, items_view, bs, nt, rv, results@));
    }
    results
}

/// Serial equivalence of one target of a multi-reduction region: when the
/// body's contribution to target `t` is the pure function `g` of its item
/// and the target's initial value is its operator's identity, the target's
/// result equals the serial fold of `g` over the items in iteration order.
pub proof fn lemma_region_list_serial_equivalence<F: Fn(i64) -> Vec<u64>>(
    body: &F,
    items: Seq<i64>,
    block_size: int,
    num_threads: int,
    reds: Seq<(ReduceOp, u64)>,
    results: Seq<u64>,
    t: int,
    g: spec_fn(i64) -> u64,
)
    requires
        region_reduce_list_ok(body, items, block_size, num_threads, reds, results),
        0 <= t < reds.len(),
        forall|x: i64, y: Vec<u64>| #[trigger] call_ensures(*body, (x,), y) ==> y@[t] == g(x),
        reds[t].1 == op_identity(reds[t].0),
        block_size >= 1,
        num_threads >= 1,
    ensures
        results[t] == fold_op(reds[t].0, reds[t].1, items.map_values(g)),
{
    let rows = choose|rows: Seq<Seq<Vec<u64>>>|
        {
            &&& rows.len() == num_threads
            &&& (forall|k: int|
                0 <= k < rows.len() ==> contrib_rows_ok(
                    body,
                    bucket(items, block_size, num_threads, k),
                    #[trigger] rows[k],
                ))
            &&& results.len() == reds.len()
            &&& (forall|tt: int|
                0 <= tt < reds.len() ==> #[trigger] results[tt] == fold_op(
                    reds[tt].0,
                    reds[tt].1,
                    Seq::new(
                        num_threads as nat,
                        |k: int| fold_op(reds[tt].0, reds[tt].1, column(rows[k], tt)),
                    ),
                ))
        };
    let c = items.map_values(g);
    assert forall|k: int| 0 <= k < num_threads implies #[trigger] column(rows[k], t) == bucket(
        c,
        block_size,
        num_threads,
        k,
    ) by {
        lemma_bucket_map(items, block_size, num_threads, k, g);
        assert(column(rows[k], t) =~= bucket(items, block_size, num_threads, k).map_values(g));
    }
    assert(Seq::new(
        num_threads as nat,
        |k: int| fold_op(reds[t].0, reds[t].1, column(rows[k], t)),
    ) =~= partials_of(reds[t].0, reds[t].1, buckets(c, block_size, num_threads)));
    lemma_merge_eq_serial(reds[t].0, c, block_size, num_threads);
}

/// Reduction identity for one target of a multi-reduction region: with an
/// empty iteration space, an identity-initialized target keeps its
/// pre-region value.
pub proof fn lemma_region_list_reduction_identity<F: Fn(i64) -> Vec<u64>>(
    body: &F,
    block_size: int,
    num_threads: int,
    reds: Seq<(ReduceOp, u64)>,
    results: Seq<u64>,
    t: int,
)
    requires
        region_reduce_list_ok(
            body,
            Seq::<i64>::empty(),
            block_size,
            num_threads,
            reds,
            results,
        ),
        0 <= t < reds.len(),
        reds[t].1 == op_identity(reds[t].0),
        block_size >= 1,
        num_threads >= 1,
    ensures
        results[t] == reds[t].1,
{
    let rows = choose|rows: Seq<Seq<Vec<u64>>>|
        {
            &&& rows.len() == num_threads
            &&& (forall|k: int|
                0 <= k < rows.len() ==> contrib_rows_ok(
                    body,
                    bucket(Seq::<i64>::empty(), block_size, num_threads, k),
                    #[trigger] rows[k],
                ))
            &&& results.len() == reds.len()
            &&& (forall|tt: int|
                0 <= tt < reds.len() ==> #[trigger] results[tt] == fold_op(
                    reds[tt].0,
                    reds[tt].1,
                    Seq::new(
                        num_threads as nat,
                        |k: int| fold_op(reds[tt].0, reds[tt].1, column(rows[k], tt)),
                    ),
                ))
        };
    assert forall|k: int| 0 <= k < num_threads implies #[trigger] column(rows[k], t) == bucket(
        Seq::<u64>::empty(),
        block_size,
        num_threads,
        k,
    ) by {
        assert(column(rows[k], t) =~= Seq::<u64>::empty());
        assert(bucket(Seq::<u64>::empty(), block_size, num_threads, k) =~= Seq::<u64>::empty());
    }
    assert(Seq::new(
        num_threads as nat,
        |k: int| fold_op(reds[t].0, reds[t].1, column(rows[k], t)),
    ) =~= partials_of(
        reds[t].0,
        reds[t].1,
        buckets(Seq::<u64>::empty(), block_size, num_threads),
    ));
    lemma_merge_eq_serial(reds[t].0, Seq::<u64>::empty(), block_size, num_threads);
}

} // verus!
