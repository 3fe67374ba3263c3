//! The worker pool and the iteration splitter. A pool holds a fixed number
//! of named worker threads; one dispatch hands every worker one job and
//! returns only when all workers have finished. Iteration spaces are split
//! across workers block-cyclically: runs of `block_size` consecutive items
//! go to workers in round-robin order.

#![allow(unused_imports)]

use vstd::arithmetic::div_mod::{
    lemma_fundamental_div_mod, lemma_fundamental_div_mod_converse,
    lemma_mod_division_less_than_divisor, lemma_mod_self_0, lemma_small_mod,
};
use vstd::prelude::*;
use vstd::seq_lib::group_to_multiset_ensures;
use vstd::seq_lib::lemma_multiset_commutative;

verus! {

/// The largest worker count a pool honors exactly. The trusted runtime
/// soft-caps pool sizes (at 255 on its smallest supported targets), so a
/// larger request would silently give a pool with fewer workers than asked
/// for; bounding the request keeps one worker per slot a fact.
pub const MAX_POOL_THREADS: usize = 255;

/// The name prefix of the pool's worker threads. A process-wide fault hook
/// recognizes a pool worker by this prefix, so the name given at spawn and
/// the name the hook tests must be this one constant.
pub const WORKER_NAME_PREFIX: &'static str = "RMP_PAR_THREAD_#";

/// The worker that owns iteration index `j` under a block-cyclic split with
/// runs of `block_size` over `num_threads` workers.
pub open spec fn owner_of(j: int, block_size: int, num_threads: int) -> int {
    (j / block_size) % num_threads
}

/// The iteration items that worker `k` receives: the elements of `s` whose
/// index it owns, in order.
pub open spec fn bucket<T>(s: Seq<T>, block_size: int, num_threads: int, k: int) -> Seq<T>
    decreases s.len(),
{
    if s.len() == 0 {
        Seq::empty()
    } else {
        let prefix = bucket(s.drop_last(), block_size, num_threads, k);
        if owner_of(s.len() - 1, block_size, num_threads) == k {
            prefix.push(s.last())
        } else {
            prefix
        }
    }
}

/// All per-worker iteration sequences of a block-cyclic split, in worker
/// order.
pub open spec fn buckets<T>(s: Seq<T>, block_size: int, num_threads: int) -> Seq<Seq<T>> {
    Seq::new(num_threads as nat, |k: int| bucket(s, block_size, num_threads, k))
}

/// Conservation of the split: the concatenation of the per-worker sequences
/// holds exactly the elements of `s` — a permutation of the input — with the
/// total length equal to the input's length.
pub proof fn lemma_split_conservation<T>(s: Seq<T>, block_size: int, num_threads: int)
    requires
        block_size >= 1,
        num_threads >= 1,
    ensures
        buckets(s, block_size, num_threads).flatten().to_multiset() == s.to_multiset(),
        buckets(s, block_size, num_threads).flatten().len() == s.len(),
    decreases s.len(),
{
    broadcast use group_to_multiset_ensures;

    let bs = buckets(s, block_size, num_threads);
    if s.len() == 0 {
        assert forall|k: int| 0 <= k < num_threads implies bs[k] =~= Seq::<T>::empty() by {}
        lemma_flatten_all_empty::<T>(bs);
        assert(bs.flatten().to_multiset() =~= s.to_multiset());
    } else {
        let s0 = s.drop_last();
        let x = s.last();
        let w = owner_of(s.len() - 1, block_size, num_threads);
        lemma_mod_division_less_than_divisor((s.len() - 1) / block_size, num_threads);
        vstd::arithmetic::div_mod::lemma_div_pos_is_pos(s.len() - 1, block_size);
        let bs0 = buckets(s0, block_size, num_threads);
        assert(bs[w] =~= bs0[w].push(x));
        assert(forall|k: int|
            0 <= k < num_threads && k != w ==> bs[k] =~= bs0[k]);
        lemma_split_conservation(s0, block_size, num_threads);
        lemma_flatten_push_one(bs0, bs, w, x);
        assert(s0.push(x) =~= s);
        assert(s.to_multiset() =~= s0.to_multiset().insert(x));
    }
}

/// Flattening a sequence of empty sequences yields the empty sequence.
proof fn lemma_flatten_all_empty<T>(ss: Seq<Seq<T>>)
    requires
        forall|k: int| 0 <= k < ss.len() ==> #[trigger] ss[k] == Seq::<T>::empty(),
    ensures
        ss.flatten() == Seq::<T>::empty(),
    decreases ss.len(),
{
    if ss.len() > 0 {
        lemma_flatten_all_empty(ss.drop_first());
        assert(ss.flatten() =~= ss.first() + ss.drop_first().flatten());
        assert(ss.flatten() =~= Seq::<T>::empty());
    }
}

/// Pushing one element onto one inner sequence inserts that element into the
/// flattened multiset and grows the flattened length by one.
proof fn lemma_flatten_push_one<T>(ss1: Seq<Seq<T>>, ss2: Seq<Seq<T>>, w: int, x: T)
    requires
        ss1.len() == ss2.len(),
        0 <= w < ss1.len(),
        ss2[w] == ss1[w].push(x),
        forall|k: int| 0 <= k < ss1.len() && k != w ==> ss2[k] == ss1[k],
    ensures
        ss2.flatten().to_multiset() == ss1.flatten().to_multiset().insert(x),
        ss2.flatten().len() == ss1.flatten().len() + 1,
    decreases ss1.len(),
{
    broadcast use group_to_multiset_ensures;

    let f1 = ss1.flatten();
    let f2 = ss2.flatten();
    assert(f1 =~= ss1.first() + ss1.drop_first().flatten());
    assert(f2 =~= ss2.first() + ss2.drop_first().flatten());
    lemma_multiset_commutative(ss1.first(), ss1.drop_first().flatten());
    lemma_multiset_commutative(ss2.first(), ss2.drop_first().flatten());
    if w == 0 {
        assert(ss2.drop_first() =~= ss1.drop_first());
        assert(ss2.first() == ss1.first().push(x));
        assert(ss1.first().push(x).to_multiset() =~= ss1.first().to_multiset().insert(x));
        assert(f2.to_multiset() =~= f1.to_multiset().insert(x));
        assert(ss1.first().push(x).len() == ss1.first().len() + 1);
    } else {
        assert(ss2.first() == ss1.first());
        lemma_flatten_push_one(ss1.drop_first(), ss2.drop_first(), w - 1, x);
        assert(f2.to_multiset() =~= f1.to_multiset().insert(x));
    }
}


/// The iteration positions `0, 1, .., len - 1` in input order: the split of
/// this sequence tells which input position each element of a worker's
/// share came from.
pub open spec fn index_seq(len: int) -> Seq<int> {
    Seq::new(len as nat, |j: int| j)
}

/// Each element of a block-cyclic share is an input position the worker
/// owns, within the input: the first half of the consecutive-runs shape of
/// a share.
pub proof fn lemma_bucket_position_owned(len: int, block_size: int, num_threads: int, k: int, i: int)
    requires
        block_size >= 1,
        num_threads >= 1,
        0 <= len,
        0 <= i < bucket(index_seq(len), block_size, num_threads, k).len(),
    ensures
        ({
            let b = bucket(index_seq(len), block_size, num_threads, k);
            owner_of(b[i], block_size, num_threads) == k && 0 <= b[i] < len
        }),
    decreases len,
{
    let s = index_seq(len);
    let b = bucket(s, block_size, num_threads, k);
    let s0 = index_seq(len - 1);
    let b0 = bucket(s0, block_size, num_threads, k);
    assert(s.drop_last() =~= s0);
    if owner_of(len - 1, block_size, num_threads) == k {
        assert(b =~= b0.push(len - 1));
        if i < b0.len() {
            lemma_bucket_position_owned(len - 1, block_size, num_threads, k, i);
        } else {
            assert(b[i] == len - 1);
        }
    } else {
        assert(b =~= b0);
        lemma_bucket_position_owned(len - 1, block_size, num_threads, k, i);
    }
}

/// The input positions past a worker's last share element all belong to
/// other workers: the share is the complete owned prefix of the input.
proof fn lemma_bucket_tail_foreign(len: int, block_size: int, num_threads: int, k: int)
    requires
        block_size >= 1,
        num_threads >= 1,
        0 <= len,
    ensures
        ({
            let b = bucket(index_seq(len), block_size, num_threads, k);
            b.len() > 0 ==> forall|j: int|
                b.last() < j < len ==> #[trigger] owner_of(j, block_size, num_threads) != k
        }),
    decreases len,
{
    let bs = block_size;
    let nt = num_threads;
    let s = index_seq(len);
    let b = bucket(s, bs, nt, k);
    if len > 0 {
        let s0 = index_seq(len - 1);
        let b0 = bucket(s0, bs, nt, k);
        assert(s.drop_last() =~= s0);
        lemma_bucket_tail_foreign(len - 1, bs, nt, k);
        if owner_of(len - 1, bs, nt) == k {
            assert(b =~= b0.push(len - 1));
            assert(b.last() == len - 1);
        } else {
            assert(b =~= b0);
            if b.len() > 0 {
                assert forall|j: int| b.last() < j < len implies #[trigger] owner_of(
                    j,
                    bs,
                    nt,
                ) != k by {
                    if j < len - 1 {
                        assert(owner_of(j, bs, nt) != k);
                    }
                }
            }
        }
    }
}

/// The consecutive-runs shape of a block-cyclic share: between two adjacent
/// share elements, while the current run of `block_size` input positions is
/// not exhausted the next element is the very next input position, and when
/// it is, the share jumps ahead to the start of this worker's next block,
/// `(num_threads - 1) * block_size + 1` positions later.
pub proof fn lemma_bucket_run_step(len: int, block_size: int, num_threads: int, k: int, i: int)
    requires
        block_size >= 1,
        num_threads >= 1,
        0 <= k < num_threads,
        0 <= len,
        0 <= i,
        i + 1 < bucket(index_seq(len), block_size, num_threads, k).len(),
    ensures
        ({
            let b = bucket(index_seq(len), block_size, num_threads, k);
            &&& b[i] % block_size < block_size - 1 ==> b[i + 1] == b[i] + 1
            &&& b[i] % block_size == block_size - 1 ==> b[i + 1] == b[i] + (num_threads - 1)
                * block_size + 1
        }),
    decreases len,
{
    let bs = block_size;
    let nt = num_threads;
    let s = index_seq(len);
    let b = bucket(s, bs, nt, k);
    let s0 = index_seq(len - 1);
    let b0 = bucket(s0, bs, nt, k);
    assert(s.drop_last() =~= s0);
    if owner_of(len - 1, bs, nt) == k {
        assert(b =~= b0.push(len - 1));
        if i + 1 < b0.len() {
            lemma_bucket_run_step(len - 1, bs, nt, k, i);
        } else {
            // the pair is the old last element and the newly appended one
            let x = b0.last();
            assert(b[i] == x && b[i + 1] == len - 1);
            lemma_bucket_position_owned(len - 1, bs, nt, k, i);
            lemma_bucket_tail_foreign(len - 1, bs, nt, k);
            lemma_next_owned_position(x, len - 1, bs, nt, k);
        }
    } else {
        assert(b =~= b0);
        lemma_bucket_run_step(len - 1, bs, nt, k, i);
    }
}

/// The next position a worker owns after one of its positions `x`, given
/// that positions between `x` and the owned position `y` are all foreign:
/// within an unfinished run it is `x + 1`, after a finished run it is the
/// start of the worker's next block.
proof fn lemma_next_owned_position(x: int, y: int, block_size: int, num_threads: int, k: int)
    requires
        block_size >= 1,
        num_threads >= 1,
        0 <= k < num_threads,
        0 <= x < y,
        owner_of(x, block_size, num_threads) == k,
        owner_of(y, block_size, num_threads) == k,
        forall|j: int| x < j < y ==> #[trigger] owner_of(j, block_size, num_threads) != k,
    ensures
        x % block_size < block_size - 1 ==> y == x + 1,
        x % block_size == block_size - 1 ==> y == x + (num_threads - 1) * block_size + 1,
{
    let bs = block_size;
    let nt = num_threads;
    lemma_fundamental_div_mod(x, bs);
    lemma_mod_division_less_than_divisor(x, bs);
    vstd::arithmetic::div_mod::lemma_div_pos_is_pos(x, bs);
    let q = x / bs;
    let r = x % bs;
    if r < bs - 1 {
        // the next position continues the same block, so this worker owns it
        lemma_fundamental_div_mod_converse(x + 1, bs, q, r + 1);
        assert(owner_of(x + 1, bs, nt) == k);
        if x + 1 < y {
            assert(owner_of(x + 1, bs, nt) != k);
        }
    } else {
        let jump = x + (nt - 1) * bs + 1;
        // a full run ends the block; the worker's next block starts a whole
        // round of other workers' blocks later
        assert(jump == (q + nt) * bs) by (nonlinear_arith)
            requires
                x == bs * q + r && r == bs - 1 && jump == x + (nt - 1) * bs + 1,
        ;
        lemma_fundamental_div_mod_converse(jump, bs, q + nt, 0);
        vstd::arithmetic::div_mod::lemma_mod_add_multiples_vanish(q, nt);
        assert(owner_of(jump, bs, nt) == k);
        assert forall|j: int| x < j < jump implies #[trigger] owner_of(j, bs, nt) != k by {
            assert(x + 1 == (q + 1) * bs) by (nonlinear_arith)
                requires
                    x == bs * q + r && r == bs - 1,
            ;
            lemma_fundamental_div_mod_converse((q + 1) * bs, bs, q + 1, 0);
            vstd::arithmetic::div_mod::lemma_div_is_ordered((q + 1) * bs, j, bs);
            assert(j < bs * (q + nt)) by (nonlinear_arith)
                requires
                    j < jump && jump == (q + nt) * bs,
            ;
            vstd::arithmetic::div_mod::lemma_multiply_divide_lt(j, bs, q + nt);
            let d = j / bs - q;
            assert(1 <= d < nt);
            lemma_owner_block_differs(q, d, nt);
        }
        if y < jump {
            assert(owner_of(y, bs, nt) != k);
        }
        if y > jump {
            assert(owner_of(jump, bs, nt) != k);
        }
    }
}

/// Two block indices less than a whole round apart have different owners.
proof fn lemma_owner_block_differs(q: int, d: int, num_threads: int)
    requires
        num_threads >= 1,
        0 < d < num_threads,
        0 <= q,
    ensures
        (q + d) % num_threads != q % num_threads,
{
    let nt = num_threads;
    lemma_fundamental_div_mod(q, nt);
    lemma_mod_division_less_than_divisor(q, nt);
    let a = q % nt;
    let qq = q / nt;
    if a + d < nt {
        assert(q + d == qq * nt + (a + d)) by (nonlinear_arith)
            requires
                q == nt * qq + a,
        ;
        lemma_fundamental_div_mod_converse(q + d, nt, qq, a + d);
    } else {
        assert(q + d == (qq + 1) * nt + (a + d - nt)) by (nonlinear_arith)
            requires
                q == nt * qq + a,
        ;
        lemma_fundamental_div_mod_converse(q + d, nt, qq + 1, a + d - nt);
    }
}


/// A worker's share of mapped items is the map of its share of the items:
/// block-cyclic splitting looks only at positions, never at values.
pub proof fn lemma_bucket_map<A, B>(
    s: Seq<A>,
    block_size: int,
    num_threads: int,
    k: int,
    g: spec_fn(A) -> B,
)
    ensures
        bucket(s.map_values(g), block_size, num_threads, k) == bucket(
            s,
            block_size,
            num_threads,
            k,
        ).map_values(g),
    decreases s.len(),
{
    let m = s.map_values(g);
    if s.len() == 0 {
        assert(m =~= Seq::<B>::empty());
        assert(bucket(s, block_size, num_threads, k).map_values(g) =~= Seq::<B>::empty());
    } else {
        lemma_bucket_map(s.drop_last(), block_size, num_threads, k, g);
        assert(m.drop_last() =~= s.drop_last().map_values(g));
        assert(m.len() == s.len() && m.last() == g(s.last()));
        assert(bucket(m, block_size, num_threads, k) =~= bucket(
            s,
            block_size,
            num_threads,
            k,
        ).map_values(g));
    }
}

/// Which input element each share element is: worker `k`'s share of `s` has
/// the same length as its share of the input positions, and element `i` of
/// the share is the input element at the position the index split puts
/// there — so the runs-shape facts about positions carry over to any input.
pub proof fn lemma_bucket_from_positions<T>(
    s: Seq<T>,
    block_size: int,
    num_threads: int,
    k: int,
    i: int,
)
    requires
        block_size >= 1,
        num_threads >= 1,
        0 <= i < bucket(index_seq(s.len() as int), block_size, num_threads, k).len(),
    ensures
        ({
            let positions = bucket(index_seq(s.len() as int), block_size, num_threads, k);
            &&& bucket(s, block_size, num_threads, k).len() == positions.len()
            &&& 0 <= positions[i] < s.len()
            &&& bucket(s, block_size, num_threads, k)[i] == s[positions[i]]
        }),
{
    let len = s.len() as int;
    let positions = bucket(index_seq(len), block_size, num_threads, k);
    let g = |j: int| s[j];
    assert(index_seq(len).map_values(g) =~= s);
    lemma_bucket_map(index_seq(len), block_size, num_threads, k, g);
    lemma_bucket_position_owned(len, block_size, num_threads, k, i);
    assert(bucket(s, block_size, num_threads, k) == positions.map_values(g));
    assert(positions.map_values(g)[i] == g(positions[i]));
}

/// A process-wide pool of named worker threads, one pinned per hardware
/// thread slot. All dispatch goes through [`ThreadPoolManager::broadcast`]:
/// one job per worker, run to completion before the dispatcher returns.
pub struct ThreadPoolManager {
    num_threads: usize,
    pool: rayon::ThreadPool,
}

#[verifier::external_type_specification]
#[verifier::external_body]
pub struct ExThreadPool(rayon::ThreadPool);

impl ThreadPoolManager {
    /// The number of workers in the pool.
    pub closed spec fn threads(&self) -> int {
        self.num_threads as int
    }

    #[verifier::type_invariant]
    spec fn pool_wf(&self) -> bool {
        1 <= self.num_threads <= MAX_POOL_THREADS
    }

    /// The number of workers in the pool: at least one, and within the
    /// count the runtime honors exactly.
    pub fn num_threads(&self) -> (n: usize)
        ensures
            n == self.threads(),
            1 <= n <= MAX_POOL_THREADS,
    {
        proof {
            use_type_invariant(self);
        }
        self.num_threads
    }

    /// Starts a pool of `num_threads` workers.
    pub fn new(num_threads: usize) -> (tpm: ThreadPoolManager)
        requires
            1 <= num_threads <= MAX_POOL_THREADS,
        ensures
            tpm.threads() == num_threads,
    {
        ThreadPoolManager { num_threads, pool: build_pool(num_threads, |_tid: usize| {}) }
    }

    /// Starts a pool of `num_threads` workers; `on_start` runs once on each
    /// worker thread as it starts, before the worker takes any job — the
    /// hook from which the caller pins worker `tid` to its hardware thread.
    pub fn new_with_start<H: Fn(usize) + Send + Sync + 'static>(num_threads: usize, on_start: H) -> (tpm:
        ThreadPoolManager)
        requires
            1 <= num_threads <= MAX_POOL_THREADS,
            forall|k: usize| #[trigger] call_requires(on_start, (k,)),
        ensures
            tpm.threads() == num_threads,
    {
        ThreadPoolManager { num_threads, pool: build_pool(num_threads, on_start) }
    }

    /// Runs `f` once on every worker in lockstep — worker `k` computes
    /// `f(k)` — and returns the results in worker order, one per worker,
    /// only after every worker has finished.
    ///
    /// Relies on `rayon::ThreadPool::broadcast`: it hands one job per worker
    /// to the pool's workers (job `k` to worker `k`, which calls the closure
    /// with its own index), waits for all of them, and collects the results
    /// in worker-index order. The inner pool holds exactly `num_threads`
    /// workers: the sole constructors built it with that count, which stays
    /// within the bound the runtime honors exactly. A panic in a job is
    /// propagated to the dispatching thread after all workers finish, so a
    /// faulted region cannot be observed as a partial success.
    #[verifier::external_body]
    pub fn broadcast<R: Send, F: Fn(usize) -> R + Sync>(&self, f: F) -> (results: Vec<R>)
        requires
            forall|k: usize| k < self.threads() ==> #[trigger] call_requires(f, (k,)),
        ensures
            results@.len() == self.threads(),
            forall|k: int|
                0 <= k < results@.len() ==> call_ensures(f, (k as usize,), #[trigger] results@[k]),
    {
        self.pool.broadcast(|ctx: rayon::BroadcastContext<'_>| f(ctx.index()))
    }

    /// Dispatches exactly one job per worker and waits for all of them: job
    /// `k` runs on worker `k`, and when the dispatch returns every job has
    /// been invoked once, so all of the jobs' effects are visible to the
    /// caller. A caller must supply exactly `num_threads` jobs: any other
    /// count would leave a worker without a job or a job without a worker,
    /// so a dispatch with the wrong count must never start.
    pub fn exec<F: Fn(usize) + Sync>(&self, tasks: Vec<F>)
        requires
            tasks@.len() == self.threads(),
            forall|k: usize| k < tasks@.len() ==> #[trigger] call_requires(tasks@[k as int], (k,)),
        ensures
            forall|k: usize|
                k < tasks@.len() ==> #[trigger] call_ensures(tasks@[k as int], (k,), ()),
    {
        let run_one = |k: usize| -> (done: u64)
            requires
                k < tasks@.len(),
                call_requires(tasks@[k as int], (k,)),
            ensures
                call_ensures(tasks@[k as int], (k,), ()),
            {
                (tasks[k])(k);
                0u64
            };
        proof {
            assert forall|k: usize| k < self.threads() implies #[trigger] call_requires(
                run_one,
                (k,),
            ) by {
                assert(call_requires(tasks@[k as int], (k,)));
            }
        }
        let results = self.broadcast(run_one);
        proof {
            assert forall|k: usize| k < tasks@.len() implies #[trigger] call_ensures(
                tasks@[k as int],
                (k,),
                (),
            ) by {
                assert(call_ensures(run_one, (k,), results@[k as int]));
            }
        }
    }

    /// Splits the items of an iteration space into `num_threads` sequences
    /// by round-robin block-cyclic assignment: `block_size` consecutive
    /// items go to one worker, the next `block_size` to the next worker,
    /// wrapping around; whatever remains when the input ends stays with the
    /// worker the counter points at.
    pub fn split_iterators<T: Copy>(&self, iter: Vec<T>, block_size: usize) -> (split: Vec<Vec<T>>)
        requires
            block_size >= 1,
        ensures
            split@.len() == self.threads(),
            forall|k: int|
                0 <= k < split@.len() ==> #[trigger] split@[k]@ == bucket(
                    iter@,
                    block_size as int,
                    self.threads(),
                    k,
                ),
    {
        proof {
            use_type_invariant(self);
        }
        let num_threads = self.num_threads;
        let ghost bs = block_size as int;
        let ghost nt = self.threads();
        let mut split: Vec<Vec<T>> = Vec::new();
        let mut k: usize = 0;
        while k < num_threads
            invariant
                0 <= k <= num_threads,
                split@.len() == k,
                forall|i: int| 0 <= i < k ==> #[trigger] split@[i]@ == Seq::<T>::empty(),
            decreases num_threads - k,
        {
            split.push(Vec::new());
            k = k + 1;
        }

        proof {
            lemma_fundamental_div_mod_converse(0, bs, 0, 0);
            lemma_fundamental_div_mod_converse(0, nt, 0, 0);
        }
        let mut index: usize = 0;
        let mut block: usize = 0;
        let mut j: usize = 0;
        while j < iter.len()
            invariant
                num_threads == nt,
                nt >= 1,
                bs == block_size as int,
                bs >= 1,
                0 <= j <= iter@.len(),
                0 <= index < num_threads,
                0 <= block < block_size,
                index as int == owner_of(j as int, bs, nt),
                block as int == j as int % bs,
                split@.len() == nt,
                forall|i: int|
                    0 <= i < nt ==> #[trigger] split@[i]@ == bucket(iter@.take(j as int), bs, nt, i),
            decreases iter@.len() - j,
        {
            let element = iter[j];
            proof {
                assert(iter@.take(j as int + 1).drop_last() =~= iter@.take(j as int));
                assert(iter@.take(j as int + 1).last() == iter@[j as int]);
            }
            split[index].push(element);
            proof {
                assert forall|i: int| 0 <= i < nt implies #[trigger] split@[i]@ == bucket(
                    iter@.take(j as int + 1),
                    bs,
                    nt,
                    i,
                ) by {
                    if i != index as int {
                        assert(split@[i]@ == bucket(iter@.take(j as int), bs, nt, i));
                    }
                }
            }
            block = block + 1;
            proof {
                lemma_fundamental_div_mod(j as int, bs);
                let q = j as int / bs;
                let r = j as int % bs;
                if block == block_size {
                    lemma_mod_self_0(bs);
                    assert(j as int == bs * q + r);
                    assert(r + 1 == bs);
                    assert(j as int + 1 == (q + 1) * bs + 0) by (nonlinear_arith)
                        requires
                            j as int == bs * q + r,
                            r + 1 == bs,
                    ;
                    lemma_fundamental_div_mod_converse(j as int + 1, bs, q + 1, 0);
                    lemma_fundamental_div_mod(q, nt);
                    lemma_mod_division_less_than_divisor(q, nt);
                    let qq = q / nt;
                    let rr = q % nt;
                    if rr + 1 == nt {
                        lemma_mod_self_0(nt);
                        assert(q + 1 == (qq + 1) * nt + 0) by (nonlinear_arith)
                            requires
                                q == nt * qq + rr,
                                rr + 1 == nt,
                        ;
                        lemma_fundamental_div_mod_converse(q + 1, nt, qq + 1, 0);
                    } else {
                        assert(q + 1 == qq * nt + (rr + 1)) by (nonlinear_arith)
                            requires
                                q == nt * qq + rr,
                        ;
                        lemma_fundamental_div_mod_converse(q + 1, nt, qq, rr + 1);
                        lemma_small_mod((rr + 1) as nat, nt as nat);
                    }
                    lemma_mod_division_less_than_divisor(q + 1, nt);
                } else {
                    lemma_small_mod(block as nat, block_size as nat);
                    lemma_fundamental_div_mod_converse(j as int + 1, bs, q, r + 1);
                }
            }
            if block % block_size == 0 {
                block = 0;
                index = (index + 1) % num_threads;
            }
            j = j + 1;
        }
        proof {
            assert(iter@.take(iter@.len() as int) =~= iter@);
        }
        split
    }
}

/// Relies on `rayon::ThreadPoolBuilder`: a pool of exactly `n` worker
/// threads — `n` stays within the count the builder honors exactly — each
/// named for the fault hook to recognize, with an 8 MiB stack, running
/// `on_start` with its worker index as it starts. Failing to spawn the
/// workers is fatal at startup.
#[verifier::external_body]
fn build_pool<H: Fn(usize) + Send + Sync + 'static>(n: usize, on_start: H) -> (p: rayon::ThreadPool)
    requires
        1 <= n <= MAX_POOL_THREADS,
        forall|k: usize| #[trigger] call_requires(on_start, (k,)),
{
    rayon::ThreadPoolBuilder::new()
        .num_threads(n)
        .thread_name(|tid| format!("{}{}", WORKER_NAME_PREFIX, tid))
        .stack_size(8 << 20)
        .start_handler(move |tid| on_start(tid))
        .build()
        .expect("RustMP could not start its worker pool")
}

} // verus!
