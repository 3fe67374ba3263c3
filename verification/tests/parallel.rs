use rustmp::parfor::{par_for_each, par_reduce, par_reduce_list};
use rustmp::reduction::ReduceOp;
use rustmp::threadpool::ThreadPoolManager;
use rustmp::Capture;

#[test]
fn parallel_counter_reduction() {
    let pool = ThreadPoolManager::new(4);
    let items: Vec<i64> = (0..10).collect();
    let x = par_reduce(&pool, items, 1, ReduceOp::Add, 0, |_i| 2u64);
    assert_eq!(x, 20);
}

#[test]
fn factorial_by_commutative_product() {
    let pool = ThreadPoolManager::new(4);
    let items: Vec<i64> = (2..=10).collect();
    let res = par_reduce(&pool, items, 1, ReduceOp::Mul, 1, |i| i as u64);
    assert_eq!(res, 3628800);
}

#[test]
fn shared_mutable_collection_under_write_lock() {
    let pool = ThreadPoolManager::new(4);
    let numbers: Capture<Vec<i64>> = Capture::new(Vec::new());
    let items: Vec<i64> = (1..32).collect();
    let handle = numbers.clone();
    par_for_each(&pool, items, 4, move |i| {
        let (mut v, guard) = handle.write();
        v.push(i);
        guard.release_write(v);
    });
    let mut collected = numbers.unwrap().expect("a handle leaked past the region");
    assert_eq!(collected.len(), 31);
    collected.sort();
    let expected: Vec<i64> = (1..32).collect();
    assert_eq!(collected, expected);
}

#[test]
fn immutable_shared_matrix_read() {
    let pool = ThreadPoolManager::new(3);
    let a = vec![vec![1i64, 2, 3], vec![4, 5, 6], vec![7, 8, 9]];
    let b = vec![vec![3i64, 2, 1], vec![6, 5, 4], vec![9, 8, 7]];
    let n = a.len();
    let mut c = vec![vec![0u64; n]; n];
    for i in 0..n {
        for j in 0..n {
            let a_ref = &a;
            let b_ref = &b;
            let items: Vec<i64> = (0..n as i64).collect();
            let x = par_reduce(&pool, items, 1, ReduceOp::Add, 0, move |k| {
                (a_ref[i][k as usize] * b_ref[k as usize][j]) as u64
            });
            c[i][j] = x;
        }
    }
    // the usual product of these two fixed matrices
    assert_eq!(c[0][0], 42);
    assert_eq!(c[0][1], 36);
    assert_eq!(c[0][2], 30);
    assert_eq!(c[1][1], 81);
    assert_eq!(c[2][2], 102);
    // the shared matrices are observed unchanged after the regions
    assert_eq!(a, vec![vec![1i64, 2, 3], vec![4, 5, 6], vec![7, 8, 9]]);
    assert_eq!(b, vec![vec![3i64, 2, 1], vec![6, 5, 4], vec![9, 8, 7]]);
}

#[test]
fn private_values_keep_their_pre_region_value() {
    let pool = ThreadPoolManager::new(2);
    let local: Vec<i64> = vec![5];
    let local_ref = &local;
    let items: Vec<i64> = (0..8).collect();
    par_for_each(&pool, items, 1, move |i| {
        // each call clones the private template and mutates only the clone
        let mut mine = local_ref.clone();
        mine.push(i);
        assert_eq!(mine[0], 5);
    });
    assert_eq!(local, vec![5]);
}

#[test]
fn empty_iteration_keeps_reduction_at_initial_value() {
    let pool = ThreadPoolManager::new(4);
    assert_eq!(
        par_reduce(&pool, Vec::new(), 1, ReduceOp::Add, 0, |_i| 7u64),
        0
    );
    assert_eq!(
        par_reduce(&pool, Vec::new(), 3, ReduceOp::Mul, 1, |_i| 7u64),
        1
    );
}

#[test]
fn reduction_matches_serial_fold() {
    let pool = ThreadPoolManager::new(5);
    let items: Vec<i64> = (0..37).map(|x| (x * 13) % 11).collect();
    let serial: u64 = items.iter().map(|&i| (i * i + 1) as u64).sum();
    let parallel = par_reduce(&pool, items, 4, ReduceOp::Add, 0, |i| (i * i + 1) as u64);
    assert_eq!(parallel, serial);
}

#[test]
fn two_reductions_in_one_region() {
    let pool = ThreadPoolManager::new(4);
    let items: Vec<i64> = (2..=10).collect();
    // a counter and a product folded in the same dispatch, in declared order
    let reds = vec![(ReduceOp::Add, 0u64), (ReduceOp::Mul, 1u64)];
    let results = par_reduce_list(&pool, items, 1, &reds, |i| vec![2u64, i as u64]);
    assert_eq!(results, vec![18, 3628800]);
}

#[test]
fn empty_iteration_keeps_every_reduction_at_its_initial_value() {
    let pool = ThreadPoolManager::new(3);
    let reds = vec![
        (ReduceOp::Add, 0u64),
        (ReduceOp::Mul, 1u64),
        (ReduceOp::BitOr, 0u64),
    ];
    let results = par_reduce_list(&pool, Vec::new(), 2, &reds, |_i| vec![7u64, 7, 7]);
    assert_eq!(results, vec![0, 1, 0]);
}

#[test]
fn bitwise_reduction_collects_flags() {
    let pool = ThreadPoolManager::new(2);
    let items: Vec<i64> = (0..5).collect();
    let reds = vec![(ReduceOp::BitOr, 0u64)];
    let results = par_reduce_list(&pool, items, 1, &reds, |i| vec![1u64 << (i as u64)]);
    assert_eq!(results, vec![0b11111]);
}

#[test]
fn single_worker_pool_still_runs_regions() {
    let pool = ThreadPoolManager::new(1);
    let items: Vec<i64> = (0..10).collect();
    let x = par_reduce(&pool, items, 1, ReduceOp::Add, 0, |i| i as u64);
    assert_eq!(x, 45);
}
