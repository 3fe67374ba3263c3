use rustmp::min;
use rustmp::threadpool::ThreadPoolManager;
use rustmp::Capture;

#[test]
fn pool_reports_its_worker_count() {
    let pool = ThreadPoolManager::new(3);
    assert_eq!(pool.num_threads(), 3);
}

#[test]
fn broadcast_returns_results_in_worker_order() {
    let pool = ThreadPoolManager::new(4);
    let results = pool.broadcast(|k| k as u64 * 10);
    assert_eq!(results, vec![0, 10, 20, 30]);
}

#[test]
fn broadcast_returns_only_after_all_workers_finish() {
    let pool = ThreadPoolManager::new(4);
    let cell = Capture::new(0u64);
    let handle = cell.clone();
    let results = pool.broadcast(move |_k| {
        let (v, guard) = handle.write();
        guard.release_write(v + 1);
        0u64
    });
    assert_eq!(results.len(), 4);
    // every worker's effect is visible once the dispatch has returned
    assert_eq!(cell.unwrap(), Some(4));
}

#[test]
fn exec_runs_one_job_per_worker() {
    let pool = ThreadPoolManager::new(3);
    let seen: Capture<Vec<usize>> = Capture::new(Vec::new());
    let mut jobs = Vec::new();
    for _ in 0..pool.num_threads() {
        let handle = seen.clone();
        jobs.push(move |k: usize| {
            let (mut v, guard) = handle.write();
            v.push(k);
            guard.release_write(v);
        });
    }
    pool.exec(jobs);
    let mut indices = seen.unwrap().expect("a handle leaked past the dispatch");
    indices.sort();
    assert_eq!(indices, vec![0, 1, 2]);
}

#[test]
fn pool_is_reusable_after_a_dispatch() {
    let pool = ThreadPoolManager::new(4);
    let first = pool.broadcast(|k| k as u64);
    let second = pool.broadcast(|k| k as u64 + 100);
    assert_eq!(first, vec![0, 1, 2, 3]);
    assert_eq!(second, vec![100, 101, 102, 103]);
}

#[test]
fn min_picks_the_smaller_value() {
    assert_eq!(min(3, &5), 3);
    assert_eq!(min(5, &3), 3);
    assert_eq!(min(-2, &-2), -2);
}
