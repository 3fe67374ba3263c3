use rustmp::threadpool::ThreadPoolManager;

#[test]
fn block_cyclic_distribution_over_four_workers() {
    let pool = ThreadPoolManager::new(4);
    let items: Vec<i64> = (0..20).collect();
    let split = pool.split_iterators(items, 3);
    assert_eq!(split.len(), 4);
    assert_eq!(split[0], vec![0, 1, 2, 12, 13, 14]);
    assert_eq!(split[1], vec![3, 4, 5, 15, 16, 17]);
    assert_eq!(split[2], vec![6, 7, 8, 18, 19]);
    assert_eq!(split[3], vec![9, 10, 11]);
}

#[test]
fn empty_input_gives_empty_sequences() {
    let pool = ThreadPoolManager::new(4);
    let items: Vec<i64> = Vec::new();
    let split = pool.split_iterators(items, 1);
    assert_eq!(split.len(), 4);
    for part in split {
        assert!(part.is_empty());
    }
}

#[test]
fn block_larger_than_input_goes_to_one_worker() {
    let pool = ThreadPoolManager::new(3);
    let items: Vec<i64> = (0..5).collect();
    let split = pool.split_iterators(items, 100);
    assert_eq!(split.len(), 3);
    assert_eq!(split[0], vec![0, 1, 2, 3, 4]);
    assert!(split[1].is_empty());
    assert!(split[2].is_empty());
}

#[test]
fn single_worker_keeps_everything_in_order() {
    let pool = ThreadPoolManager::new(1);
    let items: Vec<i64> = (0..7).collect();
    let split = pool.split_iterators(items, 2);
    assert_eq!(split.len(), 1);
    assert_eq!(split[0], vec![0, 1, 2, 3, 4, 5, 6]);
}

#[test]
fn split_works_for_any_copyable_item() {
    let pool = ThreadPoolManager::new(2);
    let items: Vec<(i64, i64)> = vec![(1, 2), (3, 4), (5, 6)];
    let split = pool.split_iterators(items, 1);
    assert_eq!(split[0], vec![(1, 2), (5, 6)]);
    assert_eq!(split[1], vec![(3, 4)]);
}

#[test]
fn split_conserves_every_item() {
    let pool = ThreadPoolManager::new(3);
    let items: Vec<i64> = (0..17).map(|x| x * x - 5).collect();
    let split = pool.split_iterators(items.clone(), 2);
    let mut gathered: Vec<i64> = split.into_iter().flatten().collect();
    gathered.sort();
    let mut expected = items;
    expected.sort();
    assert_eq!(gathered, expected);
}
