use rustmp::sysinfo::{parse_thread_count, resolve_max_threads, SystemObject};

#[test]
fn bind_map_fills_cores_before_smt_siblings() {
    // one package, two cores, two PUs per core: workers take distinct cores
    // before sharing one
    let s = SystemObject::new(1, 2, 2, None);
    assert_eq!(s.available_hwthreads, 4);
    assert_eq!(s.bind_target(0), 0);
    assert_eq!(s.bind_target(1), 2);
    assert_eq!(s.bind_target(2), 1);
    assert_eq!(s.bind_target(3), 3);
}

#[test]
fn bind_map_walks_packages_last() {
    // two packages of two single-PU cores: slots stay in package order
    let s = SystemObject::new(2, 2, 1, None);
    assert_eq!(s.available_hwthreads, 4);
    assert_eq!(s.bind_target(0), 0);
    assert_eq!(s.bind_target(1), 1);
    assert_eq!(s.bind_target(2), 2);
    assert_eq!(s.bind_target(3), 3);
}

#[test]
fn bind_map_is_a_permutation_of_the_hwthreads() {
    let s = SystemObject::new(2, 3, 2, None);
    assert_eq!(s.available_hwthreads, 12);
    let mut targets: Vec<usize> = (0..12).map(|tid| s.bind_target(tid)).collect();
    targets.sort();
    let expected: Vec<usize> = (0..12).collect();
    assert_eq!(targets, expected);
}

#[test]
fn bind_target_wraps_around_the_hwthreads() {
    let s = SystemObject::new(1, 2, 2, None);
    assert_eq!(s.bind_target(4), 0);
    assert_eq!(s.bind_target(5), 2);
}

#[test]
fn worker_count_defaults_to_available_hwthreads() {
    let s = SystemObject::new(1, 4, 1, None);
    assert_eq!(s.max_num_threads, 4);
}

#[test]
fn worker_count_override_wins_when_positive() {
    let s = SystemObject::new(1, 4, 1, Some(2));
    assert_eq!(s.max_num_threads, 2);
}

#[test]
fn sub_one_override_falls_back_to_available() {
    let s = SystemObject::new(1, 4, 1, Some(0));
    assert_eq!(s.max_num_threads, 4);
}

#[test]
fn resolved_count_is_never_below_one() {
    assert_eq!(resolve_max_threads(None, 0), 1);
    assert_eq!(resolve_max_threads(Some(0), 0), 1);
    assert_eq!(resolve_max_threads(Some(3), 0), 3);
    assert_eq!(resolve_max_threads(None, 8), 8);
}

#[test]
fn override_strings_parse_as_decimal() {
    assert_eq!(parse_thread_count(b"8"), Some(8));
    assert_eq!(parse_thread_count(b"+12"), Some(12));
    assert_eq!(parse_thread_count(b"0"), Some(0));
    assert_eq!(parse_thread_count(b"16"), Some(16));
}

#[test]
fn malformed_override_strings_parse_to_nothing() {
    assert_eq!(parse_thread_count(b""), None);
    assert_eq!(parse_thread_count(b"+"), None);
    assert_eq!(parse_thread_count(b"four"), None);
    assert_eq!(parse_thread_count(b"4x"), None);
    assert_eq!(parse_thread_count(b"-4"), None);
    assert_eq!(parse_thread_count(b"99999999999999999999999999"), None);
}

#[test]
fn probed_instance_is_well_formed() {
    let s = SystemObject::get_instance();
    assert!(s.available_hwthreads >= 1);
    assert_eq!(s.max_num_threads, s.available_hwthreads);
    // the probed topology is flat, so the pinning map is the identity
    for tid in 0..s.available_hwthreads {
        assert_eq!(s.bind_target(tid), tid);
    }
}
