use rustmp::Capture;

#[test]
fn new_read_returns_wrapped_value() {
    let cell = Capture::new(vec![1i64, 2, 3]);
    let handle = cell.read();
    assert_eq!(*handle.borrow(), vec![1i64, 2, 3]);
    handle.release_read();
    assert_eq!(cell.unwrap(), Some(vec![1i64, 2, 3]));
}

#[test]
fn write_replaces_value() {
    let cell = Capture::new(vec![1i64]);
    let (mut value, guard) = cell.write();
    value.push(2);
    guard.release_write(value);
    assert_eq!(cell.unwrap(), Some(vec![1i64, 2]));
}

#[test]
fn clone_shares_the_same_cell() {
    let cell = Capture::new(10u64);
    let other = cell.clone();
    let (value, guard) = other.write();
    guard.release_write(value + 5);
    drop(other);
    let handle = cell.read();
    assert_eq!(*handle.borrow(), 15u64);
    handle.release_read();
    assert_eq!(cell.unwrap(), Some(15u64));
}

#[test]
fn unwrap_fails_while_a_clone_is_outstanding() {
    let cell = Capture::new(7i32);
    let other = cell.clone();
    assert!(cell.unwrap().is_none());
    assert_eq!(other.unwrap(), Some(7i32));
}

#[test]
fn concurrent_readers_are_admitted() {
    let cell = Capture::new(42u64);
    let first = cell.read();
    let second = cell.read();
    assert_eq!(*first.borrow(), 42);
    assert_eq!(*second.borrow(), 42);
    first.release_read();
    second.release_read();
    assert_eq!(cell.unwrap(), Some(42));
}
