use mini_redis::command::{parse_errors, CommandError};
use mini_redis::storage::{
    can_push, get, get_at, get_range, get_range_at, list_range_bounds, llen_at, push,
    PushKind, PushOperation, RangeOperation, SetOperation, Storage,
};

fn b(s: &str) -> Vec<u8> {
    s.as_bytes().to_vec()
}

fn set_op(k: &str, v: &str, expiration: Option<i128>) -> SetOperation {
    SetOperation { key: b(k), value: b(v), expiration }
}

fn push_op(kind: PushKind, k: &str, vs: &[&str]) -> PushOperation {
    PushOperation { kind, key: b(k), values: vs.iter().map(|v| b(v)).collect() }
}

fn range(k: &str, start: isize, end: isize) -> RangeOperation {
    RangeOperation { key: b(k), start, end }
}

#[test]
fn get_reads_last_set() {
    let mut s = Storage::new();
    assert_eq!(get_at(&mut s, b("k"), 0), None);
    mini_redis::storage::set(&mut s, set_op("k", "1", None));
    mini_redis::storage::set(&mut s, set_op("k", "2", None));
    mini_redis::storage::set(&mut s, set_op("other", "3", None));
    assert_eq!(get_at(&mut s, b("k"), 0), Some(b("2")));
    assert_eq!(get(&mut s, b("other")), Some(b("3")));
}

#[test]
fn expired_entries_are_dropped() {
    let mut s = Storage::new();
    mini_redis::storage::set(&mut s, set_op("k", "v", Some(1_000)));
    assert_eq!(get_at(&mut s, b("k"), 1_000), Some(b("v")));
    assert_eq!(get_at(&mut s, b("k"), 1_001), None);
    // the entry is gone: a later read at an earlier time finds nothing either
    assert_eq!(get_at(&mut s, b("k"), 0), None);
    mini_redis::storage::set(&mut s, set_op("old", "v", Some(1)));
    assert_eq!(get(&mut s, b("old")), None);
}

#[test]
fn push_gives_new_length_and_order() {
    let mut s = Storage::new();
    assert_eq!(push(&mut s, push_op(PushKind::RPush, "l", &["a", "b"])), 2);
    assert_eq!(push(&mut s, push_op(PushKind::LPush, "l", &["x", "y"])), 4);
    assert_eq!(
        get_range_at(&mut s, range("l", 0, -1), 0).unwrap(),
        vec![b("x"), b("y"), b("a"), b("b")]
    );
    // GET of a list answers its last element
    assert_eq!(get_at(&mut s, b("l"), 0), Some(b("b")));
    assert_eq!(llen_at(&mut s, b("l"), 0), 4);
    assert_eq!(llen_at(&mut s, b("none"), 0), 0);
}

#[test]
fn push_onto_single_value_makes_a_list() {
    let mut s = Storage::new();
    mini_redis::storage::set(&mut s, set_op("k", "v", None));
    assert_eq!(llen_at(&mut s, b("k"), 0), 1);
    assert_eq!(push(&mut s, push_op(PushKind::RPush, "k", &["w"])), 2);
    assert_eq!(get_range(&mut s, range("k", 0, -1)).unwrap(), vec![b("v"), b("w")]);
}

#[test]
fn range_of_single_value_is_a_type_mismatch() {
    let mut s = Storage::new();
    mini_redis::storage::set(&mut s, set_op("k", "v", None));
    match get_range_at(&mut s, range("k", 0, -1), 0) {
        Err(CommandError::InvalidArgument(m)) => assert_eq!(m, parse_errors::VALUE_TYPE_MISMATCH),
        _ => panic!("expected a type mismatch"),
    }
    assert!(get_range_at(&mut s, range("missing", 0, -1), 0).unwrap().is_empty());
}

#[test]
fn range_bounds_follow_lrange_rules() {
    assert_eq!(list_range_bounds(0, -1, 5), Some((0, 4)));
    assert_eq!(list_range_bounds(-2, -1, 5), Some((3, 4)));
    assert_eq!(list_range_bounds(-100, 2, 5), Some((0, 2)));
    assert_eq!(list_range_bounds(1, 100, 5), Some((1, 4)));
    assert_eq!(list_range_bounds(5, 10, 5), None);
    assert_eq!(list_range_bounds(3, 1, 5), None);
    assert_eq!(list_range_bounds(0, -6, 5), None);
    assert_eq!(list_range_bounds(0, 0, 0), None);
}

#[test]
fn range_reads_inclusive_slices() {
    let mut s = Storage::new();
    push(&mut s, push_op(PushKind::RPush, "l", &["a", "b", "c", "d"]));
    assert_eq!(get_range_at(&mut s, range("l", 1, 2), 0).unwrap(), vec![b("b"), b("c")]);
    assert_eq!(get_range_at(&mut s, range("l", -1, -1), 0).unwrap(), vec![b("d")]);
    assert!(get_range_at(&mut s, range("l", 2, 1), 0).unwrap().is_empty());
}

#[test]
fn can_push_checks_list_length() {
    let s = Storage::new();
    assert!(can_push(&s, &push_op(PushKind::RPush, "l", &["a"])));
}
