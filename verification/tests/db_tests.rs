use redis_lite::db::{DataType, Db};

#[test]
fn test_set_and_get_string() {
    let mut db = Db::new();
    db.set(b"foo".to_vec(), b"bar".to_vec(), None);

    let result = db.get(&b"foo".to_vec(), 0);
    match result {
        Some(DataType::String(s)) => assert_eq!(s, b"bar".to_vec()),
        _ => panic!("Expected String 'bar'"),
    }
}

#[test]
fn test_expiry_logic() {
    // The clock is the caller's: an entry set to expire at 50 reads back
    // before that instant and is gone at 60.
    let mut db = Db::new();
    db.set(b"temp".to_vec(), b"val".to_vec(), Some(50));

    assert!(db.get(&b"temp".to_vec(), 0).is_some());
    assert!(db.get(&b"temp".to_vec(), 60).is_none());
}

#[test]
fn test_expiry_at_deadline() {
    // At the deadline itself the entry is already expired.
    let mut db = Db::new();
    db.set(b"k".to_vec(), b"v".to_vec(), Some(50));
    assert!(db.get(&b"k".to_vec(), 49).is_some());
    assert!(db.get(&b"k".to_vec(), 50).is_none());
}

#[test]
fn test_rpush_list() {
    let mut db = Db::new();

    let len1 = db.rpush(b"mylist".to_vec(), vec![b"a".to_vec()], 0);
    assert_eq!(len1, Ok(1));

    let len2 = db.rpush(b"mylist".to_vec(), vec![b"b".to_vec(), b"c".to_vec()], 0);
    assert_eq!(len2, Ok(3));

    match db.get(&b"mylist".to_vec(), 0) {
        Some(DataType::List(v)) => {
            assert_eq!(v, vec![b"a".to_vec(), b"b".to_vec(), b"c".to_vec()]);
        }
        _ => panic!("Expected List"),
    }
}

#[test]
fn test_lpush_order() {
    // Each value is inserted at the head in turn: the final input value
    // ends up at index zero.
    let mut db = Db::new();
    db.rpush(b"L".to_vec(), vec![b"a".to_vec()], 0).unwrap();
    let n = db.lpush(b"L".to_vec(), vec![b"y".to_vec(), b"z".to_vec()], 0);
    assert_eq!(n, Ok(3));
    match db.get(&b"L".to_vec(), 0) {
        Some(DataType::List(v)) => {
            assert_eq!(v, vec![b"z".to_vec(), b"y".to_vec(), b"a".to_vec()]);
        }
        _ => panic!("Expected List"),
    }
}

#[test]
fn test_lrange_full_and_single() {
    let mut db = Db::new();
    db.rpush(
        b"L".to_vec(),
        vec![b"a".to_vec(), b"b".to_vec(), b"c".to_vec()],
        0,
    )
    .unwrap();
    // Full range.
    assert_eq!(
        db.lrange(&b"L".to_vec(), 0, -1, 0),
        Ok(vec![b"a".to_vec(), b"b".to_vec(), b"c".to_vec()])
    );
    // start == end is the single-element slice, inclusively.
    assert_eq!(db.lrange(&b"L".to_vec(), 1, 1, 0), Ok(vec![b"b".to_vec()]));
}

#[test]
fn test_lrange_negative_and_clamped() {
    let mut db = Db::new();
    db.rpush(
        b"L".to_vec(),
        vec![b"a".to_vec(), b"b".to_vec(), b"c".to_vec()],
        0,
    )
    .unwrap();
    assert_eq!(
        db.lrange(&b"L".to_vec(), -2, -1, 0),
        Ok(vec![b"b".to_vec(), b"c".to_vec()])
    );
    // An end past the list is clamped to its last element.
    assert_eq!(
        db.lrange(&b"L".to_vec(), 0, 100, 0),
        Ok(vec![b"a".to_vec(), b"b".to_vec(), b"c".to_vec()])
    );
    // A start before the list is clamped to zero.
    assert_eq!(
        db.lrange(&b"L".to_vec(), -100, 0, 0),
        Ok(vec![b"a".to_vec()])
    );
}

#[test]
fn test_lrange_empty_cases() {
    let mut db = Db::new();
    // Absent key: empty, not an error.
    assert_eq!(db.lrange(&b"none".to_vec(), 0, -1, 0), Ok(vec![]));
    db.rpush(b"L".to_vec(), vec![b"a".to_vec(), b"b".to_vec()], 0)
        .unwrap();
    // Inverted range.
    assert_eq!(db.lrange(&b"L".to_vec(), 1, 0, 0), Ok(vec![]));
    // Start past the end.
    assert_eq!(db.lrange(&b"L".to_vec(), 5, 9, 0), Ok(vec![]));
}

#[test]
fn test_llen_absent_and_wrong_type() {
    let mut db = Db::new();
    assert_eq!(db.llen(&b"none".to_vec(), 0), Ok(0));
    db.set(b"s".to_vec(), b"x".to_vec(), None);
    assert_eq!(db.llen(&b"s".to_vec(), 0), Err(()));
    assert_eq!(db.lrange(&b"s".to_vec(), 0, -1, 0), Err(()));
}

#[test]
fn test_push_after_expiry_creates_new_list() {
    // An expired string entry is indistinguishable from an absent one: the
    // push deletes it and creates a fresh list.
    let mut db = Db::new();
    db.set(b"k".to_vec(), b"v".to_vec(), Some(10));
    let n = db.rpush(b"k".to_vec(), vec![b"a".to_vec()], 20);
    assert_eq!(n, Ok(1));
    match db.get(&b"k".to_vec(), 20) {
        Some(DataType::List(v)) => assert_eq!(v, vec![b"a".to_vec()]),
        _ => panic!("Expected a fresh List"),
    }
}

#[test]
fn test_set_overwrites_type_and_deadline() {
    // SET always overwrites, discarding the old value and deadline.
    let mut db = Db::new();
    db.rpush(b"k".to_vec(), vec![b"a".to_vec()], 0).unwrap();
    db.set(b"k".to_vec(), b"v".to_vec(), None);
    match db.get(&b"k".to_vec(), 1000) {
        Some(DataType::String(s)) => assert_eq!(s, b"v".to_vec()),
        _ => panic!("Expected the overwritten String"),
    }
}
