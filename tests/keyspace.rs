use kvcache::{Storage, Value};

fn value_bytes(v: &Value) -> Option<Vec<u8>> {
    match v {
        Value::BulkString(b) => Some(b.clone()),
        Value::Null => None,
        _ => panic!("unexpected reply"),
    }
}

#[test]
fn set_replies_ok_and_get_reads_back() {
    let mut db = Storage::new();
    let ok = db.set(b"k".to_vec(), b"v".to_vec(), None);
    assert_eq!(ok.serialize(), b"+OK\r\n".to_vec());
    assert_eq!(value_bytes(&db.get(b"k", 0)), Some(b"v".to_vec()));
    assert_eq!(value_bytes(&db.get(b"other", 0)), None);
    assert_eq!(db.len(), 1);
}

#[test]
fn set_get_law_holds_across_other_sets() {
    let mut db = Storage::new();
    db.set(b"k".to_vec(), b"v".to_vec(), None);
    db.set(b"a".to_vec(), b"1".to_vec(), Some(3));
    db.set(b"b".to_vec(), b"2".to_vec(), None);
    assert_eq!(value_bytes(&db.get(b"k", u64::MAX)), Some(b"v".to_vec()));
    db.set(b"k".to_vec(), b"w".to_vec(), None);
    assert_eq!(value_bytes(&db.get(b"k", 0)), Some(b"w".to_vec()));
    assert_eq!(db.len(), 3);
}

#[test]
fn set_replaces_deadline() {
    let mut db = Storage::new();
    db.set(b"k".to_vec(), b"v".to_vec(), Some(10));
    assert_eq!(value_bytes(&db.get(b"k", 10)), None);
    db.set(b"k".to_vec(), b"v2".to_vec(), None);
    assert_eq!(value_bytes(&db.get(b"k", 10)), Some(b"v2".to_vec()));
}

#[test]
fn expiry_is_monotone() {
    let mut db = Storage::new();
    db.set(b"k".to_vec(), b"v".to_vec(), Some(100));
    assert_eq!(value_bytes(&db.get(b"k", 99)), Some(b"v".to_vec()));
    db.set(b"j".to_vec(), b"x".to_vec(), None);
    for now in [100u64, 101, 5000, u64::MAX] {
        assert_eq!(value_bytes(&db.get(b"k", now)), None);
    }
}

#[test]
fn keys_strips_stars_and_skips_expired() {
    let mut db = Storage::new();
    db.set(b"alpha".to_vec(), b"1".to_vec(), None);
    db.set(b"beta".to_vec(), b"2".to_vec(), None);
    db.set(b"alphabet".to_vec(), b"3".to_vec(), Some(7));
    assert_eq!(db.keys(b"*lph*", 6).serialize(), b"*2\r\n$5\r\nalpha\r\n$8\r\nalphabet\r\n".to_vec());
    assert_eq!(db.keys(b"a*l*p", 7).serialize(), b"*1\r\n$5\r\nalpha\r\n".to_vec());
    assert_eq!(db.keys(b"zzz", 0).serialize(), b"*0\r\n".to_vec());
    assert_eq!(db.keys(b"", 0).serialize(), b"*3\r\n$5\r\nalpha\r\n$4\r\nbeta\r\n$8\r\nalphabet\r\n".to_vec());
}

#[test]
fn entries_are_listed_in_order_held() {
    let mut db = Storage::new();
    db.set(b"x".to_vec(), b"1".to_vec(), Some(4));
    db.set(b"y".to_vec(), b"2".to_vec(), None);
    assert_eq!(db.item_at(0).key, b"x".to_vec());
    assert_eq!(db.item_at(0).ttl, Some(4));
    assert_eq!(db.item_at(1).value, b"2".to_vec());
}
