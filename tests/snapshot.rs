use kvcache::{parse_snapshot_bytes, RespError, Storage, Value};

fn value_bytes(v: &Value) -> Option<Vec<u8>> {
    match v {
        Value::BulkString(b) => Some(b.clone()),
        Value::Null => None,
        _ => panic!("unexpected reply"),
    }
}

fn header() -> Vec<u8> {
    let mut v = b"REDIS0006".to_vec();
    v.push(0xFE);
    v.extend_from_slice(&[0, 0, 0, 0]);
    v
}

#[test]
fn snapshot_restores_keyspace() {
    let mut db = Storage::new();
    db.set(b"a".to_vec(), b"1".to_vec(), None);
    db.set(b"b".to_vec(), b"2".to_vec(), None);
    let bytes = db.save_to_rdb().unwrap();
    let mut restored = Storage::new();
    restored.load_from_rdb(&bytes).unwrap();
    assert_eq!(value_bytes(&restored.get(b"a", 0)), Some(b"1".to_vec()));
    assert_eq!(value_bytes(&restored.get(b"b", 0)), Some(b"2".to_vec()));
    assert_eq!(restored.len(), 2);
}

#[test]
fn save_writes_exact_bytes() {
    let mut db = Storage::new();
    db.set(b"a".to_vec(), b"1".to_vec(), None);
    db.set(b"k".to_vec(), b"v".to_vec(), Some(0x0102));
    let mut expected = header();
    expected.extend_from_slice(&[0xFB, 2, 1]);
    expected.extend_from_slice(&[0x00, 1, b'a', 1, b'1']);
    expected.extend_from_slice(&[0xFC, 0x02, 0x01, 0, 0, 0, 0, 0, 0]);
    expected.extend_from_slice(&[0x00, 1, b'k', 1, b'v']);
    expected.push(0xFF);
    assert_eq!(db.save_to_rdb().unwrap(), expected);
}

#[test]
fn snapshot_keeps_deadlines_past_and_future() {
    let mut db = Storage::new();
    db.set(b"old".to_vec(), b"x".to_vec(), Some(5));
    db.set(b"new".to_vec(), b"y".to_vec(), Some(u64::MAX));
    let bytes = db.save_to_rdb().unwrap();
    let items = parse_snapshot_bytes(&bytes).unwrap();
    assert_eq!(items.len(), 2);
    assert_eq!(items[0].ttl, Some(5));
    assert_eq!(items[1].ttl, Some(u64::MAX));
    let mut restored = Storage::new();
    restored.load_from_rdb(&bytes).unwrap();
    assert_eq!(value_bytes(&restored.get(b"old", 4)), Some(b"x".to_vec()));
    assert_eq!(value_bytes(&restored.get(b"old", 5)), None);
    assert_eq!(value_bytes(&restored.get(b"new", 1_000_000)), Some(b"y".to_vec()));
}

#[test]
fn length_prefix_uses_smallest_form() {
    for (len, prefix) in [
        (63usize, vec![0x3Fu8]),
        (64, vec![0x40, 0x40]),
        (16383, vec![0x7F, 0xFF]),
        (16384, vec![0x80, 0x00, 0x00, 0x40, 0x00]),
    ] {
        let mut db = Storage::new();
        db.set(b"k".to_vec(), vec![b'z'; len], None);
        let bytes = db.save_to_rdb().unwrap();
        let start = header().len() + 3 + 1 + 2;
        assert_eq!(bytes[start..start + prefix.len()].to_vec(), prefix, "length {}", len);
        let items = parse_snapshot_bytes(&bytes).unwrap();
        assert_eq!(items[0].value.len(), len);
    }
}

#[test]
fn reader_accepts_every_length_form() {
    let mut bytes = header();
    bytes.extend_from_slice(&[0xFB, 0x40, 0x02, 0x80, 0, 0, 0, 0]);
    bytes.extend_from_slice(&[0x00, 0x40, 0x01, b'k']);
    bytes.extend_from_slice(&[0xBF, 0, 0, 0, 2, b'v', b'w']);
    bytes.push(0xFF);
    let items = parse_snapshot_bytes(&bytes).unwrap();
    assert_eq!(items.len(), 1);
    assert_eq!(items[0].key, b"k".to_vec());
    assert_eq!(items[0].value, b"vw".to_vec());
}

#[test]
fn reader_handles_integer_strings_and_opcodes() {
    let mut bytes = b"REDIS0011".to_vec();
    bytes.extend_from_slice(&[0xFA, 3, b'v', b'e', b'r', 0xC0, 7]);
    bytes.extend_from_slice(&[0xFE, 0, 0, 0, 0, 0xFB, 3, 1]);
    bytes.extend_from_slice(&[0xFD, 10, 0, 0, 0, 0x00, 0xC0, 0xFB, 0xC1, 0x39, 0x30]);
    bytes.extend_from_slice(&[0x00, 0xC2, 0x78, 0x56, 0x34, 0x12, 0xC2, 0xFF, 0xFF, 0xFF, 0xFF]);
    bytes.extend_from_slice(&[0x00, 1, b'p', 0xC1, 0x00, 0x80]);
    let items = parse_snapshot_bytes(&bytes).unwrap();
    assert_eq!(items.len(), 3);
    assert_eq!(items[0].key, b"-5".to_vec());
    assert_eq!(items[0].value, b"12345".to_vec());
    assert_eq!(items[0].ttl, Some(10_000));
    assert_eq!(items[1].key, b"305419896".to_vec());
    assert_eq!(items[1].value, b"-1".to_vec());
    assert_eq!(items[1].ttl, None);
    assert_eq!(items[2].value, b"-32768".to_vec());
}

#[test]
fn reader_rejects_bad_files() {
    assert_eq!(parse_snapshot_bytes(b"REDIS00").unwrap_err(), RespError::BadSnapshot);
    assert_eq!(parse_snapshot_bytes(b"REDIX0006\xFF").unwrap_err(), RespError::BadSnapshot);
    assert_eq!(parse_snapshot_bytes(b"REDIS0012\xFF").unwrap_err(), RespError::BadSnapshot);
    assert_eq!(parse_snapshot_bytes(b"REDIS00x6\xFF").unwrap_err(), RespError::BadSnapshot);
    assert_eq!(parse_snapshot_bytes(b"REDIS0006\x00\x05ab").unwrap_err(), RespError::BadSnapshot);
    assert_eq!(parse_snapshot_bytes(b"REDIS0006\xFC\x01\x02").unwrap_err(), RespError::BadSnapshot);
    assert_eq!(parse_snapshot_bytes(b"REDIS0006\x05\x01a\x01b").unwrap_err(), RespError::UnsupportedEncoding);
    assert_eq!(parse_snapshot_bytes(b"REDIS0006\x00\xC3\x01").unwrap_err(), RespError::UnsupportedEncoding);
    assert_eq!(parse_snapshot_bytes(b"REDIS0006\xFB\xC0\x00").unwrap_err(), RespError::UnsupportedEncoding);
}

#[test]
fn reader_stops_at_end_of_input() {
    let items = parse_snapshot_bytes(b"REDIS0003\x00\x01a\x01b").unwrap();
    assert_eq!(items.len(), 1);
    let items = parse_snapshot_bytes(b"REDIS0006\xFF\x00\x01a\x01b").unwrap();
    assert_eq!(items.len(), 0);
}

#[test]
fn failed_load_leaves_keyspace_unchanged() {
    let mut db = Storage::new();
    db.set(b"a".to_vec(), b"1".to_vec(), None);
    let bad = b"REDIS0006\x00\x01b\x01c\x07".to_vec();
    assert_eq!(db.load_from_rdb(&bad).unwrap_err(), RespError::UnsupportedEncoding);
    assert_eq!(db.len(), 1);
    assert_eq!(value_bytes(&db.get(b"b", 0)), None);
}

#[test]
fn load_merges_over_existing_keys() {
    let mut db = Storage::new();
    db.set(b"a".to_vec(), b"old".to_vec(), Some(1));
    db.load_from_rdb(b"REDIS0006\x00\x01a\x03new\xFF").unwrap();
    assert_eq!(value_bytes(&db.get(b"a", 100)), Some(b"new".to_vec()));
}

#[test]
fn writer_length_and_string_forms() {
    let mut out = Vec::new();
    kvcache::snapshot::write_string(&mut out, b"foo");
    assert_eq!(out, vec![0x03, b'f', b'o', b'o']);
    for (n, expected) in [
        (0u64, vec![0x00u8]),
        (63, vec![0x3F]),
        (64, vec![0x40, 0x40]),
        (300, vec![0x41, 0x2C]),
        (16383, vec![0x7F, 0xFF]),
        (16384, vec![0x80, 0x00, 0x00, 0x40, 0x00]),
        (0xFFFF_FFFF, vec![0x80, 0xFF, 0xFF, 0xFF, 0xFF]),
    ] {
        let mut out = Vec::new();
        kvcache::snapshot::write_length(&mut out, n);
        assert_eq!(out, expected, "length {}", n);
    }
}
