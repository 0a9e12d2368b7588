use kvcache::{handle_command, parse_message, Config, FrameReader, RespError, RespParser, Storage, Value};

fn config(dir: Option<&str>, file: Option<&str>) -> Config {
    Config {
        dir: dir.map(|d| d.as_bytes().to_vec()),
        dbfilename: file.map(|f| f.as_bytes().to_vec()),
        port: None,
    }
}

/// Decodes one request, serves it at `now` and returns the encoded reply.
fn serve(db: &mut Storage, cfg: &Config, request: &[u8], now: u64) -> Vec<u8> {
    let (frame, used) = parse_message(request).expect("request decodes");
    assert_eq!(used, request.len());
    handle_command(db, cfg, frame, now).serialize()
}

fn bulk(s: &str) -> Value {
    Value::BulkString(s.as_bytes().to_vec())
}

#[test]
fn ping_replies_pong() {
    let mut db = Storage::new();
    let cfg = config(None, None);
    assert_eq!(serve(&mut db, &cfg, b"*1\r\n$4\r\nPING\r\n", 0), b"+PONG\r\n".to_vec());
}

#[test]
fn echo_returns_argument() {
    let mut db = Storage::new();
    let cfg = config(None, None);
    let reply = serve(&mut db, &cfg, b"*2\r\n$4\r\nECHO\r\n$5\r\nhello\r\n", 0);
    assert_eq!(reply, b"$5\r\nhello\r\n".to_vec());
}

#[test]
fn set_then_get() {
    let mut db = Storage::new();
    let cfg = config(None, None);
    let r1 = serve(&mut db, &cfg, b"*3\r\n$3\r\nSET\r\n$3\r\nfoo\r\n$3\r\nbar\r\n", 1000);
    assert_eq!(r1, b"+OK\r\n".to_vec());
    let r2 = serve(&mut db, &cfg, b"*2\r\n$3\r\nGET\r\n$3\r\nfoo\r\n", 1001);
    assert_eq!(r2, b"$3\r\nbar\r\n".to_vec());
}

#[test]
fn set_px_expires() {
    let mut db = Storage::new();
    let cfg = config(None, None);
    let req = b"*5\r\n$3\r\nSET\r\n$3\r\nfoo\r\n$3\r\nbar\r\n$2\r\nPX\r\n$3\r\n100\r\n";
    assert_eq!(serve(&mut db, &cfg, req, 5000), b"+OK\r\n".to_vec());
    let get = b"*2\r\n$3\r\nGET\r\n$3\r\nfoo\r\n";
    assert_eq!(serve(&mut db, &cfg, get, 5050), b"$3\r\nbar\r\n".to_vec());
    assert_eq!(serve(&mut db, &cfg, get, 5150), b"$-1\r\n".to_vec());
}

#[test]
fn set_ex_counts_seconds() {
    let mut db = Storage::new();
    let cfg = config(None, None);
    let req = b"*5\r\n$3\r\nset\r\n$1\r\nk\r\n$1\r\nv\r\n$2\r\nex\r\n$1\r\n2\r\n";
    assert_eq!(serve(&mut db, &cfg, req, 0), b"+OK\r\n".to_vec());
    let get = b"*2\r\n$3\r\nget\r\n$1\r\nk\r\n";
    assert_eq!(serve(&mut db, &cfg, get, 1999), b"$1\r\nv\r\n".to_vec());
    assert_eq!(serve(&mut db, &cfg, get, 2000), b"$-1\r\n".to_vec());
}

#[test]
fn set_unknown_unit_clears_expiry() {
    let mut db = Storage::new();
    let cfg = config(None, None);
    serve(&mut db, &cfg, b"*5\r\n$3\r\nSET\r\n$1\r\nk\r\n$1\r\nv\r\n$2\r\nPX\r\n$1\r\n1\r\n", 0);
    serve(&mut db, &cfg, b"*5\r\n$3\r\nSET\r\n$1\r\nk\r\n$1\r\nw\r\n$2\r\nZZ\r\n$1\r\n1\r\n", 0);
    let get = b"*2\r\n$3\r\nGET\r\n$1\r\nk\r\n";
    assert_eq!(serve(&mut db, &cfg, get, 1_000_000), b"$1\r\nw\r\n".to_vec());
}

#[test]
fn set_bad_amount_is_an_error() {
    let mut db = Storage::new();
    let cfg = config(None, None);
    let req = b"*5\r\n$3\r\nSET\r\n$1\r\nk\r\n$1\r\nv\r\n$2\r\nPX\r\n$2\r\nab\r\n";
    assert_eq!(serve(&mut db, &cfg, req, 0), b"-ERR value is not an integer\r\n".to_vec());
    let neg = b"*5\r\n$3\r\nSET\r\n$1\r\nk\r\n$1\r\nv\r\n$2\r\nPX\r\n$2\r\n-1\r\n";
    assert_eq!(serve(&mut db, &cfg, neg, 0), b"-ERR value is not an integer\r\n".to_vec());
    assert_eq!(serve(&mut db, &cfg, b"*2\r\n$3\r\nGET\r\n$1\r\nk\r\n", 0), b"$-1\r\n".to_vec());
}

#[test]
fn config_get_dir() {
    let mut db = Storage::new();
    let cfg = config(Some("/tmp"), None);
    let reply = serve(&mut db, &cfg, b"*3\r\n$6\r\nCONFIG\r\n$3\r\nGET\r\n$3\r\ndir\r\n", 0);
    assert_eq!(reply, b"*2\r\n$3\r\ndir\r\n$4\r\n/tmp\r\n".to_vec());
}

#[test]
fn config_get_unset_and_unknown() {
    let mut db = Storage::new();
    let cfg = config(Some("/tmp"), None);
    let unset = serve(&mut db, &cfg, b"*3\r\n$6\r\nconfig\r\n$3\r\nget\r\n$10\r\ndbfilename\r\n", 0);
    assert_eq!(unset, b"*2\r\n$10\r\ndbfilename\r\n$0\r\n\r\n".to_vec());
    let unknown = serve(&mut db, &cfg, b"*3\r\n$6\r\nCONFIG\r\n$3\r\nGET\r\n$4\r\nport\r\n", 0);
    assert_eq!(unknown, b"*2\r\n$4\r\nport\r\n-Unknown arguments\r\n".to_vec());
    let other = serve(&mut db, &cfg, b"*3\r\n$6\r\nCONFIG\r\n$3\r\nSET\r\n$3\r\ndir\r\n", 0);
    assert_eq!(other, b"+OK\r\n".to_vec());
    let short = serve(&mut db, &cfg, b"*2\r\n$6\r\nCONFIG\r\n$3\r\nGET\r\n", 0);
    assert_eq!(short, b"-Invalid number of arguments\r\n".to_vec());
}

#[test]
fn unknown_command_is_reported() {
    let mut db = Storage::new();
    let cfg = config(None, None);
    let reply = serve(&mut db, &cfg, b"*1\r\n$5\r\nHELLO\r\n", 0);
    assert_eq!(reply, b"-Cannot Handle command HELLO\r\n".to_vec());
}

#[test]
fn malformed_requests_get_error_replies() {
    let mut db = Storage::new();
    let cfg = config(None, None);
    assert_eq!(serve(&mut db, &cfg, b"+PING\r\n", 0), b"-ERR invalid command format\r\n".to_vec());
    assert_eq!(serve(&mut db, &cfg, b"*0\r\n", 0), b"-ERR invalid command format\r\n".to_vec());
    assert_eq!(serve(&mut db, &cfg, b"*1\r\n$3\r\nGET\r\n", 0), b"-ERR wrong number of arguments\r\n".to_vec());
    assert_eq!(serve(&mut db, &cfg, b"*1\r\n$4\r\nECHO\r\n", 0), b"-ERR wrong number of arguments\r\n".to_vec());
    assert_eq!(serve(&mut db, &cfg, b"*2\r\n$3\r\nSET\r\n$1\r\nk\r\n", 0), b"-ERR wrong number of arguments\r\n".to_vec());
    assert_eq!(serve(&mut db, &cfg, b"*2\r\n$3\r\nGET\r\n+k\r\n", 0), b"-ERR expected a bulk string\r\n".to_vec());
}

#[test]
fn keys_lists_matching_live_keys() {
    let mut db = Storage::new();
    let cfg = config(None, None);
    serve(&mut db, &cfg, b"*3\r\n$3\r\nSET\r\n$3\r\nfoo\r\n$1\r\n1\r\n", 0);
    serve(&mut db, &cfg, b"*3\r\n$3\r\nSET\r\n$3\r\nbar\r\n$1\r\n2\r\n", 0);
    serve(&mut db, &cfg, b"*5\r\n$3\r\nSET\r\n$4\r\nfood\r\n$1\r\n3\r\n$2\r\nPX\r\n$2\r\n10\r\n", 0);
    let before = serve(&mut db, &cfg, b"*2\r\n$4\r\nKEYS\r\n$4\r\n*oo*\r\n", 5);
    assert_eq!(before, b"*2\r\n$3\r\nfoo\r\n$4\r\nfood\r\n".to_vec());
    let after = serve(&mut db, &cfg, b"*2\r\n$4\r\nKEYS\r\n$4\r\n*oo*\r\n", 10);
    assert_eq!(after, b"*1\r\n$3\r\nfoo\r\n".to_vec());
    let all = serve(&mut db, &cfg, b"*1\r\n$4\r\nKEYS\r\n", 10);
    assert_eq!(all, b"*2\r\n$3\r\nfoo\r\n$3\r\nbar\r\n".to_vec());
}

#[test]
fn decode_bulk_and_null() {
    let (v, n) = parse_message(b"$5\r\nhe\r\no\r\nrest").unwrap();
    assert_eq!(n, 11);
    assert!(matches!(&v, Value::BulkString(b) if b.as_slice() == b"he\r\no"));
    let (v, n) = parse_message(b"$-1\r\n").unwrap();
    assert_eq!(n, 5);
    assert!(matches!(v, Value::Null));
    let (v, n) = RespParser::parse_bulk_string(b"$0\r\n\r\n").unwrap();
    assert_eq!(n, 6);
    assert!(matches!(&v, Value::BulkString(b) if b.is_empty()));
}

#[test]
fn decode_simple_and_array() {
    let (v, n) = parse_message(b"+OK\r\n").unwrap();
    assert_eq!(n, 5);
    assert!(matches!(&v, Value::SimpleString(s) if s.as_slice() == b"OK"));
    let (v, n) = parse_message(b"*2\r\n+a\r\n*1\r\n$1\r\nb\r\nxyz").unwrap();
    assert_eq!(n, 19);
    assert_eq!(v.serialize(), b"*2\r\n+a\r\n*1\r\n$1\r\nb\r\n".to_vec());
}

#[test]
fn decode_errors() {
    assert_eq!(parse_message(b"").unwrap_err(), RespError::Incomplete);
    assert_eq!(parse_message(b":1\r\n").unwrap_err(), RespError::UnknownType(b':'));
    assert_eq!(parse_message(b"$x\r\n").unwrap_err(), RespError::InvalidInteger);
    assert_eq!(parse_message(b"*99999999999999999999\r\n").unwrap_err(), RespError::InvalidInteger);
    assert_eq!(parse_message(b"$-2\r\n").unwrap_err(), RespError::InvalidBulkString);
    assert_eq!(parse_message(b"$2\r\nabcd").unwrap_err(), RespError::InvalidBulkString);
    assert_eq!(parse_message(b"$10\r\nabc").unwrap_err(), RespError::Incomplete);
}

#[test]
fn encode_every_kind() {
    assert_eq!(Value::SimpleString(b"OK".to_vec()).serialize(), b"+OK\r\n".to_vec());
    assert_eq!(bulk("héllo").serialize(), b"$6\r\nh\xc3\xa9llo\r\n".to_vec());
    assert_eq!(Value::SimpleError(b"bad".to_vec()).serialize(), b"-bad\r\n".to_vec());
    assert_eq!(Value::Null.serialize(), b"$-1\r\n".to_vec());
    let arr = Value::Array(vec![bulk("a"), Value::Array(vec![]), Value::Null]);
    assert_eq!(arr.serialize(), b"*3\r\n$1\r\na\r\n*0\r\n$-1\r\n".to_vec());
}

#[test]
fn codec_round_trip_and_prefix_safety() {
    let v = Value::Array(vec![
        bulk("SET"),
        Value::SimpleString(b"x y".to_vec()),
        Value::Array(vec![bulk(""), Value::Null]),
        bulk("line\r\nbreak"),
    ]);
    let bytes = v.serialize();
    let (back, n) = parse_message(&bytes).unwrap();
    assert_eq!(n, bytes.len());
    assert_eq!(back.serialize(), bytes);
    let mut longer = bytes.clone();
    longer.extend_from_slice(b"*1\r\n$4\r\nPING\r\n");
    let (back, n) = parse_message(&longer).unwrap();
    assert_eq!(n, bytes.len());
    assert_eq!(back.serialize(), bytes);
}

#[test]
fn every_proper_prefix_needs_more() {
    let v = Value::Array(vec![bulk("ECHO"), bulk("hello"), Value::Null, Value::SimpleString(b"ok".to_vec())]);
    let bytes = v.serialize();
    for m in 0..bytes.len() {
        assert_eq!(parse_message(&bytes[..m]).unwrap_err(), RespError::Incomplete, "prefix {}", m);
    }
}

#[test]
fn reader_detaches_whole_frames() {
    let mut reader = FrameReader::new();
    reader.push(b"*1\r\n$4\r\nPI");
    assert_eq!(reader.pending_len(), 10);
    assert!(reader.next_frame().unwrap().is_none());
    reader.push(b"NG\r\n+x\r\n+y");
    let first = reader.next_frame().unwrap().unwrap();
    assert_eq!(first.serialize(), b"*1\r\n$4\r\nPING\r\n".to_vec());
    let second = reader.next_frame().unwrap().unwrap();
    assert_eq!(second.serialize(), b"+x\r\n".to_vec());
    assert_eq!(reader.pending_len(), 2);
    assert!(reader.next_frame().unwrap().is_none());
    reader.push(b"\r\n!");
    assert_eq!(reader.next_frame().unwrap().unwrap().serialize(), b"+y\r\n".to_vec());
    assert_eq!(reader.next_frame().unwrap_err(), RespError::UnknownType(b'!'));
}

#[test]
fn config_paths() {
    let both = config(Some("d"), Some("f"));
    assert!(both.has_rdb());
    assert_eq!(both.get_rdb_path(), Some(b"d/f".to_vec()));
    let one = config(Some("d"), None);
    assert!(!one.has_rdb());
    assert_eq!(one.get_rdb_path(), None);
}

#[test]
fn error_messages() {
    assert_eq!(RespError::Incomplete.message(), "incomplete frame");
    assert_eq!(RespError::BadSnapshot.message(), "unable to parse or write snapshot");
}

#[test]
fn writes_and_queries_are_told_apart() {
    let (set, _) = parse_message(b"*3\r\n$3\r\nsEt\r\n$1\r\nk\r\n$1\r\nv\r\n").unwrap();
    assert!(kvcache::server::is_write(&set));
    let (get, _) = parse_message(b"*2\r\n$3\r\nGET\r\n$1\r\nk\r\n").unwrap();
    assert!(!kvcache::server::is_write(&get));
    let mut db = Storage::new();
    assert_eq!(kvcache::server::handle_set(&mut db, set, 0).serialize(), b"+OK\r\n".to_vec());
    let cfg = config(None, None);
    assert_eq!(kvcache::server::handle_query(&db, &cfg, get, 0).serialize(), b"$1\r\nv\r\n".to_vec());
}

#[test]
fn snapshot_scenario_survives_restart() {
    let cfg = config(Some("d"), Some("f"));
    let mut db = Storage::new();
    serve(&mut db, &cfg, b"*3\r\n$3\r\nSET\r\n$1\r\na\r\n$1\r\n1\r\n", 0);
    serve(&mut db, &cfg, b"*3\r\n$3\r\nSET\r\n$1\r\nb\r\n$1\r\n2\r\n", 0);
    let file = db.save_to_rdb().unwrap();
    let mut restarted = Storage::new();
    restarted.load_from_rdb(&file).unwrap();
    assert_eq!(serve(&mut restarted, &cfg, b"*2\r\n$3\r\nGET\r\n$1\r\na\r\n", 10), b"$1\r\n1\r\n".to_vec());
    assert_eq!(serve(&mut restarted, &cfg, b"*2\r\n$3\r\nGET\r\n$1\r\nb\r\n", 10), b"$1\r\n2\r\n".to_vec());
}

#[test]
fn huge_expiry_saturates() {
    let mut db = Storage::new();
    let cfg = config(None, None);
    let req = b"*5\r\n$3\r\nSET\r\n$1\r\nk\r\n$1\r\nv\r\n$2\r\nEX\r\n$19\r\n9223372036854775807\r\n";
    assert_eq!(serve(&mut db, &cfg, req, 5), b"+OK\r\n".to_vec());
    assert_eq!(db.item_at(0).ttl, Some(u64::MAX));
    let get = b"*2\r\n$3\r\nGET\r\n$1\r\nk\r\n";
    assert_eq!(serve(&mut db, &cfg, get, u64::MAX - 1), b"$1\r\nv\r\n".to_vec());
    let px = b"*5\r\n$3\r\nSET\r\n$1\r\nj\r\n$1\r\nw\r\n$2\r\npx\r\n$3\r\n250\r\n";
    serve(&mut db, &cfg, px, 1000);
    assert_eq!(db.item_at(1).ttl, Some(1250));
}

#[test]
fn simple_strings_must_be_utf8() {
    assert_eq!(parse_message(b"+\xff\r\n").unwrap_err(), RespError::InvalidSimpleString);
    assert_eq!(parse_message(b"+\xc0\x80\r\n").unwrap_err(), RespError::InvalidSimpleString);
    assert_eq!(parse_message(b"+\xed\xa0\x80\r\n").unwrap_err(), RespError::InvalidSimpleString);
    assert_eq!(parse_message(b"+\xf4\x90\x80\x80\r\n").unwrap_err(), RespError::InvalidSimpleString);
    assert_eq!(parse_message(b"+h\xc3\r\n").unwrap_err(), RespError::InvalidSimpleString);
    let (v, n) = parse_message(b"+h\xc3\xa9 \xe2\x82\xac \xf0\x9f\x98\x80\r\n").unwrap();
    assert_eq!(n, 15);
    assert!(matches!(&v, Value::SimpleString(s) if s.as_slice() == "hé € 😀".as_bytes()));
    assert_eq!(parse_message(b"+\xff").unwrap_err(), RespError::Incomplete);
    assert_eq!(parse_message(b"$1\r\n\xff\r\n").unwrap().1, 7);
}

#[test]
fn set_amount_reads_full_u64_range() {
    let mut db = Storage::new();
    let cfg = config(None, None);
    let req = b"*5\r\n$3\r\nSET\r\n$1\r\nk\r\n$1\r\nv\r\n$2\r\nPX\r\n$20\r\n18446744073709551615\r\n";
    assert_eq!(serve(&mut db, &cfg, req, 7), b"+OK\r\n".to_vec());
    assert_eq!(db.item_at(0).ttl, Some(u64::MAX));
    let over = b"*5\r\n$3\r\nSET\r\n$1\r\nj\r\n$1\r\nv\r\n$2\r\nPX\r\n$20\r\n18446744073709551616\r\n";
    assert_eq!(serve(&mut db, &cfg, over, 7), b"-ERR value is not an integer\r\n".to_vec());
    let plus = b"*5\r\n$3\r\nSET\r\n$1\r\nj\r\n$1\r\nv\r\n$2\r\nPX\r\n$3\r\n+10\r\n";
    assert_eq!(serve(&mut db, &cfg, plus, 7), b"+OK\r\n".to_vec());
    assert_eq!(db.item_at(1).ttl, Some(17));
}
