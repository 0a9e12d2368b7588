//! The dispatcher: turns one request frame into a reply, reading and
//! changing the keyspace as the command asks.
use vstd::prelude::*;
use crate::config::{setting, Config};
use crate::frame::{lemma_array_model, parse_unsigned, write_bytes, Frame, RespParser, Value};
use crate::storage::{bulk_or_null, lists_keys, lookup, ok_bytes, Keyspace, Storage};
use crate::text::{bytes_eq, bytes_eq_ignore_case, copy_bytes, eq_ignore_case};
use crate::words::{
    word_config, config_bytes, word_dbfilename, dbfilename_bytes, word_dir, dir_bytes, word_echo, echo_bytes, word_ex,
    ex_bytes, word_get, get_bytes, word_keys, keys_bytes, msg_arity, msg_arity_bytes, msg_bad_request,
    msg_bad_request_bytes, msg_config_arity, msg_config_arity_bytes, msg_not_bulk,
    msg_not_bulk_bytes, msg_not_integer, msg_not_integer_bytes, msg_unknown_command,
    msg_unknown_command_bytes, msg_unknown_param, msg_unknown_param_bytes, word_ping, ping_bytes,
    word_pong, pong_bytes, word_px, px_bytes, word_set, set_bytes, word_star, star_bytes,
};

verus! {

/// The bulk string at position `i` of `args`, if there is one.
pub open spec fn bulk_arg(args: Seq<Frame>, i: int) -> Option<Seq<u8>> {
    if 0 <= i < args.len() && args[i] is Bulk {
        Some(args[i]->Bulk_0)
    } else {
        None
    }
}

/// `x`, or the largest `u64` where `x` is larger.
pub open spec fn saturating(x: int) -> u64 {
    if x > u64::MAX {
        u64::MAX
    } else {
        x as u64
    }
}

/// The deadline that `SET`'s unit and amount ask for: `PX` counts
/// milliseconds and `EX` seconds from `now`; any other unit sets none.
pub open spec fn deadline_for(unit: Seq<u8>, amount: nat, now: u64) -> Option<u64> {
    if eq_ignore_case(unit, word_px()) {
        Some(saturating(now + amount))
    } else if eq_ignore_case(unit, word_ex()) {
        Some(saturating(now + amount * 1000))
    } else {
        None
    }
}

/// The reply to `SET` and the keyspace after it.
pub open spec fn set_outcome(m: Keyspace, args: Seq<Frame>, now: u64) -> (Frame, Keyspace) {
    if args.len() < 2 {
        (Frame::Error(msg_arity()), m)
    } else if bulk_arg(args, 0) is None || bulk_arg(args, 1) is None {
        (Frame::Error(msg_not_bulk()), m)
    } else {
        let k = bulk_arg(args, 0)->0;
        let v = bulk_arg(args, 1)->0;
        if args.len() <= 3 {
            (Frame::Simple(ok_bytes()), m.insert(k, (v, None)))
        } else if bulk_arg(args, 2) is None || bulk_arg(args, 3) is None {
            (Frame::Error(msg_not_bulk()), m)
        } else {
            match parse_unsigned(bulk_arg(args, 3)->0) {
                Some(n) => (
                    Frame::Simple(ok_bytes()),
                    m.insert(k, (v, deadline_for(bulk_arg(args, 2)->0, n, now))),
                ),
                None => (Frame::Error(msg_not_integer()), m),
            }
        }
    }
}

/// The reply to `GET`.
pub open spec fn get_outcome(m: Keyspace, args: Seq<Frame>, now: u64) -> Frame {
    if args.len() < 1 {
        Frame::Error(msg_arity())
    } else {
        match bulk_arg(args, 0) {
            None => Frame::Error(msg_not_bulk()),
            Some(k) => bulk_or_null(lookup(m, k, now)),
        }
    }
}

/// The reply to `CONFIG`, given the configured directory and file name.
pub open spec fn config_outcome(cfg_dir: Seq<u8>, cfg_file: Seq<u8>, args: Seq<Frame>) -> Frame {
    if args.len() < 2 {
        Frame::Error(msg_config_arity())
    } else {
        match bulk_arg(args, 0) {
            None => Frame::Error(msg_not_bulk()),
            Some(sub) => if !eq_ignore_case(sub, word_get()) {
                Frame::Simple(ok_bytes())
            } else {
                match bulk_arg(args, 1) {
                    None => Frame::Error(msg_not_bulk()),
                    Some(p) => Frame::Array(
                        seq![
                            Frame::Bulk(p),
                            if p == word_dir() {
                                Frame::Bulk(cfg_dir)
                            } else if p == word_dbfilename() {
                                Frame::Bulk(cfg_file)
                            } else {
                                Frame::Error(msg_unknown_param())
                            },
                        ],
                    ),
                }
            },
        }
    }
}

/// Whether `reply` answers `KEYS` with the arguments `args`.
pub open spec fn keys_reply(m: Keyspace, args: Seq<Frame>, now: u64, reply: Frame) -> bool {
    if args.len() == 0 {
        lists_keys(reply, m, word_star(), now)
    } else {
        match bulk_arg(args, 0) {
            None => reply == Frame::Error(msg_not_bulk()),
            Some(p) => lists_keys(reply, m, p, now),
        }
    }
}

/// Whether `reply`, with the keyspace `after`, is what serving `request`
/// at `now` on the keyspace `m` gives. The command name is matched without
/// regard to ASCII case.
pub open spec fn serves(
    m: Keyspace,
    cfg_dir: Seq<u8>,
    cfg_file: Seq<u8>,
    request: Frame,
    now: u64,
    reply: Frame,
    after: Keyspace,
) -> bool {
    if !(request is Array) || request->Array_0.len() == 0 || !(request->Array_0[0] is Bulk) {
        reply == Frame::Error(msg_bad_request()) && after == m
    } else {
        let name = request->Array_0[0]->Bulk_0;
        let args = request->Array_0.drop_first();
        if eq_ignore_case(name, word_set()) {
            (reply, after) == set_outcome(m, args, now)
        } else {
            &&& after == m
            &&& if eq_ignore_case(name, word_ping()) {
                reply == Frame::Simple(word_pong())
            } else if eq_ignore_case(name, word_echo()) {
                reply == if args.len() == 0 {
                    Frame::Error(msg_arity())
                } else {
                    args[0]
                }
            } else if eq_ignore_case(name, word_get()) {
                reply == get_outcome(m, args, now)
            } else if eq_ignore_case(name, word_config()) {
                reply == config_outcome(cfg_dir, cfg_file, args)
            } else if eq_ignore_case(name, word_keys()) {
                keys_reply(m, args, now, reply)
            } else {
                reply == Frame::Error(msg_unknown_command() + name)
            }
        }
    }
}

/// The bulk string at position `i`, if there is one.
fn bulk_at(items: &Vec<Value>, i: usize) -> (r: Option<&Vec<u8>>)
    ensures
        r is Some == (i < items@.len() && items@[i as int] is BulkString),
        r matches Some(b) ==> items@[i as int].model() == Frame::Bulk(b@),
{
    if i >= items.len() {
        return None;
    }
    match &items[i] {
        Value::BulkString(b) => Some(b),
        _ => None,
    }
}

/// `now + amount * scale`, or the largest `u64` where that is larger.
fn deadline_after(now: u64, amount: u64, scale: u64) -> (r: u64)
    requires
        scale == 1 || scale == 1000,
    ensures
        r == saturating(now + amount * scale),
{
    let room = u64::MAX - now;
    let limit = room / scale;
    let ghost a = amount as int;
    let ghost sc = scale as int;
    let ghost rm = room as int;
    if amount > limit {
        assert(a * sc > rm) by (nonlinear_arith)
            requires
                a > rm / sc,
                sc > 0,
                rm >= 0,
        ;
        u64::MAX
    } else {
        assert(a * sc <= rm) by (nonlinear_arith)
            requires
                a <= rm / sc,
                sc > 0,
                rm >= 0,
        ;
        now + amount * scale
    }
}

fn error_reply(msg: Vec<u8>) -> (r: Value)
    ensures
        r.model() == Frame::Error(msg@),
{
    Value::SimpleError(msg)
}

/// Whether `request` is a `SET`, the one command that changes the keyspace.
pub open spec fn is_set_request(request: Frame) -> bool {
    &&& request is Array
    &&& request->Array_0.len() > 0
    &&& request->Array_0[0] is Bulk
    &&& eq_ignore_case(request->Array_0[0]->Bulk_0, word_set())
}

/// Whether serving `request` may change the keyspace, so that it needs
/// exclusive access to it.
pub fn is_write(request: &Value) -> (r: bool)
    ensures
        r == is_set_request(request.model()),
{
    match request {
        Value::Array(items) => {
            proof {
                lemma_array_model(*items);
            }
            if items.len() == 0 {
                return false;
            }
            match &items[0] {
                Value::BulkString(n) => bytes_eq_ignore_case(n.as_slice(), set_bytes().as_slice()),
                _ => false,
            }
        },
        _ => false,
    }
}

/// Serves one request frame at time `now` (milliseconds since the Unix
/// epoch): the reply, with the keyspace changed as the command asks.
pub fn handle_command(db: &mut Storage, config: &Config, request: Value, now: u64) -> (r: Value)
    requires
        old(db).wf(),
    ensures
        final(db).wf(),
        serves(
            old(db)@,
            setting(config.dir),
            setting(config.dbfilename),
            request.model(),
            now,
            r.model(),
            final(db)@,
        ),
{
    if is_write(&request) {
        handle_set(db, request, now)
    } else {
        handle_query(db, config, request, now)
    }
}

/// Serves a `SET` request at time `now`.
pub fn handle_set(db: &mut Storage, request: Value, now: u64) -> (r: Value)
    requires
        old(db).wf(),
        is_set_request(request.model()),
    ensures
        final(db).wf(),
        (r.model(), final(db)@) == set_outcome(old(db)@, request.model()->Array_0.drop_first(), now),
{
    let ghost req = request.model();
    let items = match request {
        Value::Array(items) => items,
        _ => {
            return error_reply(msg_bad_request_bytes());
        },
    };
    proof {
        lemma_array_model(items);
    }
    let ghost args = req->Array_0.drop_first();
    assert forall|i: int| 0 <= i < args.len() implies #[trigger] args[i] == items@[i + 1].model() by {}
    if items.len() < 3 {
        return error_reply(msg_arity_bytes());
    }
    let key = match bulk_at(&items, 1) {
        Some(k) => copy_bytes(k),
        None => {
            return error_reply(msg_not_bulk_bytes());
        },
    };
    let value = match bulk_at(&items, 2) {
        Some(v) => copy_bytes(v),
        None => {
            return error_reply(msg_not_bulk_bytes());
        },
    };
    let mut ttl: Option<u64> = None;
    if items.len() > 4 {
        let unit = match bulk_at(&items, 3) {
            Some(u) => u,
            None => {
                return error_reply(msg_not_bulk_bytes());
            },
        };
        let amount = match bulk_at(&items, 4) {
            Some(a) => a,
            None => {
                return error_reply(msg_not_bulk_bytes());
            },
        };
        let amount = match RespParser::parse_unsigned_int(amount.as_slice()) {
            Some(a) => a,
            None => {
                return error_reply(msg_not_integer_bytes());
            },
        };
        if bytes_eq_ignore_case(unit.as_slice(), px_bytes().as_slice()) {
            ttl = Some(deadline_after(now, amount, 1));
        } else if bytes_eq_ignore_case(unit.as_slice(), ex_bytes().as_slice()) {
            ttl = Some(deadline_after(now, amount, 1000));
        }
    }
    return db.set(key, value, ttl);
}

/// Serves a request other than `SET` at time `now`; the keyspace is only
/// read.
pub fn handle_query(db: &Storage, config: &Config, request: Value, now: u64) -> (r: Value)
    requires
        db.wf(),
        !is_set_request(request.model()),
    ensures
        serves(
            db@,
            setting(config.dir),
            setting(config.dbfilename),
            request.model(),
            now,
            r.model(),
            db@,
        ),
{
    let ghost req = request.model();
    let mut items = match request {
        Value::Array(items) => items,
        _ => {
            return error_reply(msg_bad_request_bytes());
        },
    };
    proof {
        lemma_array_model(items);
    }
    let ghost args = req->Array_0.drop_first();
    if items.len() == 0 {
        return error_reply(msg_bad_request_bytes());
    }
    let name = match &items[0] {
        Value::BulkString(n) => copy_bytes(n),
        _ => {
            return error_reply(msg_bad_request_bytes());
        },
    };
    assert(req->Array_0[0] == Frame::Bulk(name@));
    assert forall|i: int| 0 <= i < args.len() implies #[trigger] args[i] == items@[i + 1].model() by {}
    let n = name.as_slice();
    if bytes_eq_ignore_case(n, ping_bytes().as_slice()) {
        return Value::SimpleString(pong_bytes());
    }
    if bytes_eq_ignore_case(n, echo_bytes().as_slice()) {
        if items.len() < 2 {
            return error_reply(msg_arity_bytes());
        }
        return items.remove(1);
    }
    if bytes_eq_ignore_case(n, get_bytes().as_slice()) {
        if items.len() < 2 {
            return error_reply(msg_arity_bytes());
        }
        return match bulk_at(&items, 1) {
            Some(k) => db.get(k.as_slice(), now),
            None => error_reply(msg_not_bulk_bytes()),
        };
    }
    if bytes_eq_ignore_case(n, config_bytes().as_slice()) {
        if items.len() < 3 {
            return error_reply(msg_config_arity_bytes());
        }
        let sub = match bulk_at(&items, 1) {
            Some(s) => s,
            None => {
                return error_reply(msg_not_bulk_bytes());
            },
        };
        if !bytes_eq_ignore_case(sub.as_slice(), get_bytes().as_slice()) {
            return Value::SimpleString(crate::words::ok_word_bytes());
        }
        let param = match bulk_at(&items, 2) {
            Some(p) => p,
            None => {
                return error_reply(msg_not_bulk_bytes());
            },
        };
        let value = if bytes_eq(param.as_slice(), dir_bytes().as_slice()) {
            Value::BulkString(setting_bytes(&config.dir))
        } else if bytes_eq(param.as_slice(), dbfilename_bytes().as_slice()) {
            Value::BulkString(setting_bytes(&config.dbfilename))
        } else {
            error_reply(msg_unknown_param_bytes())
        };
        let ghost vm = value.model();
        let ghost pm = param@;
        let pair = vec![Value::BulkString(copy_bytes(param)), value];
        proof {
            lemma_array_model(pair);
            assert(crate::frame::models(pair@) =~= seq![Frame::Bulk(pm), vm]);
        }
        return Value::Array(pair);
    }
    if bytes_eq_ignore_case(n, keys_bytes().as_slice()) {
        if items.len() < 2 {
            return db.keys(star_bytes().as_slice(), now);
        }
        return match bulk_at(&items, 1) {
            Some(p) => db.keys(p.as_slice(), now),
            None => error_reply(msg_not_bulk_bytes()),
        };
    }
    let mut msg = msg_unknown_command_bytes();
    write_bytes(&mut msg, n);
    error_reply(msg)
}

/// The bytes of an optional setting, empty when it is unset.
fn setting_bytes(o: &Option<Vec<u8>>) -> (r: Vec<u8>)
    ensures
        r@ == setting(*o),
{
    match o {
        Some(v) => copy_bytes(v),
        None => Vec::new(),
    }
}

} // verus!
