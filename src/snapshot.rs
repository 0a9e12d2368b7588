//! The snapshot codec: the binary file that holds the keyspace between runs,
//! with its length-prefixed strings.
use vstd::prelude::*;
use crate::frame::{all_digits, decimal, digit_value, write_bytes, write_decimal, RespError};
use crate::storage::{apply, Item, Keyspace, Record, Storage};
use crate::text::copy_bytes;

verus! {

pub open spec fn pow256(k: nat) -> nat
    decreases k,
{
    if k == 0 {
        1
    } else {
        256 * pow256((k - 1) as nat)
    }
}

/// The `k` low bytes of `n`, least significant first.
pub open spec fn le_bytes(n: nat, k: nat) -> Seq<u8>
    decreases k,
{
    if k == 0 {
        Seq::empty()
    } else {
        seq![(n % 256) as u8] + le_bytes(n / 256, (k - 1) as nat)
    }
}

/// The number that bytes spell, least significant first.
pub open spec fn le_value(s: Seq<u8>) -> nat
    decreases s.len(),
{
    if s.len() == 0 {
        0
    } else {
        s[0] as nat + 256 * le_value(s.drop_first())
    }
}

/// The `k` low bytes of `n`, most significant first.
pub open spec fn be_bytes(n: nat, k: nat) -> Seq<u8>
    decreases k,
{
    if k == 0 {
        Seq::empty()
    } else {
        be_bytes(n / 256, (k - 1) as nat).push((n % 256) as u8)
    }
}

/// The number that bytes spell, most significant first.
pub open spec fn be_value(s: Seq<u8>) -> nat
    decreases s.len(),
{
    if s.len() == 0 {
        0
    } else {
        be_value(s.drop_last()) * 256 + s.last() as nat
    }
}

pub open spec fn u32_limit() -> nat {
    0x1_0000_0000
}

/// The length prefix that the writer emits for `n`: the smallest of the
/// three general forms that holds it.
pub open spec fn length_bytes(n: nat) -> Seq<u8> {
    if n < 64 {
        seq![n as u8]
    } else if n < 16384 {
        seq![(64 + n / 256) as u8, (n % 256) as u8]
    } else {
        seq![128u8] + be_bytes(n, 4)
    }
}

/// A string as the writer emits it: its length prefix, then its bytes.
pub open spec fn string_bytes(s: Seq<u8>) -> Seq<u8> {
    length_bytes(s.len()) + s
}

/// One entry: its expiry opcode if it has a deadline, the string value
/// type, the key and the value.
pub open spec fn entry_bytes(r: Record) -> Seq<u8> {
    let head = match r.2 {
        Some(t) => seq![0xFCu8] + le_bytes(t as nat, 8),
        None => Seq::empty(),
    };
    head + seq![0u8] + string_bytes(r.0) + string_bytes(r.1)
}

pub open spec fn entries_bytes(rs: Seq<Record>) -> Seq<u8>
    decreases rs.len(),
{
    if rs.len() == 0 {
        Seq::empty()
    } else {
        entries_bytes(rs.drop_last()) + entry_bytes(rs.last())
    }
}

/// How many records carry a deadline.
pub open spec fn expiring(rs: Seq<Record>) -> nat
    decreases rs.len(),
{
    if rs.len() == 0 {
        0
    } else {
        expiring(rs.drop_last()) + if rs.last().2 is Some {
            1nat
        } else {
            0nat
        }
    }
}

/// `REDIS` followed by the version `0006`.
pub open spec fn header_bytes() -> Seq<u8> {
    seq![82u8, 69u8, 68u8, 73u8, 83u8, 48u8, 48u8, 48u8, 54u8]
}

pub open spec fn magic() -> Seq<u8> {
    seq![82u8, 69u8, 68u8, 73u8, 83u8]
}

/// The whole snapshot file for the records `rs`, in their order.
pub open spec fn snapshot_bytes(rs: Seq<Record>) -> Seq<u8> {
    header_bytes() + seq![0xFEu8] + le_bytes(0, 4) + seq![0xFBu8] + length_bytes(rs.len())
        + length_bytes(expiring(rs)) + entries_bytes(rs) + seq![0xFFu8]
}

/// Every count and string length fits the 32-bit length form.
pub open spec fn fits(rs: Seq<Record>) -> bool {
    rs.len() < u32_limit() && forall|i: int|
        0 <= i < rs.len() ==> #[trigger] rs[i].0.len() < u32_limit() && rs[i].1.len() < u32_limit()
}

/// Reads a length prefix at `pos`: the length and the position after it.
pub open spec fn read_length(s: Seq<u8>, pos: int) -> Result<(nat, int), RespError> {
    if pos < 0 || pos >= s.len() {
        Err(RespError::BadSnapshot)
    } else if s[pos] < 64 {
        Ok((s[pos] as nat, pos + 1))
    } else if s[pos] < 128 {
        if pos + 2 > s.len() {
            Err(RespError::BadSnapshot)
        } else {
            Ok((((s[pos] - 64) * 256 + s[pos + 1]) as nat, pos + 2))
        }
    } else if s[pos] < 192 {
        if pos + 5 > s.len() {
            Err(RespError::BadSnapshot)
        } else {
            Ok((be_value(s.subrange(pos + 1, pos + 5)), pos + 5))
        }
    } else {
        Err(RespError::UnsupportedEncoding)
    }
}

/// The decimal text of an integer.
pub open spec fn int_text(v: int) -> Seq<u8> {
    if v < 0 {
        seq![45u8] + decimal((-v) as nat)
    } else {
        decimal(v as nat)
    }
}

/// The two's complement reading of `u` in a width of `limit` values.
pub open spec fn signed_of(u: nat, limit: nat) -> int {
    if u >= limit / 2 {
        u - limit
    } else {
        u as int
    }
}

/// Reads a string at `pos`: its bytes and the position after it. The
/// special form holds a little-endian integer whose decimal text is the
/// string.
pub open spec fn read_string(s: Seq<u8>, pos: int) -> Result<(Seq<u8>, int), RespError> {
    if pos < 0 || pos >= s.len() {
        Err(RespError::BadSnapshot)
    } else if s[pos] < 192 {
        match read_length(s, pos) {
            Err(e) => Err(e),
            Ok((n, p)) => if p + n > s.len() {
                Err(RespError::BadSnapshot)
            } else {
                Ok((s.subrange(p, p + n), p + n))
            },
        }
    } else if s[pos] == 192 {
        if pos + 2 > s.len() {
            Err(RespError::BadSnapshot)
        } else {
            Ok((int_text(signed_of(s[pos + 1] as nat, 256)), pos + 2))
        }
    } else if s[pos] == 193 {
        if pos + 3 > s.len() {
            Err(RespError::BadSnapshot)
        } else {
            Ok((int_text(signed_of(le_value(s.subrange(pos + 1, pos + 3)), 65536)), pos + 3))
        }
    } else if s[pos] == 194 {
        if pos + 5 > s.len() {
            Err(RespError::BadSnapshot)
        } else {
            Ok((int_text(signed_of(le_value(s.subrange(pos + 1, pos + 5)), u32_limit())), pos + 5))
        }
    } else {
        Err(RespError::UnsupportedEncoding)
    }
}

pub proof fn lemma_read_length_advances(s: Seq<u8>, pos: int)
    ensures
        read_length(s, pos) matches Ok((n, p)) ==> pos < p <= s.len(),
{
}

pub proof fn lemma_read_string_advances(s: Seq<u8>, pos: int)
    ensures
        read_string(s, pos) matches Ok((v, p)) ==> pos < p <= s.len(),
{
}

/// The records that the opcodes from `pos` on hold, `pending` being the
/// deadline that an expiry opcode set for the next entry.
pub open spec fn load_records(s: Seq<u8>, pos: int, pending: Option<u64>) -> Result<
    Seq<Record>,
    RespError,
>
    decreases s.len() - pos,
{
    if pos < 0 || pos >= s.len() {
        Ok(Seq::empty())
    } else {
        let op = s[pos];
        if op == 0xFF {
            Ok(Seq::empty())
        } else if op == 0xFA {
            match read_string(s, pos + 1) {
                Err(e) => Err(e),
                Ok((_, after_first)) => match read_string(s, after_first) {
                    Err(e) => Err(e),
                    Ok((_, after_second)) => {
                        proof {
                            lemma_read_string_advances(s, pos + 1);
                            lemma_read_string_advances(s, after_first);
                        }
                        load_records(s, after_second, pending)
                    },
                },
            }
        } else if op == 0xFB {
            match read_length(s, pos + 1) {
                Err(e) => Err(e),
                Ok((_, after_first)) => match read_length(s, after_first) {
                    Err(e) => Err(e),
                    Ok((_, after_second)) => {
                        proof {
                            lemma_read_length_advances(s, pos + 1);
                            lemma_read_length_advances(s, after_first);
                        }
                        load_records(s, after_second, pending)
                    },
                },
            }
        } else if op == 0xFC {
            if pos + 9 > s.len() {
                Err(RespError::BadSnapshot)
            } else {
                load_records(s, pos + 9, Some(le_value(s.subrange(pos + 1, pos + 9)) as u64))
            }
        } else if op == 0xFD {
            if pos + 5 > s.len() {
                Err(RespError::BadSnapshot)
            } else {
                load_records(s, pos + 5, Some((le_value(s.subrange(pos + 1, pos + 5)) * 1000) as u64))
            }
        } else if op == 0xFE {
            if pos + 5 > s.len() {
                Err(RespError::BadSnapshot)
            } else {
                load_records(s, pos + 5, pending)
            }
        } else if op == 0 {
            match read_string(s, pos + 1) {
                Err(e) => Err(e),
                Ok((key, after_first)) => match read_string(s, after_first) {
                    Err(e) => Err(e),
                    Ok((value, after_second)) => {
                        proof {
                            lemma_read_string_advances(s, pos + 1);
                            lemma_read_string_advances(s, after_first);
                        }
                        match load_records(s, after_second, None) {
                            Err(e) => Err(e),
                            Ok(rest) => Ok(seq![(key, value, pending)] + rest),
                        }
                    },
                },
            }
        } else {
            Err(RespError::UnsupportedEncoding)
        }
    }
}

/// The records of a snapshot file, in file order, or why it cannot be read.
pub open spec fn parse_snapshot(s: Seq<u8>) -> Result<Seq<Record>, RespError> {
    if s.len() < 9 || s.subrange(0, 5) != magic() {
        Err(RespError::BadSnapshot)
    } else if !all_digits(s.subrange(5, 9)) || digit_value(s.subrange(5, 9)) > 11 {
        Err(RespError::BadSnapshot)
    } else {
        load_records(s, 9, None)
    }
}

/// Records already read, put in front of what reading the rest gives.
pub open spec fn prepend_records(done: Seq<Record>, r: Result<Seq<Record>, RespError>) -> Result<
    Seq<Record>,
    RespError,
> {
    match r {
        Ok(rest) => Ok(done + rest),
        Err(e) => Err(e),
    }
}

proof fn lemma_le_value_bound(s: Seq<u8>)
    ensures
        le_value(s) < pow256(s.len()),
    decreases s.len(),
{
    if s.len() > 0 {
        let rest = s.drop_first();
        lemma_le_value_bound(rest);
        let a = s[0] as nat;
        let v = le_value(rest);
        let p = pow256(rest.len());
        assert(a + 256 * v < 256 * p) by (nonlinear_arith)
            requires
                a < 256,
                v < p,
        ;
    }
}

proof fn lemma_be_value_bound(s: Seq<u8>)
    ensures
        be_value(s) < pow256(s.len()),
    decreases s.len(),
{
    if s.len() > 0 {
        let init = s.drop_last();
        lemma_be_value_bound(init);
        let a = s.last() as nat;
        let v = be_value(init);
        let p = pow256(init.len());
        assert(v * 256 + a < 256 * p) by (nonlinear_arith)
            requires
                a < 256,
                v < p,
        ;
    }
}

proof fn lemma_pow256_facts()
    ensures
        pow256(1) == 256,
        pow256(2) == 65536,
        pow256(4) == 0x1_0000_0000,
        pow256(8) == 0x1_0000_0000_0000_0000,
{
    reveal_with_fuel(pow256, 9);
}

/// Reads `k` bytes at `p` as a little-endian number.
fn read_le(s: &[u8], p: usize, k: usize) -> (r: u64)
    requires
        k <= 8,
        p + k <= s@.len(),
    ensures
        r == le_value(s@.subrange(p as int, p + k)),
    decreases k,
{
    let _ = s.len();
    if k == 0 {
        0
    } else {
        let rest = read_le(s, p + 1, k - 1);
        proof {
            let sub = s@.subrange(p as int, p + k);
            assert(sub.drop_first() =~= s@.subrange(p + 1, p + k));
            lemma_le_value_bound(s@.subrange(p + 1, p + k));
            lemma_pow256_facts();
            assert(pow256((k - 1) as nat) <= pow256(7)) by {
                reveal_with_fuel(pow256, 9);
            }
            assert(256 * pow256(7) == pow256(8));
        }
        s[p] as u64 + 256 * rest
    }
}

/// Reads `k` bytes at `p` as a big-endian number.
fn read_be(s: &[u8], p: usize, k: usize) -> (r: u64)
    requires
        k <= 8,
        p + k <= s@.len(),
    ensures
        r == be_value(s@.subrange(p as int, p + k)),
    decreases k,
{
    let _ = s.len();
    if k == 0 {
        0
    } else {
        let init = read_be(s, p, k - 1);
        proof {
            let sub = s@.subrange(p as int, p + k);
            assert(sub.drop_last() =~= s@.subrange(p as int, p + k - 1));
            lemma_be_value_bound(s@.subrange(p as int, p + k - 1));
            lemma_pow256_facts();
            assert(pow256((k - 1) as nat) <= pow256(7)) by {
                reveal_with_fuel(pow256, 9);
            }
            assert(256 * pow256(7) == pow256(8));
        }
        init * 256 + s[p + k - 1] as u64
    }
}

/// Appends the `k` low bytes of `n`, least significant first.
fn write_le(out: &mut Vec<u8>, n: u64, k: usize)
    ensures
        final(out)@ == old(out)@ + le_bytes(n as nat, k as nat),
    decreases k,
{
    if k > 0 {
        out.push((n % 256) as u8);
        write_le(out, n / 256, k - 1);
        assert(final(out)@ =~= old(out)@ + le_bytes(n as nat, k as nat));
    } else {
        assert(final(out)@ =~= old(out)@ + le_bytes(n as nat, k as nat));
    }
}

/// Appends the `k` low bytes of `n`, most significant first.
fn write_be(out: &mut Vec<u8>, n: u64, k: usize)
    ensures
        final(out)@ == old(out)@ + be_bytes(n as nat, k as nat),
    decreases k,
{
    if k > 0 {
        write_be(out, n / 256, k - 1);
        out.push((n % 256) as u8);
        assert(final(out)@ =~= old(out)@ + be_bytes(n as nat, k as nat));
    } else {
        assert(final(out)@ =~= old(out)@ + be_bytes(n as nat, k as nat));
    }
}

/// Appends the length prefix of `n` in its smallest form.
pub fn write_length(out: &mut Vec<u8>, n: u64)
    requires
        n < u32_limit(),
    ensures
        final(out)@ == old(out)@ + length_bytes(n as nat),
{
    if n < 64 {
        out.push(n as u8);
    } else if n < 16384 {
        out.push((64 + n / 256) as u8);
        out.push((n % 256) as u8);
    } else {
        out.push(128u8);
        write_be(out, n, 4);
    }
    assert(final(out)@ =~= old(out)@ + length_bytes(n as nat));
}

/// Appends a string: its length prefix, then its bytes.
pub fn write_string(out: &mut Vec<u8>, s: &[u8])
    requires
        s@.len() < u32_limit(),
    ensures
        final(out)@ == old(out)@ + string_bytes(s@),
{
    write_length(out, s.len() as u64);
    write_bytes(out, s);
    assert(final(out)@ =~= old(out)@ + string_bytes(s@));
}

/// Appends the decimal text of `v`.
fn write_int_text(out: &mut Vec<u8>, v: i64)
    requires
        v > i64::MIN,
    ensures
        final(out)@ == old(out)@ + int_text(v as int),
{
    if v < 0 {
        out.push(45u8);
        write_decimal(out, (-v) as u64);
    } else {
        write_decimal(out, v as u64);
    }
    assert(final(out)@ =~= old(out)@ + int_text(v as int));
}

/// Reads a length prefix at `pos`.
fn read_length_at(s: &[u8], pos: usize) -> (r: Result<(u64, usize), RespError>)
    ensures
        match r {
            Ok((n, p)) => read_length(s@, pos as int) == Ok::<(nat, int), RespError>(
                (n as nat, p as int),
            ),
            Err(e) => read_length(s@, pos as int) == Err::<(nat, int), RespError>(e),
        },
{
    let len = s.len();
    if pos >= len {
        return Err(RespError::BadSnapshot);
    }
    let b = s[pos];
    if b < 64 {
        Ok((b as u64, pos + 1))
    } else if b < 128 {
        if len - pos < 2 {
            return Err(RespError::BadSnapshot);
        }
        Ok((((b - 64) as u64) * 256 + s[pos + 1] as u64, pos + 2))
    } else if b < 192 {
        if len - pos < 5 {
            return Err(RespError::BadSnapshot);
        }
        Ok((read_be(s, pos + 1, 4), pos + 5))
    } else {
        Err(RespError::UnsupportedEncoding)
    }
}

/// Reads a string at `pos`.
fn read_string_at(s: &[u8], pos: usize) -> (r: Result<(Vec<u8>, usize), RespError>)
    ensures
        match r {
            Ok((v, p)) => read_string(s@, pos as int) == Ok::<(Seq<u8>, int), RespError>(
                (v@, p as int),
            ),
            Err(e) => read_string(s@, pos as int) == Err::<(Seq<u8>, int), RespError>(e),
        },
{
    let len = s.len();
    if pos >= len {
        return Err(RespError::BadSnapshot);
    }
    let b = s[pos];
    if b < 192 {
        let (n, p) = read_length_at(s, pos)?;
        if n > (len - p) as u64 {
            return Err(RespError::BadSnapshot);
        }
        let end = p + n as usize;
        let bytes = vstd::slice::slice_to_vec(vstd::slice::slice_subrange(s, p, end));
        return Ok((bytes, end));
    }
    proof {
        lemma_pow256_facts();
    }
    let mut out: Vec<u8> = Vec::new();
    if b == 192 {
        if len - pos < 2 {
            return Err(RespError::BadSnapshot);
        }
        let u = s[pos + 1] as i64;
        let v = if u >= 128 {
            u - 256
        } else {
            u
        };
        write_int_text(&mut out, v);
        assert(out@ =~= int_text(signed_of(s@[pos + 1] as nat, 256)));
        Ok((out, pos + 2))
    } else if b == 193 {
        if len - pos < 3 {
            return Err(RespError::BadSnapshot);
        }
        let u = read_le(s, pos + 1, 2);
        proof {
            lemma_le_value_bound(s@.subrange(pos + 1, pos + 3));
        }
        let v = if u >= 32768 {
            u as i64 - 65536
        } else {
            u as i64
        };
        write_int_text(&mut out, v);
        assert(out@ =~= int_text(signed_of(u as nat, 65536)));
        Ok((out, pos + 3))
    } else if b == 194 {
        if len - pos < 5 {
            return Err(RespError::BadSnapshot);
        }
        let u = read_le(s, pos + 1, 4);
        proof {
            lemma_le_value_bound(s@.subrange(pos + 1, pos + 5));
        }
        let v = if u >= 0x8000_0000 {
            u as i64 - 0x1_0000_0000
        } else {
            u as i64
        };
        write_int_text(&mut out, v);
        assert(out@ =~= int_text(signed_of(u as nat, u32_limit())));
        Ok((out, pos + 5))
    } else {
        Err(RespError::UnsupportedEncoding)
    }
}

/// The records of a snapshot file, in file order.
pub fn parse_snapshot_bytes(s: &[u8]) -> (r: Result<Vec<Item>, RespError>)
    ensures
        match r {
            Ok(items) => parse_snapshot(s@) == Ok::<Seq<Record>, RespError>(
                crate::storage::recs_of(items@),
            ),
            Err(e) => parse_snapshot(s@) == Err::<Seq<Record>, RespError>(e),
        },
{
    let len = s.len();
    if len < 9 {
        return Err(RespError::BadSnapshot);
    }
    let mut k: usize = 0;
    while k < 5
        invariant
            k <= 5,
            len == s@.len(),
            len >= 9,
            forall|m: int| 0 <= m < k ==> #[trigger] s@[m] == magic()[m],
        decreases 5 - k,
    {
        let expected: u8 = if k == 0 {
            82u8
        } else if k == 1 {
            69u8
        } else if k == 2 {
            68u8
        } else if k == 3 {
            73u8
        } else {
            83u8
        };
        if s[k] != expected {
            assert(s@.subrange(0, 5)[k as int] != magic()[k as int]);
            return Err(RespError::BadSnapshot);
        }
        k = k + 1;
    }
    assert(s@.subrange(0, 5) =~= magic());
    let ghost ver = s@.subrange(5, 9);
    let mut version: u64 = 0;
    let mut i: usize = 5;
    while i < 9
        invariant
            5 <= i <= 9,
            len == s@.len(),
            len >= 9,
            ver == s@.subrange(5, 9),
            all_digits(s@.subrange(5, i as int)),
            version == digit_value(s@.subrange(5, i as int)),
            i == 5 ==> version == 0,
            i == 6 ==> version < 10,
            i == 7 ==> version < 100,
            i == 8 ==> version < 1000,
            version < 10000,
        decreases 9 - i,
    {
        let c = s[i];
        let ghost pre = s@.subrange(5, i as int + 1);
        assert(pre.drop_last() =~= s@.subrange(5, i as int));
        if c < 48u8 || c > 57u8 {
            assert(ver[i - 5] == c);
            return Err(RespError::BadSnapshot);
        }
        version = version * 10 + (c - 48u8) as u64;
        i = i + 1;
        assert(all_digits(s@.subrange(5, i as int))) by {
            assert forall|m: int| 0 <= m < pre.len() implies crate::frame::is_digit(#[trigger] pre[m]) by {
                if m < pre.len() - 1 {
                    assert(pre[m] == s@.subrange(5, i - 1)[m]);
                }
            }
        }
    }
    if version > 11 {
        return Err(RespError::BadSnapshot);
    }
    let ghost whole = load_records(s@, 9, None);
    let mut items: Vec<Item> = Vec::new();
    let mut pending: Option<u64> = None;
    let mut pos: usize = 9;
    assert(crate::storage::recs_of(items@) =~= Seq::<Record>::empty());
    while pos < len
        invariant
            9 <= pos <= len,
            len == s@.len(),
            parse_snapshot(s@) == whole,
            whole == prepend_records(crate::storage::recs_of(items@), load_records(s@, pos as int, pending)),
        decreases len - pos,
    {
        let op = s[pos];
        let ghost done = crate::storage::recs_of(items@);
        if op == 0xFFu8 {
            assert(done + Seq::<Record>::empty() =~= done);
            return Ok(items);
        } else if op == 0xFAu8 {
            let (_k, after_first) = read_string_at(s, pos + 1)?;
            let (_v, after_second) = read_string_at(s, after_first)?;
            proof {
                lemma_read_string_advances(s@, pos + 1);
                lemma_read_string_advances(s@, after_first as int);
            }
            pos = after_second;
        } else if op == 0xFBu8 {
            let (_n, after_first) = read_length_at(s, pos + 1)?;
            let (_e, after_second) = read_length_at(s, after_first)?;
            proof {
                lemma_read_length_advances(s@, pos + 1);
                lemma_read_length_advances(s@, after_first as int);
            }
            pos = after_second;
        } else if op == 0xFCu8 {
            if len - pos < 9 {
                return Err(RespError::BadSnapshot);
            }
            pending = Some(read_le(s, pos + 1, 8));
            pos = pos + 9;
        } else if op == 0xFDu8 {
            if len - pos < 5 {
                return Err(RespError::BadSnapshot);
            }
            let secs = read_le(s, pos + 1, 4);
            proof {
                lemma_le_value_bound(s@.subrange(pos + 1, pos + 5));
                lemma_pow256_facts();
            }
            pending = Some(secs * 1000);
            pos = pos + 5;
        } else if op == 0xFEu8 {
            if len - pos < 5 {
                return Err(RespError::BadSnapshot);
            }
            pos = pos + 5;
        } else if op == 0u8 {
            let (key, after_first) = read_string_at(s, pos + 1)?;
            let (value, after_second) = read_string_at(s, after_first)?;
            proof {
                lemma_read_string_advances(s@, pos + 1);
                lemma_read_string_advances(s@, after_first as int);
            }
            let item = Item { key, value, ttl: pending };
            let ghost rec = item.rec();
            items.push(item);
            proof {
                assert(crate::storage::recs_of(items@) =~= done + seq![rec]);
                if let Ok(rest) = load_records(s@, after_second as int, None) {
                    assert(done + (seq![rec] + rest) =~= (done + seq![rec]) + rest);
                }
            }
            pending = None;
            pos = after_second;
        } else {
            return Err(RespError::UnsupportedEncoding);
        }
    }
    assert(crate::storage::recs_of(items@) + Seq::<Record>::empty() =~= crate::storage::recs_of(items@));
    Ok(items)
}

/// Appends one entry.
fn write_entry(out: &mut Vec<u8>, item: &Item)
    requires
        item.key@.len() < u32_limit(),
        item.value@.len() < u32_limit(),
    ensures
        final(out)@ == old(out)@ + entry_bytes(item.rec()),
{
    match item.ttl {
        Some(t) => {
            out.push(0xFCu8);
            write_le(out, t, 8);
        },
        None => {},
    }
    out.push(0u8);
    write_string(out, item.key.as_slice());
    write_string(out, item.value.as_slice());
    assert(final(out)@ =~= old(out)@ + entry_bytes(item.rec()));
}

impl Storage {
    /// The snapshot file of the keyspace: every entry, with its deadline if
    /// it has one, past deadlines included. Fails with
    /// `UnsupportedEncoding` when a count or a string is too long for the
    /// 32-bit length form.
    pub fn save_to_rdb(&self) -> (r: Result<Vec<u8>, RespError>)
        ensures
            r is Ok <==> fits(self.entries()),
            r matches Ok(b) ==> b@ == snapshot_bytes(self.entries()),
            r matches Err(e) ==> e == RespError::UnsupportedEncoding,
    {
        let ghost rs = self.entries();
        let n = self.len();
        if n as u64 >= 0x1_0000_0000u64 {
            return Err(RespError::UnsupportedEncoding);
        }
        let mut i: usize = 0;
        let mut count: u64 = 0;
        assert(rs.subrange(0, 0) =~= Seq::<Record>::empty());
        while i < n
            invariant
                i <= n,
                n == rs.len(),
                rs == self.entries(),
                count <= i,
                count == expiring(rs.subrange(0, i as int)),
                forall|j: int| 0 <= j < i ==> #[trigger] rs[j].0.len() < u32_limit() && rs[j].1.len() < u32_limit(),
            decreases n - i,
        {
            let item = self.item_at(i);
            if item.key.len() as u64 >= 0x1_0000_0000u64 || item.value.len() as u64 >= 0x1_0000_0000u64 {
                assert(rs[i as int].0.len() >= u32_limit() || rs[i as int].1.len() >= u32_limit());
                assert(!fits(rs));
                return Err(RespError::UnsupportedEncoding);
            }
            let ghost pre = rs.subrange(0, i as int + 1);
            assert(pre.drop_last() =~= rs.subrange(0, i as int));
            if item.ttl.is_some() {
                count = count + 1;
            }
            i = i + 1;
        }
        assert(rs.subrange(0, n as int) =~= rs);
        let mut out: Vec<u8> = Vec::new();
        let header: [u8; 9] = [82u8, 69u8, 68u8, 73u8, 83u8, 48u8, 48u8, 48u8, 54u8];
        write_bytes(&mut out, header.as_slice());
        assert(header@ =~= header_bytes());
        out.push(0xFEu8);
        write_le(&mut out, 0, 4);
        out.push(0xFBu8);
        write_length(&mut out, n as u64);
        write_length(&mut out, count);
        let ghost start = out@;
        let mut k: usize = 0;
        assert(rs.subrange(0, 0) =~= Seq::<Record>::empty());
        while k < n
            invariant
                k <= n,
                n == rs.len(),
                rs == self.entries(),
                fits(rs),
                out@ == start + entries_bytes(rs.subrange(0, k as int)),
            decreases n - k,
        {
            let item = self.item_at(k);
            assert(rs[k as int].0.len() < u32_limit());
            write_entry(&mut out, item);
            k = k + 1;
            let ghost pre = rs.subrange(0, k as int);
            assert(pre.drop_last() =~= rs.subrange(0, k - 1));
            assert(out@ =~= start + entries_bytes(pre));
        }
        assert(rs.subrange(0, n as int) =~= rs);
        out.push(0xFFu8);
        assert(out@ =~= snapshot_bytes(rs));
        Ok(out)
    }

    /// Sets every entry of a snapshot file, in file order, into the
    /// keyspace. A file that cannot be read leaves the keyspace unchanged.
    pub fn load_from_rdb(&mut self, bytes: &[u8]) -> (r: Result<(), RespError>)
        requires
            old(self).wf(),
        ensures
            final(self).wf(),
            match parse_snapshot(bytes@) {
                Ok(rs) => r is Ok && final(self)@ == apply(old(self)@, rs),
                Err(e) => r == Err::<(), RespError>(e) && final(self)@ == old(self)@,
            },
    {
        let items = match parse_snapshot_bytes(bytes) {
            Err(e) => {
                return Err(e);
            },
            Ok(items) => items,
        };
        let ghost rs = crate::storage::recs_of(items@);
        let ghost start: Keyspace = self@;
        let mut i: usize = 0;
        assert(rs.subrange(0, 0) =~= Seq::<Record>::empty());
        while i < items.len()
            invariant
                i <= items@.len(),
                rs == crate::storage::recs_of(items@),
                self.wf(),
                self@ == apply(start, rs.subrange(0, i as int)),
            decreases items@.len() - i,
        {
            let item = &items[i];
            self.set(copy_bytes(&item.key), copy_bytes(&item.value), item.ttl);
            i = i + 1;
            let ghost pre = rs.subrange(0, i as int);
            assert(pre.drop_last() =~= rs.subrange(0, i - 1));
        }
        assert(rs.subrange(0, i as int) =~= rs);
        Ok(())
    }
}

} // verus!
