//! Laws of the snapshot codec: what reading a written snapshot gives, and
//! how lengths are encoded.
use vstd::prelude::*;
use crate::frame::{all_digits, digit_value, RespError};
use crate::snapshot::{
    be_bytes, be_value, entries_bytes, entry_bytes, expiring, fits, header_bytes, le_bytes,
    le_value, length_bytes, load_records, magic, parse_snapshot, pow256, read_length, read_string,
    snapshot_bytes, string_bytes, u32_limit,
};
use crate::storage::{apply, lemma_apply_unique, map_of, unique_keys, Keyspace, Record, Storage};

verus! {

/// A piece of a piece of `s` is a piece of `s`.
proof fn lemma_piece(s: Seq<u8>, pos: int, w: Seq<u8>, a: int, b: int)
    requires
        0 <= pos,
        pos + w.len() <= s.len(),
        s.subrange(pos, pos + w.len()) == w,
        0 <= a <= b <= w.len(),
    ensures
        s.subrange(pos + a, pos + b) == w.subrange(a, b),
{
    assert forall|i: int| 0 <= i < b - a implies #[trigger] s.subrange(pos + a, pos + b)[i] == w.subrange(a, b)[i] by {
        assert(s.subrange(pos, pos + w.len())[a + i] == s[pos + a + i]);
    }
    assert(s.subrange(pos + a, pos + b) =~= w.subrange(a, b));
}

proof fn lemma_le_round(n: nat, k: nat)
    requires
        n < pow256(k),
    ensures
        le_bytes(n, k).len() == k,
        le_value(le_bytes(n, k)) == n,
    decreases k,
{
    if k > 0 {
        let p = pow256((k - 1) as nat);
        assert(n / 256 < p) by (nonlinear_arith)
            requires
                n < 256 * p,
        ;
        lemma_le_round(n / 256, (k - 1) as nat);
        let b = le_bytes(n, k);
        assert(b.drop_first() =~= le_bytes(n / 256, (k - 1) as nat));
        assert(n == (n % 256) + 256 * (n / 256));
    }
}

proof fn lemma_be_round(n: nat, k: nat)
    requires
        n < pow256(k),
    ensures
        be_bytes(n, k).len() == k,
        be_value(be_bytes(n, k)) == n,
    decreases k,
{
    if k > 0 {
        let p = pow256((k - 1) as nat);
        assert(n / 256 < p) by (nonlinear_arith)
            requires
                n < 256 * p,
        ;
        lemma_be_round(n / 256, (k - 1) as nat);
        let b = be_bytes(n, k);
        assert(b.drop_last() =~= be_bytes(n / 256, (k - 1) as nat));
        assert(n == (n / 256) * 256 + n % 256);
    }
}

proof fn lemma_pow256_4_8()
    ensures
        pow256(4) == 0x1_0000_0000,
        pow256(8) == 0x1_0000_0000_0000_0000,
{
    reveal_with_fuel(pow256, 9);
}

/// Reading a length prefix that the writer emitted gives the length back.
proof fn lemma_read_written_length(s: Seq<u8>, pos: int, n: nat)
    requires
        n < u32_limit(),
        0 <= pos,
        pos + length_bytes(n).len() <= s.len(),
        s.subrange(pos, pos + length_bytes(n).len()) == length_bytes(n),
    ensures
        length_bytes(n).len() == (if n < 64 {
            1int
        } else if n < 16384 {
            2int
        } else {
            5int
        }),
        length_bytes(n)[0] < 192,
        read_length(s, pos) == Ok::<(nat, int), RespError>((n, pos + length_bytes(n).len())),
{
    let l = length_bytes(n);
    assert(s[pos] == l[0]);
    if n < 64 {
    } else if n < 16384 {
        assert(s[pos + 1] == l[1]);
        assert(((64 + n / 256) as u8 - 64) * 256 + (n % 256) as u8 == n);
    } else {
        lemma_pow256_4_8();
        lemma_be_round(n, 4);
        lemma_piece(s, pos, l, 1, 5);
        assert(l.subrange(1, 5) =~= be_bytes(n, 4));
    }
}

/// Reading a string that the writer emitted gives the string back.
proof fn lemma_read_written_string(s: Seq<u8>, pos: int, x: Seq<u8>)
    requires
        x.len() < u32_limit(),
        0 <= pos,
        pos + string_bytes(x).len() <= s.len(),
        s.subrange(pos, pos + string_bytes(x).len()) == string_bytes(x),
    ensures
        read_string(s, pos) == Ok::<(Seq<u8>, int), RespError>((x, pos + string_bytes(x).len())),
{
    let l = length_bytes(x.len());
    let w = string_bytes(x);
    assert(s.subrange(pos, pos + l.len()) =~= w.subrange(0, l.len() as int));
    assert(w.subrange(0, l.len() as int) =~= l);
    lemma_read_written_length(s, pos, x.len());
    assert(s[pos] == l[0]);
    let p = pos + l.len();
    assert(s.subrange(p, p + x.len()) =~= w.subrange(l.len() as int, w.len() as int));
    assert(w.subrange(l.len() as int, w.len() as int) =~= x);
}

proof fn lemma_entries_front(rs: Seq<Record>)
    requires
        rs.len() > 0,
    ensures
        entries_bytes(rs) == entry_bytes(rs[0]) + entries_bytes(rs.drop_first()),
    decreases rs.len(),
{
    if rs.len() == 1 {
        assert(rs.drop_last() =~= Seq::<Record>::empty());
        assert(rs.drop_first() =~= Seq::<Record>::empty());
        assert(entries_bytes(rs) =~= entry_bytes(rs[0]) + entries_bytes(rs.drop_first()));
    } else {
        let init = rs.drop_last();
        lemma_entries_front(init);
        assert(init.drop_first() =~= rs.drop_first().drop_last());
        assert(rs.drop_first().last() == rs.last());
        assert(entries_bytes(rs) =~= entry_bytes(rs[0]) + entries_bytes(rs.drop_first()));
    }
}

proof fn lemma_expiring_bound(rs: Seq<Record>)
    ensures
        expiring(rs) <= rs.len(),
    decreases rs.len(),
{
    if rs.len() > 0 {
        lemma_expiring_bound(rs.drop_last());
    }
}

/// Reading written entries, up to the end-of-file opcode, gives the
/// records back.
#[verifier::rlimit(100)]
proof fn lemma_load_written_entries(s: Seq<u8>, pos: int, rs: Seq<Record>)
    requires
        0 <= pos,
        forall|i: int|
            0 <= i < rs.len() ==> #[trigger] rs[i].0.len() < u32_limit() && rs[i].1.len() < u32_limit(),
        pos + entries_bytes(rs).len() < s.len(),
        s.subrange(pos, pos + entries_bytes(rs).len()) == entries_bytes(rs),
        s[pos + entries_bytes(rs).len()] == 0xFFu8,
    ensures
        load_records(s, pos, None) == Ok::<Seq<Record>, RespError>(rs),
    decreases rs.len(),
{
    if rs.len() == 0 {
        assert(rs =~= Seq::<Record>::empty());
    } else {
        let r0 = rs[0];
        let rest = rs.drop_first();
        let big = entries_bytes(rs);
        let e0 = entry_bytes(r0);
        let er = entries_bytes(rest);
        lemma_entries_front(rs);
        assert forall|i: int| 0 <= i < rest.len() implies #[trigger] rest[i].0.len() < u32_limit()
            && rest[i].1.len() < u32_limit() by {
            assert(rest[i] == rs[i + 1]);
        }
        let q = pos + e0.len();
        lemma_piece(s, pos, big, e0.len() as int, big.len() as int);
        assert(big.subrange(e0.len() as int, big.len() as int) =~= er);
        lemma_load_written_entries(s, q, rest);
        lemma_piece(s, pos, big, 0, e0.len() as int);
        assert(big.subrange(0, e0.len() as int) =~= e0);
        lemma_pow256_4_8();
        let head = match r0.2 {
            Some(t) => seq![0xFCu8] + le_bytes(t as nat, 8),
            None => Seq::<u8>::empty(),
        };
        if let Some(t) = r0.2 {
            lemma_le_round(t as nat, 8);
        }
        let ks = string_bytes(r0.0);
        let vs = string_bytes(r0.1);
        let hl = head.len() as int;
        let a = pos + hl;
        assert(e0 =~= head + seq![0u8] + ks + vs);
        assert(s.subrange(pos, q)[hl] == s[a]);
        assert(s[a] == 0u8);
        lemma_piece(s, pos, e0, hl + 1, hl + 1 + ks.len());
        assert(e0.subrange(hl + 1, hl + 1 + ks.len()) =~= ks);
        lemma_read_written_string(s, a + 1, r0.0);
        lemma_piece(s, pos, e0, hl + 1 + ks.len(), e0.len() as int);
        assert(e0.subrange(hl + 1 + ks.len(), e0.len() as int) =~= vs);
        lemma_read_written_string(s, a + 1 + ks.len(), r0.1);
        assert(a + 1 + ks.len() + vs.len() == q);
        match r0.2 {
            Some(t) => {
                assert(s.subrange(pos, q)[0] == s[pos]);
                assert(s[pos] == 0xFCu8);
                lemma_piece(s, pos, e0, 1, 9);
                assert(e0.subrange(1, 9) =~= le_bytes(t as nat, 8));
                assert(load_records(s, a, Some(t)) == Ok::<Seq<Record>, RespError>(
                    seq![(r0.0, r0.1, Some(t))] + rest,
                ));
                assert(load_records(s, pos, None) == load_records(s, a, Some(t)));
            },
            None => {
                assert(load_records(s, pos, None) == Ok::<Seq<Record>, RespError>(
                    seq![(r0.0, r0.1, None::<u64>)] + rest,
                ));
            },
        }
        assert(seq![r0] + rest =~= rs);
    }
}

/// Snapshot round trip: reading the snapshot that the writer emits for
/// records with distinct keys gives those records back, and setting them
/// into an empty keyspace rebuilds the keyspace that they describe, past
/// deadlines included.
#[verifier::rlimit(100)]
pub proof fn snapshot_round_trip(rs: Seq<Record>)
    requires
        unique_keys(rs),
        fits(rs),
    ensures
        parse_snapshot(snapshot_bytes(rs)) == Ok::<Seq<Record>, RespError>(rs),
        apply(Keyspace::empty(), rs) == map_of(rs),
{
    lemma_apply_unique(rs);
    let s = snapshot_bytes(rs);
    lemma_pow256_4_8();
    lemma_le_round(0, 4);
    lemma_expiring_bound(rs);
    let l1 = length_bytes(rs.len());
    let l2 = length_bytes(expiring(rs));
    let e = entries_bytes(rs);
    assert(s =~= header_bytes() + seq![0xFEu8] + le_bytes(0, 4) + seq![0xFBu8] + l1 + l2 + e + seq![0xFFu8]);
    assert(s.subrange(0, 5) =~= magic());
    let ver = s.subrange(5, 9);
    assert(ver =~= seq![48u8, 48u8, 48u8, 54u8]);
    assert(all_digits(ver));
    assert(digit_value(ver) == 6) by {
        reveal_with_fuel(digit_value, 5);
        assert(ver.drop_last() =~= seq![48u8, 48u8, 48u8]);
        assert(ver.drop_last().drop_last() =~= seq![48u8, 48u8]);
        assert(ver.drop_last().drop_last().drop_last() =~= seq![48u8]);
        assert(ver.drop_last().drop_last().drop_last().drop_last() =~= Seq::<u8>::empty());
    }
    let at_count: int = 15;
    assert(s[9] == 0xFEu8);
    assert(s[14] == 0xFBu8);
    assert(s.subrange(at_count, at_count + l1.len()) =~= l1);
    lemma_read_written_length(s, at_count, rs.len());
    let at_expiring = at_count + l1.len();
    assert(s.subrange(at_expiring, at_expiring + l2.len()) =~= l2);
    lemma_read_written_length(s, at_expiring, expiring(rs));
    let at_entries = at_expiring + l2.len();
    assert(s.subrange(at_entries, at_entries + e.len()) =~= e);
    assert(s[at_entries + e.len()] == 0xFFu8);
    lemma_load_written_entries(s, at_entries, rs);
    assert(load_records(s, 14, None) == load_records(s, at_entries, None));
    assert(load_records(s, 9, None) == load_records(s, 14, None));
}

/// Snapshot round trip on a keyspace: loading, into an empty keyspace, the
/// bytes that `save_to_rdb` writes for `saved` succeeds and gives `saved`'s
/// keyspace back, entry for entry.
pub proof fn keyspace_snapshot_round_trip(saved: &Storage, fresh: &Storage)
    requires
        saved.wf(),
        fits(saved.entries()),
        fresh@ == Keyspace::empty(),
    ensures
        parse_snapshot(snapshot_bytes(saved.entries())) is Ok,
        parse_snapshot(snapshot_bytes(saved.entries())) matches Ok(rs) && apply(fresh@, rs) == saved@,
{
    snapshot_round_trip(saved.entries());
}

/// Length encoding: the writer emits one byte for lengths below 64, two
/// below 16384 and five up to the 32-bit limit, the smallest form that
/// holds the length, and reading it back gives the length, whatever
/// follows.
pub proof fn length_encoding_law(n: nat, tail: Seq<u8>)
    requires
        n < u32_limit(),
    ensures
        length_bytes(n).len() == (if n < 64 {
            1int
        } else if n < 16384 {
            2int
        } else {
            5int
        }),
        read_length(length_bytes(n) + tail, 0) == Ok::<(nat, int), RespError>(
            (n, length_bytes(n).len() as int),
        ),
{
    let s = length_bytes(n) + tail;
    assert(s.subrange(0, length_bytes(n).len() as int) =~= length_bytes(n));
    lemma_read_written_length(s, 0, n);
}

/// The reader accepts each of the three general forms: six bits; fourteen
/// bits over two bytes; and a 32-bit big-endian length after a byte whose
/// low six bits are ignored.
pub proof fn length_forms_law(hi: u8, lo: u8, low_bits: u8, w: nat)
    requires
        hi < 64,
        low_bits < 64,
        w < u32_limit(),
    ensures
        read_length(seq![hi], 0) == Ok::<(nat, int), RespError>((hi as nat, 1)),
        read_length(seq![(64 + hi) as u8, lo], 0) == Ok::<(nat, int), RespError>(
            ((hi as nat) * 256 + lo as nat, 2),
        ),
        read_length(seq![(128 + low_bits) as u8] + be_bytes(w, 4), 0) == Ok::<(nat, int), RespError>(
            (w, 5),
        ),
{
    lemma_pow256_4_8();
    lemma_be_round(w, 4);
    let s = seq![(128 + low_bits) as u8] + be_bytes(w, 4);
    assert(s.subrange(1, 5) =~= be_bytes(w, 4));
}

} // verus!
