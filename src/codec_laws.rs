//! Laws of the frame codec: what decoding an encoded frame gives.
use vstd::prelude::*;
use crate::frame::{
    all_digits, crlf, decimal, decode, decode_items, digit_value, encodable, encode, encode_items,
    find_crlf, i64_limit, is_digit, parse_decimal, Frame, RespError,
};

verus! {

proof fn lemma_decimal(n: nat)
    ensures
        decimal(n).len() >= 1,
        all_digits(decimal(n)),
        digit_value(decimal(n)) == n,
    decreases n,
{
    if n < 10 {
        assert(decimal(n).drop_last() =~= Seq::<u8>::empty());
        assert(digit_value(Seq::<u8>::empty()) == 0);
        assert(decimal(n).last() == 48 + n);
    } else {
        lemma_decimal(n / 10);
        assert(decimal(n).drop_last() =~= decimal(n / 10));
        assert(decimal(n).last() == 48 + n % 10);
        assert((n / 10) * 10 + n % 10 == n) by (nonlinear_arith);
        assert forall|i: int| 0 <= i < decimal(n).len() implies is_digit(#[trigger] decimal(n)[i]) by {
            if i < decimal(n).len() as int - 1 {
                assert(decimal(n)[i] == decimal(n / 10)[i]);
            }
        }
    }
}

proof fn lemma_parse_decimal(n: nat)
    requires
        n < i64_limit(),
    ensures
        parse_decimal(decimal(n)) == Some(n as int),
{
    lemma_decimal(n);
    assert(is_digit(decimal(n)[0]));
}

proof fn lemma_find_crlf_at(s: Seq<u8>, from: int, j: int)
    requires
        1 <= from <= j,
        j + 1 < s.len(),
        s[j] == 13u8,
        s[j + 1] == 10u8,
        forall|m: int| from <= m < j ==> #[trigger] s[m] != 13u8,
    ensures
        find_crlf(s, from) == Some(j),
    decreases j - from,
{
    if from < j {
        lemma_find_crlf_at(s, from + 1, j);
    }
}

proof fn lemma_find_crlf_none(s: Seq<u8>, from: int)
    requires
        1 <= from,
        forall|m: int| from <= m && m + 1 < s.len() ==> !(#[trigger] s[m] == 13u8 && s[m + 1] == 10u8),
    ensures
        find_crlf(s, from) is None,
    decreases s.len() as int - from,
{
    if from + 1 < s.len() {
        lemma_find_crlf_none(s, from + 1);
    }
}

/// The header `lead`, decimal digits of `n`, CRLF, at the start of `buf`.
proof fn lemma_header(buf: Seq<u8>, lead: u8, n: nat)
    requires
        n < i64_limit(),
        buf.len() >= decimal(n).len() as int + 3,
        buf.subrange(0, decimal(n).len() as int + 3) == seq![lead] + decimal(n) + crlf(),
    ensures
        find_crlf(buf, 1) == Some(decimal(n).len() as int + 1),
        buf.subrange(1, decimal(n).len() as int + 1) == decimal(n),
        parse_decimal(buf.subrange(1, decimal(n).len() as int + 1)) == Some(n as int),
{
    let d = decimal(n);
    let h = seq![lead] + d + crlf();
    lemma_decimal(n);
    assert forall|m: int| 1 <= m < d.len() as int + 1 implies #[trigger] buf[m] != 13u8 by {
        assert(buf[m] == h[m]);
        assert(h[m] == d[m - 1]);
        assert(is_digit(d[m - 1]));
    }
    assert(buf[d.len() as int + 1] == h[d.len() as int + 1]);
    assert(buf[d.len() as int + 2] == h[d.len() as int + 2]);
    lemma_find_crlf_at(buf, 1, d.len() as int + 1);
    assert(buf.subrange(1, d.len() as int + 1) =~= h.subrange(1, d.len() as int + 1));
    assert(h.subrange(1, d.len() as int + 1) =~= d);
    lemma_parse_decimal(n);
}

/// A cut of the header `lead`, digits of `n`, CRLF, that ends before the
/// line feed holds no CRLF.
proof fn lemma_header_cut(p: Seq<u8>, lead: u8, n: nat)
    requires
        p.len() < decimal(n).len() as int + 3,
        p == (seq![lead] + decimal(n) + crlf()).subrange(0, p.len() as int),
    ensures
        find_crlf(p, 1) is None,
{
    let d = decimal(n);
    let h = seq![lead] + d + crlf();
    lemma_decimal(n);
    assert forall|m: int| 1 <= m && m + 1 < p.len() implies !(#[trigger] p[m] == 13u8 && p[m + 1]
        == 10u8) by {
        assert(p[m] == h[m]);
        assert(h[m] == d[m - 1]);
        assert(is_digit(d[m - 1]));
    }
    lemma_find_crlf_none(p, 1);
}

proof fn lemma_encode_items_front(items: Seq<Frame>)
    requires
        items.len() > 0,
    ensures
        encode_items(items) == encode(items[0]) + encode_items(items.drop_first()),
    decreases items.len(),
{
    if items.len() == 1 {
        assert(items.drop_last() =~= Seq::<Frame>::empty());
        assert(items.drop_first() =~= Seq::<Frame>::empty());
        assert(encode_items(items) =~= encode(items[0]) + encode_items(items.drop_first()));
    } else {
        let init = items.drop_last();
        lemma_encode_items_front(init);
        assert(init.drop_first() =~= items.drop_first().drop_last());
        assert(items.drop_first().last() == items.last());
        assert(encode_items(items) =~= encode(items[0]) + encode_items(items.drop_first()));
    }
}

/// Decoding the encoding of an encodable frame, followed by any bytes,
/// gives the frame back and takes exactly its encoding.
pub proof fn lemma_decode_encode_prefix(f: Frame, tail: Seq<u8>)
    requires
        encodable(f),
    ensures
        decode(encode(f) + tail) == Ok::<(Frame, nat), RespError>((f, encode(f).len())),
    decreases f,
{
    let buf = encode(f) + tail;
    match f {
        Frame::Simple(s) => {
            assert(buf[0] == 43u8);
            assert forall|m: int| 1 <= m < s.len() as int + 1 implies #[trigger] buf[m] != 13u8 by {
                assert(buf[m] == s[m - 1]);
            }
            assert(buf[s.len() as int + 1] == 13u8);
            assert(buf[s.len() as int + 2] == 10u8);
            lemma_find_crlf_at(buf, 1, s.len() as int + 1);
            assert(buf.subrange(1, s.len() as int + 1) =~= s);
        },
        Frame::Bulk(b) => {
            let d = decimal(b.len());
            assert(buf.subrange(0, d.len() as int + 3) =~= seq![36u8] + d + crlf());
            lemma_header(buf, 36u8, b.len());
            let j = d.len() as int + 1;
            assert(buf[j + 2 + b.len() as int] == 13u8);
            assert(buf[j + 3 + b.len() as int] == 10u8);
            assert(buf.subrange(j + 2, j + 2 + b.len() as int) =~= b);
        },
        Frame::Null => {
            assert(buf[0] == 36u8);
            assert(buf[1] == 45u8);
            assert(buf[2] == 49u8);
            assert(buf[3] == 13u8);
            assert(buf[4] == 10u8);
            lemma_find_crlf_at(buf, 1, 3);
            let line = buf.subrange(1, 3);
            assert(line.drop_first() =~= seq![49u8]);
            assert(seq![49u8].drop_last() =~= Seq::<u8>::empty());
            assert(digit_value(Seq::<u8>::empty()) == 0);
            assert(digit_value(seq![49u8]) == 1);
            assert(parse_decimal(line) == Some(-1int));
        },
        Frame::Array(items) => {
            let d = decimal(items.len());
            let e = encode_items(items);
            assert(buf.subrange(0, d.len() as int + 3) =~= seq![42u8] + d + crlf());
            lemma_header(buf, 42u8, items.len());
            let j = d.len() as int + 1;
            assert(buf.subrange(j + 2, buf.len() as int) =~= e + tail);
            lemma_decode_encode_items(items, tail);
        },
        Frame::Error(_) => {},
    }
}

/// Decoding the encodings of encodable frames one after another gives the
/// frames back.
pub proof fn lemma_decode_encode_items(items: Seq<Frame>, tail: Seq<u8>)
    requires
        forall|i: int| 0 <= i < items.len() ==> encodable(#[trigger] items[i]),
    ensures
        decode_items(encode_items(items) + tail, items.len()) == Ok::<(Seq<Frame>, nat), RespError>(
            (items, encode_items(items).len()),
        ),
    decreases items,
{
    if items.len() == 0 {
        assert(items =~= Seq::<Frame>::empty());
    } else {
        let rest = items.drop_first();
        let e0 = encode(items[0]);
        let er = encode_items(rest);
        lemma_encode_items_front(items);
        assert(encode_items(items) + tail =~= e0 + (er + tail));
        lemma_decode_encode_prefix(items[0], er + tail);
        let buf = encode_items(items) + tail;
        assert(buf.subrange(e0.len() as int, buf.len() as int) =~= er + tail);
        assert forall|i: int| 0 <= i < rest.len() implies encodable(#[trigger] rest[i]) by {
            assert(rest[i] == items[i + 1]);
        }
        lemma_decode_encode_items(rest, tail);
        assert(seq![items[0]] + rest =~= items);
    }
}

/// Decoding a proper prefix of an encodable frame's encoding asks for more
/// bytes.
pub proof fn lemma_decode_encode_cut(f: Frame, m: int)
    requires
        encodable(f),
        0 <= m < encode(f).len(),
    ensures
        decode(encode(f).subrange(0, m)) == Err::<(Frame, nat), RespError>(RespError::Incomplete),
    decreases f,
{
    let full = encode(f);
    let p = full.subrange(0, m);
    if m == 0 {
        return;
    }
    match f {
        Frame::Simple(s) => {
            assert forall|i: int| 1 <= i && i + 1 < p.len() implies !(#[trigger] p[i] == 13u8 && p[i
                + 1] == 10u8) by {
                assert(p[i] == full[i]);
                assert(full[i] == s[i - 1]);
            }
            lemma_find_crlf_none(p, 1);
        },
        Frame::Bulk(b) => {
            let d = decimal(b.len());
            let h = seq![36u8] + d + crlf();
            if m < d.len() as int + 3 {
                assert(p =~= h.subrange(0, m));
                lemma_header_cut(p, 36u8, b.len());
            } else {
                assert(p.subrange(0, d.len() as int + 3) =~= h);
                lemma_header(p, 36u8, b.len());
            }
        },
        Frame::Null => {
            assert forall|i: int| 1 <= i && i + 1 < p.len() implies !(#[trigger] p[i] == 13u8 && p[i
                + 1] == 10u8) by {
                assert(p[i] == full[i]);
            }
            lemma_find_crlf_none(p, 1);
        },
        Frame::Array(items) => {
            let d = decimal(items.len());
            let h = seq![42u8] + d + crlf();
            let e = encode_items(items);
            if m < d.len() as int + 3 {
                assert(p =~= h.subrange(0, m));
                lemma_header_cut(p, 42u8, items.len());
            } else {
                assert(p.subrange(0, d.len() as int + 3) =~= h);
                lemma_header(p, 42u8, items.len());
                let j = d.len() as int + 1;
                assert(p.subrange(j + 2, p.len() as int) =~= e.subrange(0, m - j - 2));
                lemma_decode_encode_items_cut(items, m - j - 2);
            }
        },
        Frame::Error(_) => {},
    }
}

/// Decoding a proper prefix of encoded items asks for more bytes.
pub proof fn lemma_decode_encode_items_cut(items: Seq<Frame>, m: int)
    requires
        forall|i: int| 0 <= i < items.len() ==> encodable(#[trigger] items[i]),
        0 <= m < encode_items(items).len(),
    ensures
        decode_items(encode_items(items).subrange(0, m), items.len()) == Err::<
            (Seq<Frame>, nat),
            RespError,
        >(RespError::Incomplete),
    decreases items,
{
    if items.len() == 0 {
    } else {
        let rest = items.drop_first();
        let e0 = encode(items[0]);
        let er = encode_items(rest);
        let p = encode_items(items).subrange(0, m);
        lemma_encode_items_front(items);
        assert forall|i: int| 0 <= i < rest.len() implies encodable(#[trigger] rest[i]) by {
            assert(rest[i] == items[i + 1]);
        }
        if m < e0.len() {
            assert(p =~= e0.subrange(0, m));
            lemma_decode_encode_cut(items[0], m);
        } else {
            let pr = er.subrange(0, m - e0.len() as int);
            assert(p =~= e0 + pr);
            lemma_decode_encode_prefix(items[0], pr);
            assert(p.subrange(e0.len() as int, p.len() as int) =~= pr);
            lemma_decode_encode_items_cut(rest, m - e0.len() as int);
        }
    }
}

/// Round trip: decoding the encoding of an encodable frame gives the frame
/// back and takes every byte of the encoding.
pub proof fn codec_round_trip(f: Frame)
    requires
        encodable(f),
    ensures
        decode(encode(f)) == Ok::<(Frame, nat), RespError>((f, encode(f).len())),
{
    lemma_decode_encode_prefix(f, Seq::empty());
    assert(encode(f) + Seq::<u8>::empty() =~= encode(f));
}

/// Prefix safety: whatever bytes follow an encoded frame, decoding gives
/// the frame and takes exactly its encoding.
pub proof fn codec_prefix_safety(f: Frame, tail: Seq<u8>)
    requires
        encodable(f),
    ensures
        decode(encode(f) + tail) == Ok::<(Frame, nat), RespError>((f, encode(f).len())),
{
    lemma_decode_encode_prefix(f, tail);
}

/// Partial-frame safety: every proper prefix of an encoded frame decodes
/// to a request for more bytes, never to a value.
pub proof fn codec_partial_frame(f: Frame, m: int)
    requires
        encodable(f),
        0 <= m < encode(f).len(),
    ensures
        decode(encode(f).subrange(0, m)) == Err::<(Frame, nat), RespError>(RespError::Incomplete),
{
    lemma_decode_encode_cut(f, m);
}

} // verus!
