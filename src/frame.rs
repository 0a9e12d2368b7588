//! Frames of the wire protocol: the typed value, its mathematical model,
//! and the codec between values and bytes.
use vstd::prelude::*;
use vstd::slice::{slice_subrange, slice_to_vec};
use crate::text::{is_utf8, utf8_valid};

verus! {

/// One protocol value.
#[derive(Debug)]
pub enum Value {
    SimpleString(Vec<u8>),
    BulkString(Vec<u8>),
    Array(Vec<Value>),
    SimpleError(Vec<u8>),
    Null,
}

/// The mathematical model of a [`Value`].
pub enum Frame {
    Simple(Seq<u8>),
    Bulk(Seq<u8>),
    Array(Seq<Frame>),
    Error(Seq<u8>),
    Null,
}

/// Why a frame, or a snapshot, could not be read.
#[derive(Debug, Clone, Copy, PartialEq, Eq, Structural)]
pub enum RespError {
    /// The buffer holds only the start of a frame: read more and retry.
    Incomplete,
    /// The leading byte names no frame kind that this codec reads.
    UnknownType(u8),
    /// A length line is not a decimal integer that fits in 64 bits.
    InvalidInteger,
    /// A simple string whose line is not well-formed UTF-8.
    InvalidSimpleString,
    /// A bulk string with a negative length other than -1, or whose
    /// payload is not followed by CRLF.
    InvalidBulkString,
    /// A snapshot that is cut short or malformed, or an I/O failure on it.
    BadSnapshot,
    /// A snapshot length form or value type that is not implemented.
    UnsupportedEncoding,
}

impl RespError {
    /// A short human-readable reason.
    pub fn message(&self) -> &'static str {
        match self {
            RespError::Incomplete => "incomplete frame",
            RespError::UnknownType(_) => "unknown value type",
            RespError::InvalidInteger => "invalid integer format",
            RespError::InvalidSimpleString => "invalid simple string",
            RespError::InvalidBulkString => "invalid bulk string",
            RespError::BadSnapshot => "unable to parse or write snapshot",
            RespError::UnsupportedEncoding => "unsupported snapshot encoding",
        }
    }
}

impl Value {
    pub open spec fn model(&self) -> Frame
        decreases self,
    {
        match self {
            Value::SimpleString(s) => Frame::Simple(s@),
            Value::BulkString(b) => Frame::Bulk(b@),
            Value::Array(a) => Frame::Array(
                Seq::new(
                    a.len() as nat,
                    |i: int|
                        if 0 <= i < a.len() {
                            a[i].model()
                        } else {
                            Frame::Null
                        },
                ),
            ),
            Value::SimpleError(e) => Frame::Error(e@),
            Value::Null => Frame::Null,
        }
    }
}

/// The models of a sequence of values.
pub open spec fn models(a: Seq<Value>) -> Seq<Frame> {
    Seq::new(a.len(), |i: int| a[i].model())
}

pub proof fn lemma_array_model(a: Vec<Value>)
    ensures
        Value::Array(a).model() == Frame::Array(models(a@)),
{
    let v = Value::Array(a);
    let fs = Seq::new(
        a.len() as nat,
        |i: int|
            if 0 <= i < a.len() {
                a[i].model()
            } else {
                Frame::Null
            },
    );
    let m = v.model();
    assert(m is Array);
    assert(m->Array_0 =~= models(a@));
}

pub open spec fn crlf() -> Seq<u8> {
    seq![13u8, 10u8]
}

pub open spec fn is_digit(c: u8) -> bool {
    48 <= c <= 57
}

pub open spec fn all_digits(s: Seq<u8>) -> bool {
    forall|i: int| 0 <= i < s.len() ==> is_digit(#[trigger] s[i])
}

/// The number that a sequence of decimal digits spells.
pub open spec fn digit_value(s: Seq<u8>) -> nat
    decreases s.len(),
{
    if s.len() == 0 {
        0
    } else {
        digit_value(s.drop_last()) * 10 + (s.last() - 48) as nat
    }
}

/// The decimal digits of `n`, without leading zeros.
pub open spec fn decimal(n: nat) -> Seq<u8>
    decreases n,
{
    if n < 10 {
        seq![(48 + n) as u8]
    } else {
        decimal(n / 10).push((48 + n % 10) as u8)
    }
}

pub open spec fn i64_limit() -> nat {
    0x8000_0000_0000_0000
}

/// A decimal integer as `i64::from_str` reads it: an optional sign, then at
/// least one digit, within the range of `i64`.
pub open spec fn parse_decimal(s: Seq<u8>) -> Option<int> {
    let signed = s.len() > 0 && (s[0] == 45u8 || s[0] == 43u8);
    let digits = if signed {
        s.drop_first()
    } else {
        s
    };
    if digits.len() == 0 || !all_digits(digits) {
        None
    } else if signed && s[0] == 45u8 {
        if digit_value(digits) <= i64_limit() {
            Some(-digit_value(digits))
        } else {
            None
        }
    } else if digit_value(digits) < i64_limit() {
        Some(digit_value(digits) as int)
    } else {
        None
    }
}

pub open spec fn u64_limit() -> nat {
    0x1_0000_0000_0000_0000
}

/// A decimal integer as `u64::from_str` reads it: an optional `+`, then at
/// least one digit, below 2^64.
pub open spec fn parse_unsigned(s: Seq<u8>) -> Option<nat> {
    let digits = if s.len() > 0 && s[0] == 43u8 {
        s.drop_first()
    } else {
        s
    };
    if digits.len() == 0 || !all_digits(digits) || digit_value(digits) >= u64_limit() {
        None
    } else {
        Some(digit_value(digits))
    }
}

/// The index of the first CRLF that starts at or after `from`.
pub open spec fn find_crlf(s: Seq<u8>, from: int) -> Option<int>
    decreases s.len() - from,
{
    if from < 0 || from + 1 >= s.len() {
        None
    } else if s[from] == 13u8 && s[from + 1] == 10u8 {
        Some(from)
    } else {
        find_crlf(s, from + 1)
    }
}

pub proof fn lemma_find_crlf_bounds(s: Seq<u8>, from: int)
    ensures
        find_crlf(s, from) matches Some(j) ==> from <= j && j + 2 <= s.len() && s[j] == 13u8
            && s[j + 1] == 10u8,
    decreases s.len() - from,
{
    if from < 0 || from + 1 >= s.len() {
    } else if s[from] == 13u8 && s[from + 1] == 10u8 {
    } else {
        lemma_find_crlf_bounds(s, from + 1);
    }
}

/// What decoding the start of `buf` gives: the frame and the number of
/// bytes it takes, or why there is none.
pub open spec fn decode(buf: Seq<u8>) -> Result<(Frame, nat), RespError>
    decreases buf.len(), 0nat, 0nat,
{
    if buf.len() == 0 {
        Err(RespError::Incomplete)
    } else if buf[0] == 43u8 {
        match find_crlf(buf, 1) {
            None => Err(RespError::Incomplete),
            Some(j) => if is_utf8(buf.subrange(1, j)) {
                Ok((Frame::Simple(buf.subrange(1, j)), (j + 2) as nat))
            } else {
                Err(RespError::InvalidSimpleString)
            },
        }
    } else if buf[0] == 36u8 {
        match find_crlf(buf, 1) {
            None => Err(RespError::Incomplete),
            Some(j) => match parse_decimal(buf.subrange(1, j)) {
                None => Err(RespError::InvalidInteger),
                Some(n) => if n == -1 {
                    Ok((Frame::Null, (j + 2) as nat))
                } else if n < -1 {
                    Err(RespError::InvalidBulkString)
                } else if buf.len() < j + 2 + n + 2 {
                    Err(RespError::Incomplete)
                } else if buf[j + 2 + n] != 13u8 || buf[j + 3 + n] != 10u8 {
                    Err(RespError::InvalidBulkString)
                } else {
                    Ok((Frame::Bulk(buf.subrange(j + 2, j + 2 + n)), (j + 4 + n) as nat))
                },
            },
        }
    } else if buf[0] == 42u8 {
        match find_crlf(buf, 1) {
            None => Err(RespError::Incomplete),
            Some(j) => match parse_decimal(buf.subrange(1, j)) {
                None => Err(RespError::InvalidInteger),
                Some(n) => {
                    proof {
                        lemma_find_crlf_bounds(buf, 1);
                    }
                    let k: nat = if n < 0 {
                        0
                    } else {
                        n as nat
                    };
                    match decode_items(buf.subrange(j + 2, buf.len() as int), k) {
                        Err(e) => Err(e),
                        Ok((items, c)) => Ok((Frame::Array(items), (j + 2 + c) as nat)),
                    }
                },
            },
        }
    } else {
        Err(RespError::UnknownType(buf[0]))
    }
}

/// Decoding `k` frames one after another from the start of `rest`.
pub open spec fn decode_items(rest: Seq<u8>, k: nat) -> Result<(Seq<Frame>, nat), RespError>
    decreases rest.len(), 1nat, k,
{
    if k == 0 {
        Ok((Seq::empty(), 0))
    } else {
        match decode(rest) {
            Err(e) => Err(e),
            Ok((f, c)) => if c > rest.len() {
                Err(RespError::Incomplete)
            } else {
                match decode_items(rest.subrange(c as int, rest.len() as int), (k - 1) as nat) {
                    Err(e) => Err(e),
                    Ok((fs, c2)) => Ok((seq![f] + fs, c + c2)),
                }
            },
        }
    }
}

/// The bytes of a frame on the wire.
pub open spec fn encode(f: Frame) -> Seq<u8>
    decreases f,
{
    match f {
        Frame::Simple(s) => seq![43u8] + s + crlf(),
        Frame::Bulk(b) => seq![36u8] + decimal(b.len()) + crlf() + b + crlf(),
        Frame::Error(e) => seq![45u8] + e + crlf(),
        Frame::Array(items) => seq![42u8] + decimal(items.len()) + crlf() + encode_items(items),
        Frame::Null => seq![36u8, 45u8, 49u8, 13u8, 10u8],
    }
}

/// The frames of `items` encoded one after another.
pub open spec fn encode_items(items: Seq<Frame>) -> Seq<u8>
    decreases items,
{
    if items.len() == 0 {
        Seq::empty()
    } else {
        encode_items(items.drop_last()) + encode(items.last())
    }
}

/// A frame that the decoder gives back unchanged from its encoding: simple
/// strings are UTF-8 and hold no CR or LF, lengths fit in a signed 64-bit integer, and
/// no error frames.
pub open spec fn encodable(f: Frame) -> bool
    decreases f,
{
    match f {
        Frame::Simple(s) => is_utf8(s) && forall|i: int|
            0 <= i < s.len() ==> #[trigger] s[i] != 13u8 && s[i] != 10u8,
        Frame::Bulk(b) => b.len() < i64_limit(),
        Frame::Error(_) => false,
        Frame::Array(items) => items.len() < i64_limit() && forall|i: int|
            0 <= i < items.len() ==> encodable(#[trigger] items[i]),
        Frame::Null => true,
    }
}

/// The position of the first CRLF in `buf` after its leading type byte.
fn read_until_crlf(buf: &[u8]) -> (r: Option<usize>)
    ensures
        r matches Some(j) ==> find_crlf(buf@, 1) == Some(j as int),
        r is None ==> find_crlf(buf@, 1) is None,
{
    let n = buf.len();
    if n < 2 {
        return None;
    }
    let mut i: usize = 1;
    while i < n - 1
        invariant
            1 <= i,
            n == buf@.len(),
            n >= 2,
            find_crlf(buf@, 1) == find_crlf(buf@, i as int),
        decreases n - i,
    {
        if buf[i] == 13u8 && buf[i + 1] == 10u8 {
            return Some(i);
        }
        i = i + 1;
    }
    None
}

proof fn lemma_digit_value_prefix(s: Seq<u8>, j: int)
    requires
        0 <= j <= s.len(),
    ensures
        digit_value(s.subrange(0, j)) <= digit_value(s),
    decreases s.len(),
{
    if j < s.len() {
        lemma_digit_value_prefix(s.drop_last(), j);
        assert(s.drop_last().subrange(0, j) =~= s.subrange(0, j));
    } else {
        assert(s.subrange(0, j) =~= s);
    }
}

/// Whether an executable decoding result is what `decode` says of `buf`.
pub open spec fn decodes_as(buf: Seq<u8>, r: Result<(Value, usize), RespError>) -> bool {
    match r {
        Ok((v, n)) => decode(buf) == Ok::<(Frame, nat), RespError>((v.model(), n as nat)),
        Err(e) => decode(buf) == Err::<(Frame, nat), RespError>(e),
    }
}

/// Frames already decoded, put in front of what decoding the rest gives.
pub open spec fn prepend_items(
    done: Seq<Frame>,
    used: nat,
    r: Result<(Seq<Frame>, nat), RespError>,
) -> Result<(Seq<Frame>, nat), RespError> {
    match r {
        Ok((fs, c)) => Ok((done + fs, used + c)),
        Err(e) => Err(e),
    }
}

/// What decoding an array gives, from what decoding its items gives.
pub open spec fn array_result(
    items: Result<(Seq<Frame>, nat), RespError>,
    head: int,
) -> Result<(Frame, nat), RespError> {
    match items {
        Err(e) => Err(e),
        Ok((fs, c)) => Ok((Frame::Array(fs), (head + c) as nat)),
    }
}

/// A decoded frame never takes more bytes than the buffer holds, and at
/// least one.
pub proof fn lemma_decode_consumed(buf: Seq<u8>)
    ensures
        decode(buf) matches Ok((f, c)) ==> 0 < c <= buf.len(),
    decreases buf.len(), 0nat, 0nat,
{
    lemma_find_crlf_bounds(buf, 1);
    if buf.len() > 0 && buf[0] == 42u8 {
        if let Some(j) = find_crlf(buf, 1) {
            if let Some(n) = parse_decimal(buf.subrange(1, j)) {
                let k: nat = if n < 0 {
                    0
                } else {
                    n as nat
                };
                lemma_decode_items_consumed(buf.subrange(j + 2, buf.len() as int), k);
            }
        }
    }
}

pub proof fn lemma_decode_items_consumed(rest: Seq<u8>, k: nat)
    ensures
        decode_items(rest, k) matches Ok((fs, c)) ==> c <= rest.len() && fs.len() == k,
    decreases rest.len(), 1nat, k,
{
    if k > 0 {
        lemma_decode_consumed(rest);
        if let Ok((f, c)) = decode(rest) {
            lemma_decode_items_consumed(rest.subrange(c as int, rest.len() as int), (k - 1) as nat);
        }
    }
}

/// Parses one frame from the start of `buffer`, giving it with the number
/// of bytes it takes.
pub fn parse_message(buffer: &[u8]) -> (r: Result<(Value, usize), RespError>)
    ensures
        decodes_as(buffer@, r),
    decreases buffer@.len(), 1nat,
{
    if buffer.len() == 0 {
        return Err(RespError::Incomplete);
    }
    let t = buffer[0];
    if t == 43u8 {
        RespParser::parse_simple_string(buffer)
    } else if t == 36u8 {
        RespParser::parse_bulk_string(buffer)
    } else if t == 42u8 {
        RespParser::parse_array(buffer)
    } else {
        Err(RespError::UnknownType(t))
    }
}

pub struct RespParser;

impl RespParser {
    fn parse_simple_string(buffer: &[u8]) -> (r: Result<(Value, usize), RespError>)
        requires
            buffer@.len() > 0,
            buffer@[0] == 43u8,
        ensures
            decodes_as(buffer@, r),
    {
        let _ = buffer.len();
        match read_until_crlf(buffer) {
            None => Err(RespError::Incomplete),
            Some(j) => {
                proof {
                    lemma_find_crlf_bounds(buffer@, 1);
                }
                let line = slice_subrange(buffer, 1, j);
                if !utf8_valid(line) {
                    return Err(RespError::InvalidSimpleString);
                }
                Ok((Value::SimpleString(slice_to_vec(line)), j + 2))
            },
        }
    }

    /// Parses a bulk string, or the null bulk string of length -1.
    pub fn parse_bulk_string(buffer: &[u8]) -> (r: Result<(Value, usize), RespError>)
        ensures
            buffer@.len() > 0 && buffer@[0] == 36u8 ==> decodes_as(buffer@, r),
            buffer@.len() == 0 ==> r == Err::<(Value, usize), RespError>(RespError::Incomplete),
            buffer@.len() > 0 && buffer@[0] != 36u8 ==> r == Err::<(Value, usize), RespError>(
                RespError::UnknownType(buffer@[0]),
            ),
    {
        let blen = buffer.len();
        if blen == 0 {
            return Err(RespError::Incomplete);
        }
        if buffer[0] != 36u8 {
            return Err(RespError::UnknownType(buffer[0]));
        }
        let j = match read_until_crlf(buffer) {
            None => {
                return Err(RespError::Incomplete);
            },
            Some(j) => j,
        };
        proof {
            lemma_find_crlf_bounds(buffer@, 1);
        }
        let n = Self::parse_int(slice_subrange(buffer, 1, j))?;
        if n == -1 {
            return Ok((Value::Null, j + 2));
        }
        if n < -1 {
            return Err(RespError::InvalidBulkString);
        }
        let avail = buffer.len() - (j + 2);
        if avail < 2 || (n as u64) > (avail - 2) as u64 {
            return Err(RespError::Incomplete);
        }
        let len = n as usize;
        let end = j + 2 + len;
        if buffer[end] != 13u8 || buffer[end + 1] != 10u8 {
            return Err(RespError::InvalidBulkString);
        }
        let payload = slice_subrange(buffer, j + 2, end);
        Ok((Value::BulkString(slice_to_vec(payload)), end + 2))
    }

    fn parse_array(buffer: &[u8]) -> (r: Result<(Value, usize), RespError>)
        requires
            buffer@.len() > 0,
            buffer@[0] == 42u8,
        ensures
            decodes_as(buffer@, r),
        decreases buffer@.len(), 0nat,
    {
        let j = match read_until_crlf(buffer) {
            None => {
                return Err(RespError::Incomplete);
            },
            Some(j) => j,
        };
        proof {
            lemma_find_crlf_bounds(buffer@, 1);
        }
        let n = Self::parse_int(slice_subrange(buffer, 1, j))?;
        let k: u64 = if n < 0 {
            0
        } else {
            n as u64
        };
        let len = buffer.len();
        let ghost head = (j + 2) as int;
        let ghost whole = decode_items(buffer@.subrange(head, len as int), k as nat);
        let mut items: Vec<Value> = Vec::new();
        let mut off: usize = j + 2;
        let mut i: u64 = 0;
        assert(buffer@.subrange(off as int, len as int) == buffer@.subrange(head, len as int));
        assert(models(items@) =~= Seq::<Frame>::empty());
        assert(decode(buffer@) == array_result(whole, head));
        while i < k
            invariant
                len == buffer@.len(),
                head == j + 2,
                3 <= head <= off <= len,
                i <= k,
                whole == decode_items(buffer@.subrange(head, len as int), k as nat),
                decode(buffer@) == array_result(whole, head),
                whole == prepend_items(
                    models(items@),
                    (off - head) as nat,
                    decode_items(buffer@.subrange(off as int, len as int), (k - i) as nat),
                ),
            decreases k - i,
        {
            let sub = slice_subrange(buffer, off, len);
            let ghost rest = buffer@.subrange(off as int, len as int);
            proof {
                lemma_decode_consumed(rest);
            }
            match parse_message(sub) {
                Err(e) => {
                    assert(decode(rest) == Err::<(Frame, nat), RespError>(e));
                    assert(decode_items(rest, (k - i) as nat) == Err::<(Seq<Frame>, nat), RespError>(e));
                    assert(whole == Err::<(Seq<Frame>, nat), RespError>(e));
                    return Err(e);
                },
                Ok((v, c)) => {
                    let ghost f = v.model();
                    let ghost tail = decode_items(
                        buffer@.subrange((off + c) as int, len as int),
                        (k - i - 1) as nat,
                    );
                    assert(rest.subrange(c as int, rest.len() as int) =~= buffer@.subrange(
                        (off + c) as int,
                        len as int,
                    ));
                    assert(decode_items(rest, (k - i) as nat) == prepend_items(seq![f], c as nat, tail));
                    let ghost before = models(items@);
                    items.push(v);
                    assert(models(items@) =~= before + seq![f]);
                    proof {
                        if let Ok((fs, c2)) = tail {
                            assert(before + (seq![f] + fs) =~= (before + seq![f]) + fs);
                        }
                    }
                    off = off + c;
                    i = i + 1;
                },
            }
        }
        proof {
            lemma_array_model(items);
        }
        let v = Value::Array(items);
        Ok((v, off))
    }

    /// Reads a decimal integer as `u64::from_str` does.
    pub(crate) fn parse_unsigned_int(s: &[u8]) -> (r: Option<u64>)
        ensures
            r matches Some(n) ==> parse_unsigned(s@) == Some(n as nat),
            r is None ==> parse_unsigned(s@) is None,
    {
        let len = s.len();
        let plus = len > 0 && s[0] == 43u8;
        let start: usize = if plus {
            1
        } else {
            0
        };
        let ghost digits = if plus {
            s@.drop_first()
        } else {
            s@
        };
        assert(plus == (s@.len() > 0 && s@[0] == 43u8));
        assert(digits =~= s@.subrange(start as int, len as int));
        if start == len {
            return None;
        }
        let mut acc: u64 = 0;
        let mut i: usize = start;
        while i < len
            invariant
                start <= i <= len,
                len == s@.len(),
                digits == s@.subrange(start as int, len as int),
                plus == (s@.len() > 0 && s@[0] == 43u8),
                digits == (if plus {
                    s@.drop_first()
                } else {
                    s@
                }),
                acc == digit_value(s@.subrange(start as int, i as int)),
                all_digits(s@.subrange(start as int, i as int)),
            decreases len - i,
        {
            let c = s[i];
            let ghost prefix = s@.subrange(start as int, i as int + 1);
            assert(prefix.drop_last() =~= s@.subrange(start as int, i as int));
            if c < 48u8 || c > 57u8 {
                assert(!is_digit(digits[i - start]));
                assert(!all_digits(digits));
                return None;
            }
            let d = (c - 48u8) as u64;
            if acc > (u64::MAX - d) / 10 {
                proof {
                    if all_digits(digits) {
                        assert(prefix =~= digits.subrange(0, i - start + 1));
                        lemma_digit_value_prefix(digits, i - start + 1);
                        assert(prefix.last() == c);
                        assert(digit_value(prefix) == acc * 10 + d);
                        assert(acc * 10 + d >= u64_limit()) by (nonlinear_arith)
                            requires
                                acc > (0xFFFF_FFFF_FFFF_FFFFu64 - d) / 10,
                                d <= 9,
                        ;
                    }
                }
                return None;
            }
            acc = acc * 10 + d;
            i = i + 1;
            assert(all_digits(s@.subrange(start as int, i as int))) by {
                assert forall|m: int| 0 <= m < prefix.len() implies is_digit(#[trigger] prefix[m]) by {
                    if m < prefix.len() - 1 {
                        assert(prefix[m] == s@.subrange(start as int, i - 1)[m]);
                    }
                }
            }
        }
        assert(s@.subrange(start as int, i as int) =~= digits);
        Some(acc)
    }

    /// Reads a decimal integer as `i64::from_str` does.
    pub(crate) fn parse_int(s: &[u8]) -> (r: Result<i64, RespError>)
        ensures
            r matches Ok(n) ==> parse_decimal(s@) == Some(n as int),
            r is Err ==> parse_decimal(s@) is None && r == Err::<i64, RespError>(
                RespError::InvalidInteger,
            ),
    {
        let len = s.len();
        let signed = len > 0 && (s[0] == 45u8 || s[0] == 43u8);
        let start: usize = if signed {
            1
        } else {
            0
        };
        let ghost digits = if signed {
            s@.drop_first()
        } else {
            s@
        };
        assert(signed == (s@.len() > 0 && (s@[0] == 45u8 || s@[0] == 43u8)));
        assert(digits =~= s@.subrange(start as int, len as int));
        if start == len {
            return Err(RespError::InvalidInteger);
        }
        let mut acc: u64 = 0;
        let mut i: usize = start;
        while i < len
            invariant
                start <= i <= len,
                len == s@.len(),
                digits == s@.subrange(start as int, len as int),
                signed == (s@.len() > 0 && (s@[0] == 45u8 || s@[0] == 43u8)),
                digits == (if signed {
                    s@.drop_first()
                } else {
                    s@
                }),
                acc == digit_value(s@.subrange(start as int, i as int)),
                acc <= i64_limit(),
                all_digits(s@.subrange(start as int, i as int)),
            decreases len - i,
        {
            let c = s[i];
            let ghost prefix = s@.subrange(start as int, i as int + 1);
            assert(prefix.drop_last() =~= s@.subrange(start as int, i as int));
            if c < 48u8 || c > 57u8 {
                assert(!is_digit(digits[i - start]));
                assert(!all_digits(digits));
                return Err(RespError::InvalidInteger);
            }
            let d = (c - 48u8) as u64;
            if acc > (0x8000_0000_0000_0000u64 - d) / 10 {
                proof {
                    if all_digits(digits) {
                        assert(prefix =~= digits.subrange(0, i - start + 1));
                        lemma_digit_value_prefix(digits, i - start + 1);
                        assert(prefix.last() == c);
                        assert(digit_value(prefix) == acc * 10 + d);
                        assert(acc * 10 + d > i64_limit()) by (nonlinear_arith)
                            requires
                                acc > (0x8000_0000_0000_0000u64 - d) / 10,
                                d <= 9,
                        ;
                    }
                }
                return Err(RespError::InvalidInteger);
            }
            acc = acc * 10 + d;
            i = i + 1;
            assert(all_digits(s@.subrange(start as int, i as int))) by {
                assert forall|m: int| 0 <= m < prefix.len() implies is_digit(#[trigger] prefix[m]) by {
                    if m < prefix.len() - 1 {
                        assert(prefix[m] == s@.subrange(start as int, i - 1)[m]);
                    }
                }
            }
        }
        assert(s@.subrange(start as int, i as int) =~= digits);
        if signed && s[0] == 45u8 {
            if acc == 0x8000_0000_0000_0000u64 {
                Ok(i64::MIN)
            } else {
                Ok(-(acc as i64))
            }
        } else if acc < 0x8000_0000_0000_0000u64 {
            Ok(acc as i64)
        } else {
            Err(RespError::InvalidInteger)
        }
    }
}

/// Appends the decimal digits of `n`.
pub(crate) fn write_decimal(out: &mut Vec<u8>, n: u64)
    ensures
        final(out)@ == old(out)@ + decimal(n as nat),
    decreases n,
{
    if n >= 10 {
        write_decimal(out, n / 10);
    }
    out.push((48 + n % 10) as u8);
    assert(final(out)@ =~= old(out)@ + decimal(n as nat));
}

/// Appends every byte of `s`.
pub(crate) fn write_bytes(out: &mut Vec<u8>, s: &[u8])
    ensures
        final(out)@ == old(out)@ + s@,
{
    let mut i: usize = 0;
    while i < s.len()
        invariant
            i <= s@.len(),
            out@ == old(out)@ + s@.subrange(0, i as int),
        decreases s@.len() - i,
    {
        out.push(s[i]);
        i = i + 1;
        assert(out@ =~= old(out)@ + s@.subrange(0, i as int));
    }
    assert(s@.subrange(0, i as int) =~= s@);
}

fn write_crlf(out: &mut Vec<u8>)
    ensures
        final(out)@ == old(out)@ + crlf(),
{
    out.push(13u8);
    out.push(10u8);
    assert(final(out)@ =~= old(out)@ + crlf());
}

impl Value {
    /// The bytes of this value on the wire.
    pub fn serialize(&self) -> (r: Vec<u8>)
        ensures
            r@ == encode(self.model()),
    {
        let mut out: Vec<u8> = Vec::new();
        self.write_to(&mut out);
        assert(out@ =~= encode(self.model()));
        out
    }

    fn write_to(&self, out: &mut Vec<u8>)
        ensures
            final(out)@ == old(out)@ + encode(self.model()),
        decreases self,
    {
        match self {
            Value::SimpleString(s) => {
                out.push(43u8);
                write_bytes(out, s.as_slice());
                write_crlf(out);
                assert(final(out)@ =~= old(out)@ + encode(self.model()));
            },
            Value::BulkString(b) => {
                out.push(36u8);
                write_decimal(out, b.len() as u64);
                write_crlf(out);
                write_bytes(out, b.as_slice());
                write_crlf(out);
                assert(final(out)@ =~= old(out)@ + encode(self.model()));
            },
            Value::SimpleError(e) => {
                out.push(45u8);
                write_bytes(out, e.as_slice());
                write_crlf(out);
                assert(final(out)@ =~= old(out)@ + encode(self.model()));
            },
            Value::Null => {
                out.push(36u8);
                out.push(45u8);
                out.push(49u8);
                write_crlf(out);
                assert(final(out)@ =~= old(out)@ + encode(self.model()));
            },
            Value::Array(a) => {
                let ghost fs = models(a@);
                proof {
                    lemma_array_model(*a);
                }
                out.push(42u8);
                write_decimal(out, a.len() as u64);
                write_crlf(out);
                let ghost start = out@;
                let mut i: usize = 0;
                assert(fs.subrange(0, 0) =~= Seq::<Frame>::empty());
                while i < a.len()
                    invariant
                        i <= a@.len(),
                        fs == models(a@),
                        *self is Array && self->Array_0 == *a,
                        out@ == start + encode_items(fs.subrange(0, i as int)),
                    decreases a@.len() - i,
                {
                    proof {
                        vstd::std_specs::vec::axiom_vec_index_decreases(*a, i as int);
                        assert(decreases_to!(*a => a[i as int]));
                        assert(decreases_to!(*self => self->Array_0));
                        assert(decreases_to!(*self => a[i as int]));
                    }
                    a[i].write_to(out);
                    i = i + 1;
                    let ghost pre = fs.subrange(0, i as int);
                    assert(pre.drop_last() =~= fs.subrange(0, i - 1));
                    assert(out@ =~= start + encode_items(pre));
                }
                assert(fs.subrange(0, i as int) =~= fs);
                assert(final(out)@ =~= old(out)@ + encode(self.model()));
            },
        }
    }
}

} // verus!
