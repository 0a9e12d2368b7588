//! Byte-string helpers: equality, ASCII case folding, substring search,
//! UTF-8 validity.
use vstd::prelude::*;

verus! {

/// ASCII lower case of one byte; other bytes are unchanged.
pub open spec fn lower_byte(b: u8) -> u8 {
    if 65 <= b <= 90 {
        (b + 32) as u8
    } else {
        b
    }
}

/// Whether `a` and `b` are equal once ASCII letters are folded to lower case.
pub open spec fn eq_ignore_case(a: Seq<u8>, b: Seq<u8>) -> bool {
    a.len() == b.len() && forall|i: int| 0 <= i < a.len() ==> lower_byte(#[trigger] a[i]) == lower_byte(b[i])
}

/// Whether `p` occurs in `s` at position `i`.
pub open spec fn occurs_at(s: Seq<u8>, p: Seq<u8>, i: int) -> bool {
    0 <= i && i + p.len() <= s.len() && s.subrange(i, i + p.len()) == p
}

/// Whether `p` occurs somewhere in `s`.
pub open spec fn contains_bytes(s: Seq<u8>, p: Seq<u8>) -> bool {
    exists|i: int| occurs_at(s, p, i)
}

/// `p` with every `*` deleted.
pub open spec fn strip_stars(p: Seq<u8>) -> Seq<u8>
    decreases p.len(),
{
    if p.len() == 0 {
        p
    } else if p.last() == 42u8 {
        strip_stars(p.drop_last())
    } else {
        strip_stars(p.drop_last()).push(p.last())
    }
}

pub fn bytes_eq(a: &[u8], b: &[u8]) -> (r: bool)
    ensures
        r == (a@ == b@),
{
    if a.len() != b.len() {
        return false;
    }
    let mut i: usize = 0;
    while i < a.len()
        invariant
            i <= a@.len(),
            a@.len() == b@.len(),
            a@.subrange(0, i as int) == b@.subrange(0, i as int),
        decreases a@.len() - i,
    {
        if a[i] != b[i] {
            return false;
        }
        i = i + 1;
        assert(a@.subrange(0, i as int) =~= a@.subrange(0, i - 1).push(a@[i - 1]));
        assert(b@.subrange(0, i as int) =~= b@.subrange(0, i - 1).push(b@[i - 1]));
    }
    assert(a@ =~= a@.subrange(0, i as int));
    assert(b@ =~= b@.subrange(0, i as int));
    true
}

pub fn lower(b: u8) -> (r: u8)
    ensures
        r == lower_byte(b),
{
    if 65u8 <= b && b <= 90u8 {
        b + 32
    } else {
        b
    }
}

/// Compares `a` with `b` ignoring ASCII case.
pub fn bytes_eq_ignore_case(a: &[u8], b: &[u8]) -> (r: bool)
    ensures
        r == eq_ignore_case(a@, b@),
{
    if a.len() != b.len() {
        return false;
    }
    let mut i: usize = 0;
    while i < a.len()
        invariant
            i <= a@.len(),
            a@.len() == b@.len(),
            forall|m: int| 0 <= m < i ==> lower_byte(#[trigger] a@[m]) == lower_byte(b@[m]),
        decreases a@.len() - i,
    {
        if lower(a[i]) != lower(b[i]) {
            return false;
        }
        i = i + 1;
    }
    true
}

fn occurs_at_exec(s: &[u8], p: &[u8], i: usize) -> (r: bool)
    requires
        i + p@.len() <= s@.len(),
    ensures
        r == occurs_at(s@, p@, i as int),
{
    let slen = s.len();
    let mut k: usize = 0;
    while k < p.len()
        invariant
            k <= p@.len(),
            slen == s@.len(),
            i + p@.len() <= s@.len(),
            forall|m: int| 0 <= m < k ==> #[trigger] p@[m] == s@[i + m],
        decreases p@.len() - k,
    {
        if s[i + k] != p[k] {
            assert(s@.subrange(i as int, i + p@.len())[k as int] != p@[k as int]);
            return false;
        }
        k = k + 1;
    }
    assert(s@.subrange(i as int, i + p@.len()) =~= p@);
    true
}

/// Whether `p` occurs in `s`.
pub fn contains(s: &[u8], p: &[u8]) -> (r: bool)
    ensures
        r == contains_bytes(s@, p@),
{
    if p.len() > s.len() {
        assert forall|i: int| !occurs_at(s@, p@, i) by {}
        return false;
    }
    let last = s.len() - p.len();
    let mut i: usize = 0;
    loop
        invariant
            last == s@.len() - p@.len(),
            i <= last,
            forall|m: int| 0 <= m < i ==> !occurs_at(s@, p@, m),
        decreases last - i,
    {
        if occurs_at_exec(s, p, i) {
            return true;
        }
        if i == last {
            assert forall|m: int| !occurs_at(s@, p@, m) by {}
            return false;
        }
        i = i + 1;
    }
}

/// `p` with every `*` deleted.
pub fn without_stars(p: &[u8]) -> (r: Vec<u8>)
    ensures
        r@ == strip_stars(p@),
{
    let mut out: Vec<u8> = Vec::new();
    let mut i: usize = 0;
    assert(p@.subrange(0, 0) =~= Seq::<u8>::empty());
    while i < p.len()
        invariant
            i <= p@.len(),
            out@ == strip_stars(p@.subrange(0, i as int)),
        decreases p@.len() - i,
    {
        let ghost pre = p@.subrange(0, i as int + 1);
        assert(pre.drop_last() =~= p@.subrange(0, i as int));
        if p[i] != 42u8 {
            out.push(p[i]);
        }
        i = i + 1;
    }
    assert(p@.subrange(0, i as int) =~= p@);
    out
}

/// A copy of `v`.
pub fn copy_bytes(v: &Vec<u8>) -> (r: Vec<u8>)
    ensures
        r@ == v@,
{
    vstd::slice::slice_to_vec(v.as_slice())
}

/// Whether `s[k]` exists and lies in `lo..=hi`.
pub open spec fn byte_in(s: Seq<u8>, k: int, lo: u8, hi: u8) -> bool {
    0 <= k < s.len() && lo <= s[k] <= hi
}

/// The length of the well-formed UTF-8 sequence for one scalar value that
/// starts at `i`, or 0 where there is none: the table of well-formed byte
/// sequences of the Unicode standard, which rules out overlong forms,
/// surrogates and values above U+10FFFF.
pub open spec fn utf8_width(s: Seq<u8>, i: int) -> int {
    if i < 0 || i >= s.len() {
        0
    } else if s[i] <= 0x7F {
        1
    } else if 0xC2 <= s[i] <= 0xDF {
        if byte_in(s, i + 1, 0x80, 0xBF) {
            2
        } else {
            0
        }
    } else if 0xE0 <= s[i] <= 0xEF {
        let (lo, hi) = if s[i] == 0xE0 {
            (0xA0u8, 0xBFu8)
        } else if s[i] == 0xED {
            (0x80u8, 0x9Fu8)
        } else {
            (0x80u8, 0xBFu8)
        };
        if byte_in(s, i + 1, lo, hi) && byte_in(s, i + 2, 0x80, 0xBF) {
            3
        } else {
            0
        }
    } else if 0xF0 <= s[i] <= 0xF4 {
        let (lo, hi) = if s[i] == 0xF0 {
            (0x90u8, 0xBFu8)
        } else if s[i] == 0xF4 {
            (0x80u8, 0x8Fu8)
        } else {
            (0x80u8, 0xBFu8)
        };
        if byte_in(s, i + 1, lo, hi) && byte_in(s, i + 2, 0x80, 0xBF) && byte_in(s, i + 3, 0x80, 0xBF) {
            4
        } else {
            0
        }
    } else {
        0
    }
}

/// Whether the bytes of `s` from `i` on are well-formed UTF-8.
pub open spec fn utf8_from(s: Seq<u8>, i: int) -> bool
    decreases s.len() - i,
{
    if i < 0 {
        false
    } else if i >= s.len() {
        true
    } else {
        let w = utf8_width(s, i);
        w > 0 && utf8_from(s, i + w)
    }
}

/// Whether `s` is well-formed UTF-8.
pub open spec fn is_utf8(s: Seq<u8>) -> bool {
    utf8_from(s, 0)
}

fn byte_in_exec(s: &[u8], k: usize, lo: u8, hi: u8) -> (r: bool)
    ensures
        r == byte_in(s@, k as int, lo, hi),
{
    k < s.len() && lo <= s[k] && s[k] <= hi
}

fn utf8_width_at(s: &[u8], i: usize) -> (r: usize)
    requires
        i < s@.len(),
    ensures
        r == utf8_width(s@, i as int),
{
    let _ = s.len();
    let b = s[i];
    if b <= 0x7F {
        1
    } else if 0xC2 <= b && b <= 0xDF {
        if byte_in_exec(s, i + 1, 0x80, 0xBF) {
            2
        } else {
            0
        }
    } else if 0xE0 <= b && b <= 0xEF {
        let (lo, hi) = if b == 0xE0 {
            (0xA0u8, 0xBFu8)
        } else if b == 0xED {
            (0x80u8, 0x9Fu8)
        } else {
            (0x80u8, 0xBFu8)
        };
        if byte_in_exec(s, i + 1, lo, hi) && byte_in_exec(s, i + 2, 0x80, 0xBF) {
            3
        } else {
            0
        }
    } else if 0xF0 <= b && b <= 0xF4 {
        let (lo, hi) = if b == 0xF0 {
            (0x90u8, 0xBFu8)
        } else if b == 0xF4 {
            (0x80u8, 0x8Fu8)
        } else {
            (0x80u8, 0xBFu8)
        };
        if byte_in_exec(s, i + 1, lo, hi) && byte_in_exec(s, i + 2, 0x80, 0xBF) && byte_in_exec(
            s,
            i + 3,
            0x80,
            0xBF,
        ) {
            4
        } else {
            0
        }
    } else {
        0
    }
}

/// Whether `s` is well-formed UTF-8.
pub fn utf8_valid(s: &[u8]) -> (r: bool)
    ensures
        r == is_utf8(s@),
{
    let len = s.len();
    let mut i: usize = 0;
    while i < len
        invariant
            len == s@.len(),
            i <= len,
            is_utf8(s@) == utf8_from(s@, i as int),
        decreases len - i,
    {
        let w = utf8_width_at(s, i);
        if w == 0 {
            return false;
        }
        i = i + w;
    }
    true
}

} // verus!
