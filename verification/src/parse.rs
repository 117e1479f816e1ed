//! Byte-level parsing primitives shared by the vector-file reader and the
//! cluster-file loader: whitespace scanning, token extraction, decimal
//! integer parsing, ASCII trimming, and little-endian 32-bit reads.

use vstd::prelude::*;

verus! {

/// ASCII whitespace: space, tab, line feed, vertical tab, form feed and
/// carriage return — the whitespace characters of the ASCII range, which
/// delimit header tokens and surround words in the stream.
pub open spec fn is_ascii_ws(b: u8) -> bool {
    b == 32 || b == 9 || b == 10 || b == 11 || b == 12 || b == 13
}

/// Exec mirror of [`is_ascii_ws`].
pub fn byte_is_ws(b: u8) -> (r: bool)
    ensures
        r == is_ascii_ws(b),
{
    b == 32 || b == 9 || b == 10 || b == 11 || b == 12 || b == 13
}

/// First index at or after `from` where `data` holds `b`, or `data.len()`
/// when no such index exists.
pub open spec fn find_byte(data: Seq<u8>, from: int, b: u8) -> int
    decreases data.len() - from,
{
    if from < 0 || from >= data.len() {
        data.len() as int
    } else if data[from] == b {
        from
    } else {
        find_byte(data, from + 1, b)
    }
}

pub proof fn lemma_find_byte(data: Seq<u8>, from: int, b: u8)
    requires
        0 <= from <= data.len(),
    ensures
        from <= find_byte(data, from, b) <= data.len(),
        find_byte(data, from, b) < data.len() ==> data[find_byte(data, from, b)] == b,
        forall|i: int| from <= i < find_byte(data, from, b) ==> data[i] != b,
    decreases data.len() - from,
{
    if from < data.len() && data[from] != b {
        lemma_find_byte(data, from + 1, b);
    }
}

/// Scan forward from `from` for the byte `b`.
pub fn find_byte_in(data: &Vec<u8>, from: usize, b: u8) -> (r: usize)
    requires
        from <= data@.len(),
    ensures
        r == find_byte(data@, from as int, b),
{
    let mut i = from;
    while i < data.len() && data[i] != b
        invariant
            from <= i <= data@.len(),
            find_byte(data@, from as int, b) == find_byte(data@, i as int, b),
        decreases data@.len() - i,
    {
        i = i + 1;
    }
    i
}

/// First index at or after `i` holding a byte that is not ASCII
/// whitespace, or `data.len()` when the rest is all whitespace.
pub open spec fn skip_ws(data: Seq<u8>, i: int) -> int
    decreases data.len() - i,
{
    if i < 0 || i >= data.len() {
        data.len() as int
    } else if is_ascii_ws(data[i]) {
        skip_ws(data, i + 1)
    } else {
        i
    }
}

pub proof fn lemma_skip_ws(data: Seq<u8>, i: int)
    requires
        0 <= i <= data.len(),
    ensures
        i <= skip_ws(data, i) <= data.len(),
        skip_ws(data, i) < data.len() ==> !is_ascii_ws(data[skip_ws(data, i)]),
        forall|j: int| i <= j < skip_ws(data, i) ==> is_ascii_ws(data[j]),
    decreases data.len() - i,
{
    if i < data.len() && is_ascii_ws(data[i]) {
        lemma_skip_ws(data, i + 1);
    }
}

/// End of the token that starts at `i`: the first index at or after `i`
/// holding ASCII whitespace, or `data.len()`.
pub open spec fn token_end(data: Seq<u8>, i: int) -> int
    decreases data.len() - i,
{
    if i < 0 || i >= data.len() {
        data.len() as int
    } else if is_ascii_ws(data[i]) {
        i
    } else {
        token_end(data, i + 1)
    }
}

pub proof fn lemma_token_end(data: Seq<u8>, i: int)
    requires
        0 <= i <= data.len(),
    ensures
        i <= token_end(data, i) <= data.len(),
        token_end(data, i) < data.len() ==> is_ascii_ws(data[token_end(data, i)]),
        forall|j: int| i <= j < token_end(data, i) ==> !is_ascii_ws(data[j]),
    decreases data.len() - i,
{
    if i < data.len() && !is_ascii_ws(data[i]) {
        lemma_token_end(data, i + 1);
    }
}

/// Scan forward from `i` to the first non-whitespace byte.
pub fn skip_ws_in(data: &Vec<u8>, i: usize) -> (r: usize)
    requires
        i <= data@.len(),
    ensures
        r == skip_ws(data@, i as int),
{
    let mut j = i;
    while j < data.len() && byte_is_ws(data[j])
        invariant
            i <= j <= data@.len(),
            skip_ws(data@, i as int) == skip_ws(data@, j as int),
        decreases data@.len() - j,
    {
        j = j + 1;
    }
    j
}

/// Scan forward from `i` to the end of the token starting there.
pub fn token_end_in(data: &Vec<u8>, i: usize) -> (r: usize)
    requires
        i <= data@.len(),
    ensures
        r == token_end(data@, i as int),
{
    let mut j = i;
    while j < data.len() && !byte_is_ws(data[j])
        invariant
            i <= j <= data@.len(),
            token_end(data@, i as int) == token_end(data@, j as int),
        decreases data@.len() - j,
    {
        j = j + 1;
    }
    j
}

/// Copy of `data[start..end]`.
pub fn copy_range(data: &Vec<u8>, start: usize, end: usize) -> (r: Vec<u8>)
    requires
        start <= end <= data@.len(),
    ensures
        r@ == data@.subrange(start as int, end as int),
{
    let mut r: Vec<u8> = Vec::new();
    let mut i = start;
    while i < end
        invariant
            start <= i <= end <= data@.len(),
            r@ == data@.subrange(start as int, i as int),
        decreases end - i,
    {
        r.push(data[i]);
        i = i + 1;
        proof {
            assert(r@ =~= data@.subrange(start as int, i as int));
        }
    }
    r
}

/// Last index before `j` from which the bytes up to `j` are all ASCII
/// whitespace; trimming from the right stops there.
pub open spec fn trim_end_idx(data: Seq<u8>, j: int) -> int
    decreases j,
{
    if j <= 0 || j > data.len() {
        0
    } else if is_ascii_ws(data[j - 1]) {
        trim_end_idx(data, j - 1)
    } else {
        j
    }
}

/// `data` with leading and trailing ASCII whitespace removed.
pub open spec fn trim_ascii_ws(data: Seq<u8>) -> Seq<u8> {
    let a = skip_ws(data, 0);
    let b = trim_end_idx(data, data.len() as int);
    if a <= b {
        data.subrange(a, b)
    } else {
        Seq::empty()
    }
}

/// Remove leading and trailing ASCII whitespace.
pub fn trim_vec(v: &Vec<u8>) -> (r: Vec<u8>)
    ensures
        r@ == trim_ascii_ws(v@),
{
    let mut s: usize = 0;
    while s < v.len() && byte_is_ws(v[s])
        invariant
            0 <= s <= v@.len(),
            skip_ws(v@, 0) == skip_ws(v@, s as int),
        decreases v@.len() - s,
    {
        s = s + 1;
    }
    let mut e: usize = v.len();
    while e > 0 && byte_is_ws(v[e - 1])
        invariant
            0 <= e <= v@.len(),
            trim_end_idx(v@, v@.len() as int) == trim_end_idx(v@, e as int),
        decreases e,
    {
        e = e - 1;
    }
    proof {
        assert(skip_ws(v@, 0) == s as int);
        assert(trim_end_idx(v@, v@.len() as int) == e as int);
    }
    if s >= e {
        proof {
            assert(trim_ascii_ws(v@) =~= Seq::<u8>::empty());
        }
        Vec::new()
    } else {
        copy_range(v, s, e)
    }
}

/// True when `b` is an ASCII decimal digit.
pub open spec fn is_digit(b: u8) -> bool {
    48 <= b <= 57
}

pub open spec fn all_digits(s: Seq<u8>) -> bool {
    forall|i: int| 0 <= i < s.len() ==> is_digit(#[trigger] s[i])
}

/// Value of a run of decimal digits, most significant first.
pub open spec fn digits_value(s: Seq<u8>) -> int
    decreases s.len(),
{
    if s.len() == 0 {
        0
    } else {
        digits_value(s.drop_last()) * 10 + (s.last() as int - 48)
    }
}

pub proof fn lemma_digits_value_nonneg(s: Seq<u8>)
    requires
        all_digits(s),
    ensures
        digits_value(s) >= 0,
    decreases s.len(),
{
    if s.len() > 0 {
        assert(all_digits(s.drop_last()));
        lemma_digits_value_nonneg(s.drop_last());
    }
}

/// A digit run's value only grows as more digits are appended.
pub proof fn lemma_digits_value_prefix_le(s: Seq<u8>, n: int)
    requires
        all_digits(s),
        0 <= n <= s.len(),
    ensures
        digits_value(s.subrange(0, n)) <= digits_value(s),
    decreases s.len() - n,
{
    if n < s.len() {
        lemma_digits_value_prefix_le(s, n + 1);
        let p = s.subrange(0, n);
        let q = s.subrange(0, n + 1);
        assert(q.drop_last() =~= p);
        assert(all_digits(p));
        lemma_digits_value_nonneg(p);
        assert(digits_value(q) == digits_value(p) * 10 + (q.last() as int - 48));
        assert(digits_value(p) * 10 >= digits_value(p));
    } else {
        assert(s.subrange(0, n) =~= s);
    }
}

/// The digit run of an unsigned decimal token: an optional leading `+`
/// is accepted, as `usize::from_str` accepts it.
pub open spec fn uint_digits(t: Seq<u8>) -> Seq<u8> {
    if t.len() > 0 && t[0] == 43 {
        t.drop_first()
    } else {
        t
    }
}

/// True when `t` parses as a `usize`: an optional `+`, then one or more
/// digits, with a value that fits.
pub open spec fn is_uint_token(t: Seq<u8>) -> bool {
    let d = uint_digits(t);
    d.len() > 0 && all_digits(d) && digits_value(d) <= usize::MAX as int
}

pub open spec fn uint_token_value(t: Seq<u8>) -> int {
    digits_value(uint_digits(t))
}

/// Parse `line[start..end]` as a non-negative decimal integer, exactly
/// when the bytes form such a token.
pub fn parse_usize_token(line: &Vec<u8>, start: usize, end: usize) -> (r: Option<usize>)
    requires
        start <= end <= line@.len(),
    ensures
        ({
            let t = line@.subrange(start as int, end as int);
            match r {
                Some(v) => is_uint_token(t) && v as int == uint_token_value(t),
                None => !is_uint_token(t),
            }
        }),
{
    let ghost t = line@.subrange(start as int, end as int);
    let mut i = start;
    if i < end && line[i] == 43 {
        i = i + 1;
    }
    proof {
        assert(uint_digits(t) =~= line@.subrange(i as int, end as int));
    }
    let ghost d = line@.subrange(i as int, end as int);
    if i == end {
        return None;
    }
    let d_start = i;
    let mut v: usize = 0;
    let mut j = i;
    while j < end
        invariant
            start <= d_start <= j <= end <= line@.len(),
            t == line@.subrange(start as int, end as int),
            d == line@.subrange(d_start as int, end as int),
            d == uint_digits(t),
            d.len() > 0,
            forall|k: int| d_start <= k < j ==> is_digit(#[trigger] line@[k]),
            v as int == digits_value(line@.subrange(d_start as int, j as int)),
        decreases end - j,
    {
        let b = line[j];
        if b < 48 || b > 57 {
            proof {
                assert(uint_digits(t) == d);
                assert(d[j - d_start] == line@[j as int]);
                assert(!is_digit(d[j - d_start]));
                assert(!all_digits(d));
            }
            return None;
        }
        let w: u128 = (v as u128) * 10 + ((b - 48) as u128);
        proof {
            let p = line@.subrange(d_start as int, j as int);
            let q = line@.subrange(d_start as int, j + 1);
            assert(q.drop_last() =~= p);
            assert(q.last() == line@[j as int]);
            assert(w as int == digits_value(q));
        }
        if w > usize::MAX as u128 {
            proof {
                assert(uint_digits(t) == d);
                if is_uint_token(t) {
                    assert(all_digits(d));
                    let q = line@.subrange(d_start as int, j + 1);
                    assert(q =~= d.subrange(0, j + 1 - d_start));
                    lemma_digits_value_prefix_le(d, j + 1 - d_start);
                    assert(digits_value(d.subrange(0, j + 1 - d_start)) <= digits_value(d));
                    assert(false);
                }
            }
            return None;
        }
        v = w as usize;
        j = j + 1;
    }
    proof {
        assert(line@.subrange(d_start as int, j as int) =~= d);
        assert(forall|k: int| 0 <= k < d.len() ==> d[k] == line@[d_start + k]);
        assert(all_digits(d));
    }
    Some(v)
}

/// The digit run of a signed decimal token: an optional leading `+` or
/// `-` is accepted, as `i32::from_str` accepts them.
pub open spec fn int_body(t: Seq<u8>) -> Seq<u8> {
    if t.len() > 0 && (t[0] == 43 || t[0] == 45) {
        t.drop_first()
    } else {
        t
    }
}

pub open spec fn int_negative(t: Seq<u8>) -> bool {
    t.len() > 0 && t[0] == 45
}

pub open spec fn i32_token_value(t: Seq<u8>) -> int {
    if int_negative(t) {
        -digits_value(int_body(t))
    } else {
        digits_value(int_body(t))
    }
}

/// True when `t` parses as an `i32`: an optional sign, then one or more
/// digits, with a value in range.
pub open spec fn is_i32_token(t: Seq<u8>) -> bool {
    let d = int_body(t);
    d.len() > 0 && all_digits(d) && i32::MIN as int <= i32_token_value(t) <= i32::MAX as int
}

/// Parse `line[start..end]` as a signed decimal integer, exactly when
/// the bytes form such a token.
pub fn parse_i32_token(line: &Vec<u8>, start: usize, end: usize) -> (r: Option<i32>)
    requires
        start <= end <= line@.len(),
    ensures
        ({
            let t = line@.subrange(start as int, end as int);
            match r {
                Some(v) => is_i32_token(t) && v as int == i32_token_value(t),
                None => !is_i32_token(t),
            }
        }),
{
    let ghost t = line@.subrange(start as int, end as int);
    let mut i = start;
    let mut neg = false;
    if i < end && (line[i] == 43 || line[i] == 45) {
        neg = line[i] == 45;
        i = i + 1;
    }
    proof {
        assert(int_body(t) =~= line@.subrange(i as int, end as int));
        assert(neg == int_negative(t));
    }
    let ghost d = line@.subrange(i as int, end as int);
    if i == end {
        return None;
    }
    let d_start = i;
    let mut m: u128 = 0;
    let mut j = i;
    while j < end
        invariant
            start <= d_start <= j <= end <= line@.len(),
            t == line@.subrange(start as int, end as int),
            d == line@.subrange(d_start as int, end as int),
            d == int_body(t),
            neg == int_negative(t),
            d.len() > 0,
            forall|k: int| d_start <= k < j ==> is_digit(#[trigger] line@[k]),
            m as int == digits_value(line@.subrange(d_start as int, j as int)),
            m <= 0x8000_0000,
        decreases end - j,
    {
        let b = line[j];
        if b < 48 || b > 57 {
            proof {
                assert(int_body(t) == d);
                assert(d[j - d_start] == line@[j as int]);
                assert(!is_digit(d[j - d_start]));
                assert(!all_digits(d));
            }
            return None;
        }
        let w: u128 = m * 10 + ((b - 48) as u128);
        proof {
            let p = line@.subrange(d_start as int, j as int);
            let q = line@.subrange(d_start as int, j + 1);
            assert(q.drop_last() =~= p);
            assert(q.last() == line@[j as int]);
            assert(w as int == digits_value(q));
        }
        if w > 0x8000_0000 {
            proof {
                assert(int_body(t) == d);
                if is_i32_token(t) {
                    assert(all_digits(d));
                    let q = line@.subrange(d_start as int, j + 1);
                    assert(q =~= d.subrange(0, j + 1 - d_start));
                    lemma_digits_value_prefix_le(d, j + 1 - d_start);
                    assert(digits_value(d.subrange(0, j + 1 - d_start)) <= digits_value(d));
                    assert(false);
                }
            }
            return None;
        }
        m = w;
        j = j + 1;
    }
    proof {
        assert(line@.subrange(d_start as int, j as int) =~= d);
        assert(forall|k: int| 0 <= k < d.len() ==> d[k] == line@[d_start + k]);
        assert(all_digits(d));
    }
    if neg {
        if m == 0x8000_0000 {
            Some(i32::MIN)
        } else {
            Some(-((m as u32) as i32))
        }
    } else {
        if m > 0x7fff_ffff {
            None
        } else {
            Some(m as i32)
        }
    }
}

/// The non-negative integers among the whitespace-separated tokens of
/// `line` at or after `i`, in order; tokens that do not parse are
/// passed over.
pub open spec fn uints_from(line: Seq<u8>, i: int) -> Seq<int>
    decreases line.len() - i,
    when 0 <= i
    via uints_from_dec
{
    if i >= line.len() {
        Seq::empty()
    } else if is_ascii_ws(line[i]) {
        uints_from(line, i + 1)
    } else {
        let e = token_end(line, i);
        let t = line.subrange(i, e);
        let rest = uints_from(line, e);
        if is_uint_token(t) {
            seq![uint_token_value(t)] + rest
        } else {
            rest
        }
    }
}

#[via_fn]
proof fn uints_from_dec(line: Seq<u8>, i: int) {
    if 0 <= i && i < line.len() && !is_ascii_ws(line[i]) {
        lemma_token_end(line, i);
        assert(token_end(line, i) == token_end(line, i + 1));
        lemma_token_end(line, i + 1);
    }
}

proof fn lemma_uints_from_skip(line: Seq<u8>, i: int)
    requires
        0 <= i <= line.len(),
    ensures
        uints_from(line, i) == uints_from(line, skip_ws(line, i)),
    decreases line.len() - i,
{
    if i < line.len() && is_ascii_ws(line[i]) {
        lemma_uints_from_skip(line, i + 1);
    }
}

/// Parse a header line: exactly two non-negative integers among its
/// tokens yield `Some` of the pair; any other count yields `None`.
pub fn parse_header_uints(line: &Vec<u8>) -> (r: Option<(usize, usize)>)
    ensures
        ({
            let us = uints_from(line@, 0);
            match r {
                Some(p) => us =~= seq![p.0 as int, p.1 as int],
                None => us.len() != 2,
            }
        }),
{
    let mut count: usize = 0;
    let mut first: usize = 0;
    let mut second: usize = 0;
    let mut i: usize = 0;
    let ghost mut seen: Seq<int> = Seq::empty();
    while i < line.len()
        invariant
            0 <= i <= line@.len(),
            uints_from(line@, 0) == seen + uints_from(line@, i as int),
            count == if seen.len() <= 3 { seen.len() as int } else { 3 },
            count >= 1 ==> first as int == seen[0],
            count >= 2 ==> second as int == seen[1],
        ensures
            i == line@.len(),
        decreases line@.len() - i,
    {
        let n = skip_ws_in(line, i);
        proof {
            lemma_uints_from_skip(line@, i as int);
            lemma_skip_ws(line@, i as int);
        }
        if n == line.len() {
            i = n;
            break;
        }
        let e = token_end_in(line, n);
        proof {
            lemma_token_end(line@, n as int);
        }
        match parse_usize_token(line, n, e) {
            Some(v) => {
                proof {
                    seen = seen.push(uint_token_value(line@.subrange(n as int, e as int)));
                    assert(uints_from(line@, 0) =~= seen + uints_from(line@, e as int));
                }
                if count == 0 {
                    first = v;
                    count = 1;
                } else if count == 1 {
                    second = v;
                    count = 2;
                } else if count == 2 {
                    count = 3;
                }
            },
            None => {
            },
        }
        i = e;
    }
    proof {
        assert(uints_from(line@, line@.len() as int) =~= Seq::<int>::empty());
        assert(uints_from(line@, 0) =~= seen);
    }
    if count == 2 {
        Some((first, second))
    } else {
        None
    }
}

/// The little-endian 32-bit value stored at `data[i..i + 4]`.
pub open spec fn le_u32_at(data: Seq<u8>, i: int) -> u32
    recommends
        0 <= i,
        i + 4 <= data.len(),
{
    ((data[i] as int) + (data[i + 1] as int) * 0x100 + (data[i + 2] as int) * 0x10000 + (data[i
        + 3] as int) * 0x1000000) as u32
}

/// Read the little-endian 32-bit value at `data[i..i + 4]`. The vector
/// file stores each IEEE-754 single-precision component this way; the
/// value returned is its bit pattern.
pub fn read_le_u32(data: &Vec<u8>, i: usize) -> (r: u32)
    requires
        i + 4 <= data@.len(),
    ensures
        r == le_u32_at(data@, i as int),
{
    let n = data.len();
    proof {
        assert(i + 4 <= n);
    }
    let b0 = data[i];
    let b1 = data[i + 1];
    let b2 = data[i + 2];
    let b3 = data[i + 3];
    (b0 as u32) + (b1 as u32) * 0x100 + (b2 as u32) * 0x10000 + (b3 as u32) * 0x1000000
}

/// Relies on `String::from_utf8` from std: it succeeds exactly on valid
/// UTF-8 input and returns the string those bytes encode.
#[verifier::external_body]
pub fn utf8_to_string(bytes: Vec<u8>) -> (r: Option<String>)
    ensures
        r is Some <==> vstd::utf8::valid_utf8(bytes@),
        r matches Some(s) ==> s@ == vstd::utf8::decode_utf8(bytes@),
{
    String::from_utf8(bytes).ok()
}

} // verus!
