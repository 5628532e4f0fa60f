//! The record layout of the latest-quote cache.
//!
//! Each symbol's newest quote is one fixed-size record; its text fields are
//! stored as zero-padded UTF-8 of a fixed width, cut at a character boundary
//! when too long.

use vstd::prelude::*;
use vstd::utf8::{decode_utf8, encode_scalar, encode_utf8, valid_utf8};

use crate::text::{append_str, chars_of, string_from_chars};

verus! {

broadcast use vstd::utf8::group_utf8_lib;

/// Width of the stored trading date.
pub const DATE_BYTES: usize = 16;
/// Width of the stored quote time.
pub const QUOTE_TIME_BYTES: usize = 16;
/// Width of the stored contract name.
pub const NAME_BYTES: usize = 64;
/// Size of one record: the time stamp, nine prices and the three text fields.
pub const QUOTE_RECORD_SIZE: u64 = 176;

/// `"<symbol>.quote"`, the record file of a symbol.
pub fn quote_file_name(symbol: &str) -> (name: String)
    ensures
        name@ == symbol@ + ".quote"@,
{
    let mut v = chars_of(symbol);
    append_str(&mut v, ".quote");
    string_from_chars(v.as_slice())
}

/// `".<symbol>.lock"`, the lock file of a symbol's record.
pub fn quote_lock_name(symbol: &str) -> (name: String)
    ensures
        name@ == seq!['.'] + symbol@ + ".lock"@,
{
    let mut v: Vec<char> = Vec::new();
    v.push('.');
    append_str(&mut v, symbol);
    append_str(&mut v, ".lock");
    proof {
        assert(v@ =~= seq!['.'] + symbol@ + ".lock"@);
    }
    string_from_chars(v.as_slice())
}

/// The UTF-8 encoding of a concatenation is the concatenation of encodings.
pub proof fn lemma_encode_utf8_concat(a: Seq<char>, b: Seq<char>)
    ensures
        encode_utf8(a + b) == encode_utf8(a) + encode_utf8(b),
    decreases a.len(),
{
    if a.len() == 0 {
        assert(a + b =~= b);
        assert(encode_utf8(a) =~= Seq::<u8>::empty());
        assert(encode_utf8(a) + encode_utf8(b) =~= encode_utf8(b));
    } else {
        lemma_encode_utf8_concat(a.drop_first(), b);
        assert((a + b).drop_first() =~= a.drop_first() + b);
        assert((a + b)[0] == a[0]);
        assert(encode_utf8(a + b) =~= encode_utf8(a) + encode_utf8(b));
    }
}

proof fn lemma_encode_take_step(s: Seq<char>, k: int)
    requires
        0 <= k < s.len(),
    ensures
        encode_utf8(s.take(k as int + 1)) == encode_utf8(s.take(k)) + encode_scalar(s[k] as u32),
{
    assert(s.take(k as int + 1) =~= s.take(k) + seq![s[k]]);
    lemma_encode_utf8_concat(s.take(k), seq![s[k]]);
    assert(seq![s[k]].drop_first() =~= Seq::<char>::empty());
    assert(encode_utf8(seq![s[k]]) =~= encode_scalar(s[k] as u32) + encode_utf8(Seq::<char>::empty()));
}

/// The number of UTF-8 bytes of `c`.
fn utf8_width(c: char) -> (w: usize)
    ensures
        w == encode_scalar(c as u32).len(),
        1 <= w <= 4,
{
    let u = c as u32;
    if u <= 0x7F {
        1
    } else if u <= 0x7FF {
        2
    } else if u <= 0xFFFF {
        3
    } else {
        4
    }
}

/// `k` characters of `s` make the longest prefix whose UTF-8 fits in `size`
/// bytes.
pub open spec fn fitting_prefix(s: Seq<char>, size: nat, k: nat) -> bool {
    &&& k <= s.len()
    &&& encode_utf8(s.take(k as int)).len() <= size
    &&& (k == s.len() || encode_utf8(s.take(k as int + 1)).len() > size)
}

/// A text field of `size` bytes holding `value`: the UTF-8 of the longest
/// prefix of `value` that fits, then zero bytes.
pub fn encode_fixed_str(value: &str, size: usize) -> (r: Vec<u8>)
    ensures
        r@.len() == size,
        exists|k: nat| #[trigger] fitting_prefix(value@, size as nat, k) && r@ == encode_utf8(
            value@.take(k as int),
        ) + Seq::new((size - encode_utf8(value@.take(k as int)).len()) as nat, |i: int| 0u8),
{
    let bytes = value.as_bytes();
    let chars = chars_of(value);
    let ghost s = value@;
    let mut k: usize = 0;
    let mut total: usize = 0;
    proof {
        assert(s.take(0) =~= Seq::<char>::empty());
    }
    while k < chars.len()
        invariant_except_break
            chars@ == s,
            k <= chars@.len(),
            total == encode_utf8(s.take(k as int)).len(),
            total <= size,
        ensures
            chars@ == s,
            k <= chars@.len(),
            total == encode_utf8(s.take(k as int)).len(),
            total <= size,
            k == chars@.len() || encode_utf8(s.take(k as int + 1)).len() > size,
        decreases chars@.len() - k,
    {
        let w = utf8_width(chars[k]);
        proof {
            lemma_encode_take_step(s, k as int);
        }
        if w > size - total {
            break;
        }
        total = total + w;
        k = k + 1;
    }
    proof {
        assert(s =~= s.take(k as int) + s.skip(k as int));
        lemma_encode_utf8_concat(s.take(k as int), s.skip(k as int));
        assert(bytes@ == encode_utf8(s));
    }
    let mut out: Vec<u8> = Vec::new();
    let mut i: usize = 0;
    while i < total
        invariant
            i <= total,
            total == encode_utf8(s.take(k as int)).len(),
            bytes@ == encode_utf8(s.take(k as int)) + encode_utf8(s.skip(k as int)),
            out@ == encode_utf8(s.take(k as int)).take(i as int),
        decreases total - i,
    {
        out.push(bytes[i]);
        proof {
            assert(encode_utf8(s.take(k as int)).take(i + 1) =~= encode_utf8(s.take(k as int)).take(i as int).push(bytes@[i as int]));
        }
        i = i + 1;
    }
    let ghost enc = encode_utf8(s.take(k as int));
    proof {
        assert(out@ =~= enc);
    }
    while out.len() < size
        invariant
            total <= size,
            enc.len() == total,
            out@.len() >= total,
            out@.len() <= size,
            out@ == enc + Seq::new((out@.len() - total) as nat, |j: int| 0u8),
        decreases size - out@.len(),
    {
        out.push(0u8);
        proof {
            assert(out@ =~= enc + Seq::new((out@.len() - total) as nat, |j: int| 0u8));
        }
    }
    proof {
        assert(fitting_prefix(s, size as nat, k as nat));
    }
    out
}

/// What `String::from_utf8_lossy` makes of `bytes`.
pub uninterp spec fn utf8_lossy(bytes: Seq<u8>) -> Seq<char>;

/// `String::from_utf8_lossy`: the text of `bytes`, with invalid sequences
/// replaced. The result is stated as the named reading of the bytes, which
/// on valid UTF-8 is the decoded text (as the standard library documents).
#[verifier::external_body]
fn from_utf8_lossy(bytes: &[u8]) -> (r: String)
    ensures
        r@ == utf8_lossy(bytes@),
        valid_utf8(bytes@) ==> r@ == decode_utf8(bytes@),
{
    String::from_utf8_lossy(bytes).into_owned()
}

/// The index of the first zero byte of `b`, or its length.
pub open spec fn first_zero(b: Seq<u8>) -> int
    decreases b.len(),
{
    if b.len() == 0 {
        0
    } else if b[0] == 0 {
        0
    } else {
        1 + first_zero(b.drop_first())
    }
}

/// The text of a stored field: its bytes up to the first zero, read as
/// UTF-8 (invalid sequences replaced).
pub fn decode_fixed_str(bytes: &[u8]) -> (r: String)
    ensures
        r@ == utf8_lossy(bytes@.take(first_zero(bytes@))),
        valid_utf8(bytes@.take(first_zero(bytes@))) ==> r@ == decode_utf8(bytes@.take(first_zero(bytes@))),
{
    let mut end: usize = 0;
    while end < bytes.len() && bytes[end] != 0
        invariant
            end <= bytes@.len(),
            forall|j: int| 0 <= j < end ==> bytes@[j] != 0,
        decreases bytes@.len() - end,
    {
        end = end + 1;
    }
    proof {
        lemma_first_zero_at(bytes@, end as int);
    }
    let mut head: Vec<u8> = Vec::new();
    let mut i: usize = 0;
    while i < end
        invariant
            end <= bytes@.len(),
            i <= end,
            head@ == bytes@.take(i as int),
        decreases end - i,
    {
        head.push(bytes[i]);
        proof {
            assert(bytes@.take(i + 1) =~= bytes@.take(i as int).push(bytes@[i as int]));
        }
        i = i + 1;
    }
    from_utf8_lossy(head.as_slice())
}

proof fn lemma_first_zero_at(b: Seq<u8>, end: int)
    requires
        0 <= end <= b.len(),
        forall|j: int| 0 <= j < end ==> b[j] != 0,
        end == b.len() || b[end] == 0,
    ensures
        first_zero(b) == end,
    decreases end,
{
    if end > 0 {
        let t = b.drop_first();
        assert forall|j: int| 0 <= j < end - 1 implies t[j] != 0 by {
            assert(t[j] == b[j + 1]);
        }
        if end < b.len() {
            assert(t[end - 1] == b[end]);
        }
        lemma_first_zero_at(t, end - 1);
    }
}

/// Only the character U+0000 has a zero byte in its UTF-8 encoding.
proof fn lemma_scalar_bytes_nonzero(c: char)
    requires
        c as u32 != 0,
    ensures
        forall|j: int| 0 <= j < encode_scalar(c as u32).len() ==> #[trigger] encode_scalar(c as u32)[j] != 0,
{
    let v = c as u32;
    if v <= 0x7F {
        assert((v & 0x7F) as u8 != 0) by (bit_vector)
            requires
                v <= 0x7F,
                v != 0,
        ;
    } else {
        assert(0x80u8 | (v & 0x3F) as u8 != 0) by (bit_vector);
        assert(0x80u8 | ((v >> 6) & 0x3F) as u8 != 0) by (bit_vector);
        assert(0x80u8 | ((v >> 12) & 0x3F) as u8 != 0) by (bit_vector);
        assert(0xC0u8 | ((v >> 6) & 0x1F) as u8 != 0) by (bit_vector);
        assert(0xE0u8 | ((v >> 12) & 0x0F) as u8 != 0) by (bit_vector);
        assert(0xF0u8 | ((v >> 18) & 0x7) as u8 != 0) by (bit_vector);
    }
}

proof fn lemma_encode_no_zero(s: Seq<char>)
    requires
        forall|i: int| 0 <= i < s.len() ==> #[trigger] s[i] as u32 != 0,
    ensures
        forall|j: int| 0 <= j < encode_utf8(s).len() ==> #[trigger] encode_utf8(s)[j] != 0,
    decreases s.len(),
{
    if s.len() > 0 {
        let t = s.drop_first();
        assert forall|i: int| 0 <= i < t.len() implies #[trigger] t[i] as u32 != 0 by {
            assert(t[i] == s[i + 1]);
        }
        lemma_encode_no_zero(t);
        lemma_scalar_bytes_nonzero(s[0]);
        let e0 = encode_scalar(s[0] as u32);
        let et = encode_utf8(t);
        assert(encode_utf8(s) == e0 + et);
        assert forall|j: int| 0 <= j < encode_utf8(s).len() implies #[trigger] encode_utf8(s)[j] != 0 by {
            if j < e0.len() {
                assert(encode_utf8(s)[j] == e0[j]);
            } else {
                assert(encode_utf8(s)[j] == et[j - e0.len()]);
            }
        }
    }
}

/// A text without U+0000 whose UTF-8 fits in the field reads back unchanged.
pub proof fn lemma_fixed_str_roundtrip(s: Seq<char>, size: nat, k: nat, field: Seq<u8>)
    requires
        forall|i: int| 0 <= i < s.len() ==> #[trigger] s[i] as u32 != 0,
        encode_utf8(s).len() <= size,
        fitting_prefix(s, size, k),
        field == encode_utf8(s.take(k as int)) + Seq::new((size - encode_utf8(s.take(k as int)).len()) as nat, |i: int| 0u8),
    ensures
        field.take(first_zero(field)) == encode_utf8(s),
        decode_utf8(field.take(first_zero(field))) == s,
        valid_utf8(field.take(first_zero(field))),
{
    assert(k == s.len()) by {
        if k < s.len() {
            assert(s =~= s.take(k as int + 1) + s.skip(k as int + 1));
            lemma_encode_utf8_concat(s.take(k as int + 1), s.skip(k as int + 1));
        }
    }
    assert(s.take(k as int) =~= s);
    let e = encode_utf8(s);
    lemma_encode_no_zero(s);
    assert forall|j: int| 0 <= j < e.len() implies field[j] != 0 by {
        assert(field[j] == e[j]);
    }
    if e.len() < field.len() {
        assert(field[e.len() as int] == 0u8);
    }
    lemma_first_zero_at(field, e.len() as int);
    assert(field.take(e.len() as int) =~= e);
}

} // verus!
