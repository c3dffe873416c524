//! Fixed-width integers and length-prefixed byte strings, as every file format
//! of the engine writes them.

use vstd::prelude::*;
use vstd::arithmetic::div_mod::lemma_div_denominator;
use vstd::arithmetic::power::{lemma_pow0, lemma_pow_positive, pow};
use crate::order::lex_less;

verus! {

/// One more than the largest number a 32-bit length prefix can hold.
pub const LEN_LIMIT: u64 = 0x1_0000_0000;

/// The `width` bytes that hold `value` with the least significant byte first.
/// What does not fit in them is dropped.
pub open spec fn le_bytes(value: nat, width: nat) -> Seq<u8>
    decreases width,
{
    if width == 0 {
        Seq::empty()
    } else {
        seq![(value % 256) as u8] + le_bytes(value / 256, (width - 1) as nat)
    }
}

/// The number that `bytes` hold with the least significant byte first.
pub open spec fn le_value(bytes: Seq<u8>) -> nat
    decreases bytes.len(),
{
    if bytes.len() == 0 {
        0
    } else {
        bytes[0] as nat + 256 * le_value(bytes.skip(1))
    }
}

/// 256 to the power `width`.
pub open spec fn le_limit(width: nat) -> nat
    decreases width,
{
    if width == 0 {
        1
    } else {
        256 * le_limit((width - 1) as nat)
    }
}

/// The number in the four bytes of `s` from `pos` on.
pub open spec fn u32_at(s: Seq<u8>, pos: int) -> nat {
    le_value(s.subrange(pos, pos + 4))
}

/// The number in the eight bytes of `s` from `pos` on.
pub open spec fn u64_at(s: Seq<u8>, pos: int) -> nat {
    le_value(s.subrange(pos, pos + 8))
}

/// What a 32-bit length prefix says of a string of `len` bytes: the length
/// itself as long as it fits, and its low 32 bits beyond that.
pub open spec fn len_prefix(len: nat) -> nat {
    len % (LEN_LIMIT as nat)
}

/// A byte string behind its 32-bit length.
pub open spec fn framed(s: Seq<u8>) -> Seq<u8> {
    le_bytes(len_prefix(s.len()), 4) + s
}

/// The bytes of a document key: `id` with the most significant byte first, so
/// that keys sort as the ids do.
pub open spec fn be_bytes(id: u64) -> Seq<u8> {
    le_bytes(id as nat, 8).reverse()
}

pub proof fn lemma_le_bytes_len(value: nat, width: nat)
    ensures
        le_bytes(value, width).len() == width,
    decreases width,
{
    if width > 0 {
        lemma_le_bytes_len(value / 256, (width - 1) as nat);
    }
}

pub proof fn lemma_le_value_bound(bytes: Seq<u8>)
    ensures
        le_value(bytes) < le_limit(bytes.len()),
    decreases bytes.len(),
{
    if bytes.len() > 0 {
        lemma_le_value_bound(bytes.skip(1));
    }
}

pub proof fn lemma_limits()
    ensures
        le_limit(4) == 0x1_0000_0000,
        le_limit(8) == 0x1_0000_0000_0000_0000,
{
    reveal_with_fuel(le_limit, 9);
}

/// Reading back a number that was written gives that number, as long as it
/// fits in the width it was written with.
pub proof fn law_le_round_trip(value: nat, width: nat)
    requires
        value < le_limit(width),
    ensures
        le_value(le_bytes(value, width)) == value,
    decreases width,
{
    lemma_le_bytes_len(value, width);
    if width > 0 {
        law_le_round_trip(value / 256, (width - 1) as nat);
        assert(le_bytes(value, width).skip(1) =~= le_bytes(value / 256, (width - 1) as nat));
        assert(((value % 256) as u8) as nat == value % 256);
    }
}

proof fn lemma_split_low_byte(low: u8, high: nat)
    ensures
        (low as nat + 256 * high) % 256 == low as nat,
        (low as nat + 256 * high) / 256 == high,
{
}

/// Writing a number that was read gives the bytes that it was read from.
pub proof fn law_le_bytes_of_value(bytes: Seq<u8>)
    ensures
        le_bytes(le_value(bytes), bytes.len()) == bytes,
    decreases bytes.len(),
{
    if bytes.len() > 0 {
        let rest = bytes.skip(1);
        law_le_bytes_of_value(rest);
        lemma_split_low_byte(bytes[0], le_value(rest));
        assert(bytes =~= seq![bytes[0]] + rest);
    } else {
        assert(le_bytes(le_value(bytes), bytes.len()) =~= bytes);
    }
}

/// The bytes of a number, the least significant first: each is the remainder by
/// 256 of what is left when the bytes before it are taken off.
pub proof fn law_le_bytes_are_digits(value: nat, width: nat, i: int)
    requires
        0 <= i < width,
    ensures
        le_bytes(value, width).len() == width,
        le_bytes(value, width)[i] == (value as int / pow(256, i as nat)) % 256,
    decreases width,
{
    lemma_le_bytes_len(value, width);
    lemma_pow0(256);
    if i > 0 {
        let p = pow(256, (i - 1) as nat);
        law_le_bytes_are_digits(value / 256, (width - 1) as nat, i - 1);
        lemma_pow_positive(256, (i - 1) as nat);
        reveal(pow);
        assert(pow(256, i as nat) == 256 * p);
        lemma_div_denominator(value as int, 256, p);
        assert(value as int / (256 * p) == (value as int / 256) / p);
        assert(le_bytes(value, width)[i] == le_bytes(value / 256, (width - 1) as nat)[i - 1]);
    } else {
        assert(value as int / 1 == value);
    }
}

/// The number in four or eight bytes, the least significant first.
pub proof fn law_numbers_in_bytes(s: Seq<u8>, pos: int)
    requires
        0 <= pos,
    ensures
        pos + 4 <= s.len() ==> u32_at(s, pos) == s[pos] + 0x100 * s[pos + 1] + 0x1_0000 * s[pos + 2]
            + 0x100_0000 * s[pos + 3],
        pos + 8 <= s.len() ==> u64_at(s, pos) == u32_at(s, pos) + 0x1_0000_0000 * u32_at(
            s,
            pos + 4,
        ),
{
    if pos + 4 <= s.len() {
        let a = s.subrange(pos, pos + 4);
        assert(a.skip(1).skip(1) =~= a.skip(2));
        assert(a.skip(2).skip(1) =~= a.skip(3));
        assert(a.skip(3).skip(1) =~= Seq::<u8>::empty());
        reveal_with_fuel(le_value, 5);
    }
    if pos + 8 <= s.len() {
        let b = s.subrange(pos, pos + 8);
        lemma_le_value_split(b, 4);
        lemma_limits();
        assert(b.take(4) =~= s.subrange(pos, pos + 4));
        assert(b.skip(4) =~= s.subrange(pos + 4, pos + 8));
    }
}

proof fn lemma_le_value_split(bytes: Seq<u8>, n: nat)
    requires
        n <= bytes.len(),
    ensures
        le_value(bytes) == le_value(bytes.take(n as int)) + le_limit(n) * le_value(
            bytes.skip(n as int),
        ),
    decreases n,
{
    if n == 0 {
        assert(bytes.skip(0) =~= bytes);
        assert(le_limit(0) * le_value(bytes) == le_value(bytes)) by (nonlinear_arith)
            requires
                le_limit(0) == 1,
        ;
        assert(le_value(bytes.take(0)) == 0);
    } else {
        let rest = bytes.skip(1);
        lemma_le_value_split(rest, (n - 1) as nat);
        assert(bytes.take(n as int).skip(1) =~= rest.take(n - 1));
        assert(rest.skip(n - 1) =~= bytes.skip(n as int));
        let low = le_value(rest.take(n - 1)) as int;
        let high = le_value(bytes.skip(n as int)) as int;
        let limit = le_limit((n - 1) as nat) as int;
        assert(256 * (low + limit * high) == 256 * low + (256 * limit) * high) by (nonlinear_arith);
        assert(le_value(rest) == low + limit * high);
        assert(bytes.take(n as int)[0] == bytes[0]);
        assert(le_value(bytes.take(n as int)) == bytes[0] as nat + 256 * low);
        assert(le_limit(n) == 256 * limit);
    }
}

/// A framed string is its length in four bytes and then its bytes.
pub proof fn law_framed_string_layout(s: Seq<u8>)
    requires
        s.len() < 0x1_0000_0000,
    ensures
        framed(s).len() == 4 + s.len(),
        u32_at(framed(s), 0) == s.len(),
        framed(s).skip(4) == s,
{
    lemma_le_bytes_len(len_prefix(s.len()), 4);
    assert(framed(s).subrange(0, framed(s).len() as int) =~= framed(s));
    lemma_framed_at(framed(s), 0, s);
    assert(framed(s).skip(4) =~= s);
}

/// A document's key is its id in eight bytes, the most significant first.
pub proof fn law_doc_key_layout(id: u64, i: int)
    requires
        0 <= i < 8,
    ensures
        be_bytes(id).len() == 8,
        be_bytes(id)[i] == (id as int / pow(256, (7 - i) as nat)) % 256,
{
    law_le_bytes_are_digits(id as nat, 8, 7 - i);
}

/// A field that was framed reads back at the place it was put, as long as its
/// length fits the prefix.
pub proof fn lemma_framed_at(s: Seq<u8>, pos: int, field: Seq<u8>)
    requires
        0 <= pos,
        pos + 4 + field.len() <= s.len(),
        field.len() < LEN_LIMIT,
        s.subrange(pos, pos + 4 + field.len()) == framed(field),
    ensures
        u32_at(s, pos) == field.len(),
        s.subrange(pos + 4, pos + 4 + field.len()) == field,
{
    let n = field.len();
    let part = s.subrange(pos, pos + 4 + n);
    lemma_limits();
    lemma_le_bytes_len(n, 4);
    law_le_round_trip(n, 4);
    assert(s.subrange(pos, pos + 4) =~= part.subrange(0, 4));
    assert(part.subrange(0, 4) =~= le_bytes(n, 4));
    assert(s.subrange(pos + 4, pos + 4 + n) =~= part.subrange(4, 4 + n as int));
    assert(part.subrange(4, 4 + n as int) =~= field);
}

/// Appends `value` in `width` bytes, the least significant first.
fn put_le(out: &mut Vec<u8>, value: u64, width: usize)
    requires
        width <= 8,
    ensures
        final(out)@ == old(out)@ + le_bytes(value as nat, width as nat),
{
    let mut rest: u64 = value;
    let mut i: usize = 0;
    while i < width
        invariant
            i <= width,
            out@ + le_bytes(rest as nat, (width - i) as nat) == old(out)@ + le_bytes(value as nat, width as nat),
        decreases width - i,
    {
        let byte: u8 = (rest % 256) as u8;
        let ghost before = out@;
        out.push(byte);
        proof {
            let w = (width - i) as nat;
            assert(le_bytes(rest as nat, w) == seq![byte] + le_bytes(rest as nat / 256, (w - 1) as nat));
            assert(before + (seq![byte] + le_bytes(rest as nat / 256, (w - 1) as nat))
                =~= out@ + le_bytes(rest as nat / 256, (w - 1) as nat));
        }
        rest = rest / 256;
        i = i + 1;
    }
    assert(out@ + le_bytes(rest as nat, 0) =~= out@);
}

/// The number in the `width` bytes of `buf` from `pos` on.
fn get_le(buf: &[u8], pos: usize, width: usize) -> (value: u64)
    requires
        width <= 8,
        pos + width <= buf@.len(),
    ensures
        value == le_value(buf@.subrange(pos as int, pos + width)),
{
    let ghost field = buf@.subrange(pos as int, pos + width);
    let end: usize = buf.len();
    let mut value: u64 = 0;
    let mut i: usize = width;
    proof {
        assert(field.skip(width as int) =~= Seq::<u8>::empty());
    }
    while i > 0
        invariant
            i <= width <= 8,
            pos + width <= end == buf@.len(),
            field == buf@.subrange(pos as int, pos + width),
            value == le_value(field.skip(i as int)),
        decreases i,
    {
        proof {
            assert(field.skip(i - 1).skip(1) =~= field.skip(i as int));
            lemma_le_value_bound(field.skip(i - 1));
            lemma_le_limit_grows((width - i + 1) as nat, 8);
            lemma_limits();
        }
        i = i - 1;
        value = buf[pos + i] as u64 + 256 * value;
    }
    assert(field.skip(0) =~= field);
    value
}

proof fn lemma_le_limit_grows(a: nat, b: nat)
    requires
        a <= b,
    ensures
        le_limit(a) <= le_limit(b),
    decreases b - a,
{
    if a < b {
        lemma_le_limit_grows((a + 1) as nat, b);
    }
}

pub fn put_u32(out: &mut Vec<u8>, value: u32)
    ensures
        final(out)@ == old(out)@ + le_bytes(value as nat, 4),
{
    put_le(out, value as u64, 4);
}

pub fn put_u64(out: &mut Vec<u8>, value: u64)
    ensures
        final(out)@ == old(out)@ + le_bytes(value as nat, 8),
{
    put_le(out, value, 8);
}

/// Appends the 32-bit length prefix of a string of `len` bytes.
pub fn put_len(out: &mut Vec<u8>, len: usize)
    ensures
        final(out)@ == old(out)@ + le_bytes(len_prefix(len as nat), 4),
{
    let low: u32 = ((len as u64) % LEN_LIMIT) as u32;
    put_u32(out, low);
}

pub fn put_bytes(out: &mut Vec<u8>, bytes: &[u8])
    ensures
        final(out)@ == old(out)@ + bytes@,
{
    out.extend_from_slice(bytes);
    assert(out@ =~= old(out)@ + bytes@);
}

/// Appends `field` behind its length.
pub fn put_framed(out: &mut Vec<u8>, field: &[u8])
    ensures
        final(out)@ == old(out)@ + framed(field@),
{
    put_len(out, field.len());
    put_bytes(out, field);
    assert(out@ =~= old(out)@ + framed(field@));
}

pub fn get_u32(buf: &[u8], pos: usize) -> (value: u32)
    requires
        pos + 4 <= buf@.len(),
    ensures
        value == u32_at(buf@, pos as int),
{
    let value: u64 = get_le(buf, pos, 4);
    proof {
        lemma_limits();
        lemma_le_value_bound(buf@.subrange(pos as int, pos + 4));
    }
    value as u32
}

pub fn get_u64(buf: &[u8], pos: usize) -> (value: u64)
    requires
        pos + 8 <= buf@.len(),
    ensures
        value == u64_at(buf@, pos as int),
{
    get_le(buf, pos, 8)
}

/// A copy of the bytes of `buf` from `from` up to `to`.
pub fn copy_range(buf: &[u8], from: usize, to: usize) -> (out: Vec<u8>)
    requires
        from <= to <= buf@.len(),
    ensures
        out@ == buf@.subrange(from as int, to as int),
{
    let mut out: Vec<u8> = Vec::new();
    put_bytes(&mut out, vstd::slice::slice_subrange(buf, from, to));
    assert(out@ =~= buf@.subrange(from as int, to as int));
    out
}

/// The key under which the document `id` is stored.
pub fn doc_key(id: u64) -> (key: Vec<u8>)
    ensures
        key@ == be_bytes(id),
{
    let mut low_first: Vec<u8> = Vec::new();
    put_u64(&mut low_first, id);
    proof {
        lemma_le_bytes_len(id as nat, 8);
    }
    let mut key: Vec<u8> = Vec::new();
    let mut i: usize = 8;
    while i > 0
        invariant
            i <= 8,
            low_first@.len() == 8,
            key@.len() == 8 - i,
            forall|j: int| 0 <= j < key@.len() ==> key@[j] == low_first@[7 - j],
        decreases i,
    {
        i = i - 1;
        key.push(low_first[i]);
    }
    assert(low_first@ =~= le_bytes(id as nat, 8));
    assert(key@ =~= be_bytes(id));
    key
}

/// Every key of eight bytes is a document's.
pub proof fn lemma_doc_key(key: Seq<u8>) -> (id: u64)
    requires
        key.len() == 8,
    ensures
        be_bytes(id) == key,
{
    let low_first = key.reverse();
    law_le_bytes_of_value(low_first);
    lemma_le_value_bound(low_first);
    lemma_limits();
    let id = le_value(low_first) as u64;
    assert(be_bytes(id) =~= key);
    id
}

/// The document whose key is `key`.
pub fn doc_id(key: &[u8]) -> (id: u64)
    requires
        key@.len() == 8,
    ensures
        be_bytes(id) == key@,
{
    let mut low_first: Vec<u8> = Vec::new();
    let mut i: usize = 8;
    while i > 0
        invariant
            i <= 8,
            key@.len() == 8,
            low_first@.len() == 8 - i,
            forall|j: int| 0 <= j < low_first@.len() ==> low_first@[j] == key@[7 - j],
        decreases i,
    {
        i = i - 1;
        low_first.push(key[i]);
    }
    let id: u64 = get_u64(low_first.as_slice(), 0);
    proof {
        assert(low_first@.subrange(0, 8) =~= low_first@);
        law_le_bytes_of_value(low_first@);
        assert(be_bytes(id) =~= key@);
    }
    id
}

/// Of two strings of the same length the last byte decides only if the bytes
/// before it do not.
proof fn lemma_lex_last(x: Seq<u8>, y: Seq<u8>, a: u8, b: u8)
    requires
        x.len() == y.len(),
    ensures
        lex_less(x.push(a), y.push(b)) == (lex_less(x, y) || (x == y && a < b)),
    decreases x.len(),
{
    let (p, q) = (x.push(a), y.push(b));
    if x.len() > 0 {
        assert(p.skip(1) =~= x.skip(1).push(a));
        assert(q.skip(1) =~= y.skip(1).push(b));
        lemma_lex_last(x.skip(1), y.skip(1), a, b);
        assert(x[0] == y[0] && x.skip(1) == y.skip(1) ==> x == y) by {
            if x[0] == y[0] && x.skip(1) == y.skip(1) {
                assert(x =~= seq![x[0]] + x.skip(1));
                assert(y =~= seq![y[0]] + y.skip(1));
            }
        }
    } else {
        assert(x =~= y);
        assert(!lex_less(p.skip(1), q.skip(1)));
    }
}

proof fn lemma_be_order(a: nat, b: nat, width: nat)
    requires
        a < b,
        b < le_limit(width),
    ensures
        lex_less(le_bytes(a, width).reverse(), le_bytes(b, width).reverse()),
    decreases width,
{
    let w = (width - 1) as nat;
    let (x, y) = (le_bytes(a / 256, w).reverse(), le_bytes(b / 256, w).reverse());
    let (low_a, low_b) = ((a % 256) as u8, (b % 256) as u8);
    lemma_le_bytes_len(a / 256, w);
    lemma_le_bytes_len(b / 256, w);
    assert(le_bytes(a, width).reverse() =~= x.push(low_a));
    assert(le_bytes(b, width).reverse() =~= y.push(low_b));
    lemma_lex_last(x, y, low_a, low_b);
    if a / 256 < b / 256 {
        lemma_be_order(a / 256, b / 256, w);
    }
}

/// Documents' keys sort as their ids do.
pub proof fn law_doc_keys_sort_like_ids(a: u64, b: u64)
    requires
        a < b,
    ensures
        lex_less(be_bytes(a), be_bytes(b)),
{
    lemma_limits();
    lemma_be_order(a as nat, b as nat, 8);
}

/// No two documents share a key.
pub proof fn law_doc_keys_distinct(a: u64, b: u64)
    requires
        be_bytes(a) == be_bytes(b),
    ensures
        a == b,
{
    lemma_limits();
    lemma_le_bytes_len(a as nat, 8);
    lemma_le_bytes_len(b as nat, 8);
    assert(be_bytes(a).reverse() =~= le_bytes(a as nat, 8));
    assert(be_bytes(b).reverse() =~= le_bytes(b as nat, 8));
    law_le_round_trip(a as nat, 8);
    law_le_round_trip(b as nat, 8);
}

} // verus!
