//! The byte buffer that every codec reads from and writes to, and the
//! big-endian integer layouts that all box payloads share.
use bytes::{Buf, BufMut, BytesMut};
use vstd::prelude::*;
use vstd::string::StringSliceAdditionalSpecFns;
use vstd::utf8::{decode_utf8, encode_utf8, valid_utf8};

verus! {

#[verifier::external_type_specification]
#[verifier::external_body]
pub struct ExBytesMut(bytes::BytesMut);

/// The bytes a `BytesMut` currently holds, front first.
pub uninterp spec fn buf_bytes(b: BytesMut) -> Seq<u8>;

/// The largest buffer `BytesMut` can grow to (its `remaining_mut` bound).
pub open spec fn max_buf() -> int {
    isize::MAX as int
}

/// Big-endian bytes of a 16-bit value.
pub open spec fn be16(x: u16) -> Seq<u8> {
    seq![(x / 256) as u8, (x % 256) as u8]
}

/// Big-endian bytes of a 24-bit value (the bits above 24 are dropped).
pub open spec fn be24(x: u32) -> Seq<u8> {
    seq![((x / 0x10000) % 256) as u8, ((x / 256) % 256) as u8, (x % 256) as u8]
}

/// Big-endian bytes of a 32-bit value.
pub open spec fn be32(x: u32) -> Seq<u8> {
    seq![(x / 0x1000000) as u8, ((x / 0x10000) % 256) as u8, ((x / 256) % 256) as u8, (x % 256) as u8]
}

/// Big-endian bytes of a 64-bit value.
pub open spec fn be64(x: u64) -> Seq<u8> {
    be32((x / 0x1_0000_0000) as u32) + be32((x % 0x1_0000_0000) as u32)
}

/// `n` zero bytes.
pub open spec fn zeros(n: nat) -> Seq<u8> {
    Seq::new(n, |i: int| 0u8)
}

/// The 16-bit big-endian value stored at `s[i..i + 2]`.
pub open spec fn be16_at(s: Seq<u8>, i: int) -> u16 {
    (s[i] as int * 256 + s[i + 1] as int) as u16
}

/// The 24-bit big-endian value stored at `s[i..i + 3]`.
pub open spec fn be24_at(s: Seq<u8>, i: int) -> u32 {
    (s[i] as int * 0x10000 + s[i + 1] as int * 256 + s[i + 2] as int) as u32
}

/// The 32-bit big-endian value stored at `s[i..i + 4]`.
pub open spec fn be32_at(s: Seq<u8>, i: int) -> u32 {
    (s[i] as int * 0x1000000 + s[i + 1] as int * 0x10000 + s[i + 2] as int * 256
        + s[i + 3] as int) as u32
}

/// The 64-bit big-endian value stored at `s[i..i + 8]`.
pub open spec fn be64_at(s: Seq<u8>, i: int) -> u64 {
    (be32_at(s, i) as int * 0x1_0000_0000 + be32_at(s, i + 4) as int) as u64
}

/// Big-endian bytes of each value of `v`, one after the other.
pub open spec fn be32_seq(v: Seq<u32>) -> Seq<u8>
    decreases v.len(),
{
    if v.len() == 0 {
        Seq::empty()
    } else {
        be32_seq(v.drop_last()) + be32(v.last())
    }
}

pub broadcast proof fn lemma_be16(x: u16)
    ensures
        #[trigger] be16(x).len() == 2,
        be16_at(be16(x), 0) == x,
{
    assert(x as int == (x / 256) * 256 + x % 256) by (nonlinear_arith);
    assert(x / 256 < 256) by (nonlinear_arith);
}

pub broadcast proof fn lemma_be24(x: u32)
    ensures
        #[trigger] be24(x).len() == 3,
        be24_at(be24(x), 0) == x % 0x1000000,
{
    let a = x / 256;
    let b = a / 256;
    assert(x as int == a * 256 + x % 256) by (nonlinear_arith)
        requires a == x / 256;
    assert(a as int == b * 256 + a % 256) by (nonlinear_arith)
        requires b == a / 256;
    assert(x / 0x10000 == b) by (nonlinear_arith)
        requires a == x / 256, b == a / 256;
    assert(x % 0x1000000 == (b % 256) * 0x10000 + (a % 256) * 256 + x % 256) by (nonlinear_arith)
        requires x as int == a * 256 + x % 256, a as int == b * 256 + a % 256;
}

pub broadcast proof fn lemma_be32(x: u32)
    ensures
        #[trigger] be32(x).len() == 4,
        be32_at(be32(x), 0) == x,
{
    let a = x / 256;
    let b = a / 256;
    let c = b / 256;
    assert(x as int == a * 256 + x % 256) by (nonlinear_arith)
        requires a == x / 256;
    assert(a as int == b * 256 + a % 256) by (nonlinear_arith)
        requires b == a / 256;
    assert(b as int == c * 256 + b % 256) by (nonlinear_arith)
        requires c == b / 256;
    assert(x / 0x10000 == b) by (nonlinear_arith)
        requires a == x / 256, b == a / 256;
    assert(x / 0x1000000 == c) by (nonlinear_arith)
        requires a == x / 256, b == a / 256, c == b / 256;
    assert(c < 256) by (nonlinear_arith)
        requires c == x / 0x1000000;
}

pub broadcast proof fn lemma_be64(x: u64)
    ensures
        #[trigger] be64(x).len() == 8,
        be64_at(be64(x), 0) == x,
{
    let hi = (x / 0x1_0000_0000) as u32;
    let lo = (x % 0x1_0000_0000) as u32;
    lemma_be32(hi);
    lemma_be32(lo);
    let s = be64(x);
    assert(be32_at(s, 0) == be32_at(be32(hi), 0));
    assert(be32_at(s, 4) == be32_at(be32(lo), 0));
    assert(x as int == (x / 0x1_0000_0000) * 0x1_0000_0000 + x % 0x1_0000_0000) by (nonlinear_arith);
}

pub broadcast proof fn lemma_skip_skip(s: Seq<u8>, a: int, b: int)
    requires
        0 <= a,
        0 <= b,
        a + b <= s.len(),
    ensures
        #[trigger] s.skip(a).skip(b) == s.skip(a + b),
{
    assert(s.skip(a).skip(b) =~= s.skip(a + b));
}

#[verifier::rlimit(100)]
#[verifier::spinoff_prover]
pub proof fn lemma_read_skip(s: Seq<u8>, a: int)
    requires
        0 <= a <= s.len(),
    ensures
        a + 2 <= s.len() ==> be16_at(s.skip(a), 0) == be16_at(s, a),
        a + 4 <= s.len() ==> be32_at(s.skip(a), 0) == be32_at(s, a),
        a + 8 <= s.len() ==> be64_at(s.skip(a), 0) == be64_at(s, a),
        a + 1 <= s.len() ==> s.skip(a)[0] == s[a],
{
}

pub broadcast group group_be {
    lemma_be16,
    lemma_be24,
    lemma_be32,
    lemma_be64,
    lemma_skip_skip,
}

/// The bytes of an optional 32-bit field: nothing when absent.
pub open spec fn opt32(o: Option<u32>) -> Seq<u8> {
    match o {
        Some(x) => be32(x),
        None => Seq::empty(),
    }
}

/// The bytes of an optional 64-bit field: nothing when absent.
pub open spec fn opt64(o: Option<u64>) -> Seq<u8> {
    match o {
        Some(x) => be64(x),
        None => Seq::empty(),
    }
}

/// The optional 32-bit field at the front of `r`, read when `present`.
pub open spec fn read_opt32(present: bool, r: Seq<u8>) -> Option<u32> {
    if present {
        Some(be32_at(r, 0))
    } else {
        None
    }
}

/// The optional 64-bit field at the front of `r`, read when `present`.
pub open spec fn read_opt64(present: bool, r: Seq<u8>) -> Option<u64> {
    if present {
        Some(be64_at(r, 0))
    } else {
        None
    }
}

/// What follows an optional field of `n` bytes at the front of `r`.
pub open spec fn after_opt(present: bool, r: Seq<u8>, n: int) -> Seq<u8> {
    if present {
        r.skip(n)
    } else {
        r
    }
}

#[verifier::rlimit(100)]
#[verifier::spinoff_prover]
pub proof fn lemma_opt32_read(o: Option<u32>, rest: Seq<u8>)
    ensures
        read_opt32(o is Some, opt32(o) + rest) == o,
        after_opt(o is Some, opt32(o) + rest, 4) == rest,
{
    broadcast use group_be;
    if let Some(v) = o {
        assert(be32_at(opt32(o) + rest, 0) == be32_at(be32(v), 0));
        assert((opt32(o) + rest).skip(4) =~= rest);
    } else {
        assert(opt32(o) + rest =~= rest);
    }
}

#[verifier::rlimit(100)]
#[verifier::spinoff_prover]
pub proof fn lemma_opt64_read(o: Option<u64>, rest: Seq<u8>)
    ensures
        read_opt64(o is Some, opt64(o) + rest) == o,
        after_opt(o is Some, opt64(o) + rest, 8) == rest,
{
    broadcast use group_be;
    if let Some(v) = o {
        assert(be64_at(opt64(o) + rest, 0) == be64_at(be64(v), 0));
        assert((opt64(o) + rest).skip(8) =~= rest);
    } else {
        assert(opt64(o) + rest =~= rest);
    }
}

/// Whether the flag bit with value `bit` (a power of two) is set in `f`.
#[verifier::opaque]
pub open spec fn has_bit(f: u32, bit: int) -> bool {
    (f as int / bit) % 2 == 1
}

#[verifier::rlimit(100)]
#[verifier::spinoff_prover]
pub proof fn lemma_be32_seq(v: Seq<u32>)
    ensures
        be32_seq(v).len() == 4 * v.len(),
        forall|i: int| 0 <= i < v.len() ==> #[trigger] be32_at(be32_seq(v), 4 * i) == v[i],
    decreases v.len(),
{
    broadcast use group_be;
    if v.len() > 0 {
        lemma_be32_seq(v.drop_last());
        let p = be32_seq(v.drop_last());
        let s = be32_seq(v);
        assert forall|i: int| 0 <= i < v.len() implies #[trigger] be32_at(s, 4 * i) == v[i] by {
            if i < v.len() - 1 {
                assert(be32_at(s, 4 * i) == be32_at(p, 4 * i));
                assert(v.drop_last()[i] == v[i]);
            } else {
                assert(be32_at(s, 4 * i) == be32_at(be32(v.last()), 0));
            }
        }
    }
}

/// Relies on `BytesMut::new`: a new buffer is empty.
#[verifier::external_body]
pub(crate) fn buf_new() -> (r: BytesMut)
    ensures
        buf_bytes(r) == Seq::<u8>::empty(),
{
    BytesMut::new()
}

/// Relies on `BytesMut::len`: the number of bytes held.
#[verifier::external_body]
pub(crate) fn buf_len(b: &BytesMut) -> (r: usize)
    ensures
        r == buf_bytes(*b).len(),
{
    b.len()
}

/// Relies on `Buf::chunk` for `BytesMut`: the whole contents as one slice.
#[verifier::external_body]
pub(crate) fn buf_slice(b: &BytesMut) -> (r: &[u8])
    ensures
        r@ == buf_bytes(*b),
{
    b.chunk()
}

/// Relies on `Buf::get_u8`: takes the first byte; panics on an empty buffer.
#[verifier::external_body]
pub(crate) fn take_u8(b: &mut BytesMut) -> (r: u8)
    requires
        buf_bytes(*old(b)).len() >= 1,
    ensures
        r == buf_bytes(*old(b))[0],
        buf_bytes(*final(b)) == buf_bytes(*old(b)).skip(1),
{
    b.get_u8()
}

/// Relies on `Buf::get_u16`: takes two bytes as a big-endian value; panics
/// when fewer remain.
#[verifier::external_body]
pub(crate) fn take_u16(b: &mut BytesMut) -> (r: u16)
    requires
        buf_bytes(*old(b)).len() >= 2,
    ensures
        r == be16_at(buf_bytes(*old(b)), 0),
        buf_bytes(*final(b)) == buf_bytes(*old(b)).skip(2),
{
    b.get_u16()
}

/// Relies on `Buf::get_i16`: takes two bytes as a big-endian two's-complement
/// value; panics when fewer remain.
#[verifier::external_body]
pub(crate) fn take_i16(b: &mut BytesMut) -> (r: i16)
    requires
        buf_bytes(*old(b)).len() >= 2,
    ensures
        r as int == signed16(be16_at(buf_bytes(*old(b)), 0)),
        buf_bytes(*final(b)) == buf_bytes(*old(b)).skip(2),
{
    b.get_i16()
}

/// Relies on `Buf::get_i32`: takes four bytes as a big-endian
/// two's-complement value; panics when fewer remain.
#[verifier::external_body]
pub(crate) fn take_i32(b: &mut BytesMut) -> (r: i32)
    requires
        buf_bytes(*old(b)).len() >= 4,
    ensures
        r as int == signed32(be32_at(buf_bytes(*old(b)), 0)),
        buf_bytes(*final(b)) == buf_bytes(*old(b)).skip(4),
{
    b.get_i32()
}

/// Relies on `Buf::get_i64`: takes eight bytes as a big-endian
/// two's-complement value; panics when fewer remain.
#[verifier::external_body]
pub(crate) fn take_i64(b: &mut BytesMut) -> (r: i64)
    requires
        buf_bytes(*old(b)).len() >= 8,
    ensures
        r as int == signed64(be64_at(buf_bytes(*old(b)), 0)),
        buf_bytes(*final(b)) == buf_bytes(*old(b)).skip(8),
{
    b.get_i64()
}

/// Relies on `Buf::get_u32`: takes four bytes as a big-endian value; panics
/// when fewer remain.
#[verifier::external_body]
pub(crate) fn take_u32(b: &mut BytesMut) -> (r: u32)
    requires
        buf_bytes(*old(b)).len() >= 4,
    ensures
        r == be32_at(buf_bytes(*old(b)), 0),
        buf_bytes(*final(b)) == buf_bytes(*old(b)).skip(4),
{
    b.get_u32()
}

/// Relies on `Buf::get_u64`: takes eight bytes as a big-endian value; panics
/// when fewer remain.
#[verifier::external_body]
pub(crate) fn take_u64(b: &mut BytesMut) -> (r: u64)
    requires
        buf_bytes(*old(b)).len() >= 8,
    ensures
        r == be64_at(buf_bytes(*old(b)), 0),
        buf_bytes(*final(b)) == buf_bytes(*old(b)).skip(8),
{
    b.get_u64()
}

/// Relies on `BytesMut::split_to`: the first `at` bytes move into the result
/// and the rest stay; panics when `at` exceeds the length.
#[verifier::external_body]
pub(crate) fn take_bytes(b: &mut BytesMut, at: usize) -> (r: BytesMut)
    requires
        at <= buf_bytes(*old(b)).len(),
    ensures
        buf_bytes(r) == buf_bytes(*old(b)).take(at as int),
        buf_bytes(*final(b)) == buf_bytes(*old(b)).skip(at as int),
{
    b.split_to(at)
}

/// Relies on `BufMut::put_u8` for `BytesMut`: appends the byte.
#[verifier::external_body]
pub(crate) fn put_u8(b: &mut BytesMut, x: u8)
    requires
        buf_bytes(*old(b)).len() + 1 <= max_buf(),
    ensures
        buf_bytes(*final(b)) == buf_bytes(*old(b)).push(x),
{
    b.put_u8(x)
}

/// Relies on `BufMut::put_u16` for `BytesMut`: appends the big-endian bytes.
#[verifier::external_body]
pub(crate) fn put_u16(b: &mut BytesMut, x: u16)
    requires
        buf_bytes(*old(b)).len() + 2 <= max_buf(),
    ensures
        buf_bytes(*final(b)) == buf_bytes(*old(b)) + be16(x),
{
    b.put_u16(x)
}

/// Relies on `BufMut::put_i16` for `BytesMut`: appends the big-endian
/// two's-complement bytes.
#[verifier::external_body]
pub(crate) fn put_i16(b: &mut BytesMut, x: i16)
    requires
        buf_bytes(*old(b)).len() + 2 <= max_buf(),
    ensures
        buf_bytes(*final(b)) == buf_bytes(*old(b)) + be16(unsigned16(x as int)),
{
    b.put_i16(x)
}

/// Relies on `BufMut::put_i32` for `BytesMut`: appends the big-endian
/// two's-complement bytes.
#[verifier::external_body]
pub(crate) fn put_i32(b: &mut BytesMut, x: i32)
    requires
        buf_bytes(*old(b)).len() + 4 <= max_buf(),
    ensures
        buf_bytes(*final(b)) == buf_bytes(*old(b)) + be32(unsigned32(x as int)),
{
    b.put_i32(x)
}

/// Relies on `BufMut::put_i64` for `BytesMut`: appends the big-endian
/// two's-complement bytes.
#[verifier::external_body]
pub(crate) fn put_i64(b: &mut BytesMut, x: i64)
    requires
        buf_bytes(*old(b)).len() + 8 <= max_buf(),
    ensures
        buf_bytes(*final(b)) == buf_bytes(*old(b)) + be64(unsigned64(x as int)),
{
    b.put_i64(x)
}

/// Relies on `BufMut::put_u32` for `BytesMut`: appends the big-endian bytes.
#[verifier::external_body]
pub(crate) fn put_u32(b: &mut BytesMut, x: u32)
    requires
        buf_bytes(*old(b)).len() + 4 <= max_buf(),
    ensures
        buf_bytes(*final(b)) == buf_bytes(*old(b)) + be32(x),
{
    b.put_u32(x)
}

/// Relies on `BufMut::put_u64` for `BytesMut`: appends the big-endian bytes.
#[verifier::external_body]
pub(crate) fn put_u64(b: &mut BytesMut, x: u64)
    requires
        buf_bytes(*old(b)).len() + 8 <= max_buf(),
    ensures
        buf_bytes(*final(b)) == buf_bytes(*old(b)) + be64(x),
{
    b.put_u64(x)
}

/// Relies on `BufMut::put_bytes` for `BytesMut`: appends `n` copies of zero.
#[verifier::external_body]
pub(crate) fn put_zeros(b: &mut BytesMut, n: usize)
    requires
        buf_bytes(*old(b)).len() + n <= max_buf(),
    ensures
        buf_bytes(*final(b)) == buf_bytes(*old(b)) + zeros(n as nat),
{
    b.put_bytes(0, n)
}

/// Relies on `BufMut::put_slice` for `BytesMut`: appends the slice.
#[verifier::external_body]
pub(crate) fn put_slice(b: &mut BytesMut, s: &[u8])
    requires
        buf_bytes(*old(b)).len() + s@.len() <= max_buf(),
    ensures
        buf_bytes(*final(b)) == buf_bytes(*old(b)) + s@,
{
    b.put_slice(s)
}

/// The two's-complement reading of a 16-bit pattern.
pub open spec fn signed16(x: u16) -> int {
    if x >= 0x8000 {
        x as int - 0x10000
    } else {
        x as int
    }
}

/// The two's-complement reading of a 32-bit pattern.
pub open spec fn signed32(x: u32) -> int {
    if x >= 0x8000_0000 {
        x as int - 0x1_0000_0000
    } else {
        x as int
    }
}

/// The 32-bit pattern of a value in `i32` range.
pub open spec fn unsigned32(x: int) -> u32 {
    if x < 0 {
        (x + 0x1_0000_0000) as u32
    } else {
        x as u32
    }
}

/// The two's-complement reading of a 64-bit pattern.
pub open spec fn signed64(x: u64) -> int {
    if x >= 0x8000_0000_0000_0000 {
        x as int - 0x1_0000_0000_0000_0000
    } else {
        x as int
    }
}

/// The 64-bit pattern of a value in `i64` range.
pub open spec fn unsigned64(x: int) -> u64 {
    if x < 0 {
        (x + 0x1_0000_0000_0000_0000) as u64
    } else {
        x as u64
    }
}

/// The 16-bit pattern of a value in `i16` range.
pub open spec fn unsigned16(x: int) -> u16 {
    if x < 0 {
        (x + 0x10000) as u16
    } else {
        x as u16
    }
}

/// Appends all bytes of `src` to `w`.
pub fn put_buf(w: &mut BytesMut, src: &BytesMut)
    requires
        buf_bytes(*old(w)).len() + buf_bytes(*src).len() <= max_buf(),
    ensures
        buf_bytes(*final(w)) == buf_bytes(*old(w)) + buf_bytes(*src),
{
    let s = buf_slice(src);
    put_slice(w, s);
}

/// Reads `n` big-endian words from `r` into a new vector.
pub fn take_words(r: &mut BytesMut, n: usize) -> (v: Vec<u32>)
    requires
        4 * n <= buf_bytes(*old(r)).len(),
    ensures
        v@.len() == n,
        forall|i: int| 0 <= i < n ==> v@[i] == be32_at(buf_bytes(*old(r)), 4 * i),
        buf_bytes(*final(r)) == buf_bytes(*old(r)).skip(4 * n),
{
    let ghost s = buf_bytes(*r);
    let mut v: Vec<u32> = Vec::new();
    let mut i: usize = 0;
    assert(s.skip(0) =~= s);
    while i < n
        invariant
            i <= n,
            4 * n <= s.len(),
            buf_bytes(*r) == s.skip(4 * i),
            v@.len() == i,
            forall|j: int| 0 <= j < i ==> v@[j] == be32_at(s, 4 * j),
        decreases n - i,
    {
        proof {
            lemma_read_skip(s, 4 * i as int);
        }
        let x = take_u32(r);
        proof {
            lemma_skip_skip(s, 4 * i as int, 4);
        }
        v.push(x);
        i = i + 1;
    }
    v
}

/// Appends the big-endian bytes of each word of `v`.
pub fn put_words(w: &mut BytesMut, v: &[u32])
    requires
        buf_bytes(*old(w)).len() + 4 * v@.len() <= max_buf(),
    ensures
        buf_bytes(*final(w)) == buf_bytes(*old(w)) + be32_seq(v@),
{
    let ghost w0 = buf_bytes(*w);
    let mut i: usize = 0;
    assert(v@.take(0) =~= Seq::<u32>::empty());
    assert(w0 + be32_seq(Seq::<u32>::empty()) =~= w0);
    while i < v.len()
        invariant
            i <= v@.len(),
            w0.len() + 4 * v@.len() <= max_buf(),
            buf_bytes(*w) == w0 + be32_seq(v@.take(i as int)),
        decreases v@.len() - i,
    {
        proof {
            lemma_be32_seq(v@.take(i as int));
        }
        put_u32(w, v[i]);
        proof {
            let t = v@.take(i as int + 1);
            assert(t.drop_last() =~= v@.take(i as int));
            assert(buf_bytes(*w) =~= w0 + be32_seq(t));
        }
        i = i + 1;
    }
    assert(v@.take(i as int) =~= v@);
}

/// Relies on `std::str::from_utf8`: it succeeds exactly on valid UTF-8,
/// and the text it returns is encoded by those bytes.
#[verifier::external_body]
pub(crate) fn utf8_string(b: &[u8]) -> (r: Option<String>)
    ensures
        r is Some <==> valid_utf8(b@),
        r matches Some(t) ==> encode_utf8(t@) == b@,
{
    match std::str::from_utf8(b) {
        Ok(t) => Some(t.to_owned()),
        Err(_) => None,
    }
}

/// Takes all of `r` as UTF-8 text.
pub fn take_text(r: &mut BytesMut) -> (res: Option<String>)
    ensures
        res is Some <==> valid_utf8(buf_bytes(*old(r))),
        res matches Some(t) ==> t@ == decode_utf8(buf_bytes(*old(r))),
        buf_bytes(*final(r)).len() == 0,
{
    let n = buf_len(r);
    let all = take_bytes(r, n);
    assert(buf_bytes(all) =~= buf_bytes(*old(r)));
    let res = utf8_string(buf_slice(&all));
    if let Some(t) = &res {
        proof {
            vstd::utf8::encode_utf8_decode_utf8(t@);
        }
    }
    res
}

/// Appends the UTF-8 bytes of `t`.
pub fn put_text(w: &mut BytesMut, t: &String)
    requires
        buf_bytes(*old(w)).len() + encode_utf8(t@).len() <= max_buf(),
    ensures
        buf_bytes(*final(w)) == buf_bytes(*old(w)) + encode_utf8(t@),
{
    let b = t.as_str().as_bytes();
    put_slice(w, b);
}

/// Appends the first `n` bytes of `s`.
pub fn put_prefix(w: &mut BytesMut, s: &[u8], n: usize)
    requires
        n <= s@.len(),
        buf_bytes(*old(w)).len() + n <= max_buf(),
    ensures
        buf_bytes(*final(w)) == buf_bytes(*old(w)) + s@.take(n as int),
{
    let ghost w0 = buf_bytes(*w);
    let mut i: usize = 0;
    assert(w0 + s@.take(0) =~= w0);
    while i < n
        invariant
            i <= n,
            n <= s@.len(),
            w0.len() + n <= max_buf(),
            buf_bytes(*w) == w0 + s@.take(i as int),
        decreases n - i,
    {
        put_u8(w, s[i]);
        assert(buf_bytes(*w) =~= w0 + s@.take(i + 1));
        i = i + 1;
    }
}

} // verus!
