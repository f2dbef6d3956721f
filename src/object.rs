//! The box envelope (size, four-character type, payload), the full-box
//! header (version and flags), and the walk over a sequence of child boxes.
use crate::buf::{
    be24, be24_at, be32, be32_at, be64, be64_at, buf_bytes, buf_len, buf_new, group_be, max_buf,
    put_buf, put_u32, put_u64, put_u8, take_bytes, take_u32, take_u64, take_u8,
};
use bytes::BytesMut;
use vstd::prelude::*;

verus! {

broadcast use group_be;

/// Why a decode failed.
#[derive(Debug, Clone, Copy, PartialEq, Eq, Structural)]
pub enum DecodeError {
    /// A declared length or a fixed field runs past the end of the buffer.
    Truncated,
    /// The bytes are present but their values cannot be a valid box.
    Malformed,
}

/// The largest compact size: a box at least this large uses the 64-bit size.
pub const COMPACT_LIMIT: u64 = 0xFFFF_FFFF;

/// The bytes of one box: its header, then `payload` verbatim. The 32-bit size
/// counts the whole box; from `u32::MAX` on, the size field holds 1 and a
/// 64-bit size follows the type.
pub open spec fn box_bytes(t: u32, payload: Seq<u8>) -> Seq<u8> {
    if payload.len() + 8 >= COMPACT_LIMIT {
        be32(1) + be32(t) + be64((payload.len() + 16) as u64) + payload
    } else {
        be32((payload.len() + 8) as u32) + be32(t) + payload
    }
}

/// The header length that `box_bytes` uses for a payload of `n` bytes.
pub open spec fn header_size(n: int) -> int {
    if n + 8 >= COMPACT_LIMIT {
        16
    } else {
        8
    }
}

/// Reads one box from the front of `s`: its type, its payload and the number
/// of bytes it takes. A size of 0 means that the box takes the rest of `s`.
pub open spec fn parse_box(s: Seq<u8>) -> Result<(u32, Seq<u8>, int), DecodeError> {
    if s.len() < 8 {
        Err(DecodeError::Truncated)
    } else {
        let size = be32_at(s, 0);
        let t = be32_at(s, 4);
        if size == 1 {
            if s.len() < 16 {
                Err(DecodeError::Truncated)
            } else {
                let large = be64_at(s, 8);
                if large < 16 {
                    Err(DecodeError::Malformed)
                } else if large > s.len() {
                    Err(DecodeError::Truncated)
                } else {
                    Ok((t, s.subrange(16, large as int), large as int))
                }
            }
        } else if size == 0 {
            Ok((t, s.subrange(8, s.len() as int), s.len() as int))
        } else if size < 8 {
            Err(DecodeError::Malformed)
        } else if size > s.len() {
            Err(DecodeError::Truncated)
        } else {
            Ok((t, s.subrange(8, size as int), size as int))
        }
    }
}

#[verifier::rlimit(100)]
#[verifier::spinoff_prover]
pub proof fn lemma_parse_box_len(s: Seq<u8>)
    ensures
        parse_box(s) matches Ok((t, p, n)) ==> 8 <= n <= s.len() && p.len() <= n,
{
}

/// Reads boxes from `s` until it is exhausted, handing each to `step`; the
/// first failure, of framing or of `step`, ends the walk.
#[verifier::opaque]
pub open spec fn walk<M>(
    s: Seq<u8>,
    acc: M,
    step: spec_fn(M, u32, Seq<u8>) -> Result<M, DecodeError>,
) -> Result<M, DecodeError>
    decreases s.len(),
{
    if s.len() == 0 {
        Ok(acc)
    } else {
        match parse_box(s) {
            Err(e) => Err(e),
            Ok((t, p, n)) => {
                if 8 <= n <= s.len() {
                    match step(acc, t, p) {
                        Err(e) => Err(e),
                        Ok(next) => walk(s.skip(n), next, step),
                    }
                } else {
                    Err(DecodeError::Malformed)
                }
            },
        }
    }
}

/// One step of `walk` over a non-empty buffer.
#[verifier::rlimit(100)]
#[verifier::spinoff_prover]
pub proof fn lemma_walk_unfold<M>(
    s: Seq<u8>,
    acc: M,
    step: spec_fn(M, u32, Seq<u8>) -> Result<M, DecodeError>,
)
    requires
        s.len() > 0,
    ensures
        walk(s, acc, step) == (match parse_box(s) {
            Err(e) => Err(e),
            Ok((t, p, n)) => match step(acc, t, p) {
                Err(e) => Err(e),
                Ok(next) => walk(s.skip(n), next, step),
            },
        }),
{
    reveal_with_fuel(walk, 2);
    lemma_parse_box_len(s);
}

/// A walk over nothing ends where it started.
#[verifier::rlimit(100)]
#[verifier::spinoff_prover]
pub proof fn lemma_walk_empty<M>(
    s: Seq<u8>,
    acc: M,
    step: spec_fn(M, u32, Seq<u8>) -> Result<M, DecodeError>,
)
    requires
        s.len() == 0,
    ensures
        walk(s, acc, step) == Ok::<M, DecodeError>(acc),
{
    reveal_with_fuel(walk, 1);
}

/// Reads `count` entries one after the other from the front of `s`; `one`
/// reads one entry and says how many bytes it took, and gives no value for an
/// entry of a kind that is passed over. The result holds the entries kept and
/// the bytes taken by all.
#[verifier::opaque]
pub open spec fn read_entries<M>(
    s: Seq<u8>,
    count: nat,
    one: spec_fn(Seq<u8>) -> Result<(Option<M>, int), DecodeError>,
) -> Result<(Seq<M>, int), DecodeError>
    decreases count,
{
    if count == 0 {
        Ok((Seq::empty(), 0))
    } else {
        match read_entries(s, (count - 1) as nat, one) {
            Err(e) => Err(e),
            Ok((es, n)) => {
                if 0 <= n <= s.len() {
                    match one(s.skip(n)) {
                        Err(e) => Err(e),
                        Ok((o, k)) => Ok(
                            (
                                match o {
                                    Some(x) => es.push(x),
                                    None => es,
                                },
                                n + k,
                            ),
                        ),
                    }
                } else {
                    Err(DecodeError::Malformed)
                }
            },
        }
    }
}

/// One more entry read after `count - 1` of them.
#[verifier::rlimit(100)]
#[verifier::spinoff_prover]
pub proof fn lemma_read_entries_unfold<M>(
    s: Seq<u8>,
    count: nat,
    one: spec_fn(Seq<u8>) -> Result<(Option<M>, int), DecodeError>,
)
    ensures
        count == 0 ==> read_entries(s, count, one) == Ok::<_, DecodeError>((Seq::<M>::empty(), 0int)),
        count > 0 ==> read_entries(s, count, one) == (match read_entries(s, (count - 1) as nat, one) {
            Err(e) => Err(e),
            Ok((es, n)) => {
                if 0 <= n <= s.len() {
                    match one(s.skip(n)) {
                        Err(e) => Err(e),
                        Ok((o, k)) => Ok(
                            (
                                match o {
                                    Some(x) => es.push(x),
                                    None => es,
                                },
                                n + k,
                            ),
                        ),
                    }
                } else {
                    Err(DecodeError::Malformed)
                }
            },
        }),
{
    reveal_with_fuel(read_entries, 1);
}

/// Once reading an entry fails, reading more entries fails the same way.
#[verifier::rlimit(100)]
#[verifier::spinoff_prover]
pub proof fn lemma_read_entries_err<M>(
    s: Seq<u8>,
    i: nat,
    count: nat,
    one: spec_fn(Seq<u8>) -> Result<(Option<M>, int), DecodeError>,
)
    requires
        i <= count,
        read_entries(s, i, one) is Err,
    ensures
        read_entries(s, count, one) == read_entries(s, i, one),
    decreases count - i,
{
    if i < count {
        lemma_read_entries_err(s, i, (count - 1) as nat, one);
        lemma_read_entries_unfold(s, count, one);
    }
}

/// The bytes of a sequence of boxes, in order.
pub open spec fn boxes_bytes(bs: Seq<(u32, Seq<u8>)>) -> Seq<u8>
    decreases bs.len(),
{
    if bs.len() == 0 {
        Seq::empty()
    } else {
        box_bytes(bs[0].0, bs[0].1) + boxes_bytes(bs.skip(1))
    }
}

/// Applies `step` to each box of `bs` in order.
pub open spec fn step_all<M>(
    bs: Seq<(u32, Seq<u8>)>,
    acc: M,
    step: spec_fn(M, u32, Seq<u8>) -> Result<M, DecodeError>,
) -> Result<M, DecodeError>
    decreases bs.len(),
{
    if bs.len() == 0 {
        Ok(acc)
    } else {
        match step(acc, bs[0].0, bs[0].1) {
            Err(e) => Err(e),
            Ok(next) => step_all(bs.skip(1), next, step),
        }
    }
}

/// Every payload of `bs` fits the 64-bit size field, with room to spare.
pub open spec fn boxes_fit(bs: Seq<(u32, Seq<u8>)>) -> bool {
    forall|i: int| 0 <= i < bs.len() ==> #[trigger] bs[i].1.len() + 16 <= max_buf()
}

/// Decoding an encoded box gives back its type and payload, and takes
/// exactly its bytes, whatever follows it.
#[verifier::rlimit(100)]
#[verifier::spinoff_prover]
pub proof fn lemma_box_round_trip(t: u32, p: Seq<u8>, rest: Seq<u8>)
    requires
        p.len() + 16 <= max_buf(),
    ensures
        parse_box(box_bytes(t, p) + rest) == Ok::<_, DecodeError>(
            (t, p, box_bytes(t, p).len() as int),
        ),
        box_bytes(t, p).len() == header_size(p.len() as int) + p.len(),
{
    let b = box_bytes(t, p);
    let s = b + rest;
    if p.len() + 8 >= COMPACT_LIMIT {
        let l = (p.len() + 16) as u64;
        assert(be32_at(s, 0) == be32_at(be32(1), 0));
        assert(be32_at(s, 4) == be32_at(be32(t), 0));
        assert(be64_at(s, 8) == be64_at(be64(l), 0));
        assert(s.subrange(16, l as int) =~= p);
    } else {
        let l = (p.len() + 8) as u32;
        assert(be32_at(s, 0) == be32_at(be32(l), 0));
        assert(be32_at(s, 4) == be32_at(be32(t), 0));
        assert(s.subrange(8, l as int) =~= p);
    }
}

/// A box whose whole size reaches `u32::MAX` is written with size field 1
/// and a 64-bit size; one below that, with its size in the 32-bit field.
#[verifier::rlimit(100)]
#[verifier::spinoff_prover]
pub proof fn lemma_extended_size_boundary(t: u32, p: Seq<u8>)
    requires
        p.len() + 16 <= max_buf(),
    ensures
        p.len() + 8 >= u32::MAX ==> be32_at(box_bytes(t, p), 0) == 1 && be64_at(box_bytes(t, p), 8)
            == p.len() + 16 && box_bytes(t, p).len() == p.len() + 16,
        p.len() + 8 < u32::MAX ==> be32_at(box_bytes(t, p), 0) == p.len() + 8 && box_bytes(
            t,
            p,
        ).len() == p.len() + 8,
        be32_at(box_bytes(t, p), 4) == t,
{
    let b = box_bytes(t, p);
    if p.len() + 8 >= COMPACT_LIMIT {
        assert(be32_at(b, 0) == be32_at(be32(1), 0));
        assert(be32_at(b, 4) == be32_at(be32(t), 0));
        assert(be64_at(b, 8) == be64_at(be64((p.len() + 16) as u64), 0));
    } else {
        assert(be32_at(b, 0) == be32_at(be32((p.len() + 8) as u32), 0));
        assert(be32_at(b, 4) == be32_at(be32(t), 0));
    }
}

/// The length of a box: its header and its payload.
#[verifier::rlimit(100)]
#[verifier::spinoff_prover]
pub proof fn lemma_box_len(t: u32, p: Seq<u8>)
    ensures
        box_bytes(t, p).len() == header_size(p.len() as int) + p.len(),
{
}

/// Adding the `k`-th box to the boxes before it adds its header and payload
/// lengths.
#[verifier::rlimit(100)]
#[verifier::spinoff_prover]
pub proof fn lemma_boxes_len_step(bs: Seq<(u32, Seq<u8>)>, k: int)
    requires
        0 <= k < bs.len(),
    ensures
        boxes_bytes(bs.take(k + 1)).len() == boxes_bytes(bs.take(k)).len() + header_size(
            bs[k].1.len() as int,
        ) + bs[k].1.len(),
        boxes_bytes(bs.take(k)).len() + header_size(bs[k].1.len() as int) + bs[k].1.len()
            <= boxes_bytes(bs).len(),
        k == 0 ==> boxes_bytes(bs.take(k)).len() == 0,
        k == bs.len() - 1 ==> bs.take(k + 1) == bs,
{
    lemma_boxes_bytes_prefix(bs, k);
    lemma_box_len(bs[k].0, bs[k].1);
    if k == 0 {
        assert(bs.take(0) =~= Seq::<(u32, Seq<u8>)>::empty());
    }
    if k == bs.len() - 1 {
        assert(bs.take(k + 1) =~= bs);
    }
}

/// Walking over the bytes of a sequence of boxes steps through those boxes.
#[verifier::rlimit(100)]
#[verifier::spinoff_prover]
pub proof fn lemma_walk_boxes<M>(
    bs: Seq<(u32, Seq<u8>)>,
    acc: M,
    step: spec_fn(M, u32, Seq<u8>) -> Result<M, DecodeError>,
)
    requires
        boxes_fit(bs),
    ensures
        walk(boxes_bytes(bs), acc, step) == step_all(bs, acc, step),
    decreases bs.len(),
{
    reveal_with_fuel(walk, 1);
    if bs.len() > 0 {
        let rest = boxes_bytes(bs.skip(1));
        let s = boxes_bytes(bs);
        assert(bs[0].1.len() + 16 <= max_buf());
        lemma_box_round_trip(bs[0].0, bs[0].1, rest);
        let b = box_bytes(bs[0].0, bs[0].1);
        assert(s.skip(b.len() as int) =~= rest);
        assert(boxes_fit(bs.skip(1))) by {
            assert forall|i: int| 0 <= i < bs.skip(1).len() implies #[trigger] bs.skip(1)[i].1.len()
                + 16 <= max_buf() by {
                assert(bs.skip(1)[i] == bs[i + 1]);
            }
        }
        match step(acc, bs[0].0, bs[0].1) {
            Err(e) => {},
            Ok(next) => {
                lemma_walk_boxes(bs.skip(1), next, step);
            },
        }
    }
}

/// Appending one more box to a sequence appends its bytes.
#[verifier::rlimit(100)]
#[verifier::spinoff_prover]
pub proof fn lemma_boxes_bytes_push(bs: Seq<(u32, Seq<u8>)>, t: u32, p: Seq<u8>)
    ensures
        boxes_bytes(bs.push((t, p))) == boxes_bytes(bs) + box_bytes(t, p),
    decreases bs.len(),
{
    if bs.len() == 0 {
        let q = bs.push((t, p));
        assert(q.skip(1) =~= Seq::<(u32, Seq<u8>)>::empty());
        assert(boxes_bytes(q.skip(1)) =~= Seq::<u8>::empty());
        assert(q[0] == (t, p));
        assert(boxes_bytes(q) =~= box_bytes(t, p) + Seq::<u8>::empty());
        assert(boxes_bytes(q) =~= boxes_bytes(bs) + box_bytes(t, p));
    } else {
        lemma_boxes_bytes_push(bs.skip(1), t, p);
        assert(bs.push((t, p)).skip(1) =~= bs.skip(1).push((t, p)));
        assert(boxes_bytes(bs.push((t, p))) =~= boxes_bytes(bs) + box_bytes(t, p));
    }
}

/// The bytes of two sequences of boxes, one after the other.
#[verifier::rlimit(100)]
#[verifier::spinoff_prover]
pub proof fn lemma_boxes_bytes_append(a: Seq<(u32, Seq<u8>)>, b: Seq<(u32, Seq<u8>)>)
    ensures
        boxes_bytes(a + b) == boxes_bytes(a) + boxes_bytes(b),
    decreases a.len(),
{
    if a.len() == 0 {
        assert(a + b =~= b);
        assert(boxes_bytes(a) + boxes_bytes(b) =~= boxes_bytes(b));
    } else {
        lemma_boxes_bytes_append(a.skip(1), b);
        assert((a + b).skip(1) =~= a.skip(1) + b);
        assert((a + b)[0] == a[0]);
        assert(boxes_bytes(a + b) =~= boxes_bytes(a) + boxes_bytes(b));
    }
}

/// Each box of a sequence, and the boxes before it, fit in the bytes of the
/// whole sequence.
#[verifier::rlimit(100)]
#[verifier::spinoff_prover]
pub proof fn lemma_boxes_bytes_prefix(bs: Seq<(u32, Seq<u8>)>, k: int)
    requires
        0 <= k < bs.len(),
    ensures
        boxes_bytes(bs.take(k)).len() + box_bytes(bs[k].0, bs[k].1).len() <= boxes_bytes(bs).len(),
        boxes_bytes(bs.take(k + 1)) == boxes_bytes(bs.take(k)) + box_bytes(bs[k].0, bs[k].1),
{
    lemma_boxes_bytes_append(bs.take(k + 1), bs.skip(k + 1));
    assert(bs.take(k + 1) + bs.skip(k + 1) =~= bs);
    assert(bs.take(k + 1) =~= bs.take(k).push(bs[k]));
    lemma_boxes_bytes_push(bs.take(k), bs[k].0, bs[k].1);
}

/// Boxes that `step_all` passes over: the accumulator comes out of the walk
/// over `bs + cs` as it comes out of the walk over `bs`, then over `cs`.
#[verifier::rlimit(100)]
#[verifier::spinoff_prover]
pub proof fn lemma_step_all_append<M>(
    bs: Seq<(u32, Seq<u8>)>,
    cs: Seq<(u32, Seq<u8>)>,
    acc: M,
    step: spec_fn(M, u32, Seq<u8>) -> Result<M, DecodeError>,
)
    ensures
        step_all(bs + cs, acc, step) == (match step_all(bs, acc, step) {
            Err(e) => Err(e),
            Ok(m) => step_all(cs, m, step),
        }),
    decreases bs.len(),
{
    if bs.len() == 0 {
        assert(bs + cs =~= cs);
    } else {
        assert((bs + cs).skip(1) =~= bs.skip(1) + cs);
        assert((bs + cs)[0] == bs[0]);
        match step(acc, bs[0].0, bs[0].1) {
            Err(e) => {},
            Ok(next) => {
                lemma_step_all_append(bs.skip(1), cs, next, step);
            },
        }
    }
}

/// Boxes whose bytes, with room for one more header, fit a buffer each fit
/// the 64-bit size field.
#[verifier::rlimit(100)]
#[verifier::spinoff_prover]
pub proof fn lemma_boxes_fit(bs: Seq<(u32, Seq<u8>)>)
    requires
        boxes_bytes(bs).len() + 16 <= max_buf(),
    ensures
        boxes_fit(bs),
{
    assert forall|i: int| 0 <= i < bs.len() implies #[trigger] bs[i].1.len() + 16 <= max_buf() by {
        lemma_boxes_bytes_prefix(bs, i);
    }
}

/// A walk over one box takes one step.
#[verifier::rlimit(100)]
#[verifier::spinoff_prover]
pub proof fn lemma_step_all_one<M>(
    t: u32,
    p: Seq<u8>,
    acc: M,
    step: spec_fn(M, u32, Seq<u8>) -> Result<M, DecodeError>,
)
    ensures
        step_all(seq![(t, p)], acc, step) == step(acc, t, p),
{
    let bs = seq![(t, p)];
    assert(bs.skip(1) =~= Seq::<(u32, Seq<u8>)>::empty());
    reveal_with_fuel(step_all, 2);
}

/// Stepping over a box, then over the boxes after it.
#[verifier::rlimit(100)]
#[verifier::spinoff_prover]
pub proof fn lemma_step_all_cons<M>(
    t: u32,
    p: Seq<u8>,
    bs: Seq<(u32, Seq<u8>)>,
    acc: M,
    step: spec_fn(M, u32, Seq<u8>) -> Result<M, DecodeError>,
)
    ensures
        step_all(seq![(t, p)] + bs, acc, step) == (match step(acc, t, p) {
            Err(e) => Err(e),
            Ok(next) => step_all(bs, next, step),
        }),
{
    let xs = seq![(t, p)] + bs;
    assert(xs.skip(1) =~= bs);
    assert(xs[0] == (t, p));
    reveal_with_fuel(step_all, 1);
}

/// Appends the box with type `t` around `payload` to `w`.
pub fn write_box(w: &mut BytesMut, t: u32, payload: &BytesMut)
    requires
        buf_bytes(*old(w)).len() + box_bytes(t, buf_bytes(*payload)).len() <= max_buf(),
    ensures
        buf_bytes(*final(w)) == buf_bytes(*old(w)) + box_bytes(t, buf_bytes(*payload)),
{
    let ghost w0 = buf_bytes(*w);
    let n = buf_len(payload);
    if n as u64 + 8 >= COMPACT_LIMIT {
        put_u32(w, 1);
        put_u32(w, t);
        put_u64(w, n as u64 + 16);
    } else {
        put_u32(w, (n + 8) as u32);
        put_u32(w, t);
    }
    put_buf(w, payload);
    assert(buf_bytes(*w) =~= w0 + box_bytes(t, buf_bytes(*payload)));
}

/// The header length of a box whose payload has `payload_len` bytes: 16
/// where the whole box reaches `u32::MAX` bytes, else 8.
pub fn header_len(payload_len: usize) -> (r: usize)
    requires
        payload_len <= max_buf(),
    ensures
        r == header_size(payload_len as int),
{
    if payload_len as u64 + 8 >= COMPACT_LIMIT {
        16
    } else {
        8
    }
}

/// A box: a four-character type code and the payload bytes that follow
/// its header.
pub struct Object {
    pub box_type: u32,
    pub payload: BytesMut,
}

impl Object {
    /// The number of bytes `as_bytes` produces.
    #[verifier::rlimit(100)]
    #[verifier::spinoff_prover]
    pub fn len(&self) -> (r: usize)
        requires
            buf_bytes(self.payload).len() + 16 <= max_buf(),
        ensures
            r == box_bytes(self.box_type, buf_bytes(self.payload)).len(),
    {
        let n = buf_len(&self.payload);
        header_len(n) + n
    }

    /// Takes one box off the front of `r`. On success `r` keeps what follows
    /// the box; on failure the buffer is not to be used further.
    #[verifier::rlimit(100)]
    #[verifier::spinoff_prover]
    pub fn parse(r: &mut BytesMut) -> (res: Result<Object, DecodeError>)
        ensures
            match res {
                Ok(o) => parse_box(buf_bytes(*old(r))) matches Ok((t, p, n)) && o.box_type == t
                    && buf_bytes(o.payload) == p && buf_bytes(*final(r)) == buf_bytes(
                    *old(r),
                ).skip(n),
                Err(e) => parse_box(buf_bytes(*old(r))) == Err::<(u32, Seq<u8>, int), _>(e),
            },
    {
        let ghost s = buf_bytes(*r);
        let n = buf_len(r);
        if n < 8 {
            return Err(DecodeError::Truncated);
        }
        let size = take_u32(r);
        let box_type = take_u32(r);
        assert(be32_at(s.skip(4), 0) == be32_at(s, 4));
        if size == 1 {
            if n < 16 {
                return Err(DecodeError::Truncated);
            }
            let large = take_u64(r);
            assert(be64_at(s.skip(8), 0) == be64_at(s, 8));
            if large < 16 {
                return Err(DecodeError::Malformed);
            }
            if large > n as u64 {
                return Err(DecodeError::Truncated);
            }
            let payload = take_bytes(r, (large - 16) as usize);
            assert(s.skip(16).take(large - 16) =~= s.subrange(16, large as int));
            assert(s.skip(16).skip(large - 16) =~= s.skip(large as int));
            Ok(Object { box_type, payload })
        } else if size == 0 {
            let payload = take_bytes(r, n - 8);
            assert(s.skip(8).take(n - 8) =~= s.subrange(8, n as int));
            assert(s.skip(8).skip(n - 8) =~= s.skip(n as int));
            Ok(Object { box_type, payload })
        } else if size < 8 {
            Err(DecodeError::Malformed)
        } else if size as usize > n {
            Err(DecodeError::Truncated)
        } else {
            let payload = take_bytes(r, (size - 8) as usize);
            assert(s.skip(8).take(size - 8) =~= s.subrange(8, size as int));
            assert(s.skip(8).skip(size - 8) =~= s.skip(size as int));
            Ok(Object { box_type, payload })
        }
    }

    /// The box's bytes: header, then payload.
    pub fn as_bytes(&self) -> (r: BytesMut)
        requires
            buf_bytes(self.payload).len() + 16 <= max_buf(),
        ensures
            buf_bytes(r) == box_bytes(self.box_type, buf_bytes(self.payload)),
    {
        let mut w = buf_new();
        write_box(&mut w, self.box_type, &self.payload);
        assert(buf_bytes(w) =~= box_bytes(self.box_type, buf_bytes(self.payload)));
        w
    }
}

/// The header shared by most leaf boxes: a version byte and 24 bits of flags.
#[derive(Debug, Clone, Copy, PartialEq, Eq, Structural)]
pub struct FullBox {
    pub version: u8,
    pub flags: u32,
}

impl FullBox {
    pub fn new(version: u8, flags: u32) -> (r: Self)
        ensures
            r.version == version,
            r.flags == flags,
    {
        FullBox { version, flags }
    }

    /// The four header bytes; flag bits above the low 24 are not written.
    pub open spec fn spec_bytes(self) -> Seq<u8> {
        seq![self.version] + be24(self.flags)
    }

    /// Reads the header from the front of `s`.
    pub open spec fn spec_parse(s: Seq<u8>) -> Result<(FullBox, int), DecodeError> {
        if s.len() < 4 {
            Err(DecodeError::Truncated)
        } else {
            Ok((FullBox { version: s[0], flags: be24_at(s, 1) }, 4))
        }
    }

    #[verifier::rlimit(100)]
    #[verifier::spinoff_prover]
    pub fn len(&self) -> (r: usize)
        ensures
            r == self.spec_bytes().len(),
    {
        4
    }

    /// Takes the header off the front of `r`.
    #[verifier::rlimit(100)]
    #[verifier::spinoff_prover]
    pub fn parse(r: &mut BytesMut) -> (res: Result<FullBox, DecodeError>)
        ensures
            match res {
                Ok(h) => FullBox::spec_parse(buf_bytes(*old(r))) == Ok::<_, DecodeError>((h, 4int))
                    && buf_bytes(*final(r)) == buf_bytes(*old(r)).skip(4),
                Err(e) => FullBox::spec_parse(buf_bytes(*old(r))) == Err::<(FullBox, int), _>(e),
            },
    {
        let ghost s = buf_bytes(*r);
        if buf_len(r) < 4 {
            return Err(DecodeError::Truncated);
        }
        let version = take_u8(r);
        let a = take_u8(r);
        let b = take_u8(r);
        let c = take_u8(r);
        assert(s.skip(1).skip(1).skip(1).skip(1) =~= s.skip(4));
        Ok(FullBox { version, flags: a as u32 * 0x10000 + b as u32 * 256 + c as u32 })
    }

    /// Appends the header to `w`.
    #[verifier::rlimit(100)]
    #[verifier::spinoff_prover]
    pub fn write(&self, w: &mut BytesMut)
        requires
            buf_bytes(*old(w)).len() + 4 <= max_buf(),
        ensures
            buf_bytes(*final(w)) == buf_bytes(*old(w)) + self.spec_bytes(),
    {
        let ghost w0 = buf_bytes(*w);
        put_u8(w, self.version);
        put_u8(w, ((self.flags / 0x10000) % 256) as u8);
        put_u8(w, ((self.flags / 256) % 256) as u8);
        put_u8(w, (self.flags % 256) as u8);
        assert(buf_bytes(*w) =~= w0 + self.spec_bytes());
    }

    pub fn as_bytes(&self) -> (r: BytesMut)
        ensures
            buf_bytes(r) == self.spec_bytes(),
    {
        let mut w = buf_new();
        self.write(&mut w);
        assert(buf_bytes(w) =~= self.spec_bytes());
        w
    }
}

/// Decoding an encoded header gives it back, its flags cut to 24 bits.
#[verifier::rlimit(100)]
#[verifier::spinoff_prover]
pub proof fn lemma_full_box_round_trip(h: FullBox, rest: Seq<u8>)
    ensures
        FullBox::spec_parse(h.spec_bytes() + rest) == Ok::<_, DecodeError>(
            (FullBox { version: h.version, flags: h.flags % 0x1000000 }, 4int),
        ),
{
    let s = h.spec_bytes() + rest;
    assert(be24_at(s, 1) == be24_at(be24(h.flags), 0));
}

} // verus!
