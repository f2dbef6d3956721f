//! The movie extends box, which announces fragments, and its track extends
//! boxes with the per-track sample defaults.
use crate::buf::{
    be24_at, be32, be32_at, buf_bytes, buf_len, buf_new, group_be, lemma_read_skip, max_buf,
    put_u32, take_u32,
};
use crate::object::{
    boxes_bytes, header_len, lemma_boxes_bytes_prefix, lemma_boxes_fit, lemma_boxes_len_step,
    lemma_walk_boxes, lemma_walk_empty, lemma_walk_unfold, step_all, walk,
    write_box, DecodeError, FullBox, Object,
};
use bytes::BytesMut;
use vstd::prelude::*;

verus! {

broadcast use group_be;

/// Track extends: the defaults that a track's fragments use.
#[allow(non_camel_case_types)]
#[derive(Debug, Clone, Copy, PartialEq, Eq)]
pub struct trex {
    pub base: FullBox,
    pub track_id: u32,
    pub default_sample_description_index: u32,
    pub default_sample_duration: u32,
    pub default_sample_size: u32,
    pub default_sample_flags: u32,
}

impl trex {
    pub const BOX_TYPE: u32 = 0x74726578;

    pub open spec fn spec_bytes(self) -> Seq<u8> {
        self.base.spec_bytes() + be32(self.track_id) + be32(self.default_sample_description_index)
            + be32(self.default_sample_duration) + be32(self.default_sample_size) + be32(
            self.default_sample_flags,
        )
    }

    pub open spec fn spec_parse(s: Seq<u8>) -> Result<(trex, int), DecodeError> {
        if s.len() < 24 {
            Err(DecodeError::Truncated)
        } else {
            Ok(
                (
                    trex {
                        base: FullBox { version: s[0], flags: be24_at(s, 1) },
                        track_id: be32_at(s, 4),
                        default_sample_description_index: be32_at(s, 8),
                        default_sample_duration: be32_at(s, 12),
                        default_sample_size: be32_at(s, 16),
                        default_sample_flags: be32_at(s, 20),
                    },
                    24,
                ),
            )
        }
    }

    #[verifier::spinoff_prover]
    pub fn len(&self) -> (r: usize)
        ensures
            r == self.spec_bytes().len(),
    {
        24
    }

    #[verifier::rlimit(100)]
    #[verifier::spinoff_prover]
    pub fn parse(r: &mut BytesMut) -> (res: Result<trex, DecodeError>)
        ensures
            match res {
                Ok(v) => trex::spec_parse(buf_bytes(*old(r))) matches Ok((m, n)) && m == v
                    && buf_bytes(*final(r)) == buf_bytes(*old(r)).skip(n),
                Err(e) => trex::spec_parse(buf_bytes(*old(r))) == Err::<(trex, int), _>(e),
            },
    {
        let ghost s = buf_bytes(*r);
        if buf_len(r) < 24 {
            return Err(DecodeError::Truncated);
        }
        let base = match FullBox::parse(r) {
            Ok(b) => b,
            Err(e) => return Err(e),
        };
        proof {
            lemma_read_skip(s, 4);
            lemma_read_skip(s, 8);
            lemma_read_skip(s, 12);
            lemma_read_skip(s, 16);
            lemma_read_skip(s, 20);
        }
        let track_id = take_u32(r);
        let default_sample_description_index = take_u32(r);
        let default_sample_duration = take_u32(r);
        let default_sample_size = take_u32(r);
        let default_sample_flags = take_u32(r);
        Ok(
            trex {
                base,
                track_id,
                default_sample_description_index,
                default_sample_duration,
                default_sample_size,
                default_sample_flags,
            },
        )
    }

    #[verifier::rlimit(100)]
    #[verifier::spinoff_prover]
    pub fn write(&self, w: &mut BytesMut)
        requires
            buf_bytes(*old(w)).len() + 24 <= max_buf(),
        ensures
            buf_bytes(*final(w)) == buf_bytes(*old(w)) + self.spec_bytes(),
    {
        let ghost w0 = buf_bytes(*w);
        self.base.write(w);
        put_u32(w, self.track_id);
        put_u32(w, self.default_sample_description_index);
        put_u32(w, self.default_sample_duration);
        put_u32(w, self.default_sample_size);
        put_u32(w, self.default_sample_flags);
        assert(buf_bytes(*w) =~= w0 + self.spec_bytes());
    }

    pub fn as_bytes(&self) -> (r: BytesMut)
        ensures
            buf_bytes(r) == self.spec_bytes(),
    {
        let mut w = buf_new();
        self.write(&mut w);
        assert(buf_bytes(w) =~= self.spec_bytes());
        w
    }
}

/// Decoding an encoded `trex` gives it back, given 24-bit flags.
#[verifier::rlimit(100)]
#[verifier::spinoff_prover]
pub proof fn lemma_trex_round_trip(x: trex)
    requires
        x.base.flags < 0x1000000,
    ensures
        trex::spec_parse(x.spec_bytes()) == Ok::<_, DecodeError>((x, x.spec_bytes().len() as int)),
{
    let s = x.spec_bytes();
    assert(be24_at(s, 1) == be24_at(crate::buf::be24(x.base.flags), 0));
    assert(be32_at(s, 4) == be32_at(be32(x.track_id), 0));
    assert(be32_at(s, 8) == be32_at(be32(x.default_sample_description_index), 0));
    assert(be32_at(s, 12) == be32_at(be32(x.default_sample_duration), 0));
    assert(be32_at(s, 16) == be32_at(be32(x.default_sample_size), 0));
    assert(be32_at(s, 20) == be32_at(be32(x.default_sample_flags), 0));
}

/// What an `mvex` box holds.
pub struct MvexModel {
    pub trexs: Seq<trex>,
}

/// Takes one child into an `mvex`: each `trex` is added, other types are
/// passed over.
pub open spec fn mvex_step(acc: MvexModel, t: u32, p: Seq<u8>) -> Result<MvexModel, DecodeError> {
    if t == trex::BOX_TYPE {
        match trex::spec_parse(p) {
            Ok((x, _)) => Ok(MvexModel { trexs: acc.trexs.push(x) }),
            Err(e) => Err(e),
        }
    } else {
        Ok(acc)
    }
}

pub open spec fn mvex_stepper() -> spec_fn(MvexModel, u32, Seq<u8>) -> Result<
    MvexModel,
    DecodeError,
> {
    |acc: MvexModel, t: u32, p: Seq<u8>| mvex_step(acc, t, p)
}

impl MvexModel {
    pub open spec fn initial() -> MvexModel {
        MvexModel { trexs: Seq::empty() }
    }

    pub open spec fn children(self) -> Seq<(u32, Seq<u8>)> {
        self.trexs.map_values(|x: trex| (trex::BOX_TYPE, x.spec_bytes()))
    }

    pub open spec fn bytes(self) -> Seq<u8> {
        boxes_bytes(self.children())
    }

    pub open spec fn parse(s: Seq<u8>) -> Result<(MvexModel, int), DecodeError> {
        match walk(s, MvexModel::initial(), mvex_stepper()) {
            Ok(m) => Ok((m, s.len() as int)),
            Err(e) => Err(e),
        }
    }
}

/// Movie extends: one `trex` per track that fragments carry.
#[allow(non_camel_case_types)]
#[derive(Debug, Clone, PartialEq, Eq)]
pub struct mvex {
    pub trexs: Vec<trex>,
}

impl View for mvex {
    type V = MvexModel;

    open spec fn view(&self) -> MvexModel {
        MvexModel { trexs: self.trexs@ }
    }
}

impl Default for mvex {
    fn default() -> (r: Self)
        ensures
            r@ == MvexModel::initial(),
    {
        mvex { trexs: Vec::new() }
    }
}

impl mvex {
    pub const BOX_TYPE: u32 = 0x6d766578;

    #[verifier::rlimit(100)]
    #[verifier::spinoff_prover]
    pub fn len(&self) -> (r: usize)
        requires
            self@.bytes().len() <= max_buf(),
        ensures
            r == self@.bytes().len(),
    {
        let ghost cs = self@.children();
        let mut v: usize = 0;
        let mut i: usize = 0;
        assert(cs.take(0) =~= Seq::<(u32, Seq<u8>)>::empty());
        while i < self.trexs.len()
            invariant
                i <= self.trexs@.len(),
                cs == self@.children(),
                cs.len() == self.trexs@.len(),
                boxes_bytes(cs).len() <= max_buf(),
                v == boxes_bytes(cs.take(i as int)).len(),
            decreases self.trexs@.len() - i,
        {
            proof {
                lemma_boxes_len_step(cs, i as int);
            }
            let n = self.trexs[i].len();
            v = v + header_len(n) + n;
            i = i + 1;
        }
        assert(cs.take(i as int) =~= cs);
        v
    }

    #[verifier::rlimit(100)]
    #[verifier::spinoff_prover]
    pub fn parse(r: &mut BytesMut) -> (res: Result<mvex, DecodeError>)
        ensures
            match res {
                Ok(v) => MvexModel::parse(buf_bytes(*old(r))) matches Ok((m, n)) && m == v@
                    && buf_bytes(*final(r)) == buf_bytes(*old(r)).skip(n),
                Err(e) => MvexModel::parse(buf_bytes(*old(r))) == Err::<(MvexModel, int), _>(e),
            },
    {
        let ghost s = buf_bytes(*r);
        let mut acc = mvex::default();
        while buf_len(r) > 0
            invariant
                s == buf_bytes(*old(r)),
                walk(s, MvexModel::initial(), mvex_stepper()) == walk(
                    buf_bytes(*r),
                    acc@,
                    mvex_stepper(),
                ),
            decreases buf_bytes(*r).len(),
        {
            let ghost cur = buf_bytes(*r);
            proof {
                lemma_walk_unfold(cur, acc@, mvex_stepper());
            }
            let mut b = match Object::parse(r) {
                Ok(b) => b,
                Err(e) => return Err(e),
            };
            if b.box_type == trex::BOX_TYPE {
                let x = match trex::parse(&mut b.payload) {
                    Ok(x) => x,
                    Err(e) => return Err(e),
                };
                acc.trexs.push(x);
            }
        }
        assert(buf_bytes(*r) =~= s.skip(s.len() as int));
        proof {
            lemma_walk_empty(buf_bytes(*r), acc@, mvex_stepper());
        }
        Ok(acc)
    }

    #[verifier::rlimit(100)]
    #[verifier::spinoff_prover]
    pub fn write(&self, w: &mut BytesMut)
        requires
            buf_bytes(*old(w)).len() + self@.bytes().len() <= max_buf(),
        ensures
            buf_bytes(*final(w)) == buf_bytes(*old(w)) + self@.bytes(),
    {
        let ghost w0 = buf_bytes(*w);
        let ghost cs = self@.children();
        assert(cs.take(0) =~= Seq::<(u32, Seq<u8>)>::empty());
        assert(buf_bytes(*w) =~= w0 + boxes_bytes(cs.take(0)));
        let mut i: usize = 0;
        while i < self.trexs.len()
            invariant
                i <= self.trexs@.len(),
                cs == self@.children(),
                cs.len() == self.trexs@.len(),
                w0.len() + boxes_bytes(cs).len() <= max_buf(),
                buf_bytes(*w) == w0 + boxes_bytes(cs.take(i as int)),
            decreases self.trexs@.len() - i,
        {
            proof {
                lemma_boxes_bytes_prefix(cs, i as int);
            }
            let b = self.trexs[i].as_bytes();
            write_box(w, trex::BOX_TYPE, &b);
            assert(buf_bytes(*w) =~= w0 + boxes_bytes(cs.take(i + 1)));
            i = i + 1;
        }
        assert(cs.take(i as int) =~= cs);
    }

    pub fn as_bytes(&self) -> (r: BytesMut)
        requires
            self@.bytes().len() <= max_buf(),
        ensures
            buf_bytes(r) == self@.bytes(),
    {
        let mut w = buf_new();
        self.write(&mut w);
        assert(buf_bytes(w) =~= self@.bytes());
        w
    }
}

/// Stepping over encoded `trex` boxes adds them, in order.
#[verifier::rlimit(100)]
#[verifier::spinoff_prover]
proof fn lemma_mvex_trexs(xs: Seq<trex>, acc: MvexModel)
    requires
        forall|i: int| 0 <= i < xs.len() ==> (#[trigger] xs[i]).base.flags < 0x1000000,
    ensures
        step_all(xs.map_values(|x: trex| (trex::BOX_TYPE, x.spec_bytes())), acc, mvex_stepper())
            == Ok::<_, DecodeError>(MvexModel { trexs: acc.trexs + xs }),
    decreases xs.len(),
{
    let cs = xs.map_values(|x: trex| (trex::BOX_TYPE, x.spec_bytes()));
    reveal_with_fuel(step_all, 1);
    if xs.len() == 0 {
        assert(acc.trexs + xs =~= acc.trexs);
        assert(cs.len() == 0);
    } else {
        lemma_trex_round_trip(xs[0]);
        let next = MvexModel { trexs: acc.trexs.push(xs[0]) };
        assert(cs[0] == (trex::BOX_TYPE, xs[0].spec_bytes()));
        assert forall|i: int| 0 <= i < xs.skip(1).len() implies (#[trigger] xs.skip(1)[i]).base.flags
            < 0x1000000 by {
            assert(xs.skip(1)[i] == xs[i + 1]);
        }
        lemma_mvex_trexs(xs.skip(1), next);
        assert(cs.skip(1) =~= xs.skip(1).map_values(|x: trex| (trex::BOX_TYPE, x.spec_bytes())));
        assert(next.trexs + xs.skip(1) =~= acc.trexs + xs);
    }
}

/// An `mvex` that encoding keeps exactly.
pub open spec fn mvex_exact(m: MvexModel) -> bool {
    &&& m.bytes().len() + 16 <= max_buf()
    &&& forall|i: int| 0 <= i < m.trexs.len() ==> (#[trigger] m.trexs[i]).base.flags < 0x1000000
}

/// Decoding an encoded `mvex` gives it back.
#[verifier::rlimit(100)]
#[verifier::spinoff_prover]
pub proof fn lemma_mvex_round_trip(m: MvexModel)
    requires
        mvex_exact(m),
    ensures
        MvexModel::parse(m.bytes()) == Ok::<_, DecodeError>((m, m.bytes().len() as int)),
{
    let cs = m.children();
    lemma_boxes_fit(cs);
    lemma_walk_boxes(cs, MvexModel::initial(), mvex_stepper());
    lemma_mvex_trexs(m.trexs, MvexModel::initial());
    assert(Seq::<trex>::empty() + m.trexs =~= m.trexs);
}

} // verus!
