//! The edit box and its edit list: which parts of the media a track shows,
//! with 32- or 64-bit times.
use crate::buf::{
    be16, be16_at, be24_at, be32, be32_at, be64, be64_at, buf_bytes, buf_len, buf_new, group_be,
    lemma_read_skip, max_buf, put_i16, put_i32, put_i64, put_u32, put_u64, signed16, signed32,
    signed64, take_i16, take_i32, take_i64, take_u32, take_u64, unsigned16, unsigned32,
    unsigned64,
};
use crate::object::{
    boxes_bytes, header_len, lemma_boxes_bytes_prefix, lemma_boxes_len_step, lemma_walk_empty,
    lemma_walk_unfold, walk, write_box, DecodeError, FullBox, Object,
};
use bytes::BytesMut;
use vstd::prelude::*;

verus! {

broadcast use group_be;

/// One edit: segment duration, media time, media rate integer and fraction.
pub type Edit = (u64, i64, i16, i16);

/// Whether an edit needs the 64-bit layout.
pub open spec fn edit_wide(e: Edit) -> bool {
    e.0 > u32::MAX || e.1 < i32::MIN || e.1 > i32::MAX
}

/// Whether any edit needs the 64-bit layout.
pub open spec fn edits_wide(es: Seq<Edit>) -> bool {
    exists|i: int| 0 <= i < es.len() && #[trigger] edit_wide(es[i])
}

/// The bytes per edit in each layout.
pub open spec fn edit_size(wide: bool) -> int {
    if wide {
        20
    } else {
        12
    }
}

pub open spec fn edit_bytes(e: Edit, wide: bool) -> Seq<u8> {
    (if wide {
        be64(e.0) + be64(unsigned64(e.1 as int))
    } else {
        be32(e.0 as u32) + be32(unsigned32(e.1 as int))
    }) + be16(unsigned16(e.2 as int)) + be16(unsigned16(e.3 as int))
}

pub open spec fn edits_bytes(es: Seq<Edit>, wide: bool) -> Seq<u8>
    decreases es.len(),
{
    if es.len() == 0 {
        Seq::empty()
    } else {
        edits_bytes(es.drop_last(), wide) + edit_bytes(es.last(), wide)
    }
}

/// The edit stored at `s[p..]` in the given layout.
pub open spec fn edit_at(s: Seq<u8>, p: int, wide: bool) -> Edit {
    if wide {
        (
            be64_at(s, p),
            signed64(be64_at(s, p + 8)) as i64,
            signed16(be16_at(s, p + 16)) as i16,
            signed16(be16_at(s, p + 18)) as i16,
        )
    } else {
        (
            be32_at(s, p) as u64,
            signed32(be32_at(s, p + 4)) as i64,
            signed16(be16_at(s, p + 8)) as i16,
            signed16(be16_at(s, p + 10)) as i16,
        )
    }
}

/// What an `elst` box holds. The flags are kept; the version is picked by
/// encoding.
pub struct ElstModel {
    pub flags: u32,
    pub entries: Seq<Edit>,
}

impl ElstModel {
    pub open spec fn bytes(self) -> Seq<u8> {
        let wide = edits_wide(self.entries);
        FullBox {
            version: if wide {
                1
            } else {
                0
            },
            flags: self.flags,
        }.spec_bytes() + be32(self.entries.len() as u32) + edits_bytes(self.entries, wide)
    }

    pub open spec fn parse(s: Seq<u8>) -> Result<(ElstModel, int), DecodeError> {
        if s.len() < 8 {
            Err(DecodeError::Truncated)
        } else {
            let wide = s[0] == 1;
            let n = be32_at(s, 4) as int;
            if s.len() < 8 + n * edit_size(wide) {
                Err(DecodeError::Truncated)
            } else {
                Ok(
                    (
                        ElstModel {
                            flags: be24_at(s, 1),
                            entries: Seq::new(
                                n as nat,
                                |i: int| edit_at(s, 8 + i * edit_size(wide), wide),
                            ),
                        },
                        8 + n * edit_size(wide),
                    ),
                )
            }
        }
    }
}

#[verifier::rlimit(100)]
#[verifier::spinoff_prover]
pub proof fn lemma_edits_bytes_len(es: Seq<Edit>, wide: bool)
    ensures
        edits_bytes(es, wide).len() == es.len() * edit_size(wide),
    decreases es.len(),
{
    if es.len() > 0 {
        lemma_edits_bytes_len(es.drop_last(), wide);
        assert(es.len() * edit_size(wide) == (es.len() - 1) * edit_size(wide) + edit_size(wide))
            by (nonlinear_arith);
    }
}

fn any_wide(es: &Vec<Edit>) -> (r: bool)
    ensures
        r == edits_wide(es@),
{
    let mut i: usize = 0;
    while i < es.len()
        invariant
            i <= es@.len(),
            forall|j: int| 0 <= j < i ==> !edit_wide(#[trigger] es@[j]),
        decreases es@.len() - i,
    {
        let e = es[i];
        if e.0 > u32::MAX as u64 || e.1 < i32::MIN as i64 || e.1 > i32::MAX as i64 {
            assert(edit_wide(es@[i as int]));
            return true;
        }
        i = i + 1;
    }
    false
}

/// Edit list.
#[allow(non_camel_case_types)]
#[derive(Debug, Clone, PartialEq, Eq)]
pub struct elst {
    pub flags: u32,
    pub entries: Vec<Edit>,
}

impl View for elst {
    type V = ElstModel;

    open spec fn view(&self) -> ElstModel {
        ElstModel { flags: self.flags, entries: self.entries@ }
    }
}

impl elst {
    pub const BOX_TYPE: u32 = 0x656c7374;

    pub fn len(&self) -> (r: usize)
        requires
            self@.bytes().len() <= max_buf(),
        ensures
            r == self@.bytes().len(),
    {
        let wide = any_wide(&self.entries);
        proof {
            lemma_edits_bytes_len(self.entries@, wide);
        }
        8 + self.entries.len() * if wide {
            20
        } else {
            12
        }
    }

    #[verifier::rlimit(100)]
    #[verifier::spinoff_prover]
    pub fn parse(r: &mut BytesMut) -> (res: Result<elst, DecodeError>)
        ensures
            match res {
                Ok(v) => ElstModel::parse(buf_bytes(*old(r))) matches Ok((m, n)) && m == v@
                    && buf_bytes(*final(r)) == buf_bytes(*old(r)).skip(n),
                Err(e) => ElstModel::parse(buf_bytes(*old(r))) == Err::<(ElstModel, int), _>(e),
            },
    {
        let ghost s = buf_bytes(*r);
        let n = buf_len(r);
        if n < 8 {
            return Err(DecodeError::Truncated);
        }
        let base = match FullBox::parse(r) {
            Ok(b) => b,
            Err(e) => return Err(e),
        };
        proof {
            lemma_read_skip(s, 4);
        }
        let count = take_u32(r);
        let wide = base.version == 1;
        let w: usize = if wide {
            20
        } else {
            12
        };
        if (n - 8) / w < count as usize {
            assert(n < 8 + count * w) by (nonlinear_arith)
                requires
                    (n - 8) / (w as int) < count,
                    n >= 8,
                    w > 0,
            ;
            return Err(DecodeError::Truncated);
        }
        assert(8 + count * w <= n) by (nonlinear_arith)
            requires
                (n - 8) / (w as int) >= count,
                n >= 8,
                w > 0,
        ;
        let mut entries: Vec<Edit> = Vec::new();
        let mut i: u32 = 0;
        let mut pos: usize = 8;
        while i < count
            invariant
                i <= count,
                pos == 8 + i * w,
                8 + count * w <= n,
                n == s.len(),
                w == edit_size(wide),
                wide == (s[0] == 1),
                buf_bytes(*r) == s.skip(pos as int),
                entries@.len() == i,
                forall|j: int| 0 <= j < i ==> entries@[j] == edit_at(s, 8 + j * w, wide),
            decreases count - i,
        {
            assert(pos + w <= n) by (nonlinear_arith)
                requires
                    pos == 8 + i * w,
                    8 + count * w <= n,
                    i < count,
            ;
            let e: Edit;
            if wide {
                proof {
                    lemma_read_skip(s, pos as int);
                    lemma_read_skip(s, pos + 8);
                    lemma_read_skip(s, pos + 16);
                    lemma_read_skip(s, pos + 18);
                }
                let d = take_u64(r);
                let t = take_i64(r);
                let a = take_i16(r);
                let b = take_i16(r);
                e = (d, t, a, b);
            } else {
                proof {
                    lemma_read_skip(s, pos as int);
                    lemma_read_skip(s, pos + 4);
                    lemma_read_skip(s, pos + 8);
                    lemma_read_skip(s, pos + 10);
                }
                let d = take_u32(r);
                let t = take_i32(r);
                let a = take_i16(r);
                let b = take_i16(r);
                e = (d as u64, t as i64, a, b);
            }
            entries.push(e);
            assert((i + 1) * w == i * w + w) by (nonlinear_arith);
            i = i + 1;
            pos = pos + w;
        }
        let v = elst { flags: base.flags, entries };
        assert(v@.entries =~= ElstModel::parse(s)->Ok_0.0.entries);
        Ok(v)
    }

    #[verifier::rlimit(100)]
    #[verifier::spinoff_prover]
    pub fn write(&self, w: &mut BytesMut)
        requires
            buf_bytes(*old(w)).len() + self@.bytes().len() <= max_buf(),
        ensures
            buf_bytes(*final(w)) == buf_bytes(*old(w)) + self@.bytes(),
    {
        let ghost w0 = buf_bytes(*w);
        let ghost es = self.entries@;
        let wide = any_wide(&self.entries);
        let h = FullBox::new(
            if wide {
                1
            } else {
                0
            },
            self.flags,
        );
        h.write(w);
        put_u32(w, #[verifier::truncate] (self.entries.len() as u32));
        let ghost p1 = h.spec_bytes() + be32(es.len() as u32);
        proof {
            lemma_edits_bytes_len(es, wide);
        }
        assert(buf_bytes(*w) =~= w0 + p1 + edits_bytes(es.take(0), wide));
        let mut i: usize = 0;
        while i < self.entries.len()
            invariant
                i <= es.len(),
                es == self.entries@,
                wide == edits_wide(es),
                w0.len() + p1.len() + es.len() * edit_size(wide) <= max_buf(),
                buf_bytes(*w) == w0 + p1 + edits_bytes(es.take(i as int), wide),
            decreases es.len() - i,
        {
            proof {
                lemma_edits_bytes_len(es.take(i as int), wide);
                assert(i * edit_size(wide) + edit_size(wide) <= es.len() * edit_size(wide))
                    by (nonlinear_arith)
                    requires
                        i < es.len(),
                        edit_size(wide) >= 0,
                ;
            }
            let ghost before = buf_bytes(*w);
            let e = self.entries[i];
            if wide {
                put_u64(w, e.0);
                put_i64(w, e.1);
            } else {
                assert(!edit_wide(es[i as int]));
                put_u32(w, e.0 as u32);
                put_i32(w, e.1 as i32);
            }
            put_i16(w, e.2);
            put_i16(w, e.3);
            proof {
                assert(buf_bytes(*w) =~= before + edit_bytes(e, wide));
                assert(es.take(i + 1).drop_last() =~= es.take(i as int));
                assert(buf_bytes(*w) =~= w0 + p1 + edits_bytes(es.take(i + 1), wide));
            }
            i = i + 1;
        }
        assert(es.take(i as int) =~= es);
        assert(buf_bytes(*w) =~= w0 + self@.bytes());
    }

    pub fn as_bytes(&self) -> (r: BytesMut)
        requires
            self@.bytes().len() <= max_buf(),
        ensures
            buf_bytes(r) == self@.bytes(),
    {
        let mut w = buf_new();
        self.write(&mut w);
        assert(buf_bytes(w) =~= self@.bytes());
        w
    }
}

/// What an `edts` box holds.
pub struct EdtsModel {
    pub elst: Option<ElstModel>,
}

/// Takes one child into an `edts`: the last `elst` wins.
pub open spec fn edts_step(acc: EdtsModel, t: u32, p: Seq<u8>) -> Result<EdtsModel, DecodeError> {
    if t == elst::BOX_TYPE {
        match ElstModel::parse(p) {
            Ok((x, _)) => Ok(EdtsModel { elst: Some(x) }),
            Err(e) => Err(e),
        }
    } else {
        Ok(acc)
    }
}

pub open spec fn edts_stepper() -> spec_fn(EdtsModel, u32, Seq<u8>) -> Result<
    EdtsModel,
    DecodeError,
> {
    |acc: EdtsModel, t: u32, p: Seq<u8>| edts_step(acc, t, p)
}

impl EdtsModel {
    pub open spec fn initial() -> EdtsModel {
        EdtsModel { elst: None }
    }

    pub open spec fn children(self) -> Seq<(u32, Seq<u8>)> {
        match self.elst {
            Some(x) => seq![(elst::BOX_TYPE, x.bytes())],
            None => Seq::empty(),
        }
    }

    pub open spec fn bytes(self) -> Seq<u8> {
        boxes_bytes(self.children())
    }

    pub open spec fn parse(s: Seq<u8>) -> Result<(EdtsModel, int), DecodeError> {
        match walk(s, EdtsModel::initial(), edts_stepper()) {
            Ok(m) => Ok((m, s.len() as int)),
            Err(e) => Err(e),
        }
    }
}

/// Edit box: an optional edit list.
#[allow(non_camel_case_types)]
#[derive(Debug, Clone, PartialEq, Eq)]
pub struct edts {
    pub elst: Option<elst>,
}

impl View for edts {
    type V = EdtsModel;

    open spec fn view(&self) -> EdtsModel {
        EdtsModel {
            elst: match &self.elst {
                Some(x) => Some(x@),
                None => None,
            },
        }
    }
}

impl edts {
    pub const BOX_TYPE: u32 = 0x65647473;

    pub fn len(&self) -> (r: usize)
        requires
            self@.bytes().len() <= max_buf(),
        ensures
            r == self@.bytes().len(),
    {
        match &self.elst {
            Some(x) => {
                proof {
                    lemma_boxes_len_step(self@.children(), 0);
                }
                let n = x.len();
                header_len(n) + n
            },
            None => 0,
        }
    }

    #[verifier::rlimit(100)]
    #[verifier::spinoff_prover]
    pub fn parse(r: &mut BytesMut) -> (res: Result<edts, DecodeError>)
        ensures
            match res {
                Ok(v) => EdtsModel::parse(buf_bytes(*old(r))) matches Ok((m, n)) && m == v@
                    && buf_bytes(*final(r)) == buf_bytes(*old(r)).skip(n),
                Err(e) => EdtsModel::parse(buf_bytes(*old(r))) == Err::<(EdtsModel, int), _>(e),
            },
    {
        let ghost s = buf_bytes(*r);
        let mut acc = edts { elst: None };
        while buf_len(r) > 0
            invariant
                s == buf_bytes(*old(r)),
                walk(s, EdtsModel::initial(), edts_stepper()) == walk(
                    buf_bytes(*r),
                    acc@,
                    edts_stepper(),
                ),
            decreases buf_bytes(*r).len(),
        {
            let ghost cur = buf_bytes(*r);
            proof {
                lemma_walk_unfold(cur, acc@, edts_stepper());
            }
            let mut b = match Object::parse(r) {
                Ok(b) => b,
                Err(e) => return Err(e),
            };
            if b.box_type == elst::BOX_TYPE {
                let x = match elst::parse(&mut b.payload) {
                    Ok(x) => x,
                    Err(e) => return Err(e),
                };
                acc.elst = Some(x);
            }
        }
        assert(buf_bytes(*r) =~= s.skip(s.len() as int));
        proof {
            lemma_walk_empty(buf_bytes(*r), acc@, edts_stepper());
        }
        Ok(acc)
    }

    pub fn write(&self, w: &mut BytesMut)
        requires
            buf_bytes(*old(w)).len() + self@.bytes().len() <= max_buf(),
        ensures
            buf_bytes(*final(w)) == buf_bytes(*old(w)) + self@.bytes(),
    {
        let ghost w0 = buf_bytes(*w);
        let ghost cs = self@.children();
        match &self.elst {
            Some(x) => {
                proof {
                    lemma_boxes_bytes_prefix(cs, 0);
                    assert(cs.take(0) =~= Seq::<(u32, Seq<u8>)>::empty());
                    assert(cs.take(1) =~= cs);
                }
                let b = x.as_bytes();
                write_box(w, elst::BOX_TYPE, &b);
                assert(buf_bytes(*w) =~= w0 + self@.bytes());
            },
            None => {
                assert(buf_bytes(*w) =~= w0 + self@.bytes());
            },
        }
    }

    pub fn as_bytes(&self) -> (r: BytesMut)
        requires
            self@.bytes().len() <= max_buf(),
        ensures
            buf_bytes(r) == self@.bytes(),
    {
        let mut w = buf_new();
        self.write(&mut w);
        assert(buf_bytes(w) =~= self@.bytes());
        w
    }
}

/// An edit read back from its own bytes is the edit itself, given a layout
/// that holds it.
#[verifier::rlimit(100)]
#[verifier::spinoff_prover]
proof fn lemma_edit_round_trip(e: Edit, wide: bool)
    requires
        wide || !edit_wide(e),
    ensures
        edit_at(edit_bytes(e, wide), 0, wide) == e,
        edit_bytes(e, wide).len() == edit_size(wide),
{
    let s = edit_bytes(e, wide);
    let u2 = unsigned16(e.2 as int);
    let u3 = unsigned16(e.3 as int);
    if wide {
        let u1 = unsigned64(e.1 as int);
        assert(be64_at(s, 0) == be64_at(be64(e.0), 0));
        assert(be64_at(s, 8) == be64_at(be64(u1), 0));
        assert(be16_at(s, 16) == be16_at(be16(u2), 0));
        assert(be16_at(s, 18) == be16_at(be16(u3), 0));
        assert(signed64(u1) == e.1 as int);
    } else {
        let u1 = unsigned32(e.1 as int);
        assert(be32_at(s, 0) == be32_at(be32(e.0 as u32), 0));
        assert(be32_at(s, 4) == be32_at(be32(u1), 0));
        assert(be16_at(s, 8) == be16_at(be16(u2), 0));
        assert(be16_at(s, 10) == be16_at(be16(u3), 0));
        assert(signed32(u1) == e.1 as int);
    }
    assert(signed16(u2) == e.2 as int);
    assert(signed16(u3) == e.3 as int);
}

/// The bytes of the `i`-th edit within the bytes of all edits.
#[verifier::rlimit(100)]
#[verifier::spinoff_prover]
proof fn lemma_edits_bytes_at(es: Seq<Edit>, wide: bool, i: int)
    requires
        0 <= i < es.len(),
    ensures
        i * edit_size(wide) + edit_size(wide) <= es.len() * edit_size(wide),
        edits_bytes(es, wide).subrange(i * edit_size(wide), i * edit_size(wide) + edit_size(wide))
            == edit_bytes(es[i], wide),
    decreases es.len(),
{
    let w = edit_size(wide);
    lemma_edits_bytes_len(es, wide);
    lemma_edits_bytes_len(es.drop_last(), wide);
    assert(i * w + w <= es.len() * w) by (nonlinear_arith)
        requires
            i < es.len(),
            w >= 0,
    ;
    let p = edits_bytes(es.drop_last(), wide);
    let q = edit_bytes(es.last(), wide);
    if i < es.len() - 1 {
        lemma_edits_bytes_at(es.drop_last(), wide, i);
        assert(edits_bytes(es, wide).subrange(i * w, i * w + w) =~= p.subrange(i * w, i * w + w));
    } else {
        assert(i * w == (es.len() - 1) * w);
        assert(edits_bytes(es, wide).subrange(i * w, i * w + w) =~= q);
    }
}

/// Encoding an `elst` writes version 1 exactly when an edit needs 64 bits,
/// and decoding the result gives back the same list, given 24-bit flags and
/// a count that fits 32 bits.
#[verifier::rlimit(100)]
#[verifier::spinoff_prover]
pub proof fn lemma_elst_round_trip(m: ElstModel)
    requires
        m.flags < 0x1000000,
        m.entries.len() <= u32::MAX,
    ensures
        m.bytes()[0] == (if edits_wide(m.entries) {
            1u8
        } else {
            0u8
        }),
        ElstModel::parse(m.bytes()) == Ok::<_, DecodeError>((m, m.bytes().len() as int)),
{
    let es = m.entries;
    let wide = edits_wide(es);
    let w = edit_size(wide);
    let h = FullBox {
        version: if wide {
            1
        } else {
            0
        },
        flags: m.flags,
    };
    let eb = edits_bytes(es, wide);
    let s = m.bytes();
    lemma_edits_bytes_len(es, wide);
    assert(s == h.spec_bytes() + be32(es.len() as u32) + eb);
    assert(be24_at(s, 1) == be24_at(crate::buf::be24(m.flags), 0));
    assert(be32_at(s, 4) == be32_at(be32(es.len() as u32), 0));
    let d = ElstModel::parse(s)->Ok_0.0;
    assert forall|i: int| 0 <= i < es.len() implies d.entries[i] == es[i] by {
        lemma_edits_bytes_at(es, wide, i);
        assert(s.subrange(8 + i * w, 8 + i * w + w) =~= eb.subrange(i * w, i * w + w));
        if !wide {
            assert(!edit_wide(es[i]));
        }
        lemma_edit_round_trip(es[i], wide);
        let sub = s.subrange(8 + i * w, 8 + i * w + w);
        assert(edit_at(s, 8 + i * w, wide) == edit_at(sub, 0, wide));
    }
    assert(d.entries =~= es);
}

/// Decoding an encoded `edts` gives it back.
#[verifier::rlimit(100)]
#[verifier::spinoff_prover]
pub proof fn lemma_edts_round_trip(m: EdtsModel)
    requires
        m.bytes().len() + 16 <= max_buf(),
        m.elst matches Some(x) ==> x.flags < 0x1000000 && x.entries.len() <= u32::MAX,
    ensures
        EdtsModel::parse(m.bytes()) == Ok::<_, DecodeError>((m, m.bytes().len() as int)),
{
    let cs = m.children();
    let st = edts_stepper();
    crate::object::lemma_boxes_fit(cs);
    crate::object::lemma_walk_boxes(cs, EdtsModel::initial(), st);
    reveal_with_fuel(crate::object::step_all, 2);
    match m.elst {
        Some(x) => {
            lemma_elst_round_trip(x);
            assert(cs.skip(1) =~= Seq::<(u32, Seq<u8>)>::empty());
        },
        None => {},
    }
}

} // verus!
