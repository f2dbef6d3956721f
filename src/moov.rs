//! The movie box and the container boxes beneath it: track, media, media
//! information, data information and sample table.
use crate::buf::{buf_bytes, buf_len, buf_new, max_buf};
use crate::media::{
    hdlr, lemma_hdlr_round_trip, lemma_mdhd_round_trip, lemma_mvhd_round_trip,
    lemma_tkhd_round_trip, mdhd, mvhd, tkhd, HdlrModel, MdhdModel, MvhdModel, TkhdModel,
};
use crate::media_info::{
    dref, entry_exact, hmhd, lemma_dref_round_trip, lemma_hmhd_round_trip, lemma_nmhd_round_trip,
    lemma_smhd_round_trip, lemma_vmhd_round_trip, nmhd, smhd, vmhd, DrefModel, VmhdModel,
};
use crate::object::{
    lemma_boxes_fit, lemma_step_all_append, lemma_step_all_cons, lemma_walk_boxes, step_all,
    header_len, lemma_boxes_len_step, boxes_bytes, lemma_boxes_bytes_prefix, lemma_walk_empty, lemma_walk_unfold, walk, write_box,
    DecodeError, FullBox, Object,
};
use crate::edts::{edts, lemma_edts_round_trip, EdtsModel};
use crate::mvex::{lemma_mvex_round_trip, mvex, mvex_exact, MvexModel};
use crate::sample_entry::{lemma_stsd_round_trip, stsd, StsdModel};
use crate::sample_table::{
    lemma_stco_round_trip, lemma_stsc_round_trip, lemma_stsz_round_trip, lemma_stts_round_trip,
    stco, stsc, stsz, stts, StcoModel, StscModel, StszModel, SttsModel,
};
use bytes::BytesMut;
use vstd::prelude::*;

verus! {

/// What an `stbl` box holds.
pub struct StblModel {
    pub stsd: StsdModel,
    pub stts: SttsModel,
    pub stsc: StscModel,
    pub stsz: StszModel,
    pub stco: StcoModel,
}

pub open spec fn stbl_step(acc: StblModel, t: u32, p: Seq<u8>) -> Result<StblModel, DecodeError> {
    if t == stsd::BOX_TYPE {
        match StsdModel::parse(p) {
            Ok((x, _)) => Ok(StblModel { stsd: x, ..acc }),
            Err(e) => Err(e),
        }
    } else if t == stts::BOX_TYPE {
        match SttsModel::parse(p) {
            Ok((x, _)) => Ok(StblModel { stts: x, ..acc }),
            Err(e) => Err(e),
        }
    } else if t == stsc::BOX_TYPE {
        match StscModel::parse(p) {
            Ok((x, _)) => Ok(StblModel { stsc: x, ..acc }),
            Err(e) => Err(e),
        }
    } else if t == stsz::BOX_TYPE {
        match StszModel::parse(p) {
            Ok((x, _)) => Ok(StblModel { stsz: x, ..acc }),
            Err(e) => Err(e),
        }
    } else if t == stco::BOX_TYPE {
        match StcoModel::parse(p) {
            Ok((x, _)) => Ok(StblModel { stco: x, ..acc }),
            Err(e) => Err(e),
        }
    } else {
        Ok(acc)
    }
}

pub open spec fn stbl_stepper() -> spec_fn(StblModel, u32, Seq<u8>) -> Result<
    StblModel,
    DecodeError,
> {
    |acc: StblModel, t: u32, p: Seq<u8>| stbl_step(acc, t, p)
}

impl StblModel {
    pub open spec fn initial() -> StblModel {
        StblModel {
            stsd: StsdModel { base: FullBox { version: 0, flags: 0 }, entries: Seq::empty() },
            stts: SttsModel { base: FullBox { version: 0, flags: 0 }, entries: Seq::empty() },
            stsc: StscModel { base: FullBox { version: 0, flags: 0 }, entries: Seq::empty() },
            stsz: StszModel {
                base: FullBox { version: 0, flags: 0 },
                sample_size: 0,
                sample_count: 0,
                entries: Seq::empty(),
            },
            stco: StcoModel { base: FullBox { version: 0, flags: 0 }, entries: Seq::empty() },
        }
    }

    /// The children in the order encoding writes them.
    pub open spec fn children(self) -> Seq<(u32, Seq<u8>)> {
        seq![
            (stsd::BOX_TYPE, self.stsd.bytes()),
            (stts::BOX_TYPE, self.stts.bytes()),
            (stsc::BOX_TYPE, self.stsc.bytes()),
            (stsz::BOX_TYPE, self.stsz.bytes()),
            (stco::BOX_TYPE, self.stco.bytes()),
        ]
    }

    pub open spec fn bytes(self) -> Seq<u8> {
        boxes_bytes(self.children())
    }

    pub open spec fn parse(s: Seq<u8>) -> Result<(StblModel, int), DecodeError> {
        match walk(s, StblModel::initial(), stbl_stepper()) {
            Ok(m) => Ok((m, s.len() as int)),
            Err(e) => Err(e),
        }
    }
}

/// Sample table.
#[allow(non_camel_case_types)]
#[derive(Debug, PartialEq, Eq)]
pub struct stbl {
    pub stsd: stsd,
    pub stts: stts,
    pub stsc: stsc,
    pub stsz: stsz,
    pub stco: stco,
}

impl View for stbl {
    type V = StblModel;

    open spec fn view(&self) -> StblModel {
        StblModel {
            stsd: self.stsd@,
            stts: self.stts@,
            stsc: self.stsc@,
            stsz: self.stsz@,
            stco: self.stco@,
        }
    }
}

impl Default for stbl {
    fn default() -> (r: Self)
        ensures
            r@ == StblModel::initial(),
    {
        stbl {
            stsd: stsd::default(),
            stts: stts::default(),
            stsc: stsc::default(),
            stsz: stsz::default(),
            stco: stco::default(),
        }
    }
}

impl stbl {
    pub const BOX_TYPE: u32 = 0x7374626c;

    /// The number of bytes `as_bytes` produces.
    #[verifier::rlimit(100)]
    #[verifier::spinoff_prover]
    pub fn len(&self) -> (r: usize)
        requires
            self@.bytes().len() <= max_buf(),
        ensures
            r == self@.bytes().len(),
    {
        let ghost cs = self@.children();
        let mut v: usize = 0;
        proof {
            lemma_boxes_len_step(cs, 0);
        }
        let n = self.stsd.len();
        v = v + header_len(n) + n;
        proof {
            lemma_boxes_len_step(cs, 1);
        }
        let n = self.stts.len();
        v = v + header_len(n) + n;
        proof {
            lemma_boxes_len_step(cs, 2);
        }
        let n = self.stsc.len();
        v = v + header_len(n) + n;
        proof {
            lemma_boxes_len_step(cs, 3);
        }
        let n = self.stsz.len();
        v = v + header_len(n) + n;
        proof {
            lemma_boxes_len_step(cs, 4);
        }
        let n = self.stco.len();
        v = v + header_len(n) + n;
        v
    }

    #[verifier::rlimit(100)]
    #[verifier::spinoff_prover]
    pub fn parse(r: &mut BytesMut) -> (res: Result<stbl, DecodeError>)
        ensures
            match res {
                Ok(v) => StblModel::parse(buf_bytes(*old(r))) matches Ok((m, n)) && m == v@
                    && buf_bytes(*final(r)) == buf_bytes(*old(r)).skip(n),
                Err(e) => StblModel::parse(buf_bytes(*old(r))) == Err::<(StblModel, int), _>(e),
            },
    {
        let ghost s = buf_bytes(*r);
        let mut acc = stbl::default();
        while buf_len(r) > 0
            invariant
                s == buf_bytes(*old(r)),
                walk(s, StblModel::initial(), stbl_stepper()) == walk(
                    buf_bytes(*r),
                    acc@,
                    stbl_stepper(),
                ),
            decreases buf_bytes(*r).len(),
        {
            let ghost cur = buf_bytes(*r);
            proof {
                lemma_walk_unfold(cur, acc@, stbl_stepper());
            }
            let mut b = match Object::parse(r) {
                Ok(b) => b,
                Err(e) => return Err(e),
            };
            if b.box_type == stsd::BOX_TYPE {
                acc.stsd = match stsd::parse(&mut b.payload) {
                    Ok(x) => x,
                    Err(e) => return Err(e),
                };
            } else if b.box_type == stts::BOX_TYPE {
                acc.stts = match stts::parse(&mut b.payload) {
                    Ok(x) => x,
                    Err(e) => return Err(e),
                };
            } else if b.box_type == stsc::BOX_TYPE {
                acc.stsc = match stsc::parse(&mut b.payload) {
                    Ok(x) => x,
                    Err(e) => return Err(e),
                };
            } else if b.box_type == stsz::BOX_TYPE {
                acc.stsz = match stsz::parse(&mut b.payload) {
                    Ok(x) => x,
                    Err(e) => return Err(e),
                };
            } else if b.box_type == stco::BOX_TYPE {
                acc.stco = match stco::parse(&mut b.payload) {
                    Ok(x) => x,
                    Err(e) => return Err(e),
                };
            }
        }
        assert(buf_bytes(*r) =~= s.skip(s.len() as int));
        proof {
            lemma_walk_empty(buf_bytes(*r), acc@, stbl_stepper());
        }
        Ok(acc)
    }

    #[verifier::rlimit(100)]
    #[verifier::spinoff_prover]
    pub fn write(&self, w: &mut BytesMut)
        requires
            buf_bytes(*old(w)).len() + self@.bytes().len() <= max_buf(),
        ensures
            buf_bytes(*final(w)) == buf_bytes(*old(w)) + self@.bytes(),
    {
        let ghost w0 = buf_bytes(*w);
        let ghost cs = self@.children();
        proof {
            lemma_boxes_bytes_prefix(cs, 0);
            assert(cs.take(0) =~= Seq::<(u32, Seq<u8>)>::empty());
        }
        let b = self.stsd.as_bytes();
        write_box(w, stsd::BOX_TYPE, &b);
        proof {
            assert(buf_bytes(*w) =~= w0 + boxes_bytes(cs.take(1)));
            lemma_boxes_bytes_prefix(cs, 1);
        }
        let b = self.stts.as_bytes();
        write_box(w, stts::BOX_TYPE, &b);
        proof {
            assert(buf_bytes(*w) =~= w0 + boxes_bytes(cs.take(2)));
            lemma_boxes_bytes_prefix(cs, 2);
        }
        let b = self.stsc.as_bytes();
        write_box(w, stsc::BOX_TYPE, &b);
        proof {
            assert(buf_bytes(*w) =~= w0 + boxes_bytes(cs.take(3)));
            lemma_boxes_bytes_prefix(cs, 3);
        }
        let b = self.stsz.as_bytes();
        write_box(w, stsz::BOX_TYPE, &b);
        proof {
            assert(buf_bytes(*w) =~= w0 + boxes_bytes(cs.take(4)));
            lemma_boxes_bytes_prefix(cs, 4);
        }
        let b = self.stco.as_bytes();
        write_box(w, stco::BOX_TYPE, &b);
        assert(buf_bytes(*w) =~= w0 + boxes_bytes(cs.take(5)));
        assert(cs.take(5) =~= cs);
    }

    pub fn as_bytes(&self) -> (r: BytesMut)
        requires
            self@.bytes().len() <= max_buf(),
        ensures
            buf_bytes(r) == self@.bytes(),
    {
        let mut w = buf_new();
        self.write(&mut w);
        assert(buf_bytes(w) =~= self@.bytes());
        w
    }
}

/// What a `dinf` box holds.
pub struct DinfModel {
    pub dref: DrefModel,
}

pub open spec fn dinf_step(acc: DinfModel, t: u32, p: Seq<u8>) -> Result<DinfModel, DecodeError> {
    if t == dref::BOX_TYPE {
        match DrefModel::parse(p) {
            Ok((x, _)) => Ok(DinfModel { dref: x }),
            Err(e) => Err(e),
        }
    } else {
        Ok(acc)
    }
}

pub open spec fn dinf_stepper() -> spec_fn(DinfModel, u32, Seq<u8>) -> Result<
    DinfModel,
    DecodeError,
> {
    |acc: DinfModel, t: u32, p: Seq<u8>| dinf_step(acc, t, p)
}

impl DinfModel {
    pub open spec fn initial() -> DinfModel {
        DinfModel {
            dref: DrefModel { base: FullBox { version: 0, flags: 0 }, entries: Seq::empty() },
        }
    }

    pub open spec fn children(self) -> Seq<(u32, Seq<u8>)> {
        seq![(dref::BOX_TYPE, self.dref.bytes())]
    }

    pub open spec fn bytes(self) -> Seq<u8> {
        boxes_bytes(self.children())
    }

    pub open spec fn parse(s: Seq<u8>) -> Result<(DinfModel, int), DecodeError> {
        match walk(s, DinfModel::initial(), dinf_stepper()) {
            Ok(m) => Ok((m, s.len() as int)),
            Err(e) => Err(e),
        }
    }
}

/// Data information: the data reference.
#[allow(non_camel_case_types)]
#[derive(Debug, Clone, PartialEq, Eq)]
pub struct dinf {
    pub dref: dref,
}

impl View for dinf {
    type V = DinfModel;

    open spec fn view(&self) -> DinfModel {
        DinfModel { dref: self.dref@ }
    }
}

impl Default for dinf {
    fn default() -> (r: Self)
        ensures
            r@ == DinfModel::initial(),
    {
        dinf { dref: dref::default() }
    }
}

impl dinf {
    pub const BOX_TYPE: u32 = 0x64696e66;

    /// The number of bytes `as_bytes` produces.
    #[verifier::rlimit(100)]
    #[verifier::spinoff_prover]
    pub fn len(&self) -> (r: usize)
        requires
            self@.bytes().len() <= max_buf(),
        ensures
            r == self@.bytes().len(),
    {
        let ghost cs = self@.children();
        let mut v: usize = 0;
        proof {
            lemma_boxes_len_step(cs, 0);
        }
        let n = self.dref.len();
        v = v + header_len(n) + n;
        v
    }

    #[verifier::rlimit(100)]
    #[verifier::spinoff_prover]
    pub fn parse(r: &mut BytesMut) -> (res: Result<dinf, DecodeError>)
        ensures
            match res {
                Ok(v) => DinfModel::parse(buf_bytes(*old(r))) matches Ok((m, n)) && m == v@
                    && buf_bytes(*final(r)) == buf_bytes(*old(r)).skip(n),
                Err(e) => DinfModel::parse(buf_bytes(*old(r))) == Err::<(DinfModel, int), _>(e),
            },
    {
        let ghost s = buf_bytes(*r);
        let mut acc = dinf::default();
        while buf_len(r) > 0
            invariant
                s == buf_bytes(*old(r)),
                walk(s, DinfModel::initial(), dinf_stepper()) == walk(buf_bytes(*r), acc@, dinf_stepper()),
            decreases buf_bytes(*r).len(),
        {
            let ghost cur = buf_bytes(*r);
            proof {
                lemma_walk_unfold(cur, acc@, dinf_stepper());
            }
            let mut b = match Object::parse(r) {
                Ok(b) => b,
                Err(e) => return Err(e),
            };
            if b.box_type == dref::BOX_TYPE {
                let x = match dref::parse(&mut b.payload) {
                    Ok(x) => x,
                    Err(e) => return Err(e),
                };
                acc.dref = x;
            }
        }
        assert(buf_bytes(*r) =~= s.skip(s.len() as int));
        proof {
            lemma_walk_empty(buf_bytes(*r), acc@, dinf_stepper());
        }
        Ok(acc)
    }

    pub fn as_bytes(&self) -> (r: BytesMut)
        requires
            self@.bytes().len() <= max_buf(),
        ensures
            buf_bytes(r) == self@.bytes(),
    {
        let mut w = buf_new();
        self.write(&mut w);
        assert(buf_bytes(w) =~= self@.bytes());
        w
    }

    #[verifier::rlimit(100)]
    #[verifier::spinoff_prover]
    pub fn write(&self, w: &mut BytesMut)
        requires
            buf_bytes(*old(w)).len() + self@.bytes().len() <= max_buf(),
        ensures
            buf_bytes(*final(w)) == buf_bytes(*old(w)) + self@.bytes(),
    {
        let ghost w0 = buf_bytes(*w);
        let ghost cs = self@.children();
        proof {
            lemma_boxes_bytes_prefix(cs, 0);
            assert(cs.take(0) =~= Seq::<(u32, Seq<u8>)>::empty());
        }
        let b = self.dref.as_bytes();
        write_box(w, dref::BOX_TYPE, &b);
        proof {
            assert(buf_bytes(*w) =~= w0 + boxes_bytes(cs.take(1)));
        }
        assert(cs.take(1) =~= cs);
    }

}

/// The media header of a `minf`: one of four kinds, or none yet.
#[derive(Debug, Clone, PartialEq, Eq)]
pub enum MediaInformationHeader {
    Unknown,
    #[allow(non_camel_case_types)]
    vmhd(vmhd),
    #[allow(non_camel_case_types)]
    smhd(smhd),
    #[allow(non_camel_case_types)]
    hmhd(hmhd),
    #[allow(non_camel_case_types)]
    nmhd(nmhd),
}

pub enum MhdModel {
    Unknown,
    Vmhd(VmhdModel),
    Smhd(smhd),
    Hmhd(hmhd),
    Nmhd(nmhd),
}

impl View for MediaInformationHeader {
    type V = MhdModel;

    open spec fn view(&self) -> MhdModel {
        match self {
            MediaInformationHeader::Unknown => MhdModel::Unknown,
            MediaInformationHeader::vmhd(v) => MhdModel::Vmhd(v@),
            MediaInformationHeader::smhd(v) => MhdModel::Smhd(*v),
            MediaInformationHeader::hmhd(v) => MhdModel::Hmhd(*v),
            MediaInformationHeader::nmhd(v) => MhdModel::Nmhd(*v),
        }
    }
}

impl MhdModel {
    /// The header as a child list: empty for `Unknown`.
    pub open spec fn children(self) -> Seq<(u32, Seq<u8>)> {
        match self {
            MhdModel::Unknown => Seq::empty(),
            MhdModel::Vmhd(v) => seq![(vmhd::BOX_TYPE, v.bytes())],
            MhdModel::Smhd(v) => seq![(smhd::BOX_TYPE, v.spec_bytes())],
            MhdModel::Hmhd(v) => seq![(hmhd::BOX_TYPE, v.spec_bytes())],
            MhdModel::Nmhd(v) => seq![(nmhd::BOX_TYPE, v.spec_bytes())],
        }
    }
}

/// What a `minf` box holds.
pub struct MinfModel {
    pub mhd: MhdModel,
    pub dinf: DinfModel,
    pub stbl: StblModel,
}

/// Takes one child into a `minf`: the last media header of any kind wins.
pub open spec fn minf_step(acc: MinfModel, t: u32, p: Seq<u8>) -> Result<MinfModel, DecodeError> {
    if t == vmhd::BOX_TYPE {
        match VmhdModel::parse(p) {
            Ok((x, _)) => Ok(MinfModel { mhd: MhdModel::Vmhd(x), ..acc }),
            Err(e) => Err(e),
        }
    } else if t == smhd::BOX_TYPE {
        match smhd::spec_parse(p) {
            Ok((x, _)) => Ok(MinfModel { mhd: MhdModel::Smhd(x), ..acc }),
            Err(e) => Err(e),
        }
    } else if t == hmhd::BOX_TYPE {
        match hmhd::spec_parse(p) {
            Ok((x, _)) => Ok(MinfModel { mhd: MhdModel::Hmhd(x), ..acc }),
            Err(e) => Err(e),
        }
    } else if t == nmhd::BOX_TYPE {
        match nmhd::spec_parse(p) {
            Ok((x, _)) => Ok(MinfModel { mhd: MhdModel::Nmhd(x), ..acc }),
            Err(e) => Err(e),
        }
    } else if t == dinf::BOX_TYPE {
        match DinfModel::parse(p) {
            Ok((x, _)) => Ok(MinfModel { dinf: x, ..acc }),
            Err(e) => Err(e),
        }
    } else if t == stbl::BOX_TYPE {
        match StblModel::parse(p) {
            Ok((x, _)) => Ok(MinfModel { stbl: x, ..acc }),
            Err(e) => Err(e),
        }
    } else {
        Ok(acc)
    }
}

pub open spec fn minf_stepper() -> spec_fn(MinfModel, u32, Seq<u8>) -> Result<
    MinfModel,
    DecodeError,
> {
    |acc: MinfModel, t: u32, p: Seq<u8>| minf_step(acc, t, p)
}

impl MinfModel {
    pub open spec fn initial() -> MinfModel {
        MinfModel { mhd: MhdModel::Unknown, dinf: DinfModel::initial(), stbl: StblModel::initial() }
    }

    /// The children in the order encoding writes them: the media header if
    /// any, `dinf`, `stbl`.
    pub open spec fn children(self) -> Seq<(u32, Seq<u8>)> {
        self.mhd.children() + seq![
            (dinf::BOX_TYPE, self.dinf.bytes()),
            (stbl::BOX_TYPE, self.stbl.bytes()),
        ]
    }

    pub open spec fn bytes(self) -> Seq<u8> {
        boxes_bytes(self.children())
    }

    pub open spec fn parse(s: Seq<u8>) -> Result<(MinfModel, int), DecodeError> {
        match walk(s, MinfModel::initial(), minf_stepper()) {
            Ok(m) => Ok((m, s.len() as int)),
            Err(e) => Err(e),
        }
    }
}

/// Media information.
#[allow(non_camel_case_types)]
#[derive(Debug, PartialEq, Eq)]
pub struct minf {
    pub mhd: MediaInformationHeader,
    pub dinf: dinf,
    pub stbl: stbl,
}

impl View for minf {
    type V = MinfModel;

    open spec fn view(&self) -> MinfModel {
        MinfModel { mhd: self.mhd@, dinf: self.dinf@, stbl: self.stbl@ }
    }
}

impl Default for minf {
    fn default() -> (r: Self)
        ensures
            r@ == MinfModel::initial(),
    {
        minf { mhd: MediaInformationHeader::Unknown, dinf: dinf::default(), stbl: stbl::default() }
    }
}

impl minf {
    pub const BOX_TYPE: u32 = 0x6d696e66;

    /// The number of bytes `as_bytes` produces.
    #[verifier::rlimit(100)]
    #[verifier::spinoff_prover]
    pub fn len(&self) -> (r: usize)
        requires
            self@.bytes().len() <= max_buf(),
        ensures
            r == self@.bytes().len(),
    {
        let ghost cs = self@.children();
        let ghost k: int = self@.mhd.children().len() as int;
        let mut v: usize = 0;
        let (present, n): (bool, usize) = match &self.mhd {
            MediaInformationHeader::Unknown => (false, 0),
            MediaInformationHeader::vmhd(x) => (true, x.len()),
            MediaInformationHeader::smhd(x) => (true, x.len()),
            MediaInformationHeader::hmhd(x) => (true, x.len()),
            MediaInformationHeader::nmhd(x) => (true, x.len()),
        };
        assert(present == (k == 1));
        if present {
            proof {
                lemma_boxes_len_step(cs, 0);
            }
            v = header_len(n) + n;
        } else {
            assert(cs.take(0) =~= Seq::<(u32, Seq<u8>)>::empty());
        }
        proof {
            lemma_boxes_len_step(cs, k);
        }
        let n = self.dinf.len();
        v = v + header_len(n) + n;
        proof {
            lemma_boxes_len_step(cs, k + 1);
        }
        let n = self.stbl.len();
        v = v + header_len(n) + n;
        v
    }

    #[verifier::rlimit(100)]
    #[verifier::spinoff_prover]
    pub fn parse(r: &mut BytesMut) -> (res: Result<minf, DecodeError>)
        ensures
            match res {
                Ok(v) => MinfModel::parse(buf_bytes(*old(r))) matches Ok((m, n)) && m == v@
                    && buf_bytes(*final(r)) == buf_bytes(*old(r)).skip(n),
                Err(e) => MinfModel::parse(buf_bytes(*old(r))) == Err::<(MinfModel, int), _>(e),
            },
    {
        let ghost s = buf_bytes(*r);
        let mut acc = minf::default();
        while buf_len(r) > 0
            invariant
                s == buf_bytes(*old(r)),
                walk(s, MinfModel::initial(), minf_stepper()) == walk(buf_bytes(*r), acc@, minf_stepper()),
            decreases buf_bytes(*r).len(),
        {
            let ghost cur = buf_bytes(*r);
            proof {
                lemma_walk_unfold(cur, acc@, minf_stepper());
            }
            let mut b = match Object::parse(r) {
                Ok(b) => b,
                Err(e) => return Err(e),
            };
            if b.box_type == vmhd::BOX_TYPE {
                let x = match vmhd::parse(&mut b.payload) {
                    Ok(x) => x,
                    Err(e) => return Err(e),
                };
                acc.mhd = MediaInformationHeader::vmhd(x);
            } else if b.box_type == smhd::BOX_TYPE {
                let x = match smhd::parse(&mut b.payload) {
                    Ok(x) => x,
                    Err(e) => return Err(e),
                };
                acc.mhd = MediaInformationHeader::smhd(x);
            } else if b.box_type == hmhd::BOX_TYPE {
                let x = match hmhd::parse(&mut b.payload) {
                    Ok(x) => x,
                    Err(e) => return Err(e),
                };
                acc.mhd = MediaInformationHeader::hmhd(x);
            } else if b.box_type == nmhd::BOX_TYPE {
                let x = match nmhd::parse(&mut b.payload) {
                    Ok(x) => x,
                    Err(e) => return Err(e),
                };
                acc.mhd = MediaInformationHeader::nmhd(x);
            } else if b.box_type == dinf::BOX_TYPE {
                let x = match dinf::parse(&mut b.payload) {
                    Ok(x) => x,
                    Err(e) => return Err(e),
                };
                acc.dinf = x;
            } else if b.box_type == stbl::BOX_TYPE {
                let x = match stbl::parse(&mut b.payload) {
                    Ok(x) => x,
                    Err(e) => return Err(e),
                };
                acc.stbl = x;
            }
        }
        assert(buf_bytes(*r) =~= s.skip(s.len() as int));
        proof {
            lemma_walk_empty(buf_bytes(*r), acc@, minf_stepper());
        }
        Ok(acc)
    }

    pub fn as_bytes(&self) -> (r: BytesMut)
        requires
            self@.bytes().len() <= max_buf(),
        ensures
            buf_bytes(r) == self@.bytes(),
    {
        let mut w = buf_new();
        self.write(&mut w);
        assert(buf_bytes(w) =~= self@.bytes());
        w
    }

    #[verifier::rlimit(100)]
    #[verifier::spinoff_prover]
    pub fn write(&self, w: &mut BytesMut)
        requires
            buf_bytes(*old(w)).len() + self@.bytes().len() <= max_buf(),
        ensures
            buf_bytes(*final(w)) == buf_bytes(*old(w)) + self@.bytes(),
    {
        let ghost w0 = buf_bytes(*w);
        let ghost cs = self@.children();
        let ghost k: int = self@.mhd.children().len() as int;
        proof {
            lemma_boxes_bytes_prefix(cs, 0);
            assert(cs.take(0) =~= Seq::<(u32, Seq<u8>)>::empty());
        }
        match &self.mhd {
            MediaInformationHeader::Unknown => {},
            MediaInformationHeader::vmhd(v) => {
                let b = v.as_bytes();
                write_box(w, vmhd::BOX_TYPE, &b);
            },
            MediaInformationHeader::smhd(v) => {
                let b = v.as_bytes();
                write_box(w, smhd::BOX_TYPE, &b);
            },
            MediaInformationHeader::hmhd(v) => {
                let b = v.as_bytes();
                write_box(w, hmhd::BOX_TYPE, &b);
            },
            MediaInformationHeader::nmhd(v) => {
                let b = v.as_bytes();
                write_box(w, nmhd::BOX_TYPE, &b);
            },
        }
        proof {
            assert(buf_bytes(*w) =~= w0 + boxes_bytes(cs.take(k)));
            lemma_boxes_bytes_prefix(cs, k);
        }
        let b = self.dinf.as_bytes();
        write_box(w, dinf::BOX_TYPE, &b);
        proof {
            assert(buf_bytes(*w) =~= w0 + boxes_bytes(cs.take(k + 1)));
            lemma_boxes_bytes_prefix(cs, k + 1);
        }
        let b = self.stbl.as_bytes();
        write_box(w, stbl::BOX_TYPE, &b);
        assert(buf_bytes(*w) =~= w0 + boxes_bytes(cs.take(k + 2)));
        assert(cs.take(k + 2) =~= cs);
    }

}

/// What an `mdia` box holds.
pub struct MdiaModel {
    pub mdhd: MdhdModel,
    pub hdlr: HdlrModel,
    pub minf: MinfModel,
}

pub open spec fn mdia_step(acc: MdiaModel, t: u32, p: Seq<u8>) -> Result<MdiaModel, DecodeError> {
    if t == mdhd::BOX_TYPE {
        match MdhdModel::parse(p) {
            Ok((x, _)) => Ok(MdiaModel { mdhd: x, ..acc }),
            Err(e) => Err(e),
        }
    } else if t == hdlr::BOX_TYPE {
        match HdlrModel::parse(p) {
            Ok((x, _)) => Ok(MdiaModel { hdlr: x, ..acc }),
            Err(e) => Err(e),
        }
    } else if t == minf::BOX_TYPE {
        match MinfModel::parse(p) {
            Ok((x, _)) => Ok(MdiaModel { minf: x, ..acc }),
            Err(e) => Err(e),
        }
    } else {
        Ok(acc)
    }
}

pub open spec fn mdia_stepper() -> spec_fn(MdiaModel, u32, Seq<u8>) -> Result<
    MdiaModel,
    DecodeError,
> {
    |acc: MdiaModel, t: u32, p: Seq<u8>| mdia_step(acc, t, p)
}

impl MdiaModel {
    pub open spec fn initial() -> MdiaModel {
        MdiaModel {
            mdhd: MdhdModel {
                flags: 0,
                creation_time: 0,
                modification_time: 0,
                timescale: 0,
                duration: 0,
                language: 0,
            },
            hdlr: HdlrModel {
                base: FullBox { version: 0, flags: 0 },
                handler_type: 0,
                name: Seq::empty(),
            },
            minf: MinfModel::initial(),
        }
    }

    pub open spec fn children(self) -> Seq<(u32, Seq<u8>)> {
        seq![
            (mdhd::BOX_TYPE, self.mdhd.bytes()),
            (hdlr::BOX_TYPE, self.hdlr.bytes()),
            (minf::BOX_TYPE, self.minf.bytes()),
        ]
    }

    pub open spec fn bytes(self) -> Seq<u8> {
        boxes_bytes(self.children())
    }

    pub open spec fn parse(s: Seq<u8>) -> Result<(MdiaModel, int), DecodeError> {
        match walk(s, MdiaModel::initial(), mdia_stepper()) {
            Ok(m) => Ok((m, s.len() as int)),
            Err(e) => Err(e),
        }
    }
}

/// Media: its header, handler and information.
#[allow(non_camel_case_types)]
#[derive(Debug, PartialEq, Eq)]
pub struct mdia {
    pub mdhd: mdhd,
    pub hdlr: hdlr,
    pub minf: minf,
}

impl View for mdia {
    type V = MdiaModel;

    open spec fn view(&self) -> MdiaModel {
        MdiaModel { mdhd: self.mdhd@, hdlr: self.hdlr@, minf: self.minf@ }
    }
}

impl Default for mdia {
    fn default() -> (r: Self)
        ensures
            r@ == MdiaModel::initial(),
    {
        mdia { mdhd: mdhd::default(), hdlr: hdlr::default(), minf: minf::default() }
    }
}

impl mdia {
    pub const BOX_TYPE: u32 = 0x6d646961;

    /// The number of bytes `as_bytes` produces.
    #[verifier::rlimit(100)]
    #[verifier::spinoff_prover]
    pub fn len(&self) -> (r: usize)
        requires
            self@.bytes().len() <= max_buf(),
        ensures
            r == self@.bytes().len(),
    {
        let ghost cs = self@.children();
        let mut v: usize = 0;
        proof {
            lemma_boxes_len_step(cs, 0);
        }
        let n = self.mdhd.len();
        v = v + header_len(n) + n;
        proof {
            lemma_boxes_len_step(cs, 1);
        }
        let n = self.hdlr.len();
        v = v + header_len(n) + n;
        proof {
            lemma_boxes_len_step(cs, 2);
        }
        let n = self.minf.len();
        v = v + header_len(n) + n;
        v
    }

    #[verifier::rlimit(100)]
    #[verifier::spinoff_prover]
    pub fn parse(r: &mut BytesMut) -> (res: Result<mdia, DecodeError>)
        ensures
            match res {
                Ok(v) => MdiaModel::parse(buf_bytes(*old(r))) matches Ok((m, n)) && m == v@
                    && buf_bytes(*final(r)) == buf_bytes(*old(r)).skip(n),
                Err(e) => MdiaModel::parse(buf_bytes(*old(r))) == Err::<(MdiaModel, int), _>(e),
            },
    {
        let ghost s = buf_bytes(*r);
        let mut acc = mdia::default();
        while buf_len(r) > 0
            invariant
                s == buf_bytes(*old(r)),
                walk(s, MdiaModel::initial(), mdia_stepper()) == walk(buf_bytes(*r), acc@, mdia_stepper()),
            decreases buf_bytes(*r).len(),
        {
            let ghost cur = buf_bytes(*r);
            proof {
                lemma_walk_unfold(cur, acc@, mdia_stepper());
            }
            let mut b = match Object::parse(r) {
                Ok(b) => b,
                Err(e) => return Err(e),
            };
            if b.box_type == mdhd::BOX_TYPE {
                let x = match mdhd::parse(&mut b.payload) {
                    Ok(x) => x,
                    Err(e) => return Err(e),
                };
                acc.mdhd = x;
            } else if b.box_type == hdlr::BOX_TYPE {
                let x = match hdlr::parse(&mut b.payload) {
                    Ok(x) => x,
                    Err(e) => return Err(e),
                };
                acc.hdlr = x;
            } else if b.box_type == minf::BOX_TYPE {
                let x = match minf::parse(&mut b.payload) {
                    Ok(x) => x,
                    Err(e) => return Err(e),
                };
                acc.minf = x;
            }
        }
        assert(buf_bytes(*r) =~= s.skip(s.len() as int));
        proof {
            lemma_walk_empty(buf_bytes(*r), acc@, mdia_stepper());
        }
        Ok(acc)
    }

    pub fn as_bytes(&self) -> (r: BytesMut)
        requires
            self@.bytes().len() <= max_buf(),
        ensures
            buf_bytes(r) == self@.bytes(),
    {
        let mut w = buf_new();
        self.write(&mut w);
        assert(buf_bytes(w) =~= self@.bytes());
        w
    }

    #[verifier::rlimit(100)]
    #[verifier::spinoff_prover]
    pub fn write(&self, w: &mut BytesMut)
        requires
            buf_bytes(*old(w)).len() + self@.bytes().len() <= max_buf(),
        ensures
            buf_bytes(*final(w)) == buf_bytes(*old(w)) + self@.bytes(),
    {
        let ghost w0 = buf_bytes(*w);
        let ghost cs = self@.children();
        proof {
            lemma_boxes_bytes_prefix(cs, 0);
            assert(cs.take(0) =~= Seq::<(u32, Seq<u8>)>::empty());
        }
        let b = self.mdhd.as_bytes();
        write_box(w, mdhd::BOX_TYPE, &b);
        proof {
            assert(buf_bytes(*w) =~= w0 + boxes_bytes(cs.take(1)));
            lemma_boxes_bytes_prefix(cs, 1);
        }
        let b = self.hdlr.as_bytes();
        write_box(w, hdlr::BOX_TYPE, &b);
        proof {
            assert(buf_bytes(*w) =~= w0 + boxes_bytes(cs.take(2)));
            lemma_boxes_bytes_prefix(cs, 2);
        }
        let b = self.minf.as_bytes();
        write_box(w, minf::BOX_TYPE, &b);
        proof {
            assert(buf_bytes(*w) =~= w0 + boxes_bytes(cs.take(3)));
        }
        assert(cs.take(3) =~= cs);
    }

}

/// What a `trak` box holds.
pub struct TrakModel {
    pub tkhd: TkhdModel,
    pub edts: Option<EdtsModel>,
    pub mdia: MdiaModel,
}

/// Takes one child into a `trak`: the last `tkhd`, `edts` and `mdia` win.
pub open spec fn trak_step(acc: TrakModel, t: u32, p: Seq<u8>) -> Result<TrakModel, DecodeError> {
    if t == tkhd::BOX_TYPE {
        match TkhdModel::parse(p) {
            Ok((x, _)) => Ok(TrakModel { tkhd: x, ..acc }),
            Err(e) => Err(e),
        }
    } else if t == edts::BOX_TYPE {
        match EdtsModel::parse(p) {
            Ok((x, _)) => Ok(TrakModel { edts: Some(x), ..acc }),
            Err(e) => Err(e),
        }
    } else if t == mdia::BOX_TYPE {
        match MdiaModel::parse(p) {
            Ok((x, _)) => Ok(TrakModel { mdia: x, ..acc }),
            Err(e) => Err(e),
        }
    } else {
        Ok(acc)
    }
}

pub open spec fn trak_stepper() -> spec_fn(TrakModel, u32, Seq<u8>) -> Result<
    TrakModel,
    DecodeError,
> {
    |acc: TrakModel, t: u32, p: Seq<u8>| trak_step(acc, t, p)
}

impl TrakModel {
    pub open spec fn initial() -> TrakModel {
        TrakModel { tkhd: TkhdModel::initial(), edts: None, mdia: MdiaModel::initial() }
    }

    pub open spec fn edts_children(self) -> Seq<(u32, Seq<u8>)> {
        match self.edts {
            Some(x) => seq![(edts::BOX_TYPE, x.bytes())],
            None => Seq::empty(),
        }
    }

    /// The children in the order encoding writes them: `tkhd`, `edts` if
    /// any, `mdia`.
    pub open spec fn children(self) -> Seq<(u32, Seq<u8>)> {
        seq![(tkhd::BOX_TYPE, self.tkhd.bytes())] + self.edts_children() + seq![
            (mdia::BOX_TYPE, self.mdia.bytes()),
        ]
    }

    pub open spec fn bytes(self) -> Seq<u8> {
        boxes_bytes(self.children())
    }

    pub open spec fn parse(s: Seq<u8>) -> Result<(TrakModel, int), DecodeError> {
        match walk(s, TrakModel::initial(), trak_stepper()) {
            Ok(m) => Ok((m, s.len() as int)),
            Err(e) => Err(e),
        }
    }
}

/// Track: its header, its edits if any, and its media.
#[allow(non_camel_case_types)]
#[derive(Debug, PartialEq, Eq)]
pub struct trak {
    pub tkhd: tkhd,
    pub edts: Option<edts>,
    pub mdia: mdia,
}

impl View for trak {
    type V = TrakModel;

    open spec fn view(&self) -> TrakModel {
        TrakModel {
            tkhd: self.tkhd@,
            edts: match &self.edts {
                Some(x) => Some(x@),
                None => None,
            },
            mdia: self.mdia@,
        }
    }
}

impl Default for trak {
    fn default() -> (r: Self)
        ensures
            r@ == TrakModel::initial(),
    {
        trak { tkhd: tkhd::default(), edts: None, mdia: mdia::default() }
    }
}

impl trak {
    pub const BOX_TYPE: u32 = 0x7472616b;

    /// The number of bytes `as_bytes` produces.
    #[verifier::rlimit(100)]
    #[verifier::spinoff_prover]
    pub fn len(&self) -> (r: usize)
        requires
            self@.bytes().len() <= max_buf(),
        ensures
            r == self@.bytes().len(),
    {
        let ghost cs = self@.children();
        let ghost k: int = self@.edts_children().len() as int;
        proof {
            lemma_boxes_len_step(cs, 0);
        }
        let n = self.tkhd.len();
        let mut v: usize = header_len(n) + n;
        if let Some(x) = &self.edts {
            proof {
                lemma_boxes_len_step(cs, 1);
            }
            let n = x.len();
            v = v + header_len(n) + n;
        }
        proof {
            lemma_boxes_len_step(cs, 1 + k);
        }
        let n = self.mdia.len();
        v = v + header_len(n) + n;
        v
    }

    #[verifier::rlimit(100)]
    #[verifier::spinoff_prover]
    pub fn parse(r: &mut BytesMut) -> (res: Result<trak, DecodeError>)
        ensures
            match res {
                Ok(v) => TrakModel::parse(buf_bytes(*old(r))) matches Ok((m, n)) && m == v@
                    && buf_bytes(*final(r)) == buf_bytes(*old(r)).skip(n),
                Err(e) => TrakModel::parse(buf_bytes(*old(r))) == Err::<(TrakModel, int), _>(e),
            },
    {
        let ghost s = buf_bytes(*r);
        let mut acc = trak::default();
        while buf_len(r) > 0
            invariant
                s == buf_bytes(*old(r)),
                walk(s, TrakModel::initial(), trak_stepper()) == walk(buf_bytes(*r), acc@, trak_stepper()),
            decreases buf_bytes(*r).len(),
        {
            let ghost cur = buf_bytes(*r);
            proof {
                lemma_walk_unfold(cur, acc@, trak_stepper());
            }
            let mut b = match Object::parse(r) {
                Ok(b) => b,
                Err(e) => return Err(e),
            };
            if b.box_type == tkhd::BOX_TYPE {
                let x = match tkhd::parse(&mut b.payload) {
                    Ok(x) => x,
                    Err(e) => return Err(e),
                };
                acc.tkhd = x;
            } else if b.box_type == edts::BOX_TYPE {
                let x = match edts::parse(&mut b.payload) {
                    Ok(x) => x,
                    Err(e) => return Err(e),
                };
                acc.edts = Some(x);
            } else if b.box_type == mdia::BOX_TYPE {
                let x = match mdia::parse(&mut b.payload) {
                    Ok(x) => x,
                    Err(e) => return Err(e),
                };
                acc.mdia = x;
            }
        }
        assert(buf_bytes(*r) =~= s.skip(s.len() as int));
        proof {
            lemma_walk_empty(buf_bytes(*r), acc@, trak_stepper());
        }
        Ok(acc)
    }

    pub fn as_bytes(&self) -> (r: BytesMut)
        requires
            self@.bytes().len() <= max_buf(),
        ensures
            buf_bytes(r) == self@.bytes(),
    {
        let mut w = buf_new();
        self.write(&mut w);
        assert(buf_bytes(w) =~= self@.bytes());
        w
    }

    #[verifier::rlimit(100)]
    #[verifier::spinoff_prover]
    pub fn write(&self, w: &mut BytesMut)
        requires
            buf_bytes(*old(w)).len() + self@.bytes().len() <= max_buf(),
        ensures
            buf_bytes(*final(w)) == buf_bytes(*old(w)) + self@.bytes(),
    {
        let ghost w0 = buf_bytes(*w);
        let ghost cs = self@.children();
        let ghost k: int = self@.edts_children().len() as int;
        proof {
            lemma_boxes_bytes_prefix(cs, 0);
            assert(cs.take(0) =~= Seq::<(u32, Seq<u8>)>::empty());
        }
        let b = self.tkhd.as_bytes();
        write_box(w, tkhd::BOX_TYPE, &b);
        assert(buf_bytes(*w) =~= w0 + boxes_bytes(cs.take(1)));
        if let Some(x) = &self.edts {
            proof {
                lemma_boxes_bytes_prefix(cs, 1);
            }
            let b = x.as_bytes();
            write_box(w, edts::BOX_TYPE, &b);
            assert(buf_bytes(*w) =~= w0 + boxes_bytes(cs.take(2)));
        }
        proof {
            lemma_boxes_bytes_prefix(cs, 1 + k);
        }
        let b = self.mdia.as_bytes();
        write_box(w, mdia::BOX_TYPE, &b);
        assert(buf_bytes(*w) =~= w0 + boxes_bytes(cs.take(2 + k)));
        assert(cs.take(2 + k) =~= cs);
    }
}

/// What a `moov` box holds.
pub struct MoovModel {
    pub mvhd: MvhdModel,
    pub traks: Seq<TrakModel>,
    pub mvex: Option<MvexModel>,
}

/// Takes one child into a `moov`: the last `mvhd` and `mvex` win, each
/// `trak` is added, other types are passed over.
pub open spec fn moov_step(acc: MoovModel, t: u32, p: Seq<u8>) -> Result<MoovModel, DecodeError> {
    if t == mvhd::BOX_TYPE {
        match MvhdModel::parse(p) {
            Ok((x, _)) => Ok(MoovModel { mvhd: x, ..acc }),
            Err(e) => Err(e),
        }
    } else if t == trak::BOX_TYPE {
        match TrakModel::parse(p) {
            Ok((x, _)) => Ok(MoovModel { traks: acc.traks.push(x), ..acc }),
            Err(e) => Err(e),
        }
    } else if t == mvex::BOX_TYPE {
        match MvexModel::parse(p) {
            Ok((x, _)) => Ok(MoovModel { mvex: Some(x), ..acc }),
            Err(e) => Err(e),
        }
    } else {
        Ok(acc)
    }
}

pub open spec fn moov_stepper() -> spec_fn(MoovModel, u32, Seq<u8>) -> Result<
    MoovModel,
    DecodeError,
> {
    |acc: MoovModel, t: u32, p: Seq<u8>| moov_step(acc, t, p)
}

impl MoovModel {
    pub open spec fn initial() -> MoovModel {
        MoovModel { mvhd: MvhdModel::initial(), traks: Seq::empty(), mvex: None }
    }

    /// The children in the order encoding writes them: `mvhd`, each
    /// `trak`, then `mvex` if any.
    pub open spec fn children(self) -> Seq<(u32, Seq<u8>)> {
        seq![(mvhd::BOX_TYPE, self.mvhd.bytes())] + self.traks.map_values(
            |t: TrakModel| (trak::BOX_TYPE, t.bytes()),
        ) + match self.mvex {
            Some(x) => seq![(mvex::BOX_TYPE, x.bytes())],
            None => Seq::empty(),
        }
    }

    pub open spec fn bytes(self) -> Seq<u8> {
        boxes_bytes(self.children())
    }

    pub open spec fn parse(s: Seq<u8>) -> Result<(MoovModel, int), DecodeError> {
        match walk(s, MoovModel::initial(), moov_stepper()) {
            Ok(m) => Ok((m, s.len() as int)),
            Err(e) => Err(e),
        }
    }
}

/// Movie: its header, its tracks, and the fragment defaults if any.
#[allow(non_camel_case_types)]
#[derive(Debug, PartialEq, Eq)]
pub struct moov {
    pub mvhd: mvhd,
    pub traks: Vec<trak>,
    pub mvex: Option<mvex>,
}

impl View for moov {
    type V = MoovModel;

    open spec fn view(&self) -> MoovModel {
        MoovModel {
            mvhd: self.mvhd@,
            traks: self.traks@.map_values(|t: trak| t@),
            mvex: match &self.mvex {
                Some(x) => Some(x@),
                None => None,
            },
        }
    }
}

impl Default for moov {
    fn default() -> (r: Self)
        ensures
            r@ == MoovModel::initial(),
    {
        let r = moov { mvhd: mvhd::default(), traks: Vec::new(), mvex: None };
        assert(r@.traks =~= Seq::<TrakModel>::empty());
        r
    }
}

/// Decodes a `moov` payload.
#[verifier::rlimit(100)]
#[verifier::spinoff_prover]
pub fn parse(r: &mut BytesMut) -> (res: Result<moov, DecodeError>)
    ensures
        match res {
            Ok(v) => MoovModel::parse(buf_bytes(*old(r))) matches Ok((m, n)) && m == v@
                && buf_bytes(*final(r)) == buf_bytes(*old(r)).skip(n),
            Err(e) => MoovModel::parse(buf_bytes(*old(r))) == Err::<(MoovModel, int), _>(e),
        },
{
    moov::parse(r)
}

impl moov {
    pub const BOX_TYPE: u32 = 0x6d6f6f76;

    /// The number of bytes `as_bytes` produces.
    #[verifier::rlimit(100)]
    #[verifier::spinoff_prover]
    pub fn len(&self) -> (r: usize)
        requires
            self@.bytes().len() <= max_buf(),
        ensures
            r == self@.bytes().len(),
    {
        let ghost cs = self@.children();
        proof {
            lemma_boxes_len_step(cs, 0);
        }
        let n = self.mvhd.len();
        let mut v: usize = header_len(n) + n;
        let mut i: usize = 0;
        while i < self.traks.len()
            invariant
                i <= self.traks@.len(),
                cs == self@.children(),
                cs.len() >= 1 + self.traks@.len(),
                boxes_bytes(cs).len() <= max_buf(),
                v == boxes_bytes(cs.take(1 + i)).len(),
                forall|j: int| 0 <= j < self.traks@.len() ==> cs[1 + j] == (trak::BOX_TYPE, self.traks@[j]@.bytes()),
            decreases self.traks@.len() - i,
        {
            proof {
                lemma_boxes_len_step(cs, 1 + i);
            }
            let n = self.traks[i].len();
            v = v + header_len(n) + n;
            i = i + 1;
        }
        if let Some(x) = &self.mvex {
            proof {
                lemma_boxes_len_step(cs, 1 + i);
            }
            let n = x.len();
            v = v + header_len(n) + n;
            assert(cs.take(1 + i + 1) =~= cs);
        } else {
            assert(cs.take(1 + i) =~= cs);
        }
        v
    }

    #[verifier::rlimit(100)]
    #[verifier::spinoff_prover]
    pub fn parse(r: &mut BytesMut) -> (res: Result<moov, DecodeError>)
        ensures
            match res {
                Ok(v) => MoovModel::parse(buf_bytes(*old(r))) matches Ok((m, n)) && m == v@
                    && buf_bytes(*final(r)) == buf_bytes(*old(r)).skip(n),
                Err(e) => MoovModel::parse(buf_bytes(*old(r))) == Err::<(MoovModel, int), _>(e),
            },
    {
        let ghost s = buf_bytes(*r);
        let mut acc = moov::default();
        while buf_len(r) > 0
            invariant
                s == buf_bytes(*old(r)),
                walk(s, MoovModel::initial(), moov_stepper()) == walk(
                    buf_bytes(*r),
                    acc@,
                    moov_stepper(),
                ),
            decreases buf_bytes(*r).len(),
        {
            let ghost cur = buf_bytes(*r);
            proof {
                lemma_walk_unfold(cur, acc@, moov_stepper());
            }
            let mut b = match Object::parse(r) {
                Ok(b) => b,
                Err(e) => return Err(e),
            };
            if b.box_type == mvhd::BOX_TYPE {
                acc.mvhd = match mvhd::parse(&mut b.payload) {
                    Ok(x) => x,
                    Err(e) => return Err(e),
                };
            } else if b.box_type == trak::BOX_TYPE {
                let x = match trak::parse(&mut b.payload) {
                    Ok(x) => x,
                    Err(e) => return Err(e),
                };
                let ghost before = acc@;
                let ghost xv = x@;
                acc.traks.push(x);
                assert(acc@.traks =~= before.traks.push(xv));
            } else if b.box_type == mvex::BOX_TYPE {
                let x = match mvex::parse(&mut b.payload) {
                    Ok(x) => x,
                    Err(e) => return Err(e),
                };
                acc.mvex = Some(x);
            }
        }
        assert(buf_bytes(*r) =~= s.skip(s.len() as int));
        proof {
            lemma_walk_empty(buf_bytes(*r), acc@, moov_stepper());
        }
        Ok(acc)
    }

    #[verifier::rlimit(100)]
    #[verifier::spinoff_prover]
    pub fn write(&self, w: &mut BytesMut)
        requires
            buf_bytes(*old(w)).len() + self@.bytes().len() <= max_buf(),
        ensures
            buf_bytes(*final(w)) == buf_bytes(*old(w)) + self@.bytes(),
    {
        let ghost w0 = buf_bytes(*w);
        let ghost cs = self@.children();
        proof {
            lemma_boxes_bytes_prefix(cs, 0);
            assert(cs.take(0) =~= Seq::<(u32, Seq<u8>)>::empty());
        }
        let hb = self.mvhd.as_bytes();
        write_box(w, mvhd::BOX_TYPE, &hb);
        assert(buf_bytes(*w) =~= w0 + boxes_bytes(cs.take(1)));
        let mut i: usize = 0;
        while i < self.traks.len()
            invariant
                i <= self.traks@.len(),
                cs == self@.children(),
                cs.len() >= 1 + self.traks@.len(),
                w0.len() + boxes_bytes(cs).len() <= max_buf(),
                buf_bytes(*w) == w0 + boxes_bytes(cs.take(1 + i)),
                forall|j: int| 0 <= j < self.traks@.len() ==> cs[1 + j] == (trak::BOX_TYPE, self.traks@[j]@.bytes()),
            decreases self.traks@.len() - i,
        {
            proof {
                lemma_boxes_bytes_prefix(cs, 1 + i);
            }
            let b = self.traks[i].as_bytes();
            write_box(w, trak::BOX_TYPE, &b);
            assert(buf_bytes(*w) =~= w0 + boxes_bytes(cs.take(1 + i + 1)));
            i = i + 1;
        }
        if let Some(x) = &self.mvex {
            proof {
                lemma_boxes_bytes_prefix(cs, 1 + i);
            }
            let b = x.as_bytes();
            write_box(w, mvex::BOX_TYPE, &b);
            assert(buf_bytes(*w) =~= w0 + boxes_bytes(cs.take(1 + i + 1)));
            assert(cs.take(1 + i + 1) =~= cs);
        } else {
            assert(cs.take(1 + i) =~= cs);
        }
    }

    pub fn as_bytes(&self) -> (r: BytesMut)
        requires
            self@.bytes().len() <= max_buf(),
        ensures
            buf_bytes(r) == self@.bytes(),
    {
        let mut w = buf_new();
        self.write(&mut w);
        assert(buf_bytes(w) =~= self@.bytes());
        w
    }
}

/// A `dinf` that encoding keeps exactly.
pub open spec fn dinf_exact(m: DinfModel) -> bool {
    &&& m.bytes().len() + 16 <= max_buf()
    &&& m.dref.base.flags < 0x1000000
    &&& m.dref.entries.len() <= u32::MAX
    &&& forall|i: int| 0 <= i < m.dref.entries.len() ==> entry_exact(#[trigger] m.dref.entries[i])
}

/// Decoding an encoded `dinf` gives it back.
#[verifier::rlimit(100)]
#[verifier::spinoff_prover]
pub proof fn lemma_dinf_round_trip(m: DinfModel)
    requires
        dinf_exact(m),
    ensures
        DinfModel::parse(m.bytes()) == Ok::<_, DecodeError>((m, m.bytes().len() as int)),
{
    let cs = m.children();
    let st = dinf_stepper();
    lemma_boxes_fit(cs);
    lemma_walk_boxes(cs, DinfModel::initial(), st);
    lemma_dref_round_trip(m.dref);
    assert(cs =~= seq![(dref::BOX_TYPE, m.dref.bytes())] + Seq::empty());
    lemma_step_all_cons(dref::BOX_TYPE, m.dref.bytes(), Seq::empty(), DinfModel::initial(), st);
    reveal_with_fuel(step_all, 1);
}

/// An `stbl` that encoding keeps exactly.
pub open spec fn stbl_exact(m: StblModel) -> bool {
    &&& m.bytes().len() + 16 <= max_buf()
    &&& m.stsd.base.flags < 0x1000000
    &&& m.stsd.entries.len() <= u32::MAX
    &&& forall|i: int|
        0 <= i < m.stsd.entries.len() ==> crate::sample_entry::entry_exact(
            #[trigger] m.stsd.entries[i],
        )
    &&& m.stts.base.flags < 0x1000000 && m.stts.entries.len() <= u32::MAX
    &&& m.stsc.base.flags < 0x1000000 && m.stsc.entries.len() <= u32::MAX
    &&& m.stco.base.flags < 0x1000000 && m.stco.entries.len() <= u32::MAX
    &&& m.stsz.base.flags < 0x1000000
    &&& m.stsz.sample_size != 0 ==> m.stsz.entries.len() == 0
    &&& m.stsz.sample_size == 0 ==> m.stsz.sample_count == m.stsz.entries.len()
}

/// Decoding an encoded `stbl` gives it back.
#[verifier::rlimit(100)]
#[verifier::spinoff_prover]
pub proof fn lemma_stbl_round_trip(m: StblModel)
    requires
        stbl_exact(m),
    ensures
        StblModel::parse(m.bytes()) == Ok::<_, DecodeError>((m, m.bytes().len() as int)),
{
    let cs = m.children();
    let st = stbl_stepper();
    let i0 = StblModel::initial();
    lemma_boxes_fit(cs);
    lemma_walk_boxes(cs, i0, st);
    lemma_stsd_round_trip(m.stsd);
    lemma_stts_round_trip(m.stts);
    lemma_stsc_round_trip(m.stsc);
    lemma_stsz_round_trip(m.stsz);
    lemma_stco_round_trip(m.stco);
    let e: Seq<(u32, Seq<u8>)> = Seq::empty();
    let c5 = seq![(stco::BOX_TYPE, m.stco.bytes())] + e;
    let c4 = seq![(stsz::BOX_TYPE, m.stsz.bytes())] + c5;
    let c3 = seq![(stsc::BOX_TYPE, m.stsc.bytes())] + c4;
    let c2 = seq![(stts::BOX_TYPE, m.stts.bytes())] + c3;
    assert(cs =~= seq![(stsd::BOX_TYPE, m.stsd.bytes())] + c2);
    let a1 = StblModel { stsd: m.stsd, ..i0 };
    let a2 = StblModel { stts: m.stts, ..a1 };
    let a3 = StblModel { stsc: m.stsc, ..a2 };
    let a4 = StblModel { stsz: m.stsz, ..a3 };
    lemma_step_all_cons(stsd::BOX_TYPE, m.stsd.bytes(), c2, i0, st);
    lemma_step_all_cons(stts::BOX_TYPE, m.stts.bytes(), c3, a1, st);
    lemma_step_all_cons(stsc::BOX_TYPE, m.stsc.bytes(), c4, a2, st);
    lemma_step_all_cons(stsz::BOX_TYPE, m.stsz.bytes(), c5, a3, st);
    lemma_step_all_cons(stco::BOX_TYPE, m.stco.bytes(), e, a4, st);
    reveal_with_fuel(step_all, 1);
}

/// A media header that encoding keeps exactly.
pub open spec fn mhd_exact(h: MhdModel) -> bool {
    match h {
        MhdModel::Unknown => true,
        MhdModel::Vmhd(v) => v.base.flags < 0x1000000 && v.opcolor.len() == 3,
        MhdModel::Smhd(v) => v.base.flags < 0x1000000,
        MhdModel::Hmhd(v) => v.base.flags < 0x1000000,
        MhdModel::Nmhd(v) => v.base.flags < 0x1000000,
    }
}

/// A `minf` that encoding keeps exactly.
pub open spec fn minf_exact(m: MinfModel) -> bool {
    &&& m.bytes().len() + 16 <= max_buf()
    &&& mhd_exact(m.mhd)
    &&& dinf_exact(m.dinf)
    &&& stbl_exact(m.stbl)
}

/// Decoding an encoded `minf` gives it back.
#[verifier::rlimit(100)]
#[verifier::spinoff_prover]
pub proof fn lemma_minf_round_trip(m: MinfModel)
    requires
        minf_exact(m),
    ensures
        MinfModel::parse(m.bytes()) == Ok::<_, DecodeError>((m, m.bytes().len() as int)),
{
    let cs = m.children();
    let st = minf_stepper();
    let i0 = MinfModel::initial();
    lemma_boxes_fit(cs);
    lemma_walk_boxes(cs, i0, st);
    lemma_dinf_round_trip(m.dinf);
    lemma_stbl_round_trip(m.stbl);
    let e: Seq<(u32, Seq<u8>)> = Seq::empty();
    let c2 = seq![(stbl::BOX_TYPE, m.stbl.bytes())] + e;
    let c1 = seq![(dinf::BOX_TYPE, m.dinf.bytes())] + c2;
    assert(cs =~= m.mhd.children() + c1);
    lemma_step_all_append(m.mhd.children(), c1, i0, st);
    let a0 = MinfModel { mhd: m.mhd, ..i0 };
    match m.mhd {
        MhdModel::Unknown => {
            reveal_with_fuel(step_all, 1);
        },
        MhdModel::Vmhd(v) => {
            lemma_vmhd_round_trip(v);
            lemma_step_all_cons(vmhd::BOX_TYPE, v.bytes(), e, i0, st);
            assert(m.mhd.children() =~= seq![(vmhd::BOX_TYPE, v.bytes())] + e);
            reveal_with_fuel(step_all, 1);
        },
        MhdModel::Smhd(v) => {
            lemma_smhd_round_trip(v);
            lemma_step_all_cons(smhd::BOX_TYPE, v.spec_bytes(), e, i0, st);
            assert(m.mhd.children() =~= seq![(smhd::BOX_TYPE, v.spec_bytes())] + e);
            reveal_with_fuel(step_all, 1);
        },
        MhdModel::Hmhd(v) => {
            lemma_hmhd_round_trip(v);
            lemma_step_all_cons(hmhd::BOX_TYPE, v.spec_bytes(), e, i0, st);
            assert(m.mhd.children() =~= seq![(hmhd::BOX_TYPE, v.spec_bytes())] + e);
            reveal_with_fuel(step_all, 1);
        },
        MhdModel::Nmhd(v) => {
            lemma_nmhd_round_trip(v);
            lemma_step_all_cons(nmhd::BOX_TYPE, v.spec_bytes(), e, i0, st);
            assert(m.mhd.children() =~= seq![(nmhd::BOX_TYPE, v.spec_bytes())] + e);
            reveal_with_fuel(step_all, 1);
        },
    }
    assert(step_all(m.mhd.children(), i0, st) == Ok::<_, DecodeError>(a0));
    let a1 = MinfModel { dinf: m.dinf, ..a0 };
    lemma_step_all_cons(dinf::BOX_TYPE, m.dinf.bytes(), c2, a0, st);
    lemma_step_all_cons(stbl::BOX_TYPE, m.stbl.bytes(), e, a1, st);
    reveal_with_fuel(step_all, 1);
}

/// An `mdia` that encoding keeps exactly.
pub open spec fn mdia_exact(m: MdiaModel) -> bool {
    &&& m.bytes().len() + 16 <= max_buf()
    &&& m.mdhd.flags < 0x1000000
    &&& m.hdlr.base.flags < 0x1000000
    &&& minf_exact(m.minf)
}

/// Decoding an encoded `mdia` gives it back.
#[verifier::rlimit(100)]
#[verifier::spinoff_prover]
pub proof fn lemma_mdia_round_trip(m: MdiaModel)
    requires
        mdia_exact(m),
    ensures
        MdiaModel::parse(m.bytes()) == Ok::<_, DecodeError>((m, m.bytes().len() as int)),
{
    let cs = m.children();
    let st = mdia_stepper();
    let i0 = MdiaModel::initial();
    lemma_boxes_fit(cs);
    lemma_walk_boxes(cs, i0, st);
    lemma_mdhd_round_trip(m.mdhd);
    lemma_hdlr_round_trip(m.hdlr);
    lemma_minf_round_trip(m.minf);
    let e: Seq<(u32, Seq<u8>)> = Seq::empty();
    let c3 = seq![(minf::BOX_TYPE, m.minf.bytes())] + e;
    let c2 = seq![(hdlr::BOX_TYPE, m.hdlr.bytes())] + c3;
    assert(cs =~= seq![(mdhd::BOX_TYPE, m.mdhd.bytes())] + c2);
    let a1 = MdiaModel { mdhd: m.mdhd, ..i0 };
    let a2 = MdiaModel { hdlr: m.hdlr, ..a1 };
    lemma_step_all_cons(mdhd::BOX_TYPE, m.mdhd.bytes(), c2, i0, st);
    lemma_step_all_cons(hdlr::BOX_TYPE, m.hdlr.bytes(), c3, a1, st);
    lemma_step_all_cons(minf::BOX_TYPE, m.minf.bytes(), e, a2, st);
    reveal_with_fuel(step_all, 1);
}

/// A `trak` that encoding keeps exactly.
pub open spec fn trak_exact(m: TrakModel) -> bool {
    &&& m.bytes().len() + 16 <= max_buf()
    &&& m.tkhd.flags < 0x1000000
    &&& m.tkhd.matrix.len() == 9
    &&& m.edts matches Some(x) ==> (x.elst matches Some(l) ==> l.flags < 0x1000000
        && l.entries.len() <= u32::MAX)
    &&& mdia_exact(m.mdia)
}

/// Decoding an encoded `trak` gives it back.
#[verifier::rlimit(100)]
#[verifier::spinoff_prover]
pub proof fn lemma_trak_round_trip(m: TrakModel)
    requires
        trak_exact(m),
    ensures
        TrakModel::parse(m.bytes()) == Ok::<_, DecodeError>((m, m.bytes().len() as int)),
{
    let cs = m.children();
    let st = trak_stepper();
    let i0 = TrakModel::initial();
    lemma_boxes_fit(cs);
    lemma_walk_boxes(cs, i0, st);
    lemma_tkhd_round_trip(m.tkhd);
    lemma_mdia_round_trip(m.mdia);
    let e: Seq<(u32, Seq<u8>)> = Seq::empty();
    let h = seq![(tkhd::BOX_TYPE, m.tkhd.bytes())];
    let x = m.edts_children();
    let c = seq![(mdia::BOX_TYPE, m.mdia.bytes())] + e;
    assert(cs =~= h + x + c);
    lemma_step_all_append(h + x, c, i0, st);
    lemma_step_all_append(h, x, i0, st);
    lemma_step_all_cons(tkhd::BOX_TYPE, m.tkhd.bytes(), e, i0, st);
    assert(h =~= seq![(tkhd::BOX_TYPE, m.tkhd.bytes())] + e);
    let a1 = TrakModel { tkhd: m.tkhd, ..i0 };
    let a2 = TrakModel { edts: m.edts, ..a1 };
    match m.edts {
        Some(d) => {
            assert(m.bytes().len() >= 0);
            crate::object::lemma_boxes_bytes_prefix(cs, 1);
            lemma_edts_round_trip(d);
            lemma_step_all_cons(edts::BOX_TYPE, d.bytes(), e, a1, st);
            assert(x =~= seq![(edts::BOX_TYPE, d.bytes())] + e);
            reveal_with_fuel(step_all, 1);
        },
        None => {
            reveal_with_fuel(step_all, 1);
        },
    }
    assert(step_all(h + x, i0, st) == Ok::<_, DecodeError>(a2));
    lemma_step_all_cons(mdia::BOX_TYPE, m.mdia.bytes(), e, a2, st);
    reveal_with_fuel(step_all, 1);
}

/// Stepping over encoded tracks adds them, in order.
#[verifier::rlimit(100)]
#[verifier::spinoff_prover]
proof fn lemma_moov_traks(ts: Seq<TrakModel>, acc: MoovModel)
    requires
        forall|i: int| 0 <= i < ts.len() ==> trak_exact(#[trigger] ts[i]),
    ensures
        step_all(ts.map_values(|t: TrakModel| (trak::BOX_TYPE, t.bytes())), acc, moov_stepper())
            == Ok::<_, DecodeError>(MoovModel { traks: acc.traks + ts, ..acc }),
    decreases ts.len(),
{
    let xs = ts.map_values(|t: TrakModel| (trak::BOX_TYPE, t.bytes()));
    reveal_with_fuel(step_all, 1);
    if ts.len() == 0 {
        assert(acc.traks + ts =~= acc.traks);
        assert(xs.len() == 0);
    } else {
        assert(trak_exact(ts[0]));
        lemma_trak_round_trip(ts[0]);
        let next = MoovModel { traks: acc.traks.push(ts[0]), ..acc };
        assert(xs[0] == (trak::BOX_TYPE, ts[0].bytes()));
        assert(moov_step(acc, xs[0].0, xs[0].1) == Ok::<_, DecodeError>(next));
        assert forall|i: int| 0 <= i < ts.skip(1).len() implies trak_exact(#[trigger] ts.skip(1)[i]) by {
            assert(ts.skip(1)[i] == ts[i + 1]);
        }
        lemma_moov_traks(ts.skip(1), next);
        assert(xs.skip(1) =~= ts.skip(1).map_values(|t: TrakModel| (trak::BOX_TYPE, t.bytes())));
        assert(next.traks + ts.skip(1) =~= acc.traks + ts);
    }
}

/// Decoding an encoded `moov` gives back the same movie.
#[verifier::rlimit(100)]
#[verifier::spinoff_prover]
pub proof fn lemma_moov_round_trip(m: MoovModel)
    requires
        m.bytes().len() + 16 <= max_buf(),
        m.mvhd.matrix.len() == 9,
        forall|i: int| 0 <= i < m.traks.len() ==> trak_exact(#[trigger] m.traks[i]),
        m.mvex matches Some(x) ==> mvex_exact(x),
    ensures
        MoovModel::parse(m.bytes()) == Ok::<_, DecodeError>((m, m.bytes().len() as int)),
{
    let cs = m.children();
    let st = moov_stepper();
    let i0 = MoovModel::initial();
    lemma_boxes_fit(cs);
    lemma_walk_boxes(cs, i0, st);
    lemma_mvhd_round_trip(m.mvhd);
    let c = m.traks.map_values(|t: TrakModel| (trak::BOX_TYPE, t.bytes()));
    let x: Seq<(u32, Seq<u8>)> = match m.mvex {
        Some(v) => seq![(mvex::BOX_TYPE, v.bytes())],
        None => Seq::empty(),
    };
    let h = seq![(mvhd::BOX_TYPE, m.mvhd.bytes())];
    assert(cs == h + c + x);
    lemma_step_all_append(h + c, x, i0, st);
    lemma_step_all_cons(mvhd::BOX_TYPE, m.mvhd.bytes(), c, i0, st);
    let a1 = MoovModel { mvhd: m.mvhd, traks: Seq::empty(), mvex: None };
    lemma_moov_traks(m.traks, a1);
    assert(Seq::<TrakModel>::empty() + m.traks =~= m.traks);
    let a2 = MoovModel { mvhd: m.mvhd, traks: m.traks, mvex: None };
    match m.mvex {
        Some(v) => {
            lemma_mvex_round_trip(v);
            lemma_step_all_cons(mvex::BOX_TYPE, v.bytes(), Seq::empty(), a2, st);
            assert(x =~= seq![(mvex::BOX_TYPE, v.bytes())] + Seq::<(u32, Seq<u8>)>::empty());
            reveal_with_fuel(step_all, 1);
        },
        None => {
            reveal_with_fuel(step_all, 1);
        },
    }
}

} // verus!
