//! The movie fragment boxes: `moof` and its children `mfhd` and `traf`, with
//! `traf`'s children `tfhd`, `tfdt` and `trun`.
use crate::buf::{
    after_opt, be24, be24_at, be32, be32_at, be64, be64_at, buf_bytes, buf_len, buf_new, group_be,
    has_bit, lemma_opt32_read, lemma_opt64_read, max_buf, opt32, opt64, put_u32, put_u64,
    read_opt32, read_opt64, take_u32, take_u64,
};
use crate::object::{
    box_bytes, boxes_bytes, lemma_boxes_bytes_prefix, lemma_boxes_fit, lemma_step_all_append,
    lemma_step_all_one, lemma_walk_boxes, lemma_walk_empty, lemma_walk_unfold, step_all, walk,
    write_box, DecodeError, FullBox, Object,
};
use bytes::BytesMut;
use vstd::prelude::*;

verus! {

broadcast use group_be;

/// Movie fragment header: the fragment's sequence number.
#[allow(non_camel_case_types)]
#[derive(Debug, Clone, Copy, PartialEq, Eq)]
pub struct mfhd {
    pub base: FullBox,
    pub sequence_number: u32,
}

impl mfhd {
    pub const BOX_TYPE: u32 = 0x6d666864;

    pub fn new(sequence_number: u32) -> (r: Self)
        ensures
            r.base == (FullBox { version: 0, flags: 0 }),
            r.sequence_number == sequence_number,
    {
        mfhd { base: FullBox::new(0, 0), sequence_number }
    }

    pub open spec fn spec_bytes(self) -> Seq<u8> {
        self.base.spec_bytes() + be32(self.sequence_number)
    }

    pub open spec fn spec_parse(s: Seq<u8>) -> Result<(mfhd, int), DecodeError> {
        if s.len() < 8 {
            Err(DecodeError::Truncated)
        } else {
            Ok(
                (
                    mfhd {
                        base: FullBox { version: s[0], flags: be24_at(s, 1) },
                        sequence_number: be32_at(s, 4),
                    },
                    8,
                ),
            )
        }
    }

    #[verifier::rlimit(100)]
    #[verifier::spinoff_prover]
    pub fn len(&self) -> (r: usize)
        ensures
            r == self.spec_bytes().len(),
    {
        self.base.len() + 4
    }

    #[verifier::rlimit(100)]
    #[verifier::spinoff_prover]
    pub fn parse(r: &mut BytesMut) -> (res: Result<mfhd, DecodeError>)
        ensures
            match res {
                Ok(v) => mfhd::spec_parse(buf_bytes(*old(r))) matches Ok((m, n)) && m == v
                    && buf_bytes(*final(r)) == buf_bytes(*old(r)).skip(n),
                Err(e) => mfhd::spec_parse(buf_bytes(*old(r))) == Err::<(mfhd, int), _>(e),
            },
    {
        let ghost s = buf_bytes(*r);
        if buf_len(r) < 8 {
            return Err(DecodeError::Truncated);
        }
        let base = FullBox::parse(r)?;
        let sequence_number = take_u32(r);
        Ok(mfhd { base, sequence_number })
    }

    #[verifier::rlimit(100)]
    #[verifier::spinoff_prover]
    pub fn write(&self, w: &mut BytesMut)
        requires
            buf_bytes(*old(w)).len() + 8 <= max_buf(),
        ensures
            buf_bytes(*final(w)) == buf_bytes(*old(w)) + self.spec_bytes(),
    {
        let ghost w0 = buf_bytes(*w);
        self.base.write(w);
        put_u32(w, self.sequence_number);
        assert(buf_bytes(*w) =~= w0 + self.spec_bytes());
    }

    pub fn as_bytes(&self) -> (r: BytesMut)
        ensures
            buf_bytes(r) == self.spec_bytes(),
    {
        let mut w = buf_new();
        self.write(&mut w);
        assert(buf_bytes(w) =~= self.spec_bytes());
        w
    }
}

impl Default for mfhd {
    fn default() -> (r: Self)
        ensures
            r.base == (FullBox { version: 0, flags: 0 }),
            r.sequence_number == 0,
    {
        mfhd::new(0)
    }
}

/// Decoding an encoded `mfhd` gives it back, given flags that fit 24 bits.
#[verifier::rlimit(100)]
#[verifier::spinoff_prover]
pub proof fn lemma_mfhd_round_trip(x: mfhd)
    requires
        x.base.flags < 0x1000000,
    ensures
        mfhd::spec_parse(x.spec_bytes()) == Ok::<_, DecodeError>((x, x.spec_bytes().len() as int)),
{
    let s = x.spec_bytes();
    assert(be24_at(s, 1) == be24_at(x.base.spec_bytes(), 1));
    crate::object::lemma_full_box_round_trip(x.base, be32(x.sequence_number));
    assert(be32_at(s, 4) == be32_at(be32(x.sequence_number), 0));
}

/// Track fragment decode time: the decode time of the fragment's first
/// sample, 64 bits wide when `version` is 1 and 32 bits wide otherwise.
#[allow(non_camel_case_types)]
#[derive(Debug, Clone, Copy, PartialEq, Eq)]
pub struct tfdt {
    pub base: FullBox,
    pub base_media_decode_time: u64,
}

impl tfdt {
    pub const BOX_TYPE: u32 = 0x74666474;

    /// A box with the narrowest width that holds the time.
    pub fn new(base_media_decode_time: u64) -> (r: Self)
        ensures
            r.base.version == (if base_media_decode_time > u32::MAX as u64 {
                1u8
            } else {
                0u8
            }),
            r.base.flags == 0,
            r.base_media_decode_time == base_media_decode_time,
    {
        let version: u8 = if base_media_decode_time > u32::MAX as u64 {
            1
        } else {
            0
        };
        tfdt { base: FullBox::new(version, 0), base_media_decode_time }
    }

    pub open spec fn spec_bytes(self) -> Seq<u8> {
        self.base.spec_bytes() + if self.base.version == 1 {
            be64(self.base_media_decode_time)
        } else {
            be32(self.base_media_decode_time as u32)
        }
    }

    pub open spec fn spec_parse(s: Seq<u8>) -> Result<(tfdt, int), DecodeError> {
        if s.len() < 4 {
            Err(DecodeError::Truncated)
        } else if s[0] == 1 {
            if s.len() < 12 {
                Err(DecodeError::Truncated)
            } else {
                Ok(
                    (
                        tfdt {
                            base: FullBox { version: s[0], flags: be24_at(s, 1) },
                            base_media_decode_time: be64_at(s, 4),
                        },
                        12,
                    ),
                )
            }
        } else if s.len() < 8 {
            Err(DecodeError::Truncated)
        } else {
            Ok(
                (
                    tfdt {
                        base: FullBox { version: s[0], flags: be24_at(s, 1) },
                        base_media_decode_time: be32_at(s, 4) as u64,
                    },
                    8,
                ),
            )
        }
    }

    #[verifier::rlimit(100)]
    #[verifier::spinoff_prover]
    pub fn len(&self) -> (r: usize)
        ensures
            r == self.spec_bytes().len(),
    {
        self.base.len() + if self.base.version == 1 {
            8
        } else {
            4
        }
    }

    #[verifier::rlimit(100)]
    #[verifier::spinoff_prover]
    pub fn parse(r: &mut BytesMut) -> (res: Result<tfdt, DecodeError>)
        ensures
            match res {
                Ok(v) => tfdt::spec_parse(buf_bytes(*old(r))) matches Ok((m, n)) && m == v
                    && buf_bytes(*final(r)) == buf_bytes(*old(r)).skip(n),
                Err(e) => tfdt::spec_parse(buf_bytes(*old(r))) == Err::<(tfdt, int), _>(e),
            },
    {
        let ghost s = buf_bytes(*r);
        let n = buf_len(r);
        let base = FullBox::parse(r)?;
        if base.version == 1 {
            if n < 12 {
                return Err(DecodeError::Truncated);
            }
            let t = take_u64(r);
            Ok(tfdt { base, base_media_decode_time: t })
        } else {
            if n < 8 {
                return Err(DecodeError::Truncated);
            }
            let t = take_u32(r);
            Ok(tfdt { base, base_media_decode_time: t as u64 })
        }
    }

    #[verifier::rlimit(100)]
    #[verifier::spinoff_prover]
    pub fn write(&self, w: &mut BytesMut)
        requires
            buf_bytes(*old(w)).len() + 12 <= max_buf(),
        ensures
            buf_bytes(*final(w)) == buf_bytes(*old(w)) + self.spec_bytes(),
    {
        let ghost w0 = buf_bytes(*w);
        self.base.write(w);
        if self.base.version == 1 {
            put_u64(w, self.base_media_decode_time);
        } else {
            put_u32(w, self.base_media_decode_time as u32);
        }
        assert(buf_bytes(*w) =~= w0 + self.spec_bytes());
    }

    pub fn as_bytes(&self) -> (r: BytesMut)
        ensures
            buf_bytes(r) == self.spec_bytes(),
    {
        let mut w = buf_new();
        self.write(&mut w);
        assert(buf_bytes(w) =~= self.spec_bytes());
        w
    }
}

impl Default for tfdt {
    fn default() -> (r: Self)
        ensures
            r.base == (FullBox { version: 1, flags: 0 }),
            r.base_media_decode_time == 0,
    {
        tfdt { base: FullBox::new(1, 0), base_media_decode_time: 0 }
    }
}

/// Decoding an encoded `tfdt` gives it back, given 24-bit flags and a time
/// that its width holds.
#[verifier::rlimit(100)]
#[verifier::spinoff_prover]
pub proof fn lemma_tfdt_round_trip(x: tfdt)
    requires
        x.base.flags < 0x1000000,
        x.base.version != 1 ==> x.base_media_decode_time <= u32::MAX,
    ensures
        tfdt::spec_parse(x.spec_bytes()) == Ok::<_, DecodeError>((x, x.spec_bytes().len() as int)),
{
    let s = x.spec_bytes();
    assert(be24_at(s, 1) == be24_at(x.base.spec_bytes(), 1));
    assert(s[0] == x.base.version);
    if x.base.version == 1 {
        assert(be64_at(s, 4) == be64_at(be64(x.base_media_decode_time), 0));
    } else {
        assert(be32_at(s, 4) == be32_at(be32(x.base_media_decode_time as u32), 0));
    }
}

/// Track fragment header. Each `Option` field is written only when present,
/// and its presence alone sets its bit of the flags.
#[allow(non_camel_case_types)]
#[derive(Debug, Clone, Copy, PartialEq, Eq)]
pub struct tfhd {
    pub version: u8,
    /// The default-base-is-moof flag, which is kept across a round trip.
    pub default_base_is_moof: bool,
    pub track_id: u32,
    pub base_data_offset: Option<u64>,
    pub sample_description_index: Option<u32>,
    pub default_sample_duration: Option<u32>,
    pub default_sample_size: Option<u32>,
    pub default_sample_flags: Option<u32>,
}

pub const TFHD_BASE_DATA_OFFSET_PRESENT: u32 = 0x000001;
pub const TFHD_SAMPLE_DESCRIPTION_INDEX_PRESENT: u32 = 0x000002;
pub const TFHD_DEFAULT_SAMPLE_DURATION_PRESENT: u32 = 0x000008;
pub const TFHD_DEFAULT_SAMPLE_SIZE_PRESENT: u32 = 0x000010;
pub const TFHD_DEFAULT_SAMPLE_FLAGS_PRESENT: u32 = 0x000020;
pub const TFHD_DEFAULT_BASE_IS_MOOF: u32 = 0x020000;

/// `v` where `b` holds, else 0.
pub open spec fn when(b: bool, v: int) -> int {
    if b {
        v
    } else {
        0
    }
}

impl tfhd {
    pub const BOX_TYPE: u32 = 0x74666864;

    /// The flags that encoding writes: the default-base-is-moof bit, and one
    /// bit for each present field.
    #[verifier::opaque]
    pub open spec fn spec_flags(self) -> u32 {
        (when(self.default_base_is_moof, TFHD_DEFAULT_BASE_IS_MOOF as int) + when(
            self.base_data_offset is Some,
            TFHD_BASE_DATA_OFFSET_PRESENT as int,
        ) + when(self.sample_description_index is Some, TFHD_SAMPLE_DESCRIPTION_INDEX_PRESENT as int)
            + when(self.default_sample_duration is Some, TFHD_DEFAULT_SAMPLE_DURATION_PRESENT as int)
            + when(self.default_sample_size is Some, TFHD_DEFAULT_SAMPLE_SIZE_PRESENT as int) + when(
            self.default_sample_flags is Some,
            TFHD_DEFAULT_SAMPLE_FLAGS_PRESENT as int,
        )) as u32
    }

    pub open spec fn spec_bytes(self) -> Seq<u8> {
        FullBox { version: self.version, flags: self.spec_flags() }.spec_bytes() + (be32(
            self.track_id,
        ) + (opt64(self.base_data_offset) + (opt32(self.sample_description_index) + (opt32(
            self.default_sample_duration,
        ) + (opt32(self.default_sample_size) + opt32(self.default_sample_flags))))))
    }

    /// The number of bytes that the fields whose bits are set in `f` take.
    pub open spec fn spec_size(f: u32) -> int {
        8 + when(has_bit(f, TFHD_BASE_DATA_OFFSET_PRESENT as int), 8) + when(
            has_bit(f, TFHD_SAMPLE_DESCRIPTION_INDEX_PRESENT as int),
            4,
        ) + when(has_bit(f, TFHD_DEFAULT_SAMPLE_DURATION_PRESENT as int), 4) + when(
            has_bit(f, TFHD_DEFAULT_SAMPLE_SIZE_PRESENT as int),
            4,
        ) + when(has_bit(f, TFHD_DEFAULT_SAMPLE_FLAGS_PRESENT as int), 4)
    }

    /// Reads the fields whose bits are set, in the order of the format.
    pub open spec fn spec_parse(s: Seq<u8>) -> Result<(tfhd, int), DecodeError> {
        if s.len() < 8 {
            Err(DecodeError::Truncated)
        } else {
            let f = be24_at(s, 1);
            if s.len() < tfhd::spec_size(f) {
                Err(DecodeError::Truncated)
            } else {
                let b1 = has_bit(f, TFHD_BASE_DATA_OFFSET_PRESENT as int);
                let b2 = has_bit(f, TFHD_SAMPLE_DESCRIPTION_INDEX_PRESENT as int);
                let b3 = has_bit(f, TFHD_DEFAULT_SAMPLE_DURATION_PRESENT as int);
                let b4 = has_bit(f, TFHD_DEFAULT_SAMPLE_SIZE_PRESENT as int);
                let b5 = has_bit(f, TFHD_DEFAULT_SAMPLE_FLAGS_PRESENT as int);
                let r1 = s.skip(8);
                let r2 = after_opt(b1, r1, 8);
                let r3 = after_opt(b2, r2, 4);
                let r4 = after_opt(b3, r3, 4);
                let r5 = after_opt(b4, r4, 4);
                Ok(
                    (
                        tfhd {
                            version: s[0],
                            default_base_is_moof: has_bit(f, TFHD_DEFAULT_BASE_IS_MOOF as int),
                            track_id: be32_at(s, 4),
                            base_data_offset: read_opt64(b1, r1),
                            sample_description_index: read_opt32(b2, r2),
                            default_sample_duration: read_opt32(b3, r3),
                            default_sample_size: read_opt32(b4, r4),
                            default_sample_flags: read_opt32(b5, r5),
                        },
                        tfhd::spec_size(f),
                    ),
                )
            }
        }
    }

    /// The flags word that encoding writes.
    pub fn flags(&self) -> (r: u32)
        ensures
            r == self.spec_flags(),
    {
        reveal(tfhd::spec_flags);
        let mut f: u32 = 0;
        if self.default_base_is_moof {
            f = f + TFHD_DEFAULT_BASE_IS_MOOF;
        }
        if self.base_data_offset.is_some() {
            f = f + TFHD_BASE_DATA_OFFSET_PRESENT;
        }
        if self.sample_description_index.is_some() {
            f = f + TFHD_SAMPLE_DESCRIPTION_INDEX_PRESENT;
        }
        if self.default_sample_duration.is_some() {
            f = f + TFHD_DEFAULT_SAMPLE_DURATION_PRESENT;
        }
        if self.default_sample_size.is_some() {
            f = f + TFHD_DEFAULT_SAMPLE_SIZE_PRESENT;
        }
        if self.default_sample_flags.is_some() {
            f = f + TFHD_DEFAULT_SAMPLE_FLAGS_PRESENT;
        }
        f
    }

    #[verifier::rlimit(100)]
    #[verifier::spinoff_prover]
    pub fn len(&self) -> (r: usize)
        ensures
            r == self.spec_bytes().len(),
    {
        let mut v: usize = 8;
        if self.base_data_offset.is_some() {
            v = v + 8;
        }
        if self.sample_description_index.is_some() {
            v = v + 4;
        }
        if self.default_sample_duration.is_some() {
            v = v + 4;
        }
        if self.default_sample_size.is_some() {
            v = v + 4;
        }
        if self.default_sample_flags.is_some() {
            v = v + 4;
        }
        v
    }

    #[verifier::rlimit(100)]
    #[verifier::spinoff_prover]
    pub fn parse(r: &mut BytesMut) -> (res: Result<tfhd, DecodeError>)
        ensures
            match res {
                Ok(v) => tfhd::spec_parse(buf_bytes(*old(r))) matches Ok((m, n)) && m == v
                    && buf_bytes(*final(r)) == buf_bytes(*old(r)).skip(n),
                Err(e) => tfhd::spec_parse(buf_bytes(*old(r))) == Err::<(tfhd, int), _>(e),
            },
    {
        let ghost s = buf_bytes(*r);
        proof {
            reveal(has_bit);
        }
        let n = buf_len(r);
        if n < 8 {
            return Err(DecodeError::Truncated);
        }
        let base = FullBox::parse(r)?;
        let track_id = take_u32(r);
        let f = base.flags;
        let has_bdo = f % 2 == 1;
        let has_sdi = (f / 2) % 2 == 1;
        let has_dsd = (f / 8) % 2 == 1;
        let has_dss = (f / 16) % 2 == 1;
        let has_dsf = (f / 32) % 2 == 1;
        let mut need: usize = 0;
        if has_bdo {
            need = need + 8;
        }
        if has_sdi {
            need = need + 4;
        }
        if has_dsd {
            need = need + 4;
        }
        if has_dss {
            need = need + 4;
        }
        if has_dsf {
            need = need + 4;
        }
        if n - 8 < need {
            return Err(DecodeError::Truncated);
        }
        let base_data_offset = if has_bdo {
            Some(take_u64(r))
        } else {
            None
        };
        let sample_description_index = if has_sdi {
            Some(take_u32(r))
        } else {
            None
        };
        let default_sample_duration = if has_dsd {
            Some(take_u32(r))
        } else {
            None
        };
        let default_sample_size = if has_dss {
            Some(take_u32(r))
        } else {
            None
        };
        let default_sample_flags = if has_dsf {
            Some(take_u32(r))
        } else {
            None
        };
        Ok(
            tfhd {
                version: base.version,
                default_base_is_moof: (f / TFHD_DEFAULT_BASE_IS_MOOF) % 2 == 1,
                track_id,
                base_data_offset,
                sample_description_index,
                default_sample_duration,
                default_sample_size,
                default_sample_flags,
            },
        )
    }

    #[verifier::rlimit(100)]
    #[verifier::spinoff_prover]
    pub fn write(&self, w: &mut BytesMut)
        requires
            buf_bytes(*old(w)).len() + self.spec_bytes().len() <= max_buf(),
        ensures
            buf_bytes(*final(w)) == buf_bytes(*old(w)) + self.spec_bytes(),
    {
        let ghost w0 = buf_bytes(*w);
        let h = FullBox::new(self.version, self.flags());
        let ghost p1 = h.spec_bytes() + be32(self.track_id);
        let ghost p2 = p1 + opt64(self.base_data_offset);
        let ghost p3 = p2 + opt32(self.sample_description_index);
        let ghost p4 = p3 + opt32(self.default_sample_duration);
        let ghost p5 = p4 + opt32(self.default_sample_size);
        h.write(w);
        put_u32(w, self.track_id);
        assert(buf_bytes(*w) =~= w0 + p1);
        if let Some(v) = self.base_data_offset {
            put_u64(w, v);
        }
        assert(buf_bytes(*w) =~= w0 + p2);
        if let Some(v) = self.sample_description_index {
            put_u32(w, v);
        }
        assert(buf_bytes(*w) =~= w0 + p3);
        if let Some(v) = self.default_sample_duration {
            put_u32(w, v);
        }
        assert(buf_bytes(*w) =~= w0 + p4);
        if let Some(v) = self.default_sample_size {
            put_u32(w, v);
        }
        assert(buf_bytes(*w) =~= w0 + p5);
        if let Some(v) = self.default_sample_flags {
            put_u32(w, v);
        }
        assert(buf_bytes(*w) =~= w0 + self.spec_bytes());
    }

    pub fn as_bytes(&self) -> (r: BytesMut)
        ensures
            buf_bytes(r) == self.spec_bytes(),
    {
        let mut w = buf_new();
        self.write(&mut w);
        assert(buf_bytes(w) =~= self.spec_bytes());
        w
    }
}

impl Default for tfhd {
    fn default() -> (r: Self)
        ensures
            r == (tfhd {
                version: 0,
                default_base_is_moof: true,
                track_id: 0,
                base_data_offset: None,
                sample_description_index: None,
                default_sample_duration: None,
                default_sample_size: None,
                default_sample_flags: None,
            }),
    {
        tfhd {
            version: 0,
            default_base_is_moof: true,
            track_id: 0,
            base_data_offset: None,
            sample_description_index: None,
            default_sample_duration: None,
            default_sample_size: None,
            default_sample_flags: None,
        }
    }
}

/// The flags word of a `tfhd` carries exactly its presence pattern and the
/// default-base-is-moof bit.
#[verifier::rlimit(100)]
#[verifier::spinoff_prover]
pub proof fn lemma_tfhd_flags(x: tfhd)
    ensures
        x.spec_flags() < 0x1000000,
        has_bit(x.spec_flags(), TFHD_BASE_DATA_OFFSET_PRESENT as int) == x.base_data_offset is Some,
        has_bit(x.spec_flags(), TFHD_SAMPLE_DESCRIPTION_INDEX_PRESENT as int)
            == x.sample_description_index is Some,
        has_bit(x.spec_flags(), TFHD_DEFAULT_SAMPLE_DURATION_PRESENT as int)
            == x.default_sample_duration is Some,
        has_bit(x.spec_flags(), TFHD_DEFAULT_SAMPLE_SIZE_PRESENT as int)
            == x.default_sample_size is Some,
        has_bit(x.spec_flags(), TFHD_DEFAULT_SAMPLE_FLAGS_PRESENT as int)
            == x.default_sample_flags is Some,
        has_bit(x.spec_flags(), TFHD_DEFAULT_BASE_IS_MOOF as int) == x.default_base_is_moof,
{
    reveal(has_bit);
    reveal(tfhd::spec_flags);
}

/// Decoding an encoded `tfhd` gives it back: the same fields, the same
/// presence pattern and the same default-base-is-moof bit.
#[verifier::rlimit(100)]
#[verifier::spinoff_prover]
pub proof fn lemma_tfhd_round_trip(x: tfhd)
    ensures
        tfhd::spec_parse(x.spec_bytes()) == Ok::<_, DecodeError>((x, x.spec_bytes().len() as int)),
{
    lemma_tfhd_flags(x);
    let f = x.spec_flags();
    let h = FullBox { version: x.version, flags: f };
    let s = x.spec_bytes();
    let t5 = opt32(x.default_sample_flags);
    let t4 = opt32(x.default_sample_size) + t5;
    let t3 = opt32(x.default_sample_duration) + t4;
    let t2 = opt32(x.sample_description_index) + t3;
    let t1 = opt64(x.base_data_offset) + t2;
    assert(s == h.spec_bytes() + (be32(x.track_id) + t1));
    assert(be24_at(s, 1) == be24_at(h.spec_bytes(), 1));
    assert(be32_at(s, 4) == be32_at(be32(x.track_id), 0));
    assert(s.skip(8) =~= t1);
    lemma_opt64_read(x.base_data_offset, t2);
    lemma_opt32_read(x.sample_description_index, t3);
    lemma_opt32_read(x.default_sample_duration, t4);
    lemma_opt32_read(x.default_sample_size, t5);
    lemma_opt32_read(x.default_sample_flags, Seq::empty());
    assert(t5 + Seq::<u8>::empty() =~= t5);
}

/// One sample of a `trun`: duration, size, flags, composition time offset.
pub type Sample = (Option<u32>, Option<u32>, Option<u32>, Option<u32>);

/// Which of the four per-sample columns a run writes.
pub type Columns = (bool, bool, bool, bool);

pub const TRUN_DATA_OFFSET_PRESENT: u32 = 0x000001;
pub const TRUN_FIRST_SAMPLE_FLAGS_PRESENT: u32 = 0x000004;
pub const TRUN_SAMPLE_DURATION_PRESENT: u32 = 0x000100;
pub const TRUN_SAMPLE_SIZE_PRESENT: u32 = 0x000200;
pub const TRUN_SAMPLE_FLAGS_PRESENT: u32 = 0x000400;
pub const TRUN_SAMPLE_COMPOSITION_TIME_OFFSETS_PRESENT: u32 = 0x000800;

/// What a `trun` box holds.
pub struct TrunModel {
    pub version: u8,
    pub data_offset: Option<u32>,
    pub first_sample_flags: Option<u32>,
    pub samples: Seq<Sample>,
}

/// The presence pattern of one sample.
pub open spec fn pattern(x: Sample) -> Columns {
    (x.0 is Some, x.1 is Some, x.2 is Some, x.3 is Some)
}

/// The columns a run writes: those present in its first sample.
pub open spec fn columns(samples: Seq<Sample>) -> Columns {
    if samples.len() == 0 {
        (false, false, false, false)
    } else {
        pattern(samples[0])
    }
}

/// The bytes per sample for the columns `c`.
pub open spec fn width(c: Columns) -> int {
    when(c.0, 4) + when(c.1, 4) + when(c.2, 4) + when(c.3, 4)
}

/// The bytes of one column of one sample: the value, or 0 where the sample
/// lacks it; nothing where the run does not write the column.
pub open spec fn column_bytes(present: bool, v: Option<u32>) -> Seq<u8> {
    if present {
        be32(
            match v {
                Some(x) => x,
                None => 0,
            },
        )
    } else {
        Seq::empty()
    }
}

pub open spec fn sample_bytes(x: Sample, c: Columns) -> Seq<u8> {
    column_bytes(c.0, x.0) + column_bytes(c.1, x.1) + column_bytes(c.2, x.2) + column_bytes(c.3, x.3)
}

pub open spec fn samples_bytes(v: Seq<Sample>, c: Columns) -> Seq<u8>
    decreases v.len(),
{
    if v.len() == 0 {
        Seq::empty()
    } else {
        samples_bytes(v.drop_last(), c) + sample_bytes(v.last(), c)
    }
}

/// The sample whose columns `c` start at `s[pos]`.
pub open spec fn sample_at(s: Seq<u8>, pos: int, c: Columns) -> Sample {
    let o1 = pos + when(c.0, 4);
    let o2 = o1 + when(c.1, 4);
    let o3 = o2 + when(c.2, 4);
    (
        if c.0 {
            Some(be32_at(s, pos))
        } else {
            None
        },
        if c.1 {
            Some(be32_at(s, o1))
        } else {
            None
        },
        if c.2 {
            Some(be32_at(s, o2))
        } else {
            None
        },
        if c.3 {
            Some(be32_at(s, o3))
        } else {
            None
        },
    )
}

impl TrunModel {
    /// The flags that encoding writes: one bit per present optional field,
    /// and one per column of the first sample.
    #[verifier::opaque]
    pub open spec fn spec_flags(self) -> u32 {
        let c = columns(self.samples);
        (when(self.data_offset is Some, TRUN_DATA_OFFSET_PRESENT as int) + when(
            self.first_sample_flags is Some,
            TRUN_FIRST_SAMPLE_FLAGS_PRESENT as int,
        ) + when(c.0, TRUN_SAMPLE_DURATION_PRESENT as int) + when(
            c.1,
            TRUN_SAMPLE_SIZE_PRESENT as int,
        ) + when(c.2, TRUN_SAMPLE_FLAGS_PRESENT as int) + when(
            c.3,
            TRUN_SAMPLE_COMPOSITION_TIME_OFFSETS_PRESENT as int,
        )) as u32
    }

    pub open spec fn bytes(self) -> Seq<u8> {
        FullBox { version: self.version, flags: self.spec_flags() }.spec_bytes() + (be32(
            self.samples.len() as u32,
        ) + (opt32(self.data_offset) + (opt32(self.first_sample_flags) + samples_bytes(
            self.samples,
            columns(self.samples),
        ))))
    }

    /// The columns whose bits are set in `f`.
    pub open spec fn flag_columns(f: u32) -> Columns {
        (
            has_bit(f, TRUN_SAMPLE_DURATION_PRESENT as int),
            has_bit(f, TRUN_SAMPLE_SIZE_PRESENT as int),
            has_bit(f, TRUN_SAMPLE_FLAGS_PRESENT as int),
            has_bit(f, TRUN_SAMPLE_COMPOSITION_TIME_OFFSETS_PRESENT as int),
        )
    }

    /// The bytes before the samples, for the flags `f`.
    pub open spec fn head_size(f: u32) -> int {
        8 + when(has_bit(f, TRUN_DATA_OFFSET_PRESENT as int), 4) + when(
            has_bit(f, TRUN_FIRST_SAMPLE_FLAGS_PRESENT as int),
            4,
        )
    }

    /// Reads the header, the optional fields whose bits are set, then
    /// `sample_count` samples, each with the columns whose bits are set.
    pub open spec fn parse(s: Seq<u8>) -> Result<(TrunModel, int), DecodeError> {
        if s.len() < 8 {
            Err(DecodeError::Truncated)
        } else {
            let f = be24_at(s, 1);
            let count = be32_at(s, 4) as int;
            let c = TrunModel::flag_columns(f);
            let head = TrunModel::head_size(f);
            let end = head + count * width(c);
            if s.len() < end {
                Err(DecodeError::Truncated)
            } else {
                let b1 = has_bit(f, TRUN_DATA_OFFSET_PRESENT as int);
                let b2 = has_bit(f, TRUN_FIRST_SAMPLE_FLAGS_PRESENT as int);
                Ok(
                    (
                        TrunModel {
                            version: s[0],
                            data_offset: read_opt32(b1, s.skip(8)),
                            first_sample_flags: read_opt32(b2, after_opt(b1, s.skip(8), 4)),
                            samples: Seq::new(
                                count as nat,
                                |i: int| sample_at(s, head + i * width(c), c),
                            ),
                        },
                        end,
                    ),
                )
            }
        }
    }
}

/// Track fragment run: per-sample durations, sizes, flags and composition
/// offsets. Which columns are written is taken from the first sample alone.
#[allow(non_camel_case_types)]
#[derive(Debug, Clone, PartialEq, Eq)]
pub struct trun {
    pub version: u8,
    pub data_offset: Option<u32>,
    pub first_sample_flags: Option<u32>,
    pub samples: Vec<Sample>,
}

impl View for trun {
    type V = TrunModel;

    open spec fn view(&self) -> TrunModel {
        TrunModel {
            version: self.version,
            data_offset: self.data_offset,
            first_sample_flags: self.first_sample_flags,
            samples: self.samples@,
        }
    }
}

#[verifier::rlimit(100)]
#[verifier::spinoff_prover]
pub proof fn lemma_samples_bytes_len(v: Seq<Sample>, c: Columns)
    ensures
        samples_bytes(v, c).len() == v.len() * width(c),
    decreases v.len(),
{
    broadcast use group_be;
    if v.len() > 0 {
        lemma_samples_bytes_len(v.drop_last(), c);
        assert(sample_bytes(v.last(), c).len() == width(c));
        assert(v.len() * width(c) == (v.len() - 1) * width(c) + width(c)) by (nonlinear_arith);
    }
}

/// The columns a run writes.
fn run_columns(samples: &Vec<Sample>) -> (r: Columns)
    ensures
        r == columns(samples@),
{
    if samples.len() == 0 {
        (false, false, false, false)
    } else {
        let x = samples[0];
        (x.0.is_some(), x.1.is_some(), x.2.is_some(), x.3.is_some())
    }
}

fn column_width(c: Columns) -> (r: usize)
    ensures
        r == width(c),
{
    let mut v: usize = 0;
    if c.0 {
        v = v + 4;
    }
    if c.1 {
        v = v + 4;
    }
    if c.2 {
        v = v + 4;
    }
    if c.3 {
        v = v + 4;
    }
    v
}

/// Reads one column of a sample when the run writes it.
fn take_column(r: &mut BytesMut, present: bool) -> (res: Option<u32>)
    requires
        present ==> buf_bytes(*old(r)).len() >= 4,
    ensures
        res == read_opt32(present, buf_bytes(*old(r))),
        buf_bytes(*final(r)) == after_opt(present, buf_bytes(*old(r)), 4),
{
    if present {
        Some(take_u32(r))
    } else {
        None
    }
}

/// Writes one column of a sample when the run writes it.
fn put_column(w: &mut BytesMut, present: bool, v: Option<u32>)
    requires
        buf_bytes(*old(w)).len() + when(present, 4) <= max_buf(),
    ensures
        buf_bytes(*final(w)) == buf_bytes(*old(w)) + column_bytes(present, v),
{
    if present {
        let x = match v {
            Some(x) => x,
            None => 0,
        };
        put_u32(w, x);
    } else {
        assert(buf_bytes(*w) =~= buf_bytes(*w) + column_bytes(present, v));
    }
}

impl trun {
    pub const BOX_TYPE: u32 = 0x7472756e;

    /// The flags word that encoding writes.
    pub fn flags(&self) -> (r: u32)
        ensures
            r == self@.spec_flags(),
    {
        reveal(TrunModel::spec_flags);
        let c = run_columns(&self.samples);
        let mut f: u32 = 0;
        if self.data_offset.is_some() {
            f = f + TRUN_DATA_OFFSET_PRESENT;
        }
        if self.first_sample_flags.is_some() {
            f = f + TRUN_FIRST_SAMPLE_FLAGS_PRESENT;
        }
        if c.0 {
            f = f + TRUN_SAMPLE_DURATION_PRESENT;
        }
        if c.1 {
            f = f + TRUN_SAMPLE_SIZE_PRESENT;
        }
        if c.2 {
            f = f + TRUN_SAMPLE_FLAGS_PRESENT;
        }
        if c.3 {
            f = f + TRUN_SAMPLE_COMPOSITION_TIME_OFFSETS_PRESENT;
        }
        f
    }

    #[verifier::rlimit(100)]
    #[verifier::spinoff_prover]
    pub fn len(&self) -> (r: usize)
        requires
            self@.bytes().len() <= max_buf(),
        ensures
            r == self@.bytes().len(),
    {
        proof {
            lemma_samples_bytes_len(self.samples@, columns(self.samples@));
        }
        let mut v: usize = 8;
        if self.data_offset.is_some() {
            v = v + 4;
        }
        if self.first_sample_flags.is_some() {
            v = v + 4;
        }
        let w = column_width(run_columns(&self.samples));
        assert(self.samples@.len() * w <= max_buf()) by (nonlinear_arith)
            requires
                self.samples@.len() * w + v <= max_buf(),
                v >= 0,
        ;
        v + self.samples.len() * w
    }

    #[verifier::rlimit(100)]
    #[verifier::spinoff_prover]
    pub fn parse(r: &mut BytesMut) -> (res: Result<trun, DecodeError>)
        ensures
            match res {
                Ok(v) => TrunModel::parse(buf_bytes(*old(r))) matches Ok((m, n)) && m == v@
                    && buf_bytes(*final(r)) == buf_bytes(*old(r)).skip(n),
                Err(e) => TrunModel::parse(buf_bytes(*old(r))) == Err::<(TrunModel, int), _>(e),
            },
    {
        let ghost s = buf_bytes(*r);
        proof {
            reveal(has_bit);
        }
        let n = buf_len(r);
        if n < 8 {
            return Err(DecodeError::Truncated);
        }
        let base = FullBox::parse(r)?;
        let count = take_u32(r);
        proof {
            crate::buf::lemma_read_skip(s, 4);
        }
        let f = base.flags;
        let has_do = f % 2 == 1;
        let has_fsf = (f / 4) % 2 == 1;
        let c: Columns = (
            (f / 0x100) % 2 == 1,
            (f / 0x200) % 2 == 1,
            (f / 0x400) % 2 == 1,
            (f / 0x800) % 2 == 1,
        );
        let w = column_width(c);
        let mut head: usize = 8;
        if has_do {
            head = head + 4;
        }
        if has_fsf {
            head = head + 4;
        }
        if n < head {
            return Err(DecodeError::Truncated);
        }
        if w > 0 && (n - head) / w < count as usize {
            assert(n < head + count * w) by (nonlinear_arith)
                requires
                    w > 0,
                    (n - head) / (w as int) < count,
                    head <= n,
            ;
            return Err(DecodeError::Truncated);
        }
        assert(head + count * w <= n) by (nonlinear_arith)
            requires
                w == 0 || (n - head) / (w as int) >= count,
                head <= n,
                w >= 0,
        ;
        let data_offset = take_column(r, has_do);
        let first_sample_flags = take_column(r, has_fsf);
        assert(buf_bytes(*r) == s.skip(head as int));
        let mut samples: Vec<Sample> = Vec::new();
        let mut i: u32 = 0;
        let mut pos: usize = head;
        while i < count
            invariant
                i <= count,
                pos == head + i * w,
                head + count * w <= n,
                n == s.len(),
                w == width(c),
                buf_bytes(*r) == s.skip(pos as int),
                samples@.len() == i,
                forall|j: int| 0 <= j < i ==> samples@[j] == sample_at(s, head + j * w, c),
            decreases count - i,
        {
            assert(pos + w <= n) by (nonlinear_arith)
                requires
                    pos == head + i * w,
                    head + count * w <= n,
                    i < count,
            ;
            proof {
                crate::buf::lemma_read_skip(s, pos as int);
                crate::buf::lemma_read_skip(s, pos + when(c.0, 4));
                crate::buf::lemma_read_skip(s, pos + when(c.0, 4) + when(c.1, 4));
                crate::buf::lemma_read_skip(s, pos + when(c.0, 4) + when(c.1, 4) + when(c.2, 4));
            }
            let d = take_column(r, c.0);
            let z = take_column(r, c.1);
            let g = take_column(r, c.2);
            let o = take_column(r, c.3);
            samples.push((d, z, g, o));
            assert((i + 1) * w == i * w + w) by (nonlinear_arith);
            i = i + 1;
            pos = pos + w;
        }
        let v = trun { version: base.version, data_offset, first_sample_flags, samples };
        assert(v@.samples =~= TrunModel::parse(s)->Ok_0.0.samples);
        Ok(v)
    }

    #[verifier::rlimit(100)]
    #[verifier::spinoff_prover]
    pub fn write(&self, w: &mut BytesMut)
        requires
            buf_bytes(*old(w)).len() + self@.bytes().len() <= max_buf(),
        ensures
            buf_bytes(*final(w)) == buf_bytes(*old(w)) + self@.bytes(),
    {
        let ghost w0 = buf_bytes(*w);
        let c = run_columns(&self.samples);
        let h = FullBox::new(self.version, self.flags());
        let ghost p1 = h.spec_bytes() + be32(self.samples@.len() as u32) + opt32(self.data_offset)
            + opt32(self.first_sample_flags);
        proof {
            lemma_samples_bytes_len(self.samples@, c);
        }
        h.write(w);
        put_u32(w, #[verifier::truncate] (self.samples.len() as u32));
        if let Some(v) = self.data_offset {
            put_u32(w, v);
        }
        if let Some(v) = self.first_sample_flags {
            put_u32(w, v);
        }
        assert(buf_bytes(*w) =~= w0 + p1);
        let mut i: usize = 0;
        while i < self.samples.len()
            invariant
                i <= self.samples@.len(),
                c == columns(self.samples@),
                w0.len() + self@.bytes().len() <= max_buf(),
                self@.bytes().len() == p1.len() + self.samples@.len() * width(c),
                buf_bytes(*w) == w0 + p1 + samples_bytes(self.samples@.take(i as int), c),
            decreases self.samples@.len() - i,
        {
            proof {
                lemma_samples_bytes_len(self.samples@.take(i as int), c);
                assert(i * width(c) + width(c) <= self.samples@.len() * width(c)) by (nonlinear_arith)
                    requires
                        i < self.samples@.len(),
                        width(c) >= 0,
                ;
            }
            let ghost before = buf_bytes(*w);
            let x = self.samples[i];
            put_column(w, c.0, x.0);
            put_column(w, c.1, x.1);
            put_column(w, c.2, x.2);
            put_column(w, c.3, x.3);
            proof {
                let t = self.samples@.take(i as int + 1);
                assert(t.drop_last() =~= self.samples@.take(i as int));
                assert(buf_bytes(*w) =~= before + sample_bytes(x, c));
                assert(buf_bytes(*w) =~= w0 + p1 + samples_bytes(t, c));
            }
            i = i + 1;
        }
        assert(self.samples@.take(i as int) =~= self.samples@);
        assert(buf_bytes(*w) =~= w0 + self@.bytes());
    }

    pub fn as_bytes(&self) -> (r: BytesMut)
        requires
            self@.bytes().len() <= max_buf(),
        ensures
            buf_bytes(r) == self@.bytes(),
    {
        let mut w = buf_new();
        self.write(&mut w);
        assert(buf_bytes(w) =~= self@.bytes());
        w
    }
}

impl Default for trun {
    fn default() -> (r: Self)
        ensures
            r@ == (TrunModel {
                version: 0,
                data_offset: None,
                first_sample_flags: None,
                samples: Seq::empty(),
            }),
    {
        trun { version: 0, data_offset: None, first_sample_flags: None, samples: Vec::new() }
    }
}

/// The flags word of a `trun` carries exactly the presence of its optional
/// fields and the columns of its first sample.
#[verifier::rlimit(100)]
#[verifier::spinoff_prover]
pub proof fn lemma_trun_flags(m: TrunModel)
    ensures
        m.spec_flags() < 0x1000000,
        has_bit(m.spec_flags(), TRUN_DATA_OFFSET_PRESENT as int) == m.data_offset is Some,
        has_bit(m.spec_flags(), TRUN_FIRST_SAMPLE_FLAGS_PRESENT as int) == m.first_sample_flags is Some,
        TrunModel::flag_columns(m.spec_flags()) == columns(m.samples),
{
    reveal(has_bit);
    reveal(TrunModel::spec_flags);
}

/// A sample read back from its own bytes, under columns equal to its own
/// presence pattern, is the sample itself.
#[verifier::rlimit(100)]
#[verifier::spinoff_prover]
proof fn lemma_sample_round_trip(x: Sample, c: Columns, rest: Seq<u8>)
    requires
        pattern(x) == c,
    ensures
        sample_at(sample_bytes(x, c) + rest, 0, c) == x,
        sample_bytes(x, c).len() == width(c),
{
    let a = column_bytes(c.0, x.0);
    let b = column_bytes(c.1, x.1);
    let d = column_bytes(c.2, x.2);
    let e = column_bytes(c.3, x.3);
    let s = sample_bytes(x, c) + rest;
    assert(s == a + b + d + e + rest);
    if let Some(v) = x.0 {
        assert(be32_at(s, 0) == be32_at(be32(v), 0));
    }
    if let Some(v) = x.1 {
        assert(be32_at(s, a.len() as int) == be32_at(be32(v), 0));
    }
    if let Some(v) = x.2 {
        assert(be32_at(s, (a.len() + b.len()) as int) == be32_at(be32(v), 0));
    }
    if let Some(v) = x.3 {
        assert(be32_at(s, (a.len() + b.len() + d.len()) as int) == be32_at(be32(v), 0));
    }
}

/// A sample is read from the `width(c)` bytes at its position alone.
#[verifier::rlimit(100)]
#[verifier::spinoff_prover]
proof fn lemma_sample_at_local(s: Seq<u8>, pos: int, c: Columns)
    requires
        0 <= pos,
        pos + width(c) <= s.len(),
    ensures
        sample_at(s, pos, c) == sample_at(s.subrange(pos, pos + width(c)), 0, c),
{
}

/// The bytes of the `i`-th sample within the bytes of all samples.
#[verifier::rlimit(100)]
#[verifier::spinoff_prover]
proof fn lemma_samples_bytes_at(v: Seq<Sample>, c: Columns, i: int)
    requires
        0 <= i < v.len(),
    ensures
        samples_bytes(v, c).len() == v.len() * width(c),
        i * width(c) + width(c) <= v.len() * width(c),
        samples_bytes(v, c).subrange(i * width(c), i * width(c) + width(c)) == sample_bytes(v[i], c),
    decreases v.len(),
{
    broadcast use group_be;
    lemma_samples_bytes_len(v, c);
    lemma_samples_bytes_len(v.drop_last(), c);
    let w = width(c);
    assert(i * w + w <= v.len() * w) by (nonlinear_arith)
        requires
            i < v.len(),
            w >= 0,
    ;
    let p = samples_bytes(v.drop_last(), c);
    let q = sample_bytes(v.last(), c);
    assert(q.len() == w);
    if i < v.len() - 1 {
        lemma_samples_bytes_at(v.drop_last(), c, i);
        assert(samples_bytes(v, c).subrange(i * w, i * w + w) =~= p.subrange(i * w, i * w + w));
    } else {
        assert(i * w == (v.len() - 1) * w);
        assert(p.len() == i * w);
        assert(samples_bytes(v, c).subrange(i * w, i * w + w) =~= q);
    }
}

/// Whether every sample of a run has the presence pattern of its first.
pub open spec fn uniform(samples: Seq<Sample>) -> bool {
    forall|i: int| 0 <= i < samples.len() ==> #[trigger] pattern(samples[i]) == columns(samples)
}

/// The header of an encoded `trun`: its flags, its sample count and its
/// total length.
#[verifier::rlimit(100)]
#[verifier::spinoff_prover]
proof fn lemma_trun_header(m: TrunModel)
    requires
        m.samples.len() <= u32::MAX,
    ensures
        m.bytes().len() >= 8,
        be24_at(m.bytes(), 1) == m.spec_flags(),
        be32_at(m.bytes(), 4) == m.samples.len(),
        m.bytes()[0] == m.version,
        m.bytes().len() == TrunModel::head_size(m.spec_flags()) + m.samples.len() * width(
            columns(m.samples),
        ),
        m.bytes().skip(8) == opt32(m.data_offset) + (opt32(m.first_sample_flags) + samples_bytes(
            m.samples,
            columns(m.samples),
        )),
{
    broadcast use group_be;
    lemma_trun_flags(m);
    reveal(has_bit);
    let f = m.spec_flags();
    let c = columns(m.samples);
    let h = FullBox { version: m.version, flags: f };
    let sb = samples_bytes(m.samples, c);
    let t2 = opt32(m.first_sample_flags) + sb;
    let t1 = opt32(m.data_offset) + t2;
    let s = m.bytes();
    lemma_samples_bytes_len(m.samples, c);
    assert(s == h.spec_bytes() + (be32(m.samples.len() as u32) + t1));
    assert(be24_at(s, 1) == f) by {
        assert(f % 0x1000000 == f) by (nonlinear_arith)
            requires
                f < 0x1000000,
        ;
        assert(be24_at(s, 1) == be24_at(be24(f), 0));
    }
    assert(be32_at(s, 4) == be32_at(be32(m.samples.len() as u32), 0));
    assert(s.skip(8) =~= t1);
}

/// Encoding then decoding a `trun` keeps its optional fields, the number of
/// samples, and gives every sample the presence pattern of the first one.
#[verifier::rlimit(100)]
#[verifier::spinoff_prover]
pub proof fn lemma_trun_presence(m: TrunModel)
    requires
        m.samples.len() <= u32::MAX,
    ensures
        TrunModel::parse(m.bytes()) matches Ok((d, n)) && n == m.bytes().len() && d.version
            == m.version && (d.data_offset == m.data_offset) && (d.first_sample_flags
            == m.first_sample_flags) && d.samples.len() == m.samples.len() && (forall|i: int|
            0 <= i < d.samples.len() ==> #[trigger] pattern(d.samples[i]) == columns(m.samples)),
{
    lemma_trun_flags(m);
    lemma_trun_header(m);
    let c = columns(m.samples);
    let sb = samples_bytes(m.samples, c);
    lemma_opt32_read(m.data_offset, opt32(m.first_sample_flags) + sb);
    lemma_opt32_read(m.first_sample_flags, sb);
}

/// Decoding an encoded `trun` whose samples all share the first one's
/// presence pattern gives back the same run.
#[verifier::rlimit(100)]
#[verifier::spinoff_prover]
pub proof fn lemma_trun_round_trip(m: TrunModel)
    requires
        m.samples.len() <= u32::MAX,
        uniform(m.samples),
    ensures
        TrunModel::parse(m.bytes()) == Ok::<_, DecodeError>((m, m.bytes().len() as int)),
{
    lemma_trun_presence(m);
    lemma_trun_flags(m);
    lemma_trun_header(m);
    let f = m.spec_flags();
    let c = columns(m.samples);
    let s = m.bytes();
    let sb = samples_bytes(m.samples, c);
    lemma_samples_bytes_len(m.samples, c);
    let head = TrunModel::head_size(f);
    let w = width(c);
    let d = TrunModel::parse(s)->Ok_0.0;
    assert(s.len() == head + sb.len());
    assert(head == s.len() - sb.len());
    assert forall|i: int| 0 <= i < m.samples.len() implies d.samples[i] == m.samples[i] by {
        lemma_samples_bytes_at(m.samples, c, i);
        lemma_sample_at_local(s, head + i * w, c);
        assert(s.subrange(head + i * w, head + i * w + w) =~= sb.subrange(i * w, i * w + w)) by {
            assert(s.skip(8).skip(head - 8) =~= sb) by {
                reveal(has_bit);
            }
        }
        assert(pattern(m.samples[i]) == c);
        lemma_sample_round_trip(m.samples[i], c, Seq::empty());
        assert(sample_bytes(m.samples[i], c) + Seq::<u8>::empty() =~= sample_bytes(m.samples[i], c));
    }
    assert(d.samples =~= m.samples);
}

/// What a `traf` box holds.
pub struct TrafModel {
    pub tfhd: tfhd,
    pub tfdt: Option<tfdt>,
    pub truns: Seq<TrunModel>,
}

/// Takes one child box into a `traf`: the last `tfhd` and `tfdt` win, each
/// `trun` is added, other types are passed over.
pub open spec fn traf_step(acc: TrafModel, t: u32, p: Seq<u8>) -> Result<TrafModel, DecodeError> {
    if t == tfhd::BOX_TYPE {
        match tfhd::spec_parse(p) {
            Ok((h, _)) => Ok(TrafModel { tfhd: h, tfdt: acc.tfdt, truns: acc.truns }),
            Err(e) => Err(e),
        }
    } else if t == tfdt::BOX_TYPE {
        match tfdt::spec_parse(p) {
            Ok((d, _)) => Ok(TrafModel { tfhd: acc.tfhd, tfdt: Some(d), truns: acc.truns }),
            Err(e) => Err(e),
        }
    } else if t == trun::BOX_TYPE {
        match TrunModel::parse(p) {
            Ok((u, _)) => Ok(TrafModel { tfhd: acc.tfhd, tfdt: acc.tfdt, truns: acc.truns.push(u) }),
            Err(e) => Err(e),
        }
    } else {
        Ok(acc)
    }
}

pub open spec fn traf_stepper() -> spec_fn(TrafModel, u32, Seq<u8>) -> Result<
    TrafModel,
    DecodeError,
> {
    |acc: TrafModel, t: u32, p: Seq<u8>| traf_step(acc, t, p)
}

impl TrafModel {
    pub open spec fn initial() -> TrafModel {
        TrafModel {
            tfhd: tfhd {
                version: 0,
                default_base_is_moof: true,
                track_id: 0,
                base_data_offset: None,
                sample_description_index: None,
                default_sample_duration: None,
                default_sample_size: None,
                default_sample_flags: None,
            },
            tfdt: None,
            truns: Seq::empty(),
        }
    }

    /// The children in the order encoding writes them: `tfhd`, `tfdt` if
    /// any, then each `trun`.
    pub open spec fn children(self) -> Seq<(u32, Seq<u8>)> {
        seq![(tfhd::BOX_TYPE, self.tfhd.spec_bytes())] + match self.tfdt {
            Some(d) => seq![(tfdt::BOX_TYPE, d.spec_bytes())],
            None => Seq::empty(),
        } + self.truns.map_values(|u: TrunModel| (trun::BOX_TYPE, u.bytes()))
    }

    pub open spec fn bytes(self) -> Seq<u8> {
        boxes_bytes(self.children())
    }

    pub open spec fn parse(s: Seq<u8>) -> Result<(TrafModel, int), DecodeError> {
        match walk(s, TrafModel::initial(), traf_stepper()) {
            Ok(m) => Ok((m, s.len() as int)),
            Err(e) => Err(e),
        }
    }
}

/// Track fragment: a header, an optional decode time and the runs.
#[allow(non_camel_case_types)]
#[derive(Debug, Clone, PartialEq, Eq)]
pub struct traf {
    pub tfhd: tfhd,
    pub tfdt: Option<tfdt>,
    pub truns: Vec<trun>,
}

impl View for traf {
    type V = TrafModel;

    open spec fn view(&self) -> TrafModel {
        TrafModel {
            tfhd: self.tfhd,
            tfdt: self.tfdt,
            truns: self.truns@.map_values(|u: trun| u@),
        }
    }
}

impl Default for traf {
    fn default() -> (r: Self)
        ensures
            r@ == TrafModel::initial(),
    {
        let r = traf { tfhd: tfhd::default(), tfdt: None, truns: Vec::new() };
        assert(r@.truns =~= Seq::<TrunModel>::empty());
        r
    }
}

impl traf {
    pub const BOX_TYPE: u32 = 0x74726166;

    #[verifier::rlimit(100)]
    #[verifier::spinoff_prover]
    pub fn len(&self) -> (r: usize)
        requires
            self@.bytes().len() <= max_buf(),
        ensures
            r == self@.bytes().len(),
    {
        let ghost cs = self@.children();
        proof {
            lemma_boxes_bytes_prefix(cs, 0);
            assert(cs.take(0) =~= Seq::<(u32, Seq<u8>)>::empty());
        }
        let n = self.tfhd.len();
        let mut v: usize = crate::object::header_len(n) + n;
        let mut k: usize = 1;
        if let Some(d) = &self.tfdt {
            proof {
                lemma_boxes_bytes_prefix(cs, 1);
            }
            let n = d.len();
            v = v + crate::object::header_len(n) + n;
            k = 2;
        }
        assert(boxes_bytes(cs.take(k as int)).len() == v);
        let mut i: usize = 0;
        while i < self.truns.len()
            invariant
                i <= self.truns@.len(),
                cs == self@.children(),
                cs.len() == k + self.truns@.len(),
                boxes_bytes(cs).len() <= max_buf(),
                v == boxes_bytes(cs.take(k + i)).len(),
                forall|j: int| 0 <= j < self.truns@.len() ==> cs[k + j] == (trun::BOX_TYPE, self.truns@[j]@.bytes()),
            decreases self.truns@.len() - i,
        {
            proof {
                lemma_boxes_bytes_prefix(cs, k + i);
            }
            let n = self.truns[i].len();
            v = v + crate::object::header_len(n) + n;
            i = i + 1;
        }
        assert(cs.take(k + i) =~= cs);
        v
    }

    #[verifier::rlimit(100)]
    #[verifier::spinoff_prover]
    pub fn parse(r: &mut BytesMut) -> (res: Result<traf, DecodeError>)
        ensures
            match res {
                Ok(v) => TrafModel::parse(buf_bytes(*old(r))) matches Ok((m, n)) && m == v@
                    && buf_bytes(*final(r)) == buf_bytes(*old(r)).skip(n),
                Err(e) => TrafModel::parse(buf_bytes(*old(r))) == Err::<(TrafModel, int), _>(e),
            },
    {
        let ghost s = buf_bytes(*r);
        let mut acc = traf::default();
        while buf_len(r) > 0
            invariant
                s == buf_bytes(*old(r)),
                walk(s, TrafModel::initial(), traf_stepper()) == walk(
                    buf_bytes(*r),
                    acc@,
                    traf_stepper(),
                ),
            decreases buf_bytes(*r).len(),
        {
            let ghost cur = buf_bytes(*r);
            proof {
                lemma_walk_unfold(cur, acc@, traf_stepper());
            }
            let mut b = match Object::parse(r) {
                Ok(b) => b,
                Err(e) => return Err(e),
            };
            if b.box_type == tfhd::BOX_TYPE {
                acc.tfhd = match tfhd::parse(&mut b.payload) {
                    Ok(h) => h,
                    Err(e) => return Err(e),
                };
            } else if b.box_type == tfdt::BOX_TYPE {
                acc.tfdt = Some(
                    match tfdt::parse(&mut b.payload) {
                        Ok(d) => d,
                        Err(e) => return Err(e),
                    },
                );
            } else if b.box_type == trun::BOX_TYPE {
                let u = match trun::parse(&mut b.payload) {
                    Ok(u) => u,
                    Err(e) => return Err(e),
                };
                let ghost before = acc@;
                acc.truns.push(u);
                assert(acc@.truns =~= before.truns.push(u@));
            }
        }
        assert(buf_bytes(*r) =~= s.skip(s.len() as int));
        proof {
            lemma_walk_empty(buf_bytes(*r), acc@, traf_stepper());
        }
        Ok(acc)
    }

    #[verifier::rlimit(100)]
    #[verifier::spinoff_prover]
    pub fn write(&self, w: &mut BytesMut)
        requires
            buf_bytes(*old(w)).len() + self@.bytes().len() <= max_buf(),
        ensures
            buf_bytes(*final(w)) == buf_bytes(*old(w)) + self@.bytes(),
    {
        let ghost w0 = buf_bytes(*w);
        let ghost cs = self@.children();
        proof {
            lemma_boxes_bytes_prefix(cs, 0);
            assert(cs.take(0) =~= Seq::<(u32, Seq<u8>)>::empty());
        }
        let hb = self.tfhd.as_bytes();
        write_box(w, tfhd::BOX_TYPE, &hb);
        let mut k: usize = 1;
        if let Some(d) = &self.tfdt {
            proof {
                lemma_boxes_bytes_prefix(cs, 1);
            }
            let db = d.as_bytes();
            write_box(w, tfdt::BOX_TYPE, &db);
            k = 2;
        }
        assert(buf_bytes(*w) =~= w0 + boxes_bytes(cs.take(k as int)));
        let mut i: usize = 0;
        while i < self.truns.len()
            invariant
                i <= self.truns@.len(),
                cs == self@.children(),
                cs.len() == k + self.truns@.len(),
                w0.len() + boxes_bytes(cs).len() <= max_buf(),
                buf_bytes(*w) == w0 + boxes_bytes(cs.take(k + i)),
                forall|j: int| 0 <= j < self.truns@.len() ==> cs[k + j] == (trun::BOX_TYPE, self.truns@[j]@.bytes()),
            decreases self.truns@.len() - i,
        {
            proof {
                lemma_boxes_bytes_prefix(cs, k + i);
            }
            let ub = self.truns[i].as_bytes();
            write_box(w, trun::BOX_TYPE, &ub);
            assert(buf_bytes(*w) =~= w0 + boxes_bytes(cs.take(k + i + 1)));
            i = i + 1;
        }
        assert(cs.take(k + i) =~= cs);
    }

    pub fn as_bytes(&self) -> (r: BytesMut)
        requires
            self@.bytes().len() <= max_buf(),
        ensures
            buf_bytes(r) == self@.bytes(),
    {
        let mut w = buf_new();
        self.write(&mut w);
        assert(buf_bytes(w) =~= self@.bytes());
        w
    }
}

/// A `trun` that encoding keeps exactly: a count that fits 32 bits, and
/// every sample with the presence pattern of the first.
pub open spec fn trun_exact(u: TrunModel) -> bool {
    u.samples.len() <= u32::MAX && uniform(u.samples)
}

/// A `tfdt` that encoding keeps exactly: 24-bit flags and a time that its
/// width holds.
pub open spec fn tfdt_exact(d: tfdt) -> bool {
    d.base.flags < 0x1000000 && (d.base.version != 1 ==> d.base_media_decode_time <= u32::MAX)
}

/// A `traf` that encoding keeps exactly, apart from the order of its
/// children, which encoding fixes.
pub open spec fn traf_exact(m: TrafModel) -> bool {
    &&& m.bytes().len() + 16 <= max_buf()
    &&& m.tfdt matches Some(d) ==> tfdt_exact(d)
    &&& forall|i: int| 0 <= i < m.truns.len() ==> trun_exact(#[trigger] m.truns[i])
}

/// Stepping over encoded runs adds them, in order, to the runs already held.
#[verifier::rlimit(100)]
#[verifier::spinoff_prover]
proof fn lemma_traf_truns(us: Seq<TrunModel>, acc: TrafModel)
    requires
        forall|i: int| 0 <= i < us.len() ==> trun_exact(#[trigger] us[i]),
    ensures
        step_all(us.map_values(|u: TrunModel| (trun::BOX_TYPE, u.bytes())), acc, traf_stepper())
            == Ok::<_, DecodeError>(
            TrafModel { tfhd: acc.tfhd, tfdt: acc.tfdt, truns: acc.truns + us },
        ),
    decreases us.len(),
{
    let xs = us.map_values(|u: TrunModel| (trun::BOX_TYPE, u.bytes()));
    if us.len() == 0 {
        assert(acc.truns + us =~= acc.truns);
        assert(xs.len() == 0);
    } else {
        assert(trun_exact(us[0]));
        lemma_trun_round_trip(us[0]);
        let next = TrafModel { tfhd: acc.tfhd, tfdt: acc.tfdt, truns: acc.truns.push(us[0]) };
        assert(xs[0] == (trun::BOX_TYPE, us[0].bytes()));
        assert(traf_step(acc, xs[0].0, xs[0].1) == Ok::<_, DecodeError>(next));
        assert forall|i: int| 0 <= i < us.skip(1).len() implies trun_exact(#[trigger] us.skip(1)[i]) by {
            assert(us.skip(1)[i] == us[i + 1]);
        }
        lemma_traf_truns(us.skip(1), next);
        assert(xs.skip(1) =~= us.skip(1).map_values(|u: TrunModel| (trun::BOX_TYPE, u.bytes())));
        assert(next.truns + us.skip(1) =~= acc.truns + us);
    }
}

/// Decoding an encoded `traf` gives back the same track fragment.
#[verifier::rlimit(100)]
#[verifier::spinoff_prover]
pub proof fn lemma_traf_round_trip(m: TrafModel)
    requires
        traf_exact(m),
    ensures
        TrafModel::parse(m.bytes()) == Ok::<_, DecodeError>((m, m.bytes().len() as int)),
{
    let cs = m.children();
    let st = traf_stepper();
    let init = TrafModel::initial();
    lemma_boxes_fit(cs);
    lemma_walk_boxes(cs, init, st);
    let a = seq![(tfhd::BOX_TYPE, m.tfhd.spec_bytes())];
    let b: Seq<(u32, Seq<u8>)> = match m.tfdt {
        Some(d) => seq![(tfdt::BOX_TYPE, d.spec_bytes())],
        None => Seq::empty(),
    };
    let c = m.truns.map_values(|u: TrunModel| (trun::BOX_TYPE, u.bytes()));
    assert(cs == a + b + c);
    lemma_step_all_append(a + b, c, init, st);
    lemma_step_all_append(a, b, init, st);
    lemma_tfhd_round_trip(m.tfhd);
    lemma_step_all_one(tfhd::BOX_TYPE, m.tfhd.spec_bytes(), init, st);
    let s1 = TrafModel { tfhd: m.tfhd, tfdt: None, truns: Seq::empty() };
    assert(step_all(a, init, st) == Ok::<_, DecodeError>(s1));
    let s2 = TrafModel { tfhd: m.tfhd, tfdt: m.tfdt, truns: Seq::empty() };
    match m.tfdt {
        Some(d) => {
            lemma_tfdt_round_trip(d);
            lemma_step_all_one(tfdt::BOX_TYPE, d.spec_bytes(), s1, st);
        },
        None => {
            assert(step_all(b, s1, st) == Ok::<_, DecodeError>(s1));
        },
    }
    assert(step_all(b, s1, st) == Ok::<_, DecodeError>(s2));
    lemma_traf_truns(m.truns, s2);
    assert(Seq::<TrunModel>::empty() + m.truns =~= m.truns);
}

/// What a `moof` box holds.
pub struct MoofModel {
    pub mfhd: mfhd,
    pub trafs: Seq<TrafModel>,
}

/// Takes one child box into a `moof`: the last `mfhd` wins, each `traf` is
/// added, other types are passed over.
pub open spec fn moof_step(acc: MoofModel, t: u32, p: Seq<u8>) -> Result<MoofModel, DecodeError> {
    if t == mfhd::BOX_TYPE {
        match mfhd::spec_parse(p) {
            Ok((h, _)) => Ok(MoofModel { mfhd: h, trafs: acc.trafs }),
            Err(e) => Err(e),
        }
    } else if t == traf::BOX_TYPE {
        match TrafModel::parse(p) {
            Ok((f, _)) => Ok(MoofModel { mfhd: acc.mfhd, trafs: acc.trafs.push(f) }),
            Err(e) => Err(e),
        }
    } else {
        Ok(acc)
    }
}

pub open spec fn moof_stepper() -> spec_fn(MoofModel, u32, Seq<u8>) -> Result<
    MoofModel,
    DecodeError,
> {
    |acc: MoofModel, t: u32, p: Seq<u8>| moof_step(acc, t, p)
}

impl MoofModel {
    pub open spec fn initial() -> MoofModel {
        MoofModel {
            mfhd: mfhd { base: FullBox { version: 0, flags: 0 }, sequence_number: 0 },
            trafs: Seq::empty(),
        }
    }

    /// The children in the order encoding writes them: `mfhd`, then each
    /// `traf`.
    pub open spec fn children(self) -> Seq<(u32, Seq<u8>)> {
        seq![(mfhd::BOX_TYPE, self.mfhd.spec_bytes())] + self.trafs.map_values(
            |f: TrafModel| (traf::BOX_TYPE, f.bytes()),
        )
    }

    pub open spec fn bytes(self) -> Seq<u8> {
        boxes_bytes(self.children())
    }

    pub open spec fn parse(s: Seq<u8>) -> Result<(MoofModel, int), DecodeError> {
        match walk(s, MoofModel::initial(), moof_stepper()) {
            Ok(m) => Ok((m, s.len() as int)),
            Err(e) => Err(e),
        }
    }
}

/// Movie fragment: a header and the track fragments.
#[allow(non_camel_case_types)]
#[derive(Debug, Clone, PartialEq, Eq)]
pub struct moof {
    pub mfhd: mfhd,
    pub trafs: Vec<traf>,
}

impl View for moof {
    type V = MoofModel;

    open spec fn view(&self) -> MoofModel {
        MoofModel { mfhd: self.mfhd, trafs: self.trafs@.map_values(|f: traf| f@) }
    }
}

impl Default for moof {
    fn default() -> (r: Self)
        ensures
            r@ == MoofModel::initial(),
    {
        let r = moof { mfhd: mfhd::default(), trafs: Vec::new() };
        assert(r@.trafs =~= Seq::<TrafModel>::empty());
        r
    }
}

/// Decodes a `moof` payload.
#[verifier::rlimit(100)]
#[verifier::spinoff_prover]
pub fn parse(r: &mut BytesMut) -> (res: Result<moof, DecodeError>)
    ensures
        match res {
            Ok(v) => MoofModel::parse(buf_bytes(*old(r))) matches Ok((m, n)) && m == v@
                && buf_bytes(*final(r)) == buf_bytes(*old(r)).skip(n),
            Err(e) => MoofModel::parse(buf_bytes(*old(r))) == Err::<(MoofModel, int), _>(e),
        },
{
    moof::parse(r)
}

impl moof {
    pub const BOX_TYPE: u32 = 0x6d6f6f66;

    #[verifier::rlimit(100)]
    #[verifier::spinoff_prover]
    pub fn len(&self) -> (r: usize)
        requires
            self@.bytes().len() <= max_buf(),
        ensures
            r == self@.bytes().len(),
    {
        let ghost cs = self@.children();
        proof {
            lemma_boxes_bytes_prefix(cs, 0);
            assert(cs.take(0) =~= Seq::<(u32, Seq<u8>)>::empty());
        }
        let n = self.mfhd.len();
        let mut v: usize = crate::object::header_len(n) + n;
        assert(boxes_bytes(cs.take(1)).len() == v);
        let mut i: usize = 0;
        while i < self.trafs.len()
            invariant
                i <= self.trafs@.len(),
                cs == self@.children(),
                cs.len() == 1 + self.trafs@.len(),
                boxes_bytes(cs).len() <= max_buf(),
                v == boxes_bytes(cs.take(1 + i)).len(),
                forall|j: int| 0 <= j < self.trafs@.len() ==> cs[1 + j] == (traf::BOX_TYPE, self.trafs@[j]@.bytes()),
            decreases self.trafs@.len() - i,
        {
            proof {
                lemma_boxes_bytes_prefix(cs, 1 + i);
            }
            let n = self.trafs[i].len();
            v = v + crate::object::header_len(n) + n;
            i = i + 1;
        }
        assert(cs.take(1 + i) =~= cs);
        v
    }

    #[verifier::rlimit(100)]
    #[verifier::spinoff_prover]
    pub fn parse(r: &mut BytesMut) -> (res: Result<moof, DecodeError>)
        ensures
            match res {
                Ok(v) => MoofModel::parse(buf_bytes(*old(r))) matches Ok((m, n)) && m == v@
                    && buf_bytes(*final(r)) == buf_bytes(*old(r)).skip(n),
                Err(e) => MoofModel::parse(buf_bytes(*old(r))) == Err::<(MoofModel, int), _>(e),
            },
    {
        let ghost s = buf_bytes(*r);
        let mut acc = moof::default();
        while buf_len(r) > 0
            invariant
                s == buf_bytes(*old(r)),
                walk(s, MoofModel::initial(), moof_stepper()) == walk(
                    buf_bytes(*r),
                    acc@,
                    moof_stepper(),
                ),
            decreases buf_bytes(*r).len(),
        {
            let ghost cur = buf_bytes(*r);
            proof {
                lemma_walk_unfold(cur, acc@, moof_stepper());
            }
            let mut b = match Object::parse(r) {
                Ok(b) => b,
                Err(e) => return Err(e),
            };
            if b.box_type == mfhd::BOX_TYPE {
                acc.mfhd = match mfhd::parse(&mut b.payload) {
                    Ok(h) => h,
                    Err(e) => return Err(e),
                };
            } else if b.box_type == traf::BOX_TYPE {
                let f = match traf::parse(&mut b.payload) {
                    Ok(f) => f,
                    Err(e) => return Err(e),
                };
                let ghost before = acc@;
                acc.trafs.push(f);
                assert(acc@.trafs =~= before.trafs.push(f@));
            }
        }
        assert(buf_bytes(*r) =~= s.skip(s.len() as int));
        proof {
            lemma_walk_empty(buf_bytes(*r), acc@, moof_stepper());
        }
        Ok(acc)
    }

    #[verifier::rlimit(100)]
    #[verifier::spinoff_prover]
    pub fn write(&self, w: &mut BytesMut)
        requires
            buf_bytes(*old(w)).len() + self@.bytes().len() <= max_buf(),
        ensures
            buf_bytes(*final(w)) == buf_bytes(*old(w)) + self@.bytes(),
    {
        let ghost w0 = buf_bytes(*w);
        let ghost cs = self@.children();
        proof {
            lemma_boxes_bytes_prefix(cs, 0);
            assert(cs.take(0) =~= Seq::<(u32, Seq<u8>)>::empty());
        }
        let hb = self.mfhd.as_bytes();
        write_box(w, mfhd::BOX_TYPE, &hb);
        assert(buf_bytes(*w) =~= w0 + boxes_bytes(cs.take(1)));
        let mut i: usize = 0;
        while i < self.trafs.len()
            invariant
                i <= self.trafs@.len(),
                cs == self@.children(),
                cs.len() == 1 + self.trafs@.len(),
                w0.len() + boxes_bytes(cs).len() <= max_buf(),
                buf_bytes(*w) == w0 + boxes_bytes(cs.take(1 + i)),
                forall|j: int| 0 <= j < self.trafs@.len() ==> cs[1 + j] == (traf::BOX_TYPE, self.trafs@[j]@.bytes()),
            decreases self.trafs@.len() - i,
        {
            proof {
                lemma_boxes_bytes_prefix(cs, 1 + i);
            }
            let fb = self.trafs[i].as_bytes();
            write_box(w, traf::BOX_TYPE, &fb);
            assert(buf_bytes(*w) =~= w0 + boxes_bytes(cs.take(1 + i + 1)));
            i = i + 1;
        }
        assert(cs.take(1 + i) =~= cs);
    }

    pub fn as_bytes(&self) -> (r: BytesMut)
        requires
            self@.bytes().len() <= max_buf(),
        ensures
            buf_bytes(r) == self@.bytes(),
    {
        let mut w = buf_new();
        self.write(&mut w);
        assert(buf_bytes(w) =~= self@.bytes());
        w
    }
}

/// Stepping over encoded track fragments adds them, in order.
#[verifier::rlimit(100)]
#[verifier::spinoff_prover]
proof fn lemma_moof_trafs(fs: Seq<TrafModel>, acc: MoofModel)
    requires
        forall|i: int| 0 <= i < fs.len() ==> traf_exact(#[trigger] fs[i]),
    ensures
        step_all(fs.map_values(|f: TrafModel| (traf::BOX_TYPE, f.bytes())), acc, moof_stepper())
            == Ok::<_, DecodeError>(MoofModel { mfhd: acc.mfhd, trafs: acc.trafs + fs }),
    decreases fs.len(),
{
    let xs = fs.map_values(|f: TrafModel| (traf::BOX_TYPE, f.bytes()));
    if fs.len() == 0 {
        assert(acc.trafs + fs =~= acc.trafs);
        assert(xs.len() == 0);
    } else {
        assert(traf_exact(fs[0]));
        lemma_traf_round_trip(fs[0]);
        let next = MoofModel { mfhd: acc.mfhd, trafs: acc.trafs.push(fs[0]) };
        assert(xs[0] == (traf::BOX_TYPE, fs[0].bytes()));
        assert(moof_step(acc, xs[0].0, xs[0].1) == Ok::<_, DecodeError>(next));
        assert forall|i: int| 0 <= i < fs.skip(1).len() implies traf_exact(#[trigger] fs.skip(1)[i]) by {
            assert(fs.skip(1)[i] == fs[i + 1]);
        }
        lemma_moof_trafs(fs.skip(1), next);
        assert(xs.skip(1) =~= fs.skip(1).map_values(|f: TrafModel| (traf::BOX_TYPE, f.bytes())));
        assert(next.trafs + fs.skip(1) =~= acc.trafs + fs);
    }
}

/// Decoding an encoded `moof` gives back the same movie fragment.
#[verifier::rlimit(100)]
#[verifier::spinoff_prover]
pub proof fn lemma_moof_round_trip(m: MoofModel)
    requires
        m.bytes().len() + 16 <= max_buf(),
        m.mfhd.base.flags < 0x1000000,
        forall|i: int| 0 <= i < m.trafs.len() ==> traf_exact(#[trigger] m.trafs[i]),
    ensures
        MoofModel::parse(m.bytes()) == Ok::<_, DecodeError>((m, m.bytes().len() as int)),
{
    let cs = m.children();
    let st = moof_stepper();
    let init = MoofModel::initial();
    lemma_boxes_fit(cs);
    lemma_walk_boxes(cs, init, st);
    let a = seq![(mfhd::BOX_TYPE, m.mfhd.spec_bytes())];
    let c = m.trafs.map_values(|f: TrafModel| (traf::BOX_TYPE, f.bytes()));
    lemma_step_all_append(a, c, init, st);
    lemma_mfhd_round_trip(m.mfhd);
    lemma_step_all_one(mfhd::BOX_TYPE, m.mfhd.spec_bytes(), init, st);
    let s1 = MoofModel { mfhd: m.mfhd, trafs: Seq::empty() };
    lemma_moof_trafs(m.trafs, s1);
    assert(Seq::<TrafModel>::empty() + m.trafs =~= m.trafs);
}

/// A `traf` payload holding a header and a child of a type that no
/// fragment box has decodes as the header alone: the other child is dropped
/// and encoding the result leaves it out.
#[verifier::rlimit(100)]
#[verifier::spinoff_prover]
pub proof fn lemma_traf_unknown_child(h: tfhd, t: u32, p: Seq<u8>)
    requires
        t != tfhd::BOX_TYPE && t != tfdt::BOX_TYPE && t != trun::BOX_TYPE,
        h.spec_bytes().len() + p.len() + 64 <= max_buf(),
    ensures
        TrafModel::parse(box_bytes(tfhd::BOX_TYPE, h.spec_bytes()) + box_bytes(t, p)) matches Ok(
            (d, _),
        ) && d == (TrafModel { tfhd: h, tfdt: None, truns: Seq::empty() }) && d.bytes()
            == box_bytes(tfhd::BOX_TYPE, h.spec_bytes()),
{
    let cs = seq![(tfhd::BOX_TYPE, h.spec_bytes()), (t, p)];
    let st = traf_stepper();
    let init = TrafModel::initial();
    assert(cs.skip(1) =~= seq![(t, p)]);
    assert(cs.skip(1).skip(1) =~= Seq::<(u32, Seq<u8>)>::empty());
    reveal_with_fuel(boxes_bytes, 3);
    assert(boxes_bytes(cs) =~= box_bytes(tfhd::BOX_TYPE, h.spec_bytes()) + box_bytes(t, p));
    assert(crate::object::boxes_fit(cs));
    lemma_walk_boxes(cs, init, st);
    lemma_tfhd_round_trip(h);
    lemma_step_all_append(seq![(tfhd::BOX_TYPE, h.spec_bytes())], seq![(t, p)], init, st);
    assert(seq![(tfhd::BOX_TYPE, h.spec_bytes())] + seq![(t, p)] =~= cs);
    lemma_step_all_one(tfhd::BOX_TYPE, h.spec_bytes(), init, st);
    let d = TrafModel { tfhd: h, tfdt: None, truns: Seq::empty() };
    lemma_step_all_one(t, p, d, st);
    let dc = d.children();
    assert(dc =~= seq![(tfhd::BOX_TYPE, h.spec_bytes())]);
    assert(dc.skip(1) =~= Seq::<(u32, Seq<u8>)>::empty());
    assert(boxes_bytes(dc) =~= box_bytes(tfhd::BOX_TYPE, h.spec_bytes()));
}

} // verus!
