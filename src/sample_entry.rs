//! The sample description box and its entries: a base entry, extended by
//! visual or audio fields, extended in turn by codec-specific bytes.
use crate::buf::{
    be16, be16_at, be24_at, be32, be32_at, be64, buf_bytes, buf_len, buf_new, buf_slice, group_be,
    lemma_read_skip, max_buf, put_buf, put_prefix, put_u16, put_u32, put_u64, put_u8, put_zeros,
    take_bytes, take_u16, take_u32, take_u8, utf8_string, zeros,
};
use crate::object::{
    box_bytes, header_len, lemma_box_len, lemma_read_entries_err, lemma_read_entries_unfold, parse_box, read_entries,
    write_box, DecodeError, FullBox, Object,
};
use bytes::BytesMut;
use vstd::prelude::*;
use vstd::utf8::{decode_utf8, encode_utf8, valid_utf8};

verus! {

broadcast use {group_be, vstd::utf8::group_utf8_lib};

pub const AVC1: u32 = 0x61766331;
pub const MP4A: u32 = 0x6d703461;

/// The 32 bytes of a compressor name: a length byte, at most 31 bytes of
/// the name, zeros up to 31.
pub open spec fn name_bytes(name: Seq<char>) -> Seq<u8> {
    let e = encode_utf8(name);
    let l = if e.len() < 31 {
        e.len() as int
    } else {
        31
    };
    seq![l as u8] + e.take(l) + zeros((31 - l) as nat)
}

/// The fields that a visual entry adds: 70 bytes.
pub open spec fn visual_fields(
    width: u16,
    height: u16,
    horiz_resolution: u32,
    vert_resolution: u32,
    frame_count: u16,
    compressor_name: Seq<char>,
    depth: u16,
) -> Seq<u8> {
    be16(0) + be16(0) + zeros(12) + be16(width) + be16(height) + be32(horiz_resolution) + be32(
        vert_resolution,
    ) + be32(0) + be16(frame_count) + name_bytes(compressor_name) + be16(depth) + be16(0xffff)
}

/// The fields that an audio entry adds: 20 bytes.
pub open spec fn audio_fields(channel_count: u16, sample_size: u16, sample_rate: u32) -> Seq<u8> {
    be64(0) + be16(channel_count) + be16(sample_size) + be32(0) + be32(sample_rate)
}

/// What a sample entry holds.
pub enum SampleEntryModel {
    Base { handler_type: u32, data_reference_index: u16 },
    Visual {
        base: Box<SampleEntryModel>,
        width: u16,
        height: u16,
        horiz_resolution: u32,
        vert_resolution: u32,
        frame_count: u16,
        compressor_name: Seq<char>,
        depth: u16,
    },
    Audio { base: Box<SampleEntryModel>, channel_count: u16, sample_size: u16, sample_rate: u32 },
    Avc1 { base: Box<SampleEntryModel>, ext: Seq<u8> },
    Mp4a { base: Box<SampleEntryModel>, ext: Seq<u8> },
}

impl SampleEntryModel {
    /// The format code, held by the innermost layer.
    pub open spec fn handler_type(self) -> u32
        decreases self,
    {
        match self {
            SampleEntryModel::Base { handler_type, .. } => handler_type,
            SampleEntryModel::Visual { base, .. } => base.handler_type(),
            SampleEntryModel::Audio { base, .. } => base.handler_type(),
            SampleEntryModel::Avc1 { base, .. } => base.handler_type(),
            SampleEntryModel::Mp4a { base, .. } => base.handler_type(),
        }
    }

    /// The entry's payload: each layer's fields after those of the layer it
    /// wraps.
    pub open spec fn payload(self) -> Seq<u8>
        decreases self,
    {
        match self {
            SampleEntryModel::Base { data_reference_index, .. } => zeros(6) + be16(
                data_reference_index,
            ),
            SampleEntryModel::Visual {
                base,
                width,
                height,
                horiz_resolution,
                vert_resolution,
                frame_count,
                compressor_name,
                depth,
            } => base.payload() + visual_fields(
                width,
                height,
                horiz_resolution,
                vert_resolution,
                frame_count,
                compressor_name,
                depth,
            ),
            SampleEntryModel::Audio { base, channel_count, sample_size, sample_rate } => base.payload()
                + audio_fields(channel_count, sample_size, sample_rate),
            SampleEntryModel::Avc1 { base, ext } => base.payload() + ext,
            SampleEntryModel::Mp4a { base, ext } => base.payload() + ext,
        }
    }

    /// The entry as a box whose type is its format code.
    pub open spec fn bytes(self) -> Seq<u8> {
        box_bytes(self.handler_type(), self.payload())
    }

    /// Decodes the payload `p` of an entry box of format `t`: `avc1` gives
    /// the visual fields and the bytes after them, `mp4a` the audio fields
    /// and the bytes after them, any other format the base layer alone.
    pub open spec fn decode(t: u32, p: Seq<u8>) -> Result<SampleEntryModel, DecodeError> {
        if p.len() < 8 {
            Err(DecodeError::Truncated)
        } else {
            let base = SampleEntryModel::Base { handler_type: t, data_reference_index: be16_at(p, 6) };
            if t == AVC1 {
                match visual_at(p, base) {
                    Ok(v) => Ok(SampleEntryModel::Avc1 { base: Box::new(v), ext: p.skip(78) }),
                    Err(e) => Err(e),
                }
            } else if t == MP4A {
                if p.len() < 28 {
                    Err(DecodeError::Truncated)
                } else {
                    Ok(
                        SampleEntryModel::Mp4a {
                            base: Box::new(
                                SampleEntryModel::Audio {
                                    base: Box::new(base),
                                    channel_count: be16_at(p, 16),
                                    sample_size: be16_at(p, 18),
                                    sample_rate: be32_at(p, 24),
                                },
                            ),
                            ext: p.skip(28),
                        },
                    )
                }
            } else {
                Ok(base)
            }
        }
    }

    /// Reads one entry box from the front of `s`.
    pub open spec fn parse(s: Seq<u8>) -> Result<(Option<SampleEntryModel>, int), DecodeError> {
        match parse_box(s) {
            Err(e) => Err(e),
            Ok((t, p, n)) => match SampleEntryModel::decode(t, p) {
                Ok(m) => Ok((Some(m), n)),
                Err(e) => Err(e),
            },
        }
    }
}

/// The visual layer over `base` whose fields are at `p[8..78]`.
pub open spec fn visual_at(p: Seq<u8>, base: SampleEntryModel) -> Result<SampleEntryModel, DecodeError> {
    if p.len() < 78 {
        Err(DecodeError::Truncated)
    } else {
        let l: int = if p[42] < 31 {
            p[42] as int
        } else {
            31
        };
        let nb = p.subrange(43, 43 + l);
        if !valid_utf8(nb) {
            Err(DecodeError::Malformed)
        } else {
            Ok(
                SampleEntryModel::Visual {
                    base: Box::new(base),
                    width: be16_at(p, 24),
                    height: be16_at(p, 26),
                    horiz_resolution: be32_at(p, 28),
                    vert_resolution: be32_at(p, 32),
                    frame_count: be16_at(p, 40),
                    compressor_name: decode_utf8(nb),
                    depth: be16_at(p, 74),
                },
            )
        }
    }
}

pub open spec fn sample_entry_reader() -> spec_fn(Seq<u8>) -> Result<
    (Option<SampleEntryModel>, int),
    DecodeError,
> {
    |s: Seq<u8>| SampleEntryModel::parse(s)
}

/// A sample entry. Each outer variant wraps the layer beneath it.
#[derive(Debug, PartialEq, Eq)]
pub enum SampleEntry {
    Base { handler_type: u32, data_reference_index: u16 },
    Visual {
        base: Box<SampleEntry>,
        width: u16,
        height: u16,
        horiz_resolution: u32,
        vert_resolution: u32,
        frame_count: u16,
        compressor_name: String,
        depth: u16,
    },
    Audio { base: Box<SampleEntry>, channel_count: u16, sample_size: u16, sample_rate: u32 },
    #[allow(non_camel_case_types)]
    avc1 { base: Box<SampleEntry>, ext: BytesMut },
    #[allow(non_camel_case_types)]
    mp4a { base: Box<SampleEntry>, ext: BytesMut },
}

impl SampleEntry {
    pub open spec fn model(&self) -> SampleEntryModel
        decreases self,
    {
        match self {
            SampleEntry::Base { handler_type, data_reference_index } => SampleEntryModel::Base {
                handler_type: *handler_type,
                data_reference_index: *data_reference_index,
            },
            SampleEntry::Visual {
                base,
                width,
                height,
                horiz_resolution,
                vert_resolution,
                frame_count,
                compressor_name,
                depth,
            } => SampleEntryModel::Visual {
                base: Box::new(base.model()),
                width: *width,
                height: *height,
                horiz_resolution: *horiz_resolution,
                vert_resolution: *vert_resolution,
                frame_count: *frame_count,
                compressor_name: compressor_name@,
                depth: *depth,
            },
            SampleEntry::Audio { base, channel_count, sample_size, sample_rate } => SampleEntryModel::Audio {
                base: Box::new(base.model()),
                channel_count: *channel_count,
                sample_size: *sample_size,
                sample_rate: *sample_rate,
            },
            SampleEntry::avc1 { base, ext } => SampleEntryModel::Avc1 {
                base: Box::new(base.model()),
                ext: buf_bytes(*ext),
            },
            SampleEntry::mp4a { base, ext } => SampleEntryModel::Mp4a {
                base: Box::new(base.model()),
                ext: buf_bytes(*ext),
            },
        }
    }
}

impl View for SampleEntry {
    type V = SampleEntryModel;

    open spec fn view(&self) -> SampleEntryModel {
        self.model()
    }
}

#[verifier::rlimit(50)]
fn put_visual_fields(
    w: &mut BytesMut,
    width: u16,
    height: u16,
    horiz_resolution: u32,
    vert_resolution: u32,
    frame_count: u16,
    compressor_name: &String,
    depth: u16,
)
    requires
        buf_bytes(*old(w)).len() + 70 <= max_buf(),
    ensures
        buf_bytes(*final(w)) == buf_bytes(*old(w)) + visual_fields(
            width,
            height,
            horiz_resolution,
            vert_resolution,
            frame_count,
            compressor_name@,
            depth,
        ),
{
    let ghost w0 = buf_bytes(*w);
    put_u16(w, 0);
    put_u16(w, 0);
    put_zeros(w, 12);
    put_u16(w, width);
    put_u16(w, height);
    put_u32(w, horiz_resolution);
    put_u32(w, vert_resolution);
    put_u32(w, 0);
    put_u16(w, frame_count);
    let ghost w1 = buf_bytes(*w);
    let e = compressor_name.as_str().as_bytes();
    let l: usize = if e.len() < 31 {
        e.len()
    } else {
        31
    };
    put_u8(w, l as u8);
    put_prefix(w, e, l);
    put_zeros(w, 31 - l);
    assert(buf_bytes(*w) =~= w1 + name_bytes(compressor_name@));
    put_u16(w, depth);
    put_u16(w, 0xffff);
    assert(buf_bytes(*w) =~= w0 + visual_fields(
        width,
        height,
        horiz_resolution,
        vert_resolution,
        frame_count,
        compressor_name@,
        depth,
    ));
}

fn put_audio_fields(w: &mut BytesMut, channel_count: u16, sample_size: u16, sample_rate: u32)
    requires
        buf_bytes(*old(w)).len() + 20 <= max_buf(),
    ensures
        buf_bytes(*final(w)) == buf_bytes(*old(w)) + audio_fields(
            channel_count,
            sample_size,
            sample_rate,
        ),
{
    let ghost w0 = buf_bytes(*w);
    put_u64(w, 0);
    put_u16(w, channel_count);
    put_u16(w, sample_size);
    put_u32(w, 0);
    put_u32(w, sample_rate);
    assert(buf_bytes(*w) =~= w0 + audio_fields(channel_count, sample_size, sample_rate));
}

/// Reads the visual fields at `p[8..78]` from `r`, which holds `p[8..]`.
#[verifier::rlimit(100)]
fn take_visual(r: &mut BytesMut, base: SampleEntry, Ghost(p): Ghost<Seq<u8>>) -> (res: Result<
    SampleEntry,
    DecodeError,
>)
    requires
        p.len() >= 78,
        buf_bytes(*old(r)) == p.skip(8),
    ensures
        match res {
            Ok(v) => visual_at(p, base@) == Ok::<_, DecodeError>(v@) && buf_bytes(*final(r))
                == p.skip(78),
            Err(e) => visual_at(p, base@) == Err::<SampleEntryModel, _>(e),
        },
{
    proof {
        lemma_read_skip(p, 24);
        lemma_read_skip(p, 26);
        lemma_read_skip(p, 28);
        lemma_read_skip(p, 32);
        lemma_read_skip(p, 40);
        lemma_read_skip(p, 42);
        lemma_read_skip(p, 74);
    }
    let _ = take_bytes(r, 16);
    let width = take_u16(r);
    let height = take_u16(r);
    let horiz_resolution = take_u32(r);
    let vert_resolution = take_u32(r);
    let _ = take_u32(r);
    let frame_count = take_u16(r);
    let len_byte = take_u8(r);
    let l: usize = if len_byte < 31 {
        len_byte as usize
    } else {
        31
    };
    let name = take_bytes(r, l);
    assert(buf_bytes(name) =~= p.subrange(43, 43 + l));
    let compressor_name = match utf8_string(buf_slice(&name)) {
        Some(t) => t,
        None => return Err(DecodeError::Malformed),
    };
    let _ = take_bytes(r, 31 - l);
    let depth = take_u16(r);
    let _ = take_u16(r);
    Ok(
        SampleEntry::Visual {
            base: Box::new(base),
            width,
            height,
            horiz_resolution,
            vert_resolution,
            frame_count,
            compressor_name,
            depth,
        },
    )
}

impl SampleEntry {
    /// The format code, held by the innermost layer.
    pub fn get_handler_type(&self) -> (r: u32)
        ensures
            r == self@.handler_type(),
        decreases self,
    {
        match self {
            SampleEntry::Base { handler_type, .. } => *handler_type,
            SampleEntry::Visual { base, .. } => base.get_handler_type(),
            SampleEntry::Audio { base, .. } => base.get_handler_type(),
            SampleEntry::avc1 { base, .. } => base.get_handler_type(),
            SampleEntry::mp4a { base, .. } => base.get_handler_type(),
        }
    }

    /// The number of payload bytes that `as_bytes` produces.
    #[verifier::rlimit(100)]
    #[verifier::spinoff_prover]
    pub fn len(&self) -> (r: usize)
        requires
            self@.payload().len() <= max_buf(),
        ensures
            r == self@.payload().len(),
        decreases self,
    {
        match self {
            SampleEntry::Base { .. } => 8,
            SampleEntry::Visual { base, compressor_name, .. } => {
                let ghost e = encode_utf8(compressor_name@);
                assert(name_bytes(compressor_name@).len() == 32);
                base.len() + 70
            },
            SampleEntry::Audio { base, .. } => base.len() + 20,
            SampleEntry::avc1 { base, ext } => base.len() + buf_len(ext),
            SampleEntry::mp4a { base, ext } => base.len() + buf_len(ext),
        }
    }

    /// Appends the payload to `w`.
    #[verifier::rlimit(100)]
    #[verifier::spinoff_prover]
    pub fn write(&self, w: &mut BytesMut)
        requires
            buf_bytes(*old(w)).len() + self@.payload().len() <= max_buf(),
        ensures
            buf_bytes(*final(w)) == buf_bytes(*old(w)) + self@.payload(),
        decreases self,
    {
        let ghost w0 = buf_bytes(*w);
        match self {
            SampleEntry::Base { data_reference_index, .. } => {
                put_zeros(w, 6);
                put_u16(w, *data_reference_index);
            },
            SampleEntry::Visual {
                base,
                width,
                height,
                horiz_resolution,
                vert_resolution,
                frame_count,
                compressor_name,
                depth,
            } => {
                base.write(w);
                put_visual_fields(
                    w,
                    *width,
                    *height,
                    *horiz_resolution,
                    *vert_resolution,
                    *frame_count,
                    compressor_name,
                    *depth,
                );
            },
            SampleEntry::Audio { base, channel_count, sample_size, sample_rate } => {
                base.write(w);
                put_audio_fields(w, *channel_count, *sample_size, *sample_rate);
            },
            SampleEntry::avc1 { base, ext } => {
                base.write(w);
                put_buf(w, ext);
            },
            SampleEntry::mp4a { base, ext } => {
                base.write(w);
                put_buf(w, ext);
            },
        }
        assert(buf_bytes(*w) =~= w0 + self@.payload());
    }

    /// The payload bytes.
    pub fn as_bytes(&self) -> (r: BytesMut)
        requires
            self@.payload().len() <= max_buf(),
        ensures
            buf_bytes(r) == self@.payload(),
    {
        let mut w = buf_new();
        self.write(&mut w);
        assert(buf_bytes(w) =~= self@.payload());
        w
    }

    /// Takes one entry box off the front of `r`.
    #[verifier::rlimit(100)]
    #[verifier::spinoff_prover]
    pub fn parse(r: &mut BytesMut) -> (res: Result<SampleEntry, DecodeError>)
        ensures
            match res {
                Ok(v) => SampleEntryModel::parse(buf_bytes(*old(r))) matches Ok((m, n)) && m
                    == Some(v@) && buf_bytes(*final(r)) == buf_bytes(*old(r)).skip(n),
                Err(e) => SampleEntryModel::parse(buf_bytes(*old(r))) == Err::<
                    (Option<SampleEntryModel>, int),
                    _,
                >(e),
            },
    {
        let mut b = match Object::parse(r) {
            Ok(b) => b,
            Err(e) => return Err(e),
        };
        SampleEntry::decode(b.box_type, &mut b.payload)
    }

    /// Decodes the payload of an entry box of format `t`.
    #[verifier::rlimit(100)]
    #[verifier::spinoff_prover]
    pub fn decode(t: u32, payload: &mut BytesMut) -> (res: Result<SampleEntry, DecodeError>)
        ensures
            match res {
                Ok(v) => SampleEntryModel::decode(t, buf_bytes(*old(payload))) == Ok::<
                    _,
                    DecodeError,
                >(v@),
                Err(e) => SampleEntryModel::decode(t, buf_bytes(*old(payload))) == Err::<
                    SampleEntryModel,
                    _,
                >(e),
            },
    {
        let ghost p = buf_bytes(*payload);
        let n = buf_len(payload);
        if n < 8 {
            return Err(DecodeError::Truncated);
        }
        let _ = take_bytes(payload, 6);
        proof {
            lemma_read_skip(p, 6);
        }
        let data_reference_index = take_u16(payload);
        let base = SampleEntry::Base { handler_type: t, data_reference_index };
        if t == AVC1 {
            if n < 78 {
                return Err(DecodeError::Truncated);
            }
            let visual = match take_visual(payload, base, Ghost(p)) {
                Ok(v) => v,
                Err(e) => return Err(e),
            };
            let ext = take_bytes(payload, n - 78);
            assert(buf_bytes(ext) =~= p.skip(78));
            let v = SampleEntry::avc1 { base: Box::new(visual), ext };
            assert(v@ == SampleEntryModel::Avc1 { base: Box::new(visual@), ext: p.skip(78) });
            Ok(v)
        } else if t == MP4A {
            if n < 28 {
                return Err(DecodeError::Truncated);
            }
            proof {
                lemma_read_skip(p, 16);
                lemma_read_skip(p, 18);
                lemma_read_skip(p, 24);
            }
            let _ = take_bytes(payload, 8);
            let channel_count = take_u16(payload);
            let sample_size = take_u16(payload);
            let _ = take_u32(payload);
            let sample_rate = take_u32(payload);
            let audio = SampleEntry::Audio {
                base: Box::new(base),
                channel_count,
                sample_size,
                sample_rate,
            };
            let ext = take_bytes(payload, n - 28);
            assert(buf_bytes(ext) =~= p.skip(28));
            let v = SampleEntry::mp4a { base: Box::new(audio), ext };
            assert(v@ == SampleEntryModel::Mp4a { base: Box::new(audio@), ext: p.skip(28) });
            assert(audio@ == SampleEntryModel::Audio {
                base: Box::new(base@),
                channel_count: be16_at(p, 16),
                sample_size: be16_at(p, 18),
                sample_rate: be32_at(p, 24),
            });
            Ok(v)
        } else {
            Ok(base)
        }
    }
}

/// The bytes of a list of sample entries, one after the other.
pub open spec fn sample_entries_bytes(es: Seq<SampleEntryModel>) -> Seq<u8>
    decreases es.len(),
{
    if es.len() == 0 {
        Seq::empty()
    } else {
        sample_entries_bytes(es.drop_last()) + es.last().bytes()
    }
}

/// The entries before the `k`-th, and that entry, fit in the bytes of all.
#[verifier::rlimit(100)]
#[verifier::spinoff_prover]
pub proof fn lemma_sample_entries_bytes_prefix(es: Seq<SampleEntryModel>, k: int)
    requires
        0 <= k < es.len(),
    ensures
        sample_entries_bytes(es.take(k)).len() + es[k].bytes().len() <= sample_entries_bytes(es).len(),
        sample_entries_bytes(es.take(k + 1)) == sample_entries_bytes(es.take(k)) + es[k].bytes(),
    decreases es.len(),
{
    assert(es.take(k + 1).drop_last() =~= es.take(k));
    if k < es.len() - 1 {
        lemma_sample_entries_bytes_prefix(es.drop_last(), k);
        assert(es.drop_last().take(k) =~= es.take(k));
        assert(es.drop_last().take(k + 1) =~= es.take(k + 1));
        assert(es.drop_last()[k] == es[k]);
    } else {
        assert(es.take(k + 1) =~= es);
    }
}

/// What an `stsd` box holds.
pub struct StsdModel {
    pub base: FullBox,
    pub entries: Seq<SampleEntryModel>,
}

impl StsdModel {
    pub open spec fn bytes(self) -> Seq<u8> {
        self.base.spec_bytes() + be32(self.entries.len() as u32) + sample_entries_bytes(
            self.entries,
        )
    }

    pub open spec fn parse(s: Seq<u8>) -> Result<(StsdModel, int), DecodeError> {
        if s.len() < 8 {
            Err(DecodeError::Truncated)
        } else {
            match read_entries(s.skip(8), be32_at(s, 4) as nat, sample_entry_reader()) {
                Err(e) => Err(e),
                Ok((es, n)) => Ok(
                    (StsdModel { base: FullBox { version: s[0], flags: be24_at(s, 1) }, entries: es }, 8 + n),
                ),
            }
        }
    }
}

/// Sample descriptions.
#[allow(non_camel_case_types)]
#[derive(Debug, PartialEq, Eq)]
pub struct stsd {
    pub base: FullBox,
    pub entries: Vec<SampleEntry>,
}

impl View for stsd {
    type V = StsdModel;

    open spec fn view(&self) -> StsdModel {
        StsdModel { base: self.base, entries: self.entries@.map_values(|e: SampleEntry| e@) }
    }
}

impl Default for stsd {
    fn default() -> (r: Self)
        ensures
            r@ == (StsdModel { base: FullBox { version: 0, flags: 0 }, entries: Seq::empty() }),
    {
        let r = stsd { base: FullBox::new(0, 0), entries: Vec::new() };
        assert(r@.entries =~= Seq::<SampleEntryModel>::empty());
        r
    }
}

impl stsd {
    pub const BOX_TYPE: u32 = 0x73747364;

    #[verifier::rlimit(100)]
    #[verifier::spinoff_prover]
    pub fn len(&self) -> (r: usize)
        requires
            self@.bytes().len() <= max_buf(),
        ensures
            r == self@.bytes().len(),
    {
        let ghost es = self@.entries;
        let mut v: usize = 8;
        let mut i: usize = 0;
        assert(es.take(0) =~= Seq::<SampleEntryModel>::empty());
        while i < self.entries.len()
            invariant
                i <= es.len(),
                es == self@.entries,
                self@.bytes().len() <= max_buf(),
                self@.bytes().len() == 8 + sample_entries_bytes(es).len(),
                v == 8 + sample_entries_bytes(es.take(i as int)).len(),
            decreases es.len() - i,
        {
            proof {
                lemma_sample_entries_bytes_prefix(es, i as int);
                lemma_box_len(es[i as int].handler_type(), es[i as int].payload());
            }
            let n = self.entries[i].len();
            v = v + header_len(n) + n;
            i = i + 1;
        }
        assert(es.take(i as int) =~= es);
        v
    }

    #[verifier::rlimit(100)]
    #[verifier::spinoff_prover]
    pub fn parse(r: &mut BytesMut) -> (res: Result<stsd, DecodeError>)
        ensures
            match res {
                Ok(v) => StsdModel::parse(buf_bytes(*old(r))) matches Ok((m, n)) && m == v@
                    && buf_bytes(*final(r)) == buf_bytes(*old(r)).skip(n),
                Err(e) => StsdModel::parse(buf_bytes(*old(r))) == Err::<(StsdModel, int), _>(e),
            },
    {
        let ghost s = buf_bytes(*r);
        if buf_len(r) < 8 {
            return Err(DecodeError::Truncated);
        }
        let base = match FullBox::parse(r) {
            Ok(b) => b,
            Err(e) => return Err(e),
        };
        proof {
            lemma_read_skip(s, 4);
        }
        let count = take_u32(r);
        let ghost body = s.skip(8);
        let mut entries: Vec<SampleEntry> = Vec::new();
        let mut i: u32 = 0;
        let ghost mut used: int = 0;
        let ghost mut views: Seq<SampleEntryModel> = Seq::empty();
        proof {
            lemma_read_entries_unfold(body, 0, sample_entry_reader());
        }
        while i < count
            invariant
                s == buf_bytes(*old(r)),
                s.len() >= 8,
                count == be32_at(s, 4),
                body == s.skip(8),
                i <= count,
                0 <= used <= body.len(),
                buf_bytes(*r) == body.skip(used),
                views.len() == entries@.len(),
                forall|j: int| 0 <= j < views.len() ==> #[trigger] views[j] == entries@[j]@,
                read_entries(body, i as nat, sample_entry_reader()) == Ok::<_, DecodeError>(
                    (views, used),
                ),
            decreases count - i,
        {
            let ghost cur = buf_bytes(*r);
            proof {
                lemma_read_entries_unfold(body, (i + 1) as nat, sample_entry_reader());
            }
            let e = match SampleEntry::parse(r) {
                Ok(e) => e,
                Err(e) => {
                    proof {
                        lemma_read_entries_err(
                            body,
                            (i + 1) as nat,
                            count as nat,
                            sample_entry_reader(),
                        );
                    }
                    return Err(e);
                },
            };
            let ghost k = cur.len() - buf_bytes(*r).len();
            let ghost ev = e@;
            entries.push(e);
            proof {
                views = views.push(ev);
                assert(buf_bytes(*r) =~= body.skip(used + k));
                used = used + k;
            }
            i = i + 1;
        }
        let v = stsd { base, entries };
        assert(v@.entries =~= views);
        Ok(v)
    }

    #[verifier::rlimit(100)]
    #[verifier::spinoff_prover]
    pub fn write(&self, w: &mut BytesMut)
        requires
            buf_bytes(*old(w)).len() + self@.bytes().len() <= max_buf(),
        ensures
            buf_bytes(*final(w)) == buf_bytes(*old(w)) + self@.bytes(),
    {
        let ghost w0 = buf_bytes(*w);
        let ghost es = self@.entries;
        self.base.write(w);
        put_u32(w, #[verifier::truncate] (self.entries.len() as u32));
        let ghost p1 = self.base.spec_bytes() + be32(es.len() as u32);
        assert(buf_bytes(*w) =~= w0 + p1 + sample_entries_bytes(es.take(0)));
        let mut i: usize = 0;
        while i < self.entries.len()
            invariant
                i <= es.len(),
                es == self@.entries,
                w0.len() + self@.bytes().len() <= max_buf(),
                self@.bytes() == p1 + sample_entries_bytes(es),
                buf_bytes(*w) == w0 + p1 + sample_entries_bytes(es.take(i as int)),
            decreases es.len() - i,
        {
            proof {
                lemma_sample_entries_bytes_prefix(es, i as int);
            }
            let e = &self.entries[i];
            let payload = e.as_bytes();
            write_box(w, e.get_handler_type(), &payload);
            proof {
                assert(es.take(i + 1).drop_last() =~= es.take(i as int));
                assert(buf_bytes(*w) =~= w0 + p1 + sample_entries_bytes(es.take(i + 1)));
            }
            i = i + 1;
        }
        assert(es.take(i as int) =~= es);
    }

    pub fn as_bytes(&self) -> (r: BytesMut)
        requires
            self@.bytes().len() <= max_buf(),
        ensures
            buf_bytes(r) == self@.bytes(),
    {
        let mut w = buf_new();
        self.write(&mut w);
        assert(buf_bytes(w) =~= self@.bytes());
        w
    }
}

/// A sample entry that encoding keeps exactly: an `avc1` format wraps a
/// visual layer over the base, whose compressor name takes at most 31 bytes;
/// an `mp4a` format wraps an audio layer over the base; any other format is
/// the base alone; and the entry fits a buffer.
pub open spec fn entry_exact(e: SampleEntryModel) -> bool {
    &&& e.payload().len() + 16 <= max_buf()
    &&& match e {
        SampleEntryModel::Base { handler_type, .. } => handler_type != AVC1 && handler_type != MP4A,
        SampleEntryModel::Avc1 { base, .. } => match *base {
            SampleEntryModel::Visual { base: inner, compressor_name, .. } => encode_utf8(
                compressor_name,
            ).len() <= 31 && (*inner matches SampleEntryModel::Base { handler_type, .. }
                && handler_type == AVC1),
            _ => false,
        },
        SampleEntryModel::Mp4a { base, .. } => match *base {
            SampleEntryModel::Audio { base: inner, .. } => (*inner matches SampleEntryModel::Base {
                handler_type,
                ..
            } && handler_type == MP4A),
            _ => false,
        },
        _ => false,
    }
}

/// Decoding an encoded sample entry gives it back, whatever follows it.
#[verifier::rlimit(100)]
#[verifier::spinoff_prover]
pub proof fn lemma_sample_entry_round_trip(e: SampleEntryModel, rest: Seq<u8>)
    requires
        entry_exact(e),
    ensures
        SampleEntryModel::parse(e.bytes() + rest) == Ok::<_, DecodeError>(
            (Some(e), e.bytes().len() as int),
        ),
{
    reveal_with_fuel(SampleEntryModel::payload, 3);
    reveal_with_fuel(SampleEntryModel::handler_type, 3);
    let t = e.handler_type();
    let p = e.payload();
    crate::object::lemma_box_round_trip(t, p, rest);
    let ghost sp = parse_box(e.bytes() + rest);
    assert(sp == Ok::<_, DecodeError>((t, p, e.bytes().len() as int)));
    match e {
        SampleEntryModel::Base { handler_type, data_reference_index } => {
            assert(p == zeros(6) + be16(data_reference_index));
            assert(be16_at(p, 6) == be16_at(be16(data_reference_index), 0));
            assert(t == handler_type);
            assert(SampleEntryModel::decode(t, p) == Ok::<_, DecodeError>(e));
        },
        SampleEntryModel::Avc1 { base, ext } => {
            match *base {
                SampleEntryModel::Visual {
                    base: inner,
                    width,
                    height,
                    horiz_resolution,
                    vert_resolution,
                    frame_count,
                    compressor_name,
                    depth,
                } => {
                    let dri = match *inner {
                        SampleEntryModel::Base { data_reference_index, .. } => data_reference_index,
                        _ => 0,
                    };
                    let bp = zeros(6) + be16(dri);
                    let vf = visual_fields(
                        width,
                        height,
                        horiz_resolution,
                        vert_resolution,
                        frame_count,
                        compressor_name,
                        depth,
                    );
                    let en = encode_utf8(compressor_name);
                    assert(inner.payload() == bp);
                    assert(base.payload() == bp + vf);
                    assert(p == bp + vf + ext);
                    assert(t == AVC1);
                    assert(be16_at(p, 6) == be16_at(be16(dri), 0));
                    assert(be16_at(p, 24) == be16_at(be16(width), 0));
                    assert(be16_at(p, 26) == be16_at(be16(height), 0));
                    assert(be32_at(p, 28) == be32_at(be32(horiz_resolution), 0));
                    assert(be32_at(p, 32) == be32_at(be32(vert_resolution), 0));
                    assert(be16_at(p, 40) == be16_at(be16(frame_count), 0));
                    assert(be16_at(p, 74) == be16_at(be16(depth), 0));
                    assert(en.take(en.len() as int) =~= en);
                    assert(p[42] == en.len());
                    assert(p.subrange(43, 43 + en.len() as int) =~= en);
                    assert(p.skip(78) =~= ext);
                },
                _ => {},
            }
        },
        SampleEntryModel::Mp4a { base, ext } => {
            match *base {
                SampleEntryModel::Audio { base: inner, channel_count, sample_size, sample_rate } => {
                    let dri = match *inner {
                        SampleEntryModel::Base { data_reference_index, .. } => data_reference_index,
                        _ => 0,
                    };
                    let bp = zeros(6) + be16(dri);
                    let af = audio_fields(channel_count, sample_size, sample_rate);
                    assert(inner.payload() == bp);
                    assert(base.payload() == bp + af);
                    assert(p == bp + af + ext);
                    assert(t == MP4A);
                    assert(be16_at(p, 6) == be16_at(be16(dri), 0));
                    assert(be16_at(p, 16) == be16_at(be16(channel_count), 0));
                    assert(be16_at(p, 18) == be16_at(be16(sample_size), 0));
                    assert(be32_at(p, 24) == be32_at(be32(sample_rate), 0));
                    assert(p.skip(28) =~= ext);
                },
                _ => {},
            }
        },
        _ => {},
    }
}

/// Reading as many sample entries as were encoded gives them back.
#[verifier::rlimit(100)]
#[verifier::spinoff_prover]
proof fn lemma_read_sample_entries(es: Seq<SampleEntryModel>, rest: Seq<u8>)
    requires
        forall|i: int| 0 <= i < es.len() ==> entry_exact(#[trigger] es[i]),
    ensures
        read_entries(sample_entries_bytes(es) + rest, es.len(), sample_entry_reader()) == Ok::<
            _,
            DecodeError,
        >((es, sample_entries_bytes(es).len() as int)),
    decreases es.len(),
{
    lemma_read_entries_unfold(sample_entries_bytes(es) + rest, es.len(), sample_entry_reader());
    if es.len() > 0 {
        let init = es.drop_last();
        let last = es.last();
        let x = last.bytes() + rest;
        let whole = sample_entries_bytes(es) + rest;
        assert(whole =~= sample_entries_bytes(init) + x);
        assert forall|i: int| 0 <= i < init.len() implies entry_exact(#[trigger] init[i]) by {
            assert(init[i] == es[i]);
        }
        lemma_read_sample_entries(init, x);
        let n0 = sample_entries_bytes(init).len() as int;
        assert(whole.skip(n0) =~= x);
        lemma_sample_entry_round_trip(last, rest);
        assert(init.push(last) =~= es);
    } else {
        assert(es =~= Seq::<SampleEntryModel>::empty());
    }
}

/// Decoding an encoded `stsd` gives back the same entries.
#[verifier::rlimit(100)]
#[verifier::spinoff_prover]
pub proof fn lemma_stsd_round_trip(m: StsdModel)
    requires
        m.base.flags < 0x1000000,
        m.entries.len() <= u32::MAX,
        forall|i: int| 0 <= i < m.entries.len() ==> entry_exact(#[trigger] m.entries[i]),
    ensures
        StsdModel::parse(m.bytes()) == Ok::<_, DecodeError>((m, m.bytes().len() as int)),
{
    let s = m.bytes();
    let t = sample_entries_bytes(m.entries);
    assert(be24_at(s, 1) == be24_at(crate::buf::be24(m.base.flags), 0));
    assert(be32_at(s, 4) == be32_at(be32(m.entries.len() as u32), 0));
    assert(s.skip(8) =~= t + Seq::<u8>::empty());
    lemma_read_sample_entries(m.entries, Seq::empty());
}

} // verus!
