//! The media information headers (video, sound, hint, null) and the data
//! reference box with its entries.
use crate::buf::{
    be16, be16_at, be24_at, be32, be32_at, buf_bytes, buf_len, buf_new, group_be,
    lemma_read_skip, max_buf, put_i16, put_text, put_u16, put_u32, signed16, take_i16, take_text,
    take_u16, take_u32, unsigned16,
};
use crate::object::{
    box_bytes, header_len, lemma_box_len, lemma_read_entries_err, lemma_read_entries_unfold, parse_box, read_entries,
    write_box, DecodeError, FullBox, Object,
};
use bytes::BytesMut;
use vstd::prelude::*;
use vstd::utf8::{decode_utf8, encode_utf8, valid_utf8};

verus! {

broadcast use {group_be, vstd::utf8::group_utf8_lib};

/// What a `vmhd` box holds.
pub struct VmhdModel {
    pub base: FullBox,
    pub graphicsmode: u16,
    pub opcolor: Seq<u16>,
}

impl VmhdModel {
    pub open spec fn bytes(self) -> Seq<u8> {
        self.base.spec_bytes() + be16(self.graphicsmode) + be16(self.opcolor[0]) + be16(
            self.opcolor[1],
        ) + be16(self.opcolor[2])
    }

    pub open spec fn parse(s: Seq<u8>) -> Result<(VmhdModel, int), DecodeError> {
        if s.len() < 12 {
            Err(DecodeError::Truncated)
        } else {
            Ok(
                (
                    VmhdModel {
                        base: FullBox { version: s[0], flags: be24_at(s, 1) },
                        graphicsmode: be16_at(s, 4),
                        opcolor: seq![be16_at(s, 6), be16_at(s, 8), be16_at(s, 10)],
                    },
                    12,
                ),
            )
        }
    }
}

/// Video media header.
#[allow(non_camel_case_types)]
#[derive(Debug, Clone, Copy, PartialEq, Eq)]
pub struct vmhd {
    pub base: FullBox,
    pub graphicsmode: u16,
    pub opcolor: [u16; 3],
}

impl View for vmhd {
    type V = VmhdModel;

    open spec fn view(&self) -> VmhdModel {
        VmhdModel { base: self.base, graphicsmode: self.graphicsmode, opcolor: self.opcolor@ }
    }
}

impl Default for vmhd {
    fn default() -> (r: Self)
        ensures
            r.base == (FullBox { version: 0, flags: 1 }),
            r.graphicsmode == 0,
            r@.opcolor == seq![0u16, 0u16, 0u16],
    {
        let r = vmhd { base: FullBox::new(0, 1), graphicsmode: 0, opcolor: [0u16; 3] };
        assert(r@.opcolor =~= seq![0u16, 0u16, 0u16]);
        r
    }
}

impl vmhd {
    pub const BOX_TYPE: u32 = 0x766d6864;

    #[verifier::rlimit(100)]
    #[verifier::spinoff_prover]
    pub fn len(&self) -> (r: usize)
        ensures
            r == self@.bytes().len(),
    {
        12
    }

    #[verifier::rlimit(100)]
    #[verifier::spinoff_prover]
    pub fn parse(r: &mut BytesMut) -> (res: Result<vmhd, DecodeError>)
        ensures
            match res {
                Ok(v) => VmhdModel::parse(buf_bytes(*old(r))) matches Ok((m, n)) && m == v@
                    && buf_bytes(*final(r)) == buf_bytes(*old(r)).skip(n),
                Err(e) => VmhdModel::parse(buf_bytes(*old(r))) == Err::<(VmhdModel, int), _>(e),
            },
    {
        let ghost s = buf_bytes(*r);
        if buf_len(r) < 12 {
            return Err(DecodeError::Truncated);
        }
        let base = match FullBox::parse(r) {
            Ok(b) => b,
            Err(e) => return Err(e),
        };
        proof {
            lemma_read_skip(s, 4);
            lemma_read_skip(s, 6);
            lemma_read_skip(s, 8);
            lemma_read_skip(s, 10);
        }
        let graphicsmode = take_u16(r);
        let mut opcolor = [0u16; 3];
        opcolor[0] = take_u16(r);
        opcolor[1] = take_u16(r);
        opcolor[2] = take_u16(r);
        let v = vmhd { base, graphicsmode, opcolor };
        assert(v@.opcolor =~= VmhdModel::parse(s)->Ok_0.0.opcolor);
        Ok(v)
    }

    #[verifier::rlimit(100)]
    #[verifier::spinoff_prover]
    pub fn write(&self, w: &mut BytesMut)
        requires
            buf_bytes(*old(w)).len() + 12 <= max_buf(),
        ensures
            buf_bytes(*final(w)) == buf_bytes(*old(w)) + self@.bytes(),
    {
        let ghost w0 = buf_bytes(*w);
        self.base.write(w);
        put_u16(w, self.graphicsmode);
        put_u16(w, self.opcolor[0]);
        put_u16(w, self.opcolor[1]);
        put_u16(w, self.opcolor[2]);
        assert(buf_bytes(*w) =~= w0 + self@.bytes());
    }

    pub fn as_bytes(&self) -> (r: BytesMut)
        ensures
            buf_bytes(r) == self@.bytes(),
    {
        let mut w = buf_new();
        self.write(&mut w);
        assert(buf_bytes(w) =~= self@.bytes());
        w
    }
}

/// Sound media header: the stereo balance.
#[allow(non_camel_case_types)]
#[derive(Debug, Clone, Copy, PartialEq, Eq)]
pub struct smhd {
    pub base: FullBox,
    pub balance: i16,
}

impl smhd {
    pub const BOX_TYPE: u32 = 0x736d6864;

    pub open spec fn spec_bytes(self) -> Seq<u8> {
        self.base.spec_bytes() + be16(unsigned16(self.balance as int)) + be16(0)
    }

    pub open spec fn spec_parse(s: Seq<u8>) -> Result<(smhd, int), DecodeError> {
        if s.len() < 8 {
            Err(DecodeError::Truncated)
        } else {
            Ok(
                (
                    smhd {
                        base: FullBox { version: s[0], flags: be24_at(s, 1) },
                        balance: signed16(be16_at(s, 4)) as i16,
                    },
                    8,
                ),
            )
        }
    }

    #[verifier::rlimit(100)]
    #[verifier::spinoff_prover]
    pub fn len(&self) -> (r: usize)
        ensures
            r == self.spec_bytes().len(),
    {
        8
    }

    #[verifier::rlimit(100)]
    #[verifier::spinoff_prover]
    pub fn parse(r: &mut BytesMut) -> (res: Result<smhd, DecodeError>)
        ensures
            match res {
                Ok(v) => smhd::spec_parse(buf_bytes(*old(r))) matches Ok((m, n)) && m == v
                    && buf_bytes(*final(r)) == buf_bytes(*old(r)).skip(n),
                Err(e) => smhd::spec_parse(buf_bytes(*old(r))) == Err::<(smhd, int), _>(e),
            },
    {
        let ghost s = buf_bytes(*r);
        if buf_len(r) < 8 {
            return Err(DecodeError::Truncated);
        }
        let base = match FullBox::parse(r) {
            Ok(b) => b,
            Err(e) => return Err(e),
        };
        proof {
            lemma_read_skip(s, 4);
        }
        let balance = take_i16(r);
        let _ = take_u16(r);
        Ok(smhd { base, balance })
    }

    #[verifier::rlimit(100)]
    #[verifier::spinoff_prover]
    pub fn write(&self, w: &mut BytesMut)
        requires
            buf_bytes(*old(w)).len() + 8 <= max_buf(),
        ensures
            buf_bytes(*final(w)) == buf_bytes(*old(w)) + self.spec_bytes(),
    {
        let ghost w0 = buf_bytes(*w);
        self.base.write(w);
        put_i16(w, self.balance);
        put_u16(w, 0);
        assert(buf_bytes(*w) =~= w0 + self.spec_bytes());
    }

    pub fn as_bytes(&self) -> (r: BytesMut)
        ensures
            buf_bytes(r) == self.spec_bytes(),
    {
        let mut w = buf_new();
        self.write(&mut w);
        assert(buf_bytes(w) =~= self.spec_bytes());
        w
    }
}

impl Default for smhd {
    fn default() -> (r: Self)
        ensures
            r == (smhd { base: FullBox { version: 0, flags: 0 }, balance: 0 }),
    {
        smhd { base: FullBox::new(0, 0), balance: 0 }
    }
}

/// Hint media header: PDU sizes and bit rates, each kept in 16 bits.
#[allow(non_camel_case_types)]
#[derive(Debug, Clone, Copy, PartialEq, Eq)]
pub struct hmhd {
    pub base: FullBox,
    pub max_pdu_size: u16,
    pub avg_pdu_size: u16,
    pub max_bitrate: u16,
    pub avg_bitrate: u16,
}

impl hmhd {
    pub const BOX_TYPE: u32 = 0x686d6864;

    pub open spec fn spec_bytes(self) -> Seq<u8> {
        self.base.spec_bytes() + be16(self.max_pdu_size) + be16(self.avg_pdu_size) + be16(
            self.max_bitrate,
        ) + be16(self.avg_bitrate) + be32(0)
    }

    pub open spec fn spec_parse(s: Seq<u8>) -> Result<(hmhd, int), DecodeError> {
        if s.len() < 16 {
            Err(DecodeError::Truncated)
        } else {
            Ok(
                (
                    hmhd {
                        base: FullBox { version: s[0], flags: be24_at(s, 1) },
                        max_pdu_size: be16_at(s, 4),
                        avg_pdu_size: be16_at(s, 6),
                        max_bitrate: be16_at(s, 8),
                        avg_bitrate: be16_at(s, 10),
                    },
                    16,
                ),
            )
        }
    }

    #[verifier::rlimit(100)]
    #[verifier::spinoff_prover]
    pub fn len(&self) -> (r: usize)
        ensures
            r == self.spec_bytes().len(),
    {
        16
    }

    #[verifier::rlimit(100)]
    #[verifier::spinoff_prover]
    pub fn parse(r: &mut BytesMut) -> (res: Result<hmhd, DecodeError>)
        ensures
            match res {
                Ok(v) => hmhd::spec_parse(buf_bytes(*old(r))) matches Ok((m, n)) && m == v
                    && buf_bytes(*final(r)) == buf_bytes(*old(r)).skip(n),
                Err(e) => hmhd::spec_parse(buf_bytes(*old(r))) == Err::<(hmhd, int), _>(e),
            },
    {
        let ghost s = buf_bytes(*r);
        if buf_len(r) < 16 {
            return Err(DecodeError::Truncated);
        }
        let base = match FullBox::parse(r) {
            Ok(b) => b,
            Err(e) => return Err(e),
        };
        proof {
            lemma_read_skip(s, 4);
            lemma_read_skip(s, 6);
            lemma_read_skip(s, 8);
            lemma_read_skip(s, 10);
        }
        let max_pdu_size = take_u16(r);
        let avg_pdu_size = take_u16(r);
        let max_bitrate = take_u16(r);
        let avg_bitrate = take_u16(r);
        let _ = take_u32(r);
        Ok(hmhd { base, max_pdu_size, avg_pdu_size, max_bitrate, avg_bitrate })
    }

    #[verifier::rlimit(100)]
    #[verifier::spinoff_prover]
    pub fn write(&self, w: &mut BytesMut)
        requires
            buf_bytes(*old(w)).len() + 16 <= max_buf(),
        ensures
            buf_bytes(*final(w)) == buf_bytes(*old(w)) + self.spec_bytes(),
    {
        let ghost w0 = buf_bytes(*w);
        self.base.write(w);
        put_u16(w, self.max_pdu_size);
        put_u16(w, self.avg_pdu_size);
        put_u16(w, self.max_bitrate);
        put_u16(w, self.avg_bitrate);
        put_u32(w, 0);
        assert(buf_bytes(*w) =~= w0 + self.spec_bytes());
    }

    pub fn as_bytes(&self) -> (r: BytesMut)
        ensures
            buf_bytes(r) == self.spec_bytes(),
    {
        let mut w = buf_new();
        self.write(&mut w);
        assert(buf_bytes(w) =~= self.spec_bytes());
        w
    }
}

impl Default for hmhd {
    fn default() -> (r: Self)
        ensures
            r == (hmhd {
                base: FullBox { version: 0, flags: 0 },
                max_pdu_size: 0,
                avg_pdu_size: 0,
                max_bitrate: 0,
                avg_bitrate: 0,
            }),
    {
        hmhd {
            base: FullBox::new(0, 0),
            max_pdu_size: 0,
            avg_pdu_size: 0,
            max_bitrate: 0,
            avg_bitrate: 0,
        }
    }
}

/// Null media header: a full-box header and nothing else.
#[allow(non_camel_case_types)]
#[derive(Debug, Clone, Copy, PartialEq, Eq)]
pub struct nmhd {
    pub base: FullBox,
}

impl nmhd {
    pub const BOX_TYPE: u32 = 0x6e6d6864;

    pub open spec fn spec_bytes(self) -> Seq<u8> {
        self.base.spec_bytes()
    }

    pub open spec fn spec_parse(s: Seq<u8>) -> Result<(nmhd, int), DecodeError> {
        match FullBox::spec_parse(s) {
            Ok((b, n)) => Ok((nmhd { base: b }, n)),
            Err(e) => Err(e),
        }
    }

    #[verifier::rlimit(100)]
    #[verifier::spinoff_prover]
    pub fn len(&self) -> (r: usize)
        ensures
            r == self.spec_bytes().len(),
    {
        4
    }

    #[verifier::rlimit(100)]
    #[verifier::spinoff_prover]
    pub fn parse(r: &mut BytesMut) -> (res: Result<nmhd, DecodeError>)
        ensures
            match res {
                Ok(v) => nmhd::spec_parse(buf_bytes(*old(r))) matches Ok((m, n)) && m == v
                    && buf_bytes(*final(r)) == buf_bytes(*old(r)).skip(n),
                Err(e) => nmhd::spec_parse(buf_bytes(*old(r))) == Err::<(nmhd, int), _>(e),
            },
    {
        match FullBox::parse(r) {
            Ok(base) => Ok(nmhd { base }),
            Err(e) => Err(e),
        }
    }

    pub fn as_bytes(&self) -> (r: BytesMut)
        ensures
            buf_bytes(r) == self.spec_bytes(),
    {
        self.base.as_bytes()
    }
}

impl Default for nmhd {
    fn default() -> (r: Self)
        ensures
            r == (nmhd { base: FullBox { version: 0, flags: 0 } }),
    {
        nmhd { base: FullBox::new(0, 0) }
    }
}

/// The type of a URL data entry (`url ` with a trailing space).
pub const URL_BOX_TYPE: u32 = 0x75726c20;

/// What a data entry holds.
pub enum DataEntryModel {
    Url { base: FullBox, location: Seq<char> },
}

impl DataEntryModel {
    pub open spec fn bytes(self) -> Seq<u8> {
        match self {
            DataEntryModel::Url { base, location } => box_bytes(
                URL_BOX_TYPE,
                base.spec_bytes() + encode_utf8(location),
            ),
        }
    }

    /// Reads one entry box from the front of `s`; an entry of another type
    /// is passed over.
    pub open spec fn parse(s: Seq<u8>) -> Result<(Option<DataEntryModel>, int), DecodeError> {
        match parse_box(s) {
            Err(e) => Err(e),
            Ok((t, p, n)) => {
                if t != URL_BOX_TYPE {
                    Ok((None, n))
                } else if p.len() < 4 {
                    Err(DecodeError::Truncated)
                } else if !valid_utf8(p.skip(4)) {
                    Err(DecodeError::Malformed)
                } else {
                    Ok(
                        (
                            Some(
                                DataEntryModel::Url {
                                    base: FullBox { version: p[0], flags: be24_at(p, 1) },
                                    location: decode_utf8(p.skip(4)),
                                },
                            ),
                            n,
                        ),
                    )
                }
            },
        }
    }
}

pub open spec fn data_entry_reader() -> spec_fn(Seq<u8>) -> Result<
    (Option<DataEntryModel>, int),
    DecodeError,
> {
    |s: Seq<u8>| DataEntryModel::parse(s)
}

/// An entry of a data reference box.
#[derive(Debug, Clone, PartialEq, Eq)]
pub enum DataEntry {
    #[allow(non_camel_case_types)]
    url_ { base: FullBox, location: String },
}

impl View for DataEntry {
    type V = DataEntryModel;

    open spec fn view(&self) -> DataEntryModel {
        match self {
            DataEntry::url_ { base, location } => DataEntryModel::Url {
                base: *base,
                location: location@,
            },
        }
    }
}

impl DataEntry {
    /// The number of bytes `write` appends.
    #[verifier::spinoff_prover]
    pub fn len(&self) -> (r: usize)
        requires
            self@.bytes().len() <= max_buf(),
        ensures
            r == self@.bytes().len(),
    {
        match self {
            DataEntry::url_ { base, location } => {
                let n = 4 + location.as_str().as_bytes().len();
                proof {
                    lemma_box_len(URL_BOX_TYPE, base.spec_bytes() + encode_utf8(location@));
                }
                header_len(n) + n
            },
        }
    }

    /// Takes one entry box off the front of `r`; one of another type is
    /// consumed and gives `None`.
    #[verifier::rlimit(100)]
    #[verifier::spinoff_prover]
    pub fn parse(r: &mut BytesMut) -> (res: Result<Option<DataEntry>, DecodeError>)
        ensures
            match res {
                Ok(o) => DataEntryModel::parse(buf_bytes(*old(r))) matches Ok((m, n)) && m == (
                match o {
                    Some(e) => Some(e@),
                    None => None,
                }) && buf_bytes(*final(r)) == buf_bytes(*old(r)).skip(n),
                Err(e) => DataEntryModel::parse(buf_bytes(*old(r))) == Err::<
                    (Option<DataEntryModel>, int),
                    _,
                >(e),
            },
    {
        let mut b = match Object::parse(r) {
            Ok(b) => b,
            Err(e) => return Err(e),
        };
        if b.box_type != URL_BOX_TYPE {
            return Ok(None);
        }
        let ghost p = buf_bytes(b.payload);
        let base = match FullBox::parse(&mut b.payload) {
            Ok(h) => h,
            Err(e) => return Err(e),
        };
        match take_text(&mut b.payload) {
            Some(location) => Ok(Some(DataEntry::url_ { base, location })),
            None => Err(DecodeError::Malformed),
        }
    }

    #[verifier::rlimit(100)]
    #[verifier::spinoff_prover]
    pub fn write(&self, w: &mut BytesMut)
        requires
            buf_bytes(*old(w)).len() + self@.bytes().len() <= max_buf(),
        ensures
            buf_bytes(*final(w)) == buf_bytes(*old(w)) + self@.bytes(),
    {
        match self {
            DataEntry::url_ { base, location } => {
                let mut p = buf_new();
                base.write(&mut p);
                put_text(&mut p, location);
                write_box(w, URL_BOX_TYPE, &p);
            },
        }
    }

    /// The entry's bytes, as a box.
    pub fn as_bytes(&self) -> (r: BytesMut)
        requires
            self@.bytes().len() <= max_buf(),
        ensures
            buf_bytes(r) == self@.bytes(),
    {
        let mut w = buf_new();
        self.write(&mut w);
        assert(buf_bytes(w) =~= self@.bytes());
        w
    }
}

/// The bytes of a list of data entries, one after the other.
pub open spec fn entries_bytes(es: Seq<DataEntryModel>) -> Seq<u8>
    decreases es.len(),
{
    if es.len() == 0 {
        Seq::empty()
    } else {
        entries_bytes(es.drop_last()) + es.last().bytes()
    }
}

/// What a `dref` box holds.
pub struct DrefModel {
    pub base: FullBox,
    pub entries: Seq<DataEntryModel>,
}

impl DrefModel {
    pub open spec fn bytes(self) -> Seq<u8> {
        self.base.spec_bytes() + be32(self.entries.len() as u32) + entries_bytes(self.entries)
    }

    pub open spec fn parse(s: Seq<u8>) -> Result<(DrefModel, int), DecodeError> {
        if s.len() < 8 {
            Err(DecodeError::Truncated)
        } else {
            match read_entries(s.skip(8), be32_at(s, 4) as nat, data_entry_reader()) {
                Err(e) => Err(e),
                Ok((es, n)) => Ok(
                    (DrefModel { base: FullBox { version: s[0], flags: be24_at(s, 1) }, entries: es }, 8 + n),
                ),
            }
        }
    }
}

/// Data reference: where the media data lives.
#[allow(non_camel_case_types)]
#[derive(Debug, Clone, PartialEq, Eq)]
pub struct dref {
    pub base: FullBox,
    pub entries: Vec<DataEntry>,
}

impl View for dref {
    type V = DrefModel;

    open spec fn view(&self) -> DrefModel {
        DrefModel { base: self.base, entries: self.entries@.map_values(|e: DataEntry| e@) }
    }
}

impl Default for dref {
    fn default() -> (r: Self)
        ensures
            r@ == (DrefModel { base: FullBox { version: 0, flags: 0 }, entries: Seq::empty() }),
    {
        let r = dref { base: FullBox::new(0, 0), entries: Vec::new() };
        assert(r@.entries =~= Seq::<DataEntryModel>::empty());
        r
    }
}

impl dref {
    pub const BOX_TYPE: u32 = 0x64726566;

    #[verifier::rlimit(100)]
    #[verifier::spinoff_prover]
    pub fn len(&self) -> (r: usize)
        requires
            self@.bytes().len() <= max_buf(),
        ensures
            r == self@.bytes().len(),
    {
        let ghost es = self@.entries;
        let mut v: usize = 8;
        let mut i: usize = 0;
        assert(es.take(0) =~= Seq::<DataEntryModel>::empty());
        while i < self.entries.len()
            invariant
                i <= es.len(),
                es == self@.entries,
                self@.bytes().len() <= max_buf(),
                self@.bytes().len() == 8 + entries_bytes(es).len(),
                v == 8 + entries_bytes(es.take(i as int)).len(),
            decreases es.len() - i,
        {
            proof {
                lemma_entries_bytes_prefix(es, i as int);
            }
            v = v + self.entries[i].len();
            i = i + 1;
        }
        assert(es.take(i as int) =~= es);
        v
    }

    #[verifier::rlimit(100)]
    #[verifier::spinoff_prover]
    pub fn parse(r: &mut BytesMut) -> (res: Result<dref, DecodeError>)
        ensures
            match res {
                Ok(v) => DrefModel::parse(buf_bytes(*old(r))) matches Ok((m, n)) && m == v@
                    && buf_bytes(*final(r)) == buf_bytes(*old(r)).skip(n),
                Err(e) => DrefModel::parse(buf_bytes(*old(r))) == Err::<(DrefModel, int), _>(e),
            },
    {
        let ghost s = buf_bytes(*r);
        if buf_len(r) < 8 {
            return Err(DecodeError::Truncated);
        }
        let base = match FullBox::parse(r) {
            Ok(b) => b,
            Err(e) => return Err(e),
        };
        proof {
            lemma_read_skip(s, 4);
        }
        let count = take_u32(r);
        let ghost body = s.skip(8);
        let mut entries: Vec<DataEntry> = Vec::new();
        let mut i: u32 = 0;
        let ghost mut used: int = 0;
        let ghost mut views: Seq<DataEntryModel> = Seq::empty();
        proof {
            lemma_read_entries_unfold(body, 0, data_entry_reader());
        }
        while i < count
            invariant
                s == buf_bytes(*old(r)),
                s.len() >= 8,
                count == be32_at(s, 4),
                body == s.skip(8),
                i <= count,
                0 <= used <= body.len(),
                buf_bytes(*r) == body.skip(used),
                views.len() == entries@.len(),
                forall|j: int| 0 <= j < views.len() ==> #[trigger] views[j] == entries@[j]@,
                read_entries(body, i as nat, data_entry_reader()) == Ok::<_, DecodeError>(
                    (views, used),
                ),
            decreases count - i,
        {
            let ghost cur = buf_bytes(*r);
            proof {
                lemma_read_entries_unfold(body, (i + 1) as nat, data_entry_reader());
            }
            let o = match DataEntry::parse(r) {
                Ok(o) => o,
                Err(e) => {
                    proof {
                        lemma_read_entries_err(body, (i + 1) as nat, count as nat, data_entry_reader());
                    }
                    return Err(e);
                },
            };
            let ghost k = cur.len() - buf_bytes(*r).len();
            if let Some(e) = o {
                entries.push(e);
                proof {
                    views = views.push(e@);
                }
            }
            proof {
                assert(buf_bytes(*r) =~= body.skip(used + k));
                used = used + k;
            }
            i = i + 1;
        }
        let v = dref { base, entries };
        assert(v@.entries =~= views);
        Ok(v)
    }


    #[verifier::rlimit(100)]
    #[verifier::spinoff_prover]
    pub fn write(&self, w: &mut BytesMut)
        requires
            buf_bytes(*old(w)).len() + self@.bytes().len() <= max_buf(),
        ensures
            buf_bytes(*final(w)) == buf_bytes(*old(w)) + self@.bytes(),
    {
        let ghost w0 = buf_bytes(*w);
        let ghost es = self@.entries;
        self.base.write(w);
        put_u32(w, #[verifier::truncate] (self.entries.len() as u32));
        let ghost p1 = self.base.spec_bytes() + be32(es.len() as u32);
        assert(buf_bytes(*w) =~= w0 + p1 + entries_bytes(es.take(0)));
        let mut i: usize = 0;
        while i < self.entries.len()
            invariant
                i <= es.len(),
                es == self@.entries,
                w0.len() + self@.bytes().len() <= max_buf(),
                self@.bytes() == p1 + entries_bytes(es),
                buf_bytes(*w) == w0 + p1 + entries_bytes(es.take(i as int)),
            decreases es.len() - i,
        {
            proof {
                lemma_entries_bytes_prefix(es, i as int);
            }
            self.entries[i].write(w);
            proof {
                assert(es.take(i + 1).drop_last() =~= es.take(i as int));
                assert(buf_bytes(*w) =~= w0 + p1 + entries_bytes(es.take(i + 1)));
            }
            i = i + 1;
        }
        assert(es.take(i as int) =~= es);
    }

    pub fn as_bytes(&self) -> (r: BytesMut)
        requires
            self@.bytes().len() <= max_buf(),
        ensures
            buf_bytes(r) == self@.bytes(),
    {
        let mut w = buf_new();
        self.write(&mut w);
        assert(buf_bytes(w) =~= self@.bytes());
        w
    }
}

/// The entries before the `k`-th, and that entry, fit in the bytes of all.
#[verifier::rlimit(100)]
#[verifier::spinoff_prover]
pub proof fn lemma_entries_bytes_prefix(es: Seq<DataEntryModel>, k: int)
    requires
        0 <= k < es.len(),
    ensures
        entries_bytes(es.take(k)).len() + es[k].bytes().len() <= entries_bytes(es).len(),
        entries_bytes(es.take(k + 1)) == entries_bytes(es.take(k)) + es[k].bytes(),
    decreases es.len(),
{
    assert(es.take(k + 1).drop_last() =~= es.take(k));
    if k < es.len() - 1 {
        lemma_entries_bytes_prefix(es.drop_last(), k);
        assert(es.drop_last().take(k) =~= es.take(k));
        assert(es.drop_last().take(k + 1) =~= es.take(k + 1));
        assert(es.drop_last()[k] == es[k]);
    } else {
        assert(es.take(k + 1) =~= es);
    }
}

/// Decoding an encoded `vmhd` gives it back, given 24-bit flags and three
/// colour components.
#[verifier::rlimit(100)]
#[verifier::spinoff_prover]
pub proof fn lemma_vmhd_round_trip(m: VmhdModel)
    requires
        m.base.flags < 0x1000000,
        m.opcolor.len() == 3,
    ensures
        VmhdModel::parse(m.bytes()) == Ok::<_, DecodeError>((m, m.bytes().len() as int)),
{
    let s = m.bytes();
    assert(be24_at(s, 1) == be24_at(crate::buf::be24(m.base.flags), 0));
    assert(be16_at(s, 4) == be16_at(be16(m.graphicsmode), 0));
    assert(be16_at(s, 6) == be16_at(be16(m.opcolor[0]), 0));
    assert(be16_at(s, 8) == be16_at(be16(m.opcolor[1]), 0));
    assert(be16_at(s, 10) == be16_at(be16(m.opcolor[2]), 0));
    assert(VmhdModel::parse(s)->Ok_0.0.opcolor =~= m.opcolor);
}

/// Decoding an encoded `smhd` gives it back, given 24-bit flags.
#[verifier::rlimit(100)]
#[verifier::spinoff_prover]
pub proof fn lemma_smhd_round_trip(m: smhd)
    requires
        m.base.flags < 0x1000000,
    ensures
        smhd::spec_parse(m.spec_bytes()) == Ok::<_, DecodeError>((m, m.spec_bytes().len() as int)),
{
    let s = m.spec_bytes();
    let u = unsigned16(m.balance as int);
    assert(be24_at(s, 1) == be24_at(crate::buf::be24(m.base.flags), 0));
    assert(be16_at(s, 4) == be16_at(be16(u), 0));
    assert(signed16(u) == m.balance as int);
}

/// Decoding an encoded `hmhd` gives it back, given 24-bit flags.
#[verifier::rlimit(100)]
#[verifier::spinoff_prover]
pub proof fn lemma_hmhd_round_trip(m: hmhd)
    requires
        m.base.flags < 0x1000000,
    ensures
        hmhd::spec_parse(m.spec_bytes()) == Ok::<_, DecodeError>((m, m.spec_bytes().len() as int)),
{
    let s = m.spec_bytes();
    assert(be24_at(s, 1) == be24_at(crate::buf::be24(m.base.flags), 0));
    assert(be16_at(s, 4) == be16_at(be16(m.max_pdu_size), 0));
    assert(be16_at(s, 6) == be16_at(be16(m.avg_pdu_size), 0));
    assert(be16_at(s, 8) == be16_at(be16(m.max_bitrate), 0));
    assert(be16_at(s, 10) == be16_at(be16(m.avg_bitrate), 0));
}

/// Decoding an encoded `nmhd` gives it back, given 24-bit flags.
#[verifier::rlimit(100)]
#[verifier::spinoff_prover]
pub proof fn lemma_nmhd_round_trip(m: nmhd)
    requires
        m.base.flags < 0x1000000,
    ensures
        nmhd::spec_parse(m.spec_bytes()) == Ok::<_, DecodeError>((m, m.spec_bytes().len() as int)),
{
    crate::object::lemma_full_box_round_trip(m.base, Seq::empty());
    assert(m.base.spec_bytes() + Seq::<u8>::empty() =~= m.base.spec_bytes());
}

/// A data entry that encoding keeps exactly: 24-bit flags, and a size
/// that fits a buffer.
pub open spec fn entry_exact(e: DataEntryModel) -> bool {
    match e {
        DataEntryModel::Url { base, location } => base.flags < 0x1000000 && 4 + encode_utf8(
            location,
        ).len() + 16 <= max_buf(),
    }
}

/// Decoding an encoded data entry gives it back, whatever follows it.
#[verifier::rlimit(100)]
#[verifier::spinoff_prover]
pub proof fn lemma_data_entry_round_trip(e: DataEntryModel, rest: Seq<u8>)
    requires
        entry_exact(e),
    ensures
        DataEntryModel::parse(e.bytes() + rest) == Ok::<_, DecodeError>(
            (Some(e), e.bytes().len() as int),
        ),
{
    match e {
        DataEntryModel::Url { base, location } => {
            let p = base.spec_bytes() + encode_utf8(location);
            crate::object::lemma_box_round_trip(URL_BOX_TYPE, p, rest);
            assert(p.skip(4) =~= encode_utf8(location));
            assert(be24_at(p, 1) == be24_at(crate::buf::be24(base.flags), 0));
        },
    }
}

/// Reading as many entries as were encoded gives them back.
#[verifier::rlimit(100)]
#[verifier::spinoff_prover]
proof fn lemma_read_data_entries(es: Seq<DataEntryModel>, rest: Seq<u8>)
    requires
        forall|i: int| 0 <= i < es.len() ==> entry_exact(#[trigger] es[i]),
    ensures
        read_entries(entries_bytes(es) + rest, es.len(), data_entry_reader()) == Ok::<
            _,
            DecodeError,
        >((es, entries_bytes(es).len() as int)),
    decreases es.len(),
{
    lemma_read_entries_unfold(entries_bytes(es) + rest, es.len(), data_entry_reader());
    if es.len() > 0 {
        let init = es.drop_last();
        let last = es.last();
        let x = last.bytes() + rest;
        assert(entries_bytes(es) + rest =~= entries_bytes(init) + x);
        assert forall|i: int| 0 <= i < init.len() implies entry_exact(#[trigger] init[i]) by {
            assert(init[i] == es[i]);
        }
        let whole = entries_bytes(es) + rest;
        lemma_read_data_entries(init, x);
        let n0 = entries_bytes(init).len() as int;
        assert(read_entries(whole, (es.len() - 1) as nat, data_entry_reader()) == Ok::<
            _,
            DecodeError,
        >((init, n0)));
        assert(whole.skip(n0) =~= x);
        lemma_data_entry_round_trip(last, rest);
        assert(data_entry_reader()(whole.skip(n0)) == Ok::<_, DecodeError>(
            (Some(last), last.bytes().len() as int),
        ));
        assert(init.push(last) =~= es);
        assert(entries_bytes(es).len() == n0 + last.bytes().len());
    } else {
        assert(es =~= Seq::<DataEntryModel>::empty());
    }
}

/// Decoding an encoded `dref` gives back the same entries.
#[verifier::rlimit(100)]
#[verifier::spinoff_prover]
pub proof fn lemma_dref_round_trip(m: DrefModel)
    requires
        m.base.flags < 0x1000000,
        m.entries.len() <= u32::MAX,
        forall|i: int| 0 <= i < m.entries.len() ==> entry_exact(#[trigger] m.entries[i]),
    ensures
        DrefModel::parse(m.bytes()) == Ok::<_, DecodeError>((m, m.bytes().len() as int)),
{
    let s = m.bytes();
    let t = entries_bytes(m.entries);
    assert(be24_at(s, 1) == be24_at(crate::buf::be24(m.base.flags), 0));
    assert(be32_at(s, 4) == be32_at(be32(m.entries.len() as u32), 0));
    assert(s.skip(8) =~= t + Seq::<u8>::empty());
    lemma_read_data_entries(m.entries, Seq::empty());
}

} // verus!
