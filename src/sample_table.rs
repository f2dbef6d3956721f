//! The sample table boxes: time-to-sample, sample-to-chunk, sample sizes and
//! chunk offsets.
use crate::buf::{
    be24_at, be32, be32_at, be32_seq, buf_bytes, buf_len, buf_new, group_be, lemma_be32_seq,
    lemma_read_skip, max_buf, put_u32, put_words, take_u32, take_words,
};
use crate::object::{DecodeError, FullBox};
use bytes::BytesMut;
use vstd::prelude::*;

verus! {

broadcast use group_be;

/// The words of a list of pairs, each pair in order.
pub open spec fn pair_words(e: Seq<(u32, u32)>) -> Seq<u32> {
    Seq::new(
        2 * e.len(),
        |j: int|
            if j % 2 == 0 {
                e[j / 2].0
            } else {
                e[j / 2].1
            },
    )
}

/// The words of a list of triples, each triple in order.
pub open spec fn triple_words(e: Seq<(u32, u32, u32)>) -> Seq<u32> {
    Seq::new(
        3 * e.len(),
        |j: int|
            if j % 3 == 0 {
                e[j / 3].0
            } else if j % 3 == 1 {
                e[j / 3].1
            } else {
                e[j / 3].2
            },
    )
}

/// Reads the full-box header and the entry count, and checks that `width`
/// words per entry follow.
fn take_table_head(r: &mut BytesMut, width: usize) -> (res: Result<(FullBox, u32), DecodeError>)
    requires
        1 <= width <= 3,
    ensures
        ({
            let s = buf_bytes(*old(r));
            &&& s.len() <= usize::MAX
            &&& match res {
                Ok((b, n)) => s.len() >= 8 && b == (FullBox { version: s[0], flags: be24_at(s, 1) })
                    && n == be32_at(s, 4) && s.len() >= 8 + 4 * width * n && buf_bytes(*final(r))
                    == s.skip(8),
                Err(e) => e == DecodeError::Truncated && (s.len() < 8 || s.len() < 8 + 4 * width
                    * be32_at(s, 4)),
            }
        }),
{
    let ghost s = buf_bytes(*r);
    let n = buf_len(r);
    if n < 8 {
        return Err(DecodeError::Truncated);
    }
    let base = match FullBox::parse(r) {
        Ok(b) => b,
        Err(e) => return Err(e),
    };
    proof {
        lemma_read_skip(s, 4);
    }
    let count = take_u32(r);
    if (n - 8) / (4 * width) < count as usize {
        assert(n < 8 + 4 * width * count) by (nonlinear_arith)
            requires
                (n - 8) / (4 * width as int) < count,
                n >= 8,
                width >= 1,
        ;
        return Err(DecodeError::Truncated);
    }
    assert(n >= 8 + 4 * width * count) by (nonlinear_arith)
        requires
            (n - 8) / (4 * width as int) >= count,
            n >= 8,
            width >= 1,
    ;
    Ok((base, count))
}

/// What an `stts` box holds: (sample count, sample delta) pairs.
pub struct SttsModel {
    pub base: FullBox,
    pub entries: Seq<(u32, u32)>,
}

impl SttsModel {
    pub open spec fn bytes(self) -> Seq<u8> {
        self.base.spec_bytes() + be32(self.entries.len() as u32) + be32_seq(
            pair_words(self.entries),
        )
    }

    pub open spec fn parse(s: Seq<u8>) -> Result<(SttsModel, int), DecodeError> {
        if s.len() < 8 || s.len() < 8 + 8 * be32_at(s, 4) {
            Err(DecodeError::Truncated)
        } else {
            Ok(
                (
                    SttsModel {
                        base: FullBox { version: s[0], flags: be24_at(s, 1) },
                        entries: Seq::new(
                            be32_at(s, 4) as nat,
                            |i: int| (be32_at(s, 8 + 8 * i), be32_at(s, 12 + 8 * i)),
                        ),
                    },
                    8 + 8 * be32_at(s, 4),
                ),
            )
        }
    }
}

/// Decoding time to sample.
#[allow(non_camel_case_types)]
#[derive(Debug, Clone, PartialEq, Eq)]
pub struct stts {
    pub base: FullBox,
    pub entries: Vec<(u32, u32)>,
}

impl View for stts {
    type V = SttsModel;

    open spec fn view(&self) -> SttsModel {
        SttsModel { base: self.base, entries: self.entries@ }
    }
}

impl Default for stts {
    fn default() -> (r: Self)
        ensures
            r@ == (SttsModel { base: FullBox { version: 0, flags: 0 }, entries: Seq::empty() }),
    {
        stts { base: FullBox::new(0, 0), entries: Vec::new() }
    }
}

impl stts {
    pub const BOX_TYPE: u32 = 0x73747473;

    #[verifier::rlimit(100)]
    #[verifier::spinoff_prover]
    pub fn len(&self) -> (r: usize)
        requires
            self@.bytes().len() <= max_buf(),
        ensures
            r == self@.bytes().len(),
    {
        proof {
            lemma_be32_seq(pair_words(self.entries@));
        }
        8 + 8 * self.entries.len()
    }

    #[verifier::rlimit(100)]
    #[verifier::spinoff_prover]
    pub fn parse(r: &mut BytesMut) -> (res: Result<stts, DecodeError>)
        ensures
            match res {
                Ok(v) => SttsModel::parse(buf_bytes(*old(r))) matches Ok((m, n)) && m == v@
                    && buf_bytes(*final(r)) == buf_bytes(*old(r)).skip(n),
                Err(e) => SttsModel::parse(buf_bytes(*old(r))) == Err::<(SttsModel, int), _>(e),
            },
    {
        let ghost s = buf_bytes(*r);
        let (base, count) = match take_table_head(r, 2) {
            Ok(h) => h,
            Err(e) => return Err(e),
        };
        let words = take_words(r, 2 * count as usize);
        let mut entries: Vec<(u32, u32)> = Vec::new();
        let mut i: usize = 0;
        while i < count as usize
            invariant
                i <= count,
                s.len() <= usize::MAX,
                words@.len() == 2 * count,
                s.len() >= 8 + 8 * count,
                forall|j: int| 0 <= j < 2 * count ==> words@[j] == be32_at(s.skip(8), 4 * j),
                entries@.len() == i,
                forall|j: int|
                    0 <= j < i ==> entries@[j] == (be32_at(s, 8 + 8 * j), be32_at(s, 12 + 8 * j)),
            decreases count - i,
        {
            proof {
                lemma_read_skip(s, 8 + 8 * i);
                lemma_read_skip(s, 12 + 8 * i);
                lemma_read_skip(s.skip(8), 8 * i as int);
                lemma_read_skip(s.skip(8), 8 * i + 4);
            }
            entries.push((words[2 * i], words[2 * i + 1]));
            i = i + 1;
        }
        let v = stts { base, entries };
        assert(v@.entries =~= SttsModel::parse(s)->Ok_0.0.entries);
        Ok(v)
    }

    #[verifier::rlimit(100)]
    #[verifier::spinoff_prover]
    pub fn write(&self, w: &mut BytesMut)
        requires
            buf_bytes(*old(w)).len() + self@.bytes().len() <= max_buf(),
        ensures
            buf_bytes(*final(w)) == buf_bytes(*old(w)) + self@.bytes(),
    {
        let ghost w0 = buf_bytes(*w);
        proof {
            lemma_be32_seq(pair_words(self.entries@));
        }
        self.base.write(w);
        put_u32(w, #[verifier::truncate] (self.entries.len() as u32));
        let mut flat: Vec<u32> = Vec::new();
        let mut i: usize = 0;
        while i < self.entries.len()
            invariant
                i <= self.entries@.len(),
                flat@.len() == 2 * i,
                forall|j: int| 0 <= j < 2 * i ==> flat@[j] == pair_words(self.entries@)[j],
            decreases self.entries@.len() - i,
        {
            let e = self.entries[i];
            flat.push(e.0);
            flat.push(e.1);
            i = i + 1;
        }
        assert(flat@ =~= pair_words(self.entries@));
        put_words(w, flat.as_slice());
        assert(buf_bytes(*w) =~= w0 + self@.bytes());
    }

    pub fn as_bytes(&self) -> (r: BytesMut)
        requires
            self@.bytes().len() <= max_buf(),
        ensures
            buf_bytes(r) == self@.bytes(),
    {
        let mut w = buf_new();
        self.write(&mut w);
        assert(buf_bytes(w) =~= self@.bytes());
        w
    }
}

/// What an `stsc` box holds: (first chunk, samples per chunk, sample
/// description index) triples.
pub struct StscModel {
    pub base: FullBox,
    pub entries: Seq<(u32, u32, u32)>,
}

impl StscModel {
    pub open spec fn bytes(self) -> Seq<u8> {
        self.base.spec_bytes() + be32(self.entries.len() as u32) + be32_seq(
            triple_words(self.entries),
        )
    }

    pub open spec fn parse(s: Seq<u8>) -> Result<(StscModel, int), DecodeError> {
        if s.len() < 8 || s.len() < 8 + 12 * be32_at(s, 4) {
            Err(DecodeError::Truncated)
        } else {
            Ok(
                (
                    StscModel {
                        base: FullBox { version: s[0], flags: be24_at(s, 1) },
                        entries: Seq::new(
                            be32_at(s, 4) as nat,
                            |i: int|
                                (
                                    be32_at(s, 8 + 12 * i),
                                    be32_at(s, 12 + 12 * i),
                                    be32_at(s, 16 + 12 * i),
                                ),
                        ),
                    },
                    8 + 12 * be32_at(s, 4),
                ),
            )
        }
    }
}

/// Sample to chunk.
#[allow(non_camel_case_types)]
#[derive(Debug, Clone, PartialEq, Eq)]
pub struct stsc {
    pub base: FullBox,
    pub entries: Vec<(u32, u32, u32)>,
}

impl View for stsc {
    type V = StscModel;

    open spec fn view(&self) -> StscModel {
        StscModel { base: self.base, entries: self.entries@ }
    }
}

impl Default for stsc {
    fn default() -> (r: Self)
        ensures
            r@ == (StscModel { base: FullBox { version: 0, flags: 0 }, entries: Seq::empty() }),
    {
        stsc { base: FullBox::new(0, 0), entries: Vec::new() }
    }
}

impl stsc {
    pub const BOX_TYPE: u32 = 0x73747363;

    #[verifier::rlimit(100)]
    #[verifier::spinoff_prover]
    pub fn len(&self) -> (r: usize)
        requires
            self@.bytes().len() <= max_buf(),
        ensures
            r == self@.bytes().len(),
    {
        proof {
            lemma_be32_seq(triple_words(self.entries@));
        }
        8 + 12 * self.entries.len()
    }

    #[verifier::rlimit(100)]
    #[verifier::spinoff_prover]
    pub fn parse(r: &mut BytesMut) -> (res: Result<stsc, DecodeError>)
        ensures
            match res {
                Ok(v) => StscModel::parse(buf_bytes(*old(r))) matches Ok((m, n)) && m == v@
                    && buf_bytes(*final(r)) == buf_bytes(*old(r)).skip(n),
                Err(e) => StscModel::parse(buf_bytes(*old(r))) == Err::<(StscModel, int), _>(e),
            },
    {
        let ghost s = buf_bytes(*r);
        let (base, count) = match take_table_head(r, 3) {
            Ok(h) => h,
            Err(e) => return Err(e),
        };
        let words = take_words(r, 3 * count as usize);
        let mut entries: Vec<(u32, u32, u32)> = Vec::new();
        let mut i: usize = 0;
        while i < count as usize
            invariant
                i <= count,
                s.len() <= usize::MAX,
                words@.len() == 3 * count,
                s.len() >= 8 + 12 * count,
                forall|j: int| 0 <= j < 3 * count ==> words@[j] == be32_at(s.skip(8), 4 * j),
                entries@.len() == i,
                forall|j: int|
                    0 <= j < i ==> entries@[j] == (
                        be32_at(s, 8 + 12 * j),
                        be32_at(s, 12 + 12 * j),
                        be32_at(s, 16 + 12 * j),
                    ),
            decreases count - i,
        {
            proof {
                lemma_read_skip(s, 8 + 12 * i);
                lemma_read_skip(s, 12 + 12 * i);
                lemma_read_skip(s, 16 + 12 * i);
                lemma_read_skip(s.skip(8), 12 * i as int);
                lemma_read_skip(s.skip(8), 12 * i + 4);
                lemma_read_skip(s.skip(8), 12 * i + 8);
            }
            entries.push((words[3 * i], words[3 * i + 1], words[3 * i + 2]));
            i = i + 1;
        }
        let v = stsc { base, entries };
        assert(v@.entries =~= StscModel::parse(s)->Ok_0.0.entries);
        Ok(v)
    }

    #[verifier::rlimit(100)]
    #[verifier::spinoff_prover]
    pub fn write(&self, w: &mut BytesMut)
        requires
            buf_bytes(*old(w)).len() + self@.bytes().len() <= max_buf(),
        ensures
            buf_bytes(*final(w)) == buf_bytes(*old(w)) + self@.bytes(),
    {
        let ghost w0 = buf_bytes(*w);
        proof {
            lemma_be32_seq(triple_words(self.entries@));
        }
        self.base.write(w);
        put_u32(w, #[verifier::truncate] (self.entries.len() as u32));
        let mut flat: Vec<u32> = Vec::new();
        let mut i: usize = 0;
        while i < self.entries.len()
            invariant
                i <= self.entries@.len(),
                flat@.len() == 3 * i,
                forall|j: int| 0 <= j < 3 * i ==> flat@[j] == triple_words(self.entries@)[j],
            decreases self.entries@.len() - i,
        {
            let e = self.entries[i];
            flat.push(e.0);
            flat.push(e.1);
            flat.push(e.2);
            i = i + 1;
        }
        assert(flat@ =~= triple_words(self.entries@));
        put_words(w, flat.as_slice());
        assert(buf_bytes(*w) =~= w0 + self@.bytes());
    }

    pub fn as_bytes(&self) -> (r: BytesMut)
        requires
            self@.bytes().len() <= max_buf(),
        ensures
            buf_bytes(r) == self@.bytes(),
    {
        let mut w = buf_new();
        self.write(&mut w);
        assert(buf_bytes(w) =~= self@.bytes());
        w
    }
}

/// What an `stco` box holds: chunk offsets.
pub struct StcoModel {
    pub base: FullBox,
    pub entries: Seq<u32>,
}

impl StcoModel {
    pub open spec fn bytes(self) -> Seq<u8> {
        self.base.spec_bytes() + be32(self.entries.len() as u32) + be32_seq(self.entries)
    }

    pub open spec fn parse(s: Seq<u8>) -> Result<(StcoModel, int), DecodeError> {
        if s.len() < 8 || s.len() < 8 + 4 * be32_at(s, 4) {
            Err(DecodeError::Truncated)
        } else {
            Ok(
                (
                    StcoModel {
                        base: FullBox { version: s[0], flags: be24_at(s, 1) },
                        entries: Seq::new(be32_at(s, 4) as nat, |i: int| be32_at(s, 8 + 4 * i)),
                    },
                    8 + 4 * be32_at(s, 4),
                ),
            )
        }
    }
}

/// Chunk offsets, 32 bits each.
#[allow(non_camel_case_types)]
#[derive(Debug, Clone, PartialEq, Eq)]
pub struct stco {
    pub base: FullBox,
    pub entries: Vec<u32>,
}

impl View for stco {
    type V = StcoModel;

    open spec fn view(&self) -> StcoModel {
        StcoModel { base: self.base, entries: self.entries@ }
    }
}

impl Default for stco {
    fn default() -> (r: Self)
        ensures
            r@ == (StcoModel { base: FullBox { version: 0, flags: 0 }, entries: Seq::empty() }),
    {
        stco { base: FullBox::new(0, 0), entries: Vec::new() }
    }
}

impl stco {
    pub const BOX_TYPE: u32 = 0x7374636f;

    #[verifier::rlimit(100)]
    #[verifier::spinoff_prover]
    pub fn len(&self) -> (r: usize)
        requires
            self@.bytes().len() <= max_buf(),
        ensures
            r == self@.bytes().len(),
    {
        proof {
            lemma_be32_seq(self.entries@);
        }
        8 + 4 * self.entries.len()
    }

    #[verifier::rlimit(100)]
    #[verifier::spinoff_prover]
    pub fn parse(r: &mut BytesMut) -> (res: Result<stco, DecodeError>)
        ensures
            match res {
                Ok(v) => StcoModel::parse(buf_bytes(*old(r))) matches Ok((m, n)) && m == v@
                    && buf_bytes(*final(r)) == buf_bytes(*old(r)).skip(n),
                Err(e) => StcoModel::parse(buf_bytes(*old(r))) == Err::<(StcoModel, int), _>(e),
            },
    {
        let ghost s = buf_bytes(*r);
        let (base, count) = match take_table_head(r, 1) {
            Ok(h) => h,
            Err(e) => return Err(e),
        };
        let entries = take_words(r, count as usize);
        proof {
            assert forall|j: int| 0 <= j < count implies entries@[j] == be32_at(s, 8 + 4 * j) by {
                lemma_read_skip(s, 8 + 4 * j);
                lemma_read_skip(s.skip(8), 4 * j);
            }
        }
        let v = stco { base, entries };
        assert(v@.entries =~= StcoModel::parse(s)->Ok_0.0.entries);
        Ok(v)
    }

    #[verifier::rlimit(100)]
    #[verifier::spinoff_prover]
    pub fn write(&self, w: &mut BytesMut)
        requires
            buf_bytes(*old(w)).len() + self@.bytes().len() <= max_buf(),
        ensures
            buf_bytes(*final(w)) == buf_bytes(*old(w)) + self@.bytes(),
    {
        let ghost w0 = buf_bytes(*w);
        proof {
            lemma_be32_seq(self.entries@);
        }
        self.base.write(w);
        put_u32(w, #[verifier::truncate] (self.entries.len() as u32));
        put_words(w, self.entries.as_slice());
        assert(buf_bytes(*w) =~= w0 + self@.bytes());
    }

    pub fn as_bytes(&self) -> (r: BytesMut)
        requires
            self@.bytes().len() <= max_buf(),
        ensures
            buf_bytes(r) == self@.bytes(),
    {
        let mut w = buf_new();
        self.write(&mut w);
        assert(buf_bytes(w) =~= self@.bytes());
        w
    }
}

/// What an `stsz` box holds. A non-zero `sample_size` is the size of every
/// one of `sample_count` samples and no table follows; a zero one is
/// followed by one size per sample.
pub struct StszModel {
    pub base: FullBox,
    pub sample_size: u32,
    pub sample_count: u32,
    pub entries: Seq<u32>,
}

impl StszModel {
    pub open spec fn bytes(self) -> Seq<u8> {
        self.base.spec_bytes() + be32(self.sample_size) + if self.sample_size == 0 {
            be32(self.entries.len() as u32) + be32_seq(self.entries)
        } else {
            be32(self.sample_count)
        }
    }

    /// Reads the sizes. A non-zero sample size followed by more bytes, as if
    /// a table came after it, is malformed.
    pub open spec fn parse(s: Seq<u8>) -> Result<(StszModel, int), DecodeError> {
        if s.len() < 12 {
            Err(DecodeError::Truncated)
        } else if be32_at(s, 4) != 0 && s.len() > 12 {
            Err(DecodeError::Malformed)
        } else if be32_at(s, 4) != 0 {
            Ok(
                (
                    StszModel {
                        base: FullBox { version: s[0], flags: be24_at(s, 1) },
                        sample_size: be32_at(s, 4),
                        sample_count: be32_at(s, 8),
                        entries: Seq::empty(),
                    },
                    12,
                ),
            )
        } else if s.len() < 12 + 4 * be32_at(s, 8) {
            Err(DecodeError::Truncated)
        } else {
            Ok(
                (
                    StszModel {
                        base: FullBox { version: s[0], flags: be24_at(s, 1) },
                        sample_size: 0,
                        sample_count: be32_at(s, 8),
                        entries: Seq::new(be32_at(s, 8) as nat, |i: int| be32_at(s, 12 + 4 * i)),
                    },
                    12 + 4 * be32_at(s, 8),
                ),
            )
        }
    }
}

/// Sample sizes.
#[allow(non_camel_case_types)]
#[derive(Debug, Clone, PartialEq, Eq)]
pub struct stsz {
    pub base: FullBox,
    pub sample_size: u32,
    pub sample_count: u32,
    pub entries: Vec<u32>,
}

impl View for stsz {
    type V = StszModel;

    open spec fn view(&self) -> StszModel {
        StszModel {
            base: self.base,
            sample_size: self.sample_size,
            sample_count: self.sample_count,
            entries: self.entries@,
        }
    }
}

impl Default for stsz {
    fn default() -> (r: Self)
        ensures
            r@ == (StszModel {
                base: FullBox { version: 0, flags: 0 },
                sample_size: 0,
                sample_count: 0,
                entries: Seq::empty(),
            }),
    {
        stsz { base: FullBox::new(0, 0), sample_size: 0, sample_count: 0, entries: Vec::new() }
    }
}

impl stsz {
    pub const BOX_TYPE: u32 = 0x7374737a;

    #[verifier::rlimit(100)]
    #[verifier::spinoff_prover]
    pub fn len(&self) -> (r: usize)
        requires
            self@.bytes().len() <= max_buf(),
        ensures
            r == self@.bytes().len(),
    {
        proof {
            lemma_be32_seq(self.entries@);
        }
        if self.sample_size == 0 {
            12 + 4 * self.entries.len()
        } else {
            12
        }
    }

    #[verifier::rlimit(100)]
    #[verifier::spinoff_prover]
    pub fn parse(r: &mut BytesMut) -> (res: Result<stsz, DecodeError>)
        ensures
            match res {
                Ok(v) => StszModel::parse(buf_bytes(*old(r))) matches Ok((m, n)) && m == v@
                    && buf_bytes(*final(r)) == buf_bytes(*old(r)).skip(n),
                Err(e) => StszModel::parse(buf_bytes(*old(r))) == Err::<(StszModel, int), _>(e),
            },
    {
        let ghost s = buf_bytes(*r);
        let n = buf_len(r);
        if n < 12 {
            return Err(DecodeError::Truncated);
        }
        let base = match FullBox::parse(r) {
            Ok(b) => b,
            Err(e) => return Err(e),
        };
        proof {
            lemma_read_skip(s, 4);
            lemma_read_skip(s, 8);
        }
        let sample_size = take_u32(r);
        let sample_count = take_u32(r);
        if sample_size != 0 {
            if n > 12 {
                return Err(DecodeError::Malformed);
            }
            return Ok(stsz { base, sample_size, sample_count, entries: Vec::new() });
        }
        if (n - 12) / 4 < sample_count as usize {
            return Err(DecodeError::Truncated);
        }
        let entries = take_words(r, sample_count as usize);
        proof {
            assert forall|j: int| 0 <= j < sample_count implies entries@[j] == be32_at(s, 12 + 4 * j) by {
                lemma_read_skip(s, 12 + 4 * j);
                lemma_read_skip(s.skip(12), 4 * j);
            }
        }
        let v = stsz { base, sample_size, sample_count, entries };
        assert(v@.entries =~= StszModel::parse(s)->Ok_0.0.entries);
        Ok(v)
    }

    #[verifier::rlimit(100)]
    #[verifier::spinoff_prover]
    pub fn write(&self, w: &mut BytesMut)
        requires
            buf_bytes(*old(w)).len() + self@.bytes().len() <= max_buf(),
        ensures
            buf_bytes(*final(w)) == buf_bytes(*old(w)) + self@.bytes(),
    {
        let ghost w0 = buf_bytes(*w);
        proof {
            lemma_be32_seq(self.entries@);
        }
        self.base.write(w);
        put_u32(w, self.sample_size);
        if self.sample_size == 0 {
            put_u32(w, #[verifier::truncate] (self.entries.len() as u32));
            put_words(w, self.entries.as_slice());
        } else {
            put_u32(w, self.sample_count);
        }
        assert(buf_bytes(*w) =~= w0 + self@.bytes());
    }

    pub fn as_bytes(&self) -> (r: BytesMut)
        requires
            self@.bytes().len() <= max_buf(),
        ensures
            buf_bytes(r) == self@.bytes(),
    {
        let mut w = buf_new();
        self.write(&mut w);
        assert(buf_bytes(w) =~= self@.bytes());
        w
    }
}

/// Decoding an encoded `stco` gives back the same table, given 24-bit flags
/// and a count that fits 32 bits.
#[verifier::rlimit(100)]
#[verifier::spinoff_prover]
pub proof fn lemma_stco_round_trip(m: StcoModel)
    requires
        m.base.flags < 0x1000000,
        m.entries.len() <= u32::MAX,
    ensures
        StcoModel::parse(m.bytes()) == Ok::<_, DecodeError>((m, m.bytes().len() as int)),
{
    let s = m.bytes();
    let t = be32_seq(m.entries);
    lemma_be32_seq(m.entries);
    crate::object::lemma_full_box_round_trip(m.base, be32(m.entries.len() as u32) + t);
    assert(s == m.base.spec_bytes() + (be32(m.entries.len() as u32) + t));
    assert(be32_at(s, 4) == be32_at(be32(m.entries.len() as u32), 0));
    let d = StcoModel::parse(s)->Ok_0.0;
    assert forall|i: int| 0 <= i < m.entries.len() implies d.entries[i] == m.entries[i] by {
        assert(be32_at(s, 8 + 4 * i) == be32_at(t, 4 * i));
    }
    assert(d.entries =~= m.entries);
}

/// Decoding an encoded `stts` gives back the same table, given 24-bit flags
/// and a count that fits 32 bits.
#[verifier::rlimit(100)]
#[verifier::spinoff_prover]
pub proof fn lemma_stts_round_trip(m: SttsModel)
    requires
        m.base.flags < 0x1000000,
        m.entries.len() <= u32::MAX,
    ensures
        SttsModel::parse(m.bytes()) == Ok::<_, DecodeError>((m, m.bytes().len() as int)),
{
    let s = m.bytes();
    let w = pair_words(m.entries);
    let t = be32_seq(w);
    lemma_be32_seq(w);
    crate::object::lemma_full_box_round_trip(m.base, be32(m.entries.len() as u32) + t);
    assert(s == m.base.spec_bytes() + (be32(m.entries.len() as u32) + t));
    assert(be32_at(s, 4) == be32_at(be32(m.entries.len() as u32), 0));
    let d = SttsModel::parse(s)->Ok_0.0;
    assert forall|i: int| 0 <= i < m.entries.len() implies d.entries[i] == m.entries[i] by {
        assert(be32_at(s, 8 + 8 * i) == be32_at(t, 4 * (2 * i)));
        assert(be32_at(s, 12 + 8 * i) == be32_at(t, 4 * (2 * i + 1)));
        assert((2 * i) % 2 == 0 && (2 * i) / 2 == i) by (nonlinear_arith);
        assert((2 * i + 1) % 2 == 1 && (2 * i + 1) / 2 == i) by (nonlinear_arith);
    }
    assert(d.entries =~= m.entries);
}

/// Decoding an encoded `stsc` gives back the same table, given 24-bit flags
/// and a count that fits 32 bits.
#[verifier::rlimit(100)]
#[verifier::spinoff_prover]
pub proof fn lemma_stsc_round_trip(m: StscModel)
    requires
        m.base.flags < 0x1000000,
        m.entries.len() <= u32::MAX,
    ensures
        StscModel::parse(m.bytes()) == Ok::<_, DecodeError>((m, m.bytes().len() as int)),
{
    let s = m.bytes();
    let w = triple_words(m.entries);
    let t = be32_seq(w);
    lemma_be32_seq(w);
    crate::object::lemma_full_box_round_trip(m.base, be32(m.entries.len() as u32) + t);
    assert(s == m.base.spec_bytes() + (be32(m.entries.len() as u32) + t));
    assert(be32_at(s, 4) == be32_at(be32(m.entries.len() as u32), 0));
    let d = StscModel::parse(s)->Ok_0.0;
    assert forall|i: int| 0 <= i < m.entries.len() implies d.entries[i] == m.entries[i] by {
        assert(be32_at(s, 8 + 12 * i) == be32_at(t, 4 * (3 * i)));
        assert(be32_at(s, 12 + 12 * i) == be32_at(t, 4 * (3 * i + 1)));
        assert(be32_at(s, 16 + 12 * i) == be32_at(t, 4 * (3 * i + 2)));
        assert((3 * i) % 3 == 0 && (3 * i) / 3 == i) by (nonlinear_arith);
        assert((3 * i + 1) % 3 == 1 && (3 * i + 1) / 3 == i) by (nonlinear_arith);
        assert((3 * i + 2) % 3 == 2 && (3 * i + 2) / 3 == i) by (nonlinear_arith);
    }
    assert(d.entries =~= m.entries);
}

/// Decoding an encoded `stsz` gives back the same box, given 24-bit flags,
/// no table beside a non-zero sample size, and with a zero one a count equal
/// to the table's length.
#[verifier::rlimit(100)]
#[verifier::spinoff_prover]
pub proof fn lemma_stsz_round_trip(m: StszModel)
    requires
        m.base.flags < 0x1000000,
        m.sample_size != 0 ==> m.entries.len() == 0,
        m.sample_size == 0 ==> m.sample_count == m.entries.len(),
    ensures
        StszModel::parse(m.bytes()) == Ok::<_, DecodeError>((m, m.bytes().len() as int)),
{
    let s = m.bytes();
    let t = be32_seq(m.entries);
    lemma_be32_seq(m.entries);
    assert(be32_at(s, 4) == be32_at(be32(m.sample_size), 0));
    let rest = if m.sample_size == 0 {
        be32(m.entries.len() as u32) + t
    } else {
        be32(m.sample_count)
    };
    crate::object::lemma_full_box_round_trip(m.base, be32(m.sample_size) + rest);
    assert(s == m.base.spec_bytes() + (be32(m.sample_size) + rest));
    if m.sample_size == 0 {
        assert(be32_at(s, 8) == be32_at(be32(m.entries.len() as u32), 0));
        let d = StszModel::parse(s)->Ok_0.0;
        assert forall|i: int| 0 <= i < m.entries.len() implies d.entries[i] == m.entries[i] by {
            assert(be32_at(s, 12 + 4 * i) == be32_at(t, 4 * i));
        }
        assert(d.entries =~= m.entries);
    } else {
        assert(be32_at(s, 8) == be32_at(be32(m.sample_count), 0));
        assert(m.entries =~= Seq::<u32>::empty());
    }
}

} // verus!
