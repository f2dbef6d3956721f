//! The file type box: the major brand, its minor version and the list of
//! compatible brands.
use crate::buf::{
    be32, be32_at, be32_seq, buf_bytes, buf_len, buf_new, group_be, lemma_be32_seq, max_buf,
    put_u32, take_u32,
};
use crate::object::DecodeError;
use bytes::BytesMut;
use vstd::prelude::*;

verus! {

broadcast use group_be;

/// What an `ftyp` box holds.
pub struct FtypModel {
    pub major_brand: u32,
    pub minor_version: u32,
    pub compatible_brands: Seq<u32>,
}

impl FtypModel {
    /// The payload: two words, then one word per compatible brand.
    pub open spec fn bytes(self) -> Seq<u8> {
        be32(self.major_brand) + be32(self.minor_version) + be32_seq(self.compatible_brands)
    }

    /// Reads a whole payload; every four bytes after the first eight are a brand.
    pub open spec fn parse(s: Seq<u8>) -> Result<(FtypModel, int), DecodeError> {
        if s.len() < 8 || (s.len() - 8) % 4 != 0 {
            Err(DecodeError::Truncated)
        } else {
            Ok(
                (
                    FtypModel {
                        major_brand: be32_at(s, 0),
                        minor_version: be32_at(s, 4),
                        compatible_brands: Seq::new(
                            ((s.len() - 8) / 4) as nat,
                            |i: int| be32_at(s, 8 + 4 * i),
                        ),
                    },
                    s.len() as int,
                ),
            )
        }
    }
}

/// Decodes an `ftyp` payload.
#[verifier::rlimit(100)]
#[verifier::spinoff_prover]
pub fn parse(r: &mut BytesMut) -> (res: Result<ftyp, DecodeError>)
    ensures
        match res {
            Ok(v) => FtypModel::parse(buf_bytes(*old(r))) matches Ok((m, n)) && m == v@
                && buf_bytes(*final(r)) == buf_bytes(*old(r)).skip(n),
            Err(e) => FtypModel::parse(buf_bytes(*old(r))) == Err::<(FtypModel, int), _>(e),
        },
{
    ftyp::parse(r)
}

/// File type and compatibility.
#[allow(non_camel_case_types)]
#[derive(Debug, Clone, PartialEq, Eq)]
pub struct ftyp {
    pub major_brand: u32,
    pub minor_version: u32,
    pub compatible_brands: Vec<u32>,
}

impl View for ftyp {
    type V = FtypModel;

    open spec fn view(&self) -> FtypModel {
        FtypModel {
            major_brand: self.major_brand,
            minor_version: self.minor_version,
            compatible_brands: self.compatible_brands@,
        }
    }
}

impl ftyp {
    pub const BOX_TYPE: u32 = 0x66747970;

    #[verifier::rlimit(100)]
    #[verifier::spinoff_prover]
    pub fn len(&self) -> (r: usize)
        requires
            self@.bytes().len() <= max_buf(),
        ensures
            r == self@.bytes().len(),
    {
        proof {
            lemma_be32_seq(self.compatible_brands@);
        }
        8 + 4 * self.compatible_brands.len()
    }

    /// Decodes the payload held in `r`, all of it.
    #[verifier::rlimit(100)]
    #[verifier::spinoff_prover]
    pub fn parse(r: &mut BytesMut) -> (res: Result<ftyp, DecodeError>)
        ensures
            match res {
                Ok(v) => FtypModel::parse(buf_bytes(*old(r))) matches Ok((m, n)) && m == v@
                    && buf_bytes(*final(r)) == buf_bytes(*old(r)).skip(n),
                Err(e) => FtypModel::parse(buf_bytes(*old(r))) == Err::<(FtypModel, int), _>(e),
            },
    {
        let ghost s = buf_bytes(*r);
        let n = buf_len(r);
        if n < 8 || (n - 8) % 4 != 0 {
            return Err(DecodeError::Truncated);
        }
        let major_brand = take_u32(r);
        let minor_version = take_u32(r);
        assert(be32_at(s.skip(4), 0) == be32_at(s, 4));
        let count = (n - 8) / 4;
        let mut compatible_brands: Vec<u32> = Vec::new();
        let mut i: usize = 0;
        assert(buf_bytes(*r) =~= s.skip(8));
        while i < count
            invariant
                i <= count,
                count == (n - 8) / 4,
                n == s.len(),
                buf_bytes(*r) == s.skip(8 + 4 * i),
                compatible_brands@.len() == i,
                forall|j: int| 0 <= j < i ==> compatible_brands@[j] == be32_at(s, 8 + 4 * j),
            decreases count - i,
        {
            let b = take_u32(r);
            assert(be32_at(s.skip(8 + 4 * i), 0) == be32_at(s, 8 + 4 * i));
            assert(s.skip(8 + 4 * i).skip(4) =~= s.skip(8 + 4 * (i + 1)));
            compatible_brands.push(b);
            i = i + 1;
        }
        let v = ftyp { major_brand, minor_version, compatible_brands };
        assert(v@.compatible_brands =~= FtypModel::parse(s)->Ok_0.0.compatible_brands);
        Ok(v)
    }

    /// Appends the payload to `w`.
    #[verifier::rlimit(100)]
    #[verifier::spinoff_prover]
    pub fn write(&self, w: &mut BytesMut)
        requires
            buf_bytes(*old(w)).len() + self@.bytes().len() <= max_buf(),
        ensures
            buf_bytes(*final(w)) == buf_bytes(*old(w)) + self@.bytes(),
    {
        let ghost w0 = buf_bytes(*w);
        proof {
            lemma_be32_seq(self.compatible_brands@);
        }
        put_u32(w, self.major_brand);
        put_u32(w, self.minor_version);
        let mut i: usize = 0;
        while i < self.compatible_brands.len()
            invariant
                i <= self.compatible_brands@.len(),
                w0.len() + self@.bytes().len() <= max_buf(),
                self@.bytes().len() == 8 + 4 * self.compatible_brands@.len(),
                buf_bytes(*w) == w0 + be32(self.major_brand) + be32(self.minor_version) + be32_seq(
                    self.compatible_brands@.take(i as int),
                ),
            decreases self.compatible_brands@.len() - i,
        {
            proof {
                lemma_be32_seq(self.compatible_brands@.take(i as int));
            }
            put_u32(w, self.compatible_brands[i]);
            proof {
                let t = self.compatible_brands@.take(i as int + 1);
                assert(t.drop_last() =~= self.compatible_brands@.take(i as int));
            }
            i = i + 1;
        }
        assert(self.compatible_brands@.take(i as int) =~= self.compatible_brands@);
    }

    pub fn as_bytes(&self) -> (r: BytesMut)
        requires
            self@.bytes().len() <= max_buf(),
        ensures
            buf_bytes(r) == self@.bytes(),
    {
        let mut w = buf_new();
        self.write(&mut w);
        assert(buf_bytes(w) =~= self@.bytes());
        w
    }
}

/// Decoding an encoded `ftyp` payload gives back the same box.
#[verifier::rlimit(100)]
#[verifier::spinoff_prover]
pub proof fn lemma_ftyp_round_trip(m: FtypModel)
    ensures
        FtypModel::parse(m.bytes()) == Ok::<_, DecodeError>((m, m.bytes().len() as int)),
{
    let s = m.bytes();
    lemma_be32_seq(m.compatible_brands);
    let tail = be32_seq(m.compatible_brands);
    assert(be32_at(s, 0) == be32_at(be32(m.major_brand), 0));
    assert(be32_at(s, 4) == be32_at(be32(m.minor_version), 0));
    let p = FtypModel::parse(s)->Ok_0.0;
    assert forall|i: int| 0 <= i < m.compatible_brands.len() implies p.compatible_brands[i]
        == m.compatible_brands[i] by {
        assert(be32_at(s, 8 + 4 * i) == be32_at(tail, 4 * i));
    }
    assert(p.compatible_brands =~= m.compatible_brands);
}

} // verus!
