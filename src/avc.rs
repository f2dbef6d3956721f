//! The AVC decoder configuration record (`avcC`): profile and level, the
//! sequence and picture parameter sets, and any bytes after them.
use crate::buf::{
    be16, be16_at, buf_bytes, buf_len, buf_new, group_be, lemma_read_skip, max_buf, put_buf,
    put_u16, put_u8, take_bytes, take_u16, take_u8,
};
use crate::object::{lemma_read_entries_err, lemma_read_entries_unfold, read_entries, DecodeError};
use bytes::BytesMut;
use vstd::prelude::*;

verus! {

broadcast use group_be;

/// The most parameter sets of one kind that a record can list.
pub const MAX_PARAMETER_SETS: usize = 31;

/// One parameter set as written: its length in 16 bits, then its bytes.
pub open spec fn nal_bytes(n: Seq<u8>) -> Seq<u8> {
    be16(n.len() as u16) + n
}

pub open spec fn nal_list(v: Seq<Seq<u8>>) -> Seq<u8>
    decreases v.len(),
{
    if v.len() == 0 {
        Seq::empty()
    } else {
        nal_list(v.drop_last()) + nal_bytes(v.last())
    }
}

/// Reads one length-prefixed parameter set from the front of `s`.
pub open spec fn parse_nal(s: Seq<u8>) -> Result<(Option<Seq<u8>>, int), DecodeError> {
    if s.len() < 2 || s.len() < 2 + be16_at(s, 0) {
        Err(DecodeError::Truncated)
    } else {
        Ok((Some(s.subrange(2, 2 + be16_at(s, 0))), 2 + be16_at(s, 0)))
    }
}

pub open spec fn nal_reader() -> spec_fn(Seq<u8>) -> Result<(Option<Seq<u8>>, int), DecodeError> {
    |s: Seq<u8>| parse_nal(s)
}

/// What an `avcC` record holds.
pub struct AvcCModel {
    pub configuration_version: u8,
    pub profile_indication: u8,
    pub profile_compatibility: u8,
    pub level_indication: u8,
    pub length_size_minus_one: u8,
    pub sps: Seq<Seq<u8>>,
    pub pps: Seq<Seq<u8>>,
    pub ext: Seq<u8>,
}

impl AvcCModel {
    /// Whether the record can be written: at most 31 sets of each kind, each
    /// at most 65535 bytes long.
    pub open spec fn wf(self) -> bool {
        &&& self.sps.len() <= MAX_PARAMETER_SETS
        &&& self.pps.len() <= MAX_PARAMETER_SETS
        &&& forall|i: int| 0 <= i < self.sps.len() ==> #[trigger] self.sps[i].len() <= 0xffff
        &&& forall|i: int| 0 <= i < self.pps.len() ==> #[trigger] self.pps[i].len() <= 0xffff
    }

    /// The record; the reserved bits before the length size and before the
    /// count of sequence parameter sets are written as ones.
    pub open spec fn bytes(self) -> Seq<u8> {
        seq![
            self.configuration_version,
            self.profile_indication,
            self.profile_compatibility,
            self.level_indication,
            (0xfc + self.length_size_minus_one % 4) as u8,
            (0xe0 + self.sps.len()) as u8,
        ] + nal_list(self.sps) + seq![self.pps.len() as u8] + nal_list(self.pps) + self.ext
    }

    pub open spec fn parse(s: Seq<u8>) -> Result<(AvcCModel, int), DecodeError> {
        if s.len() < 6 {
            Err(DecodeError::Truncated)
        } else {
            match read_entries(s.skip(6), (s[5] % 32) as nat, nal_reader()) {
                Err(e) => Err(e),
                Ok((sps, n1)) => {
                    if s.len() <= 6 + n1 {
                        Err(DecodeError::Truncated)
                    } else {
                        match read_entries(s.skip(7 + n1), (s[6 + n1] % 32) as nat, nal_reader()) {
                            Err(e) => Err(e),
                            Ok((pps, n2)) => Ok(
                                (
                                    AvcCModel {
                                        configuration_version: s[0],
                                        profile_indication: s[1],
                                        profile_compatibility: s[2],
                                        level_indication: s[3],
                                        length_size_minus_one: s[4] % 4,
                                        sps,
                                        pps,
                                        ext: s.skip(7 + n1 + n2),
                                    },
                                    s.len() as int,
                                ),
                            ),
                        }
                    }
                },
            }
        }
    }
}

/// AVC decoder configuration record.
#[allow(non_camel_case_types)]
#[derive(Debug, PartialEq, Eq)]
pub struct avcC {
    pub configuration_version: u8,
    pub profile_indication: u8,
    pub profile_compatibility: u8,
    pub level_indication: u8,
    pub length_size_minus_one: u8,
    pub sps: Vec<BytesMut>,
    pub pps: Vec<BytesMut>,
    pub ext: BytesMut,
}

impl View for avcC {
    type V = AvcCModel;

    open spec fn view(&self) -> AvcCModel {
        AvcCModel {
            configuration_version: self.configuration_version,
            profile_indication: self.profile_indication,
            profile_compatibility: self.profile_compatibility,
            level_indication: self.level_indication,
            length_size_minus_one: self.length_size_minus_one,
            sps: self.sps@.map_values(|b: BytesMut| buf_bytes(b)),
            pps: self.pps@.map_values(|b: BytesMut| buf_bytes(b)),
            ext: buf_bytes(self.ext),
        }
    }
}

/// Takes one length-prefixed parameter set off the front of `r`.
fn take_nal(r: &mut BytesMut) -> (res: Result<BytesMut, DecodeError>)
    ensures
        match res {
            Ok(b) => parse_nal(buf_bytes(*old(r))) matches Ok((o, n)) && o == Some(buf_bytes(b))
                && buf_bytes(*final(r)) == buf_bytes(*old(r)).skip(n),
            Err(e) => parse_nal(buf_bytes(*old(r))) == Err::<(Option<Seq<u8>>, int), _>(e),
        },
{
    let ghost s = buf_bytes(*r);
    let n = buf_len(r);
    if n < 2 {
        return Err(DecodeError::Truncated);
    }
    let l = take_u16(r);
    if n - 2 < l as usize {
        return Err(DecodeError::Truncated);
    }
    let b = take_bytes(r, l as usize);
    assert(buf_bytes(b) =~= s.subrange(2, 2 + l));
    Ok(b)
}

/// Takes `count` parameter sets off the front of `r`.
#[verifier::rlimit(100)]
fn take_nals(r: &mut BytesMut, count: u8) -> (res: Result<Vec<BytesMut>, DecodeError>)
    ensures
        match res {
            Ok(v) => read_entries(buf_bytes(*old(r)), count as nat, nal_reader()) matches Ok(
                (vs, n),
            ) && vs == v@.map_values(|b: BytesMut| buf_bytes(b)) && 0 <= n <= buf_bytes(
                *old(r),
            ).len() && buf_bytes(*final(r)) == buf_bytes(*old(r)).skip(n),
            Err(e) => read_entries(buf_bytes(*old(r)), count as nat, nal_reader()) == Err::<
                (Seq<Seq<u8>>, int),
                _,
            >(e),
        },
{
    let ghost body = buf_bytes(*r);
    let mut v: Vec<BytesMut> = Vec::new();
    let mut i: u8 = 0;
    let ghost mut used: int = 0;
    let ghost mut views: Seq<Seq<u8>> = Seq::empty();
    proof {
        lemma_read_entries_unfold(body, 0, nal_reader());
    }
    while i < count
        invariant
            body == buf_bytes(*old(r)),
            i <= count,
            0 <= used <= body.len(),
            buf_bytes(*r) == body.skip(used),
            views.len() == v@.len(),
            forall|j: int| 0 <= j < views.len() ==> #[trigger] views[j] == buf_bytes(v@[j]),
            read_entries(body, i as nat, nal_reader()) == Ok::<_, DecodeError>((views, used)),
        decreases count - i,
    {
        let ghost cur = buf_bytes(*r);
        proof {
            lemma_read_entries_unfold(body, (i + 1) as nat, nal_reader());
        }
        let b = match take_nal(r) {
            Ok(b) => b,
            Err(e) => {
                proof {
                    lemma_read_entries_err(body, (i + 1) as nat, count as nat, nal_reader());
                }
                return Err(e);
            },
        };
        let ghost k = cur.len() - buf_bytes(*r).len();
        let ghost bv = buf_bytes(b);
        v.push(b);
        proof {
            views = views.push(bv);
            assert(buf_bytes(*r) =~= body.skip(used + k));
            used = used + k;
        }
        i = i + 1;
    }
    assert(v@.map_values(|b: BytesMut| buf_bytes(b)) =~= views);
    Ok(v)
}

/// Appends each parameter set with its length.
fn put_nals(w: &mut BytesMut, v: &Vec<BytesMut>)
    requires
        buf_bytes(*old(w)).len() + nal_list(v@.map_values(|b: BytesMut| buf_bytes(b))).len()
            <= max_buf(),
        forall|i: int| 0 <= i < v@.len() ==> #[trigger] buf_bytes(v@[i]).len() <= 0xffff,
    ensures
        buf_bytes(*final(w)) == buf_bytes(*old(w)) + nal_list(
            v@.map_values(|b: BytesMut| buf_bytes(b)),
        ),
{
    let ghost w0 = buf_bytes(*w);
    let ghost vs = v@.map_values(|b: BytesMut| buf_bytes(b));
    let mut i: usize = 0;
    assert(vs.take(0) =~= Seq::<Seq<u8>>::empty());
    assert(w0 + nal_list(vs.take(0)) =~= w0);
    while i < v.len()
        invariant
            i <= v@.len(),
            vs == v@.map_values(|b: BytesMut| buf_bytes(b)),
            forall|j: int| 0 <= j < v@.len() ==> #[trigger] buf_bytes(v@[j]).len() <= 0xffff,
            w0.len() + nal_list(vs).len() <= max_buf(),
            buf_bytes(*w) == w0 + nal_list(vs.take(i as int)),
        decreases v@.len() - i,
    {
        proof {
            lemma_nal_list_prefix(vs, i as int);
        }
        let n = buf_len(&v[i]);
        put_u16(w, n as u16);
        put_buf(w, &v[i]);
        proof {
            assert(vs.take(i + 1).drop_last() =~= vs.take(i as int));
            assert(buf_bytes(*w) =~= w0 + nal_list(vs.take(i + 1)));
        }
        i = i + 1;
    }
    assert(vs.take(i as int) =~= vs);
}

/// The sets before the `k`-th, and that set, fit in the bytes of all.
#[verifier::rlimit(100)]
#[verifier::spinoff_prover]
pub proof fn lemma_nal_list_prefix(v: Seq<Seq<u8>>, k: int)
    requires
        0 <= k < v.len(),
    ensures
        nal_list(v.take(k)).len() + nal_bytes(v[k]).len() <= nal_list(v).len(),
        nal_list(v.take(k + 1)) == nal_list(v.take(k)) + nal_bytes(v[k]),
    decreases v.len(),
{
    assert(v.take(k + 1).drop_last() =~= v.take(k));
    if k < v.len() - 1 {
        lemma_nal_list_prefix(v.drop_last(), k);
        assert(v.drop_last().take(k) =~= v.take(k));
        assert(v.drop_last().take(k + 1) =~= v.take(k + 1));
        assert(v.drop_last()[k] == v[k]);
    } else {
        assert(v.take(k + 1) =~= v);
    }
}

/// The number of bytes of a list of parameter sets.
fn nals_len(v: &Vec<BytesMut>) -> (r: usize)
    requires
        nal_list(v@.map_values(|b: BytesMut| buf_bytes(b))).len() <= max_buf(),
    ensures
        r == nal_list(v@.map_values(|b: BytesMut| buf_bytes(b))).len(),
{
    let ghost vs = v@.map_values(|b: BytesMut| buf_bytes(b));
    let mut n: usize = 0;
    let mut i: usize = 0;
    assert(vs.take(0) =~= Seq::<Seq<u8>>::empty());
    while i < v.len()
        invariant
            i <= v@.len(),
            vs == v@.map_values(|b: BytesMut| buf_bytes(b)),
            nal_list(vs).len() <= max_buf(),
            n == nal_list(vs.take(i as int)).len(),
        decreases v@.len() - i,
    {
        proof {
            lemma_nal_list_prefix(vs, i as int);
        }
        n = n + 2 + buf_len(&v[i]);
        i = i + 1;
    }
    assert(vs.take(i as int) =~= vs);
    n
}

impl avcC {
    pub const BOX_TYPE: u32 = 0x61766343;

    #[verifier::spinoff_prover]
    pub fn len(&self) -> (r: usize)
        requires
            self@.bytes().len() <= max_buf(),
        ensures
            r == self@.bytes().len(),
    {
        7 + nals_len(&self.sps) + nals_len(&self.pps) + buf_len(&self.ext)
    }

    #[verifier::rlimit(100)]
    #[verifier::spinoff_prover]
    pub fn parse(r: &mut BytesMut) -> (res: Result<avcC, DecodeError>)
        ensures
            match res {
                Ok(v) => AvcCModel::parse(buf_bytes(*old(r))) matches Ok((m, n)) && m == v@
                    && buf_bytes(*final(r)) == buf_bytes(*old(r)).skip(n),
                Err(e) => AvcCModel::parse(buf_bytes(*old(r))) == Err::<(AvcCModel, int), _>(e),
            },
    {
        let ghost s = buf_bytes(*r);
        if buf_len(r) < 6 {
            return Err(DecodeError::Truncated);
        }
        let configuration_version = take_u8(r);
        let profile_indication = take_u8(r);
        let profile_compatibility = take_u8(r);
        let level_indication = take_u8(r);
        let length_size_minus_one = take_u8(r) % 4;
        let nb_sps = take_u8(r) % 32;
        let sps = match take_nals(r, nb_sps) {
            Ok(v) => v,
            Err(e) => return Err(e),
        };
        let ghost n1 = s.len() - 6 - buf_bytes(*r).len();
        if buf_len(r) == 0 {
            return Err(DecodeError::Truncated);
        }
        let nb_pps = take_u8(r) % 32;
        assert(s.skip(6).skip(n1)[0] == s[6 + n1]);
        let pps = match take_nals(r, nb_pps) {
            Ok(v) => v,
            Err(e) => return Err(e),
        };
        let n = buf_len(r);
        let ext = take_bytes(r, n);
        assert(buf_bytes(ext) =~= s.skip(s.len() - n));
        assert(buf_bytes(*r) =~= s.skip(s.len() as int));
        Ok(
            avcC {
                configuration_version,
                profile_indication,
                profile_compatibility,
                level_indication,
                length_size_minus_one,
                sps,
                pps,
                ext,
            },
        )
    }

    #[verifier::rlimit(100)]
    #[verifier::spinoff_prover]
    pub fn write(&self, w: &mut BytesMut)
        requires
            self@.wf(),
            buf_bytes(*old(w)).len() + self@.bytes().len() <= max_buf(),
        ensures
            buf_bytes(*final(w)) == buf_bytes(*old(w)) + self@.bytes(),
    {
        let ghost w0 = buf_bytes(*w);
        let ghost m = self@;
        put_u8(w, self.configuration_version);
        put_u8(w, self.profile_indication);
        put_u8(w, self.profile_compatibility);
        put_u8(w, self.level_indication);
        put_u8(w, 0xfc + self.length_size_minus_one % 4);
        put_u8(w, 0xe0 + self.sps.len() as u8);
        assert forall|i: int| 0 <= i < self.sps@.len() implies #[trigger] buf_bytes(self.sps@[i]).len()
            <= 0xffff by {
            assert(m.sps[i] == buf_bytes(self.sps@[i]));
        }
        assert forall|i: int| 0 <= i < self.pps@.len() implies #[trigger] buf_bytes(self.pps@[i]).len()
            <= 0xffff by {
            assert(m.pps[i] == buf_bytes(self.pps@[i]));
        }
        put_nals(w, &self.sps);
        put_u8(w, self.pps.len() as u8);
        put_nals(w, &self.pps);
        put_buf(w, &self.ext);
        assert(buf_bytes(*w) =~= w0 + self@.bytes());
    }

    pub fn as_bytes(&self) -> (r: BytesMut)
        requires
            self@.wf(),
            self@.bytes().len() <= max_buf(),
        ensures
            buf_bytes(r) == self@.bytes(),
    {
        let mut w = buf_new();
        self.write(&mut w);
        assert(buf_bytes(w) =~= self@.bytes());
        w
    }
}

/// Reading as many parameter sets as were encoded gives them back.
#[verifier::rlimit(100)]
#[verifier::spinoff_prover]
proof fn lemma_read_nals(v: Seq<Seq<u8>>, rest: Seq<u8>)
    requires
        forall|i: int| 0 <= i < v.len() ==> #[trigger] v[i].len() <= 0xffff,
    ensures
        read_entries(nal_list(v) + rest, v.len(), nal_reader()) == Ok::<_, DecodeError>(
            (v, nal_list(v).len() as int),
        ),
    decreases v.len(),
{
    lemma_read_entries_unfold(nal_list(v) + rest, v.len(), nal_reader());
    if v.len() > 0 {
        let init = v.drop_last();
        let last = v.last();
        let x = nal_bytes(last) + rest;
        let whole = nal_list(v) + rest;
        assert(whole =~= nal_list(init) + x);
        assert forall|i: int| 0 <= i < init.len() implies #[trigger] init[i].len() <= 0xffff by {
            assert(init[i] == v[i]);
        }
        lemma_read_nals(init, x);
        let n0 = nal_list(init).len() as int;
        assert(whole.skip(n0) =~= x);
        assert(be16_at(x, 0) == be16_at(be16(last.len() as u16), 0));
        assert(x.subrange(2, 2 + last.len() as int) =~= last);
        assert(nal_reader()(whole.skip(n0)) == Ok::<_, DecodeError>(
            (Some(last), 2 + last.len() as int),
        ));
        assert(init.push(last) =~= v);
    } else {
        assert(v =~= Seq::<Seq<u8>>::empty());
    }
}

/// Decoding an encoded record gives it back, given a length size that fits
/// two bits: the reserved bits written as ones are not kept.
#[verifier::rlimit(100)]
#[verifier::spinoff_prover]
pub proof fn lemma_avcc_round_trip(m: AvcCModel)
    requires
        m.wf(),
        m.length_size_minus_one < 4,
    ensures
        AvcCModel::parse(m.bytes()) == Ok::<_, DecodeError>((m, m.bytes().len() as int)),
{
    let s = m.bytes();
    let l1 = nal_list(m.sps);
    let l2 = nal_list(m.pps);
    let tail = seq![m.pps.len() as u8] + l2 + m.ext;
    assert(s.skip(6) =~= l1 + tail);
    lemma_read_nals(m.sps, tail);
    assert(s[5] % 32 == m.sps.len());
    assert(s[4] % 4 == m.length_size_minus_one);
    let n1 = l1.len() as int;
    assert(s[6 + n1] == m.pps.len() as u8);
    assert(s.skip(7 + n1) =~= l2 + m.ext);
    lemma_read_nals(m.pps, m.ext);
    assert(s.skip(7 + n1 + l2.len()) =~= m.ext);
}

} // verus!
