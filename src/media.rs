//! The header boxes of the movie, of a track and of a track's media, whose
//! time fields are 32 or 64 bits wide, and the handler reference box.
use crate::buf::{
    be16, be16_at, be24_at, be32, be32_at, be32_seq, be64, be64_at, buf_bytes, buf_len, buf_new,
    group_be, lemma_be32_seq, lemma_read_skip, max_buf, put_text, put_u16, put_u32, put_u64,
    put_words, put_zeros, take_text, take_u16, take_u32, take_u64, take_words, zeros,
};
use crate::object::{DecodeError, FullBox};
use bytes::BytesMut;
use vstd::prelude::*;
use vstd::utf8::{decode_utf8, encode_utf8, valid_utf8};

verus! {

broadcast use {group_be, vstd::utf8::group_utf8_lib};

/// Whether any of the three time values needs 64 bits.
pub open spec fn needs_wide(a: u64, b: u64, c: u64) -> bool {
    a > u32::MAX || b > u32::MAX || c > u32::MAX
}

fn is_wide(a: u64, b: u64, c: u64) -> (r: bool)
    ensures
        r == needs_wide(a, b, c),
{
    a > u32::MAX as u64 || b > u32::MAX as u64 || c > u32::MAX as u64
}

/// The time block shared by `mvhd` and `mdhd`: creation and modification
/// time, a 32-bit middle field, and the duration.
pub open spec fn times_bytes(wide: bool, a: u64, b: u64, mid: u32, d: u64) -> Seq<u8> {
    if wide {
        be64(a) + be64(b) + be32(mid) + be64(d)
    } else {
        be32(a as u32) + be32(b as u32) + be32(mid) + be32(d as u32)
    }
}

fn put_times(w: &mut BytesMut, wide: bool, a: u64, b: u64, mid: u32, d: u64)
    requires
        buf_bytes(*old(w)).len() + 28 <= max_buf(),
    ensures
        buf_bytes(*final(w)) == buf_bytes(*old(w)) + times_bytes(wide, a, b, mid, d),
{
    let ghost w0 = buf_bytes(*w);
    if wide {
        put_u64(w, a);
        put_u64(w, b);
        put_u32(w, mid);
        put_u64(w, d);
    } else {
        put_u32(w, a as u32);
        put_u32(w, b as u32);
        put_u32(w, mid);
        put_u32(w, d as u32);
    }
    assert(buf_bytes(*w) =~= w0 + times_bytes(wide, a, b, mid, d));
}

/// Copies nine words into a matrix.
fn to_matrix(v: &Vec<u32>) -> (m: [u32; 9])
    requires
        v@.len() == 9,
    ensures
        m@ == v@,
{
    let mut m = [0u32; 9];
    let mut i: usize = 0;
    while i < 9
        invariant
            i <= 9,
            v@.len() == 9,
            forall|j: int| 0 <= j < i ==> m@[j] == v@[j],
        decreases 9 - i,
    {
        m[i] = v[i];
        i = i + 1;
    }
    assert(m@ =~= v@);
    m
}

/// What an `mvhd` box holds. The version is not kept: encoding picks the
/// narrowest one that holds the times.
pub struct MvhdModel {
    pub creation_time: u64,
    pub modification_time: u64,
    pub timescale: u32,
    pub duration: u64,
    pub rate: u32,
    pub volume: u16,
    pub matrix: Seq<u32>,
    pub next_track_id: u32,
}

impl MvhdModel {
    pub open spec fn wide(self) -> bool {
        needs_wide(self.creation_time, self.modification_time, self.duration)
    }

    pub open spec fn bytes(self) -> Seq<u8> {
        be32(
            if self.wide() {
                0x01000000
            } else {
                0
            },
        ) + times_bytes(
            self.wide(),
            self.creation_time,
            self.modification_time,
            self.timescale,
            self.duration,
        ) + (be32(self.rate) + be16(self.volume) + zeros(10) + be32_seq(self.matrix) + zeros(24)
            + be32(self.next_track_id))
    }

    /// Reads the 32-bit layout, or the 64-bit one where the version is 1.
    pub open spec fn parse(s: Seq<u8>) -> Result<(MvhdModel, int), DecodeError> {
        if s.len() < 4 {
            Err(DecodeError::Truncated)
        } else {
            let wide = s[0] == 1;
            let t: int = if wide {
                32
            } else {
                20
            };
            if s.len() < t + 80 {
                Err(DecodeError::Truncated)
            } else {
                Ok(
                    (
                        MvhdModel {
                            creation_time: if wide {
                                be64_at(s, 4)
                            } else {
                                be32_at(s, 4) as u64
                            },
                            modification_time: if wide {
                                be64_at(s, 12)
                            } else {
                                be32_at(s, 8) as u64
                            },
                            timescale: if wide {
                                be32_at(s, 20)
                            } else {
                                be32_at(s, 12)
                            },
                            duration: if wide {
                                be64_at(s, 24)
                            } else {
                                be32_at(s, 16) as u64
                            },
                            rate: be32_at(s, t),
                            volume: be16_at(s, t + 4),
                            matrix: Seq::new(9, |i: int| be32_at(s, t + 16 + 4 * i)),
                            next_track_id: be32_at(s, t + 76),
                        },
                        t + 80,
                    ),
                )
            }
        }
    }
}

/// Reads the time block of `mvhd` or `mdhd` from the front of `r`.
fn take_times(r: &mut BytesMut, wide: bool) -> (res: (u64, u64, u32, u64))
    requires
        buf_bytes(*old(r)).len() >= (if wide {
            28int
        } else {
            16
        }),
    ensures
        ({
            let s = buf_bytes(*old(r));
            &&& res.0 == (if wide {
                be64_at(s, 0)
            } else {
                be32_at(s, 0) as u64
            })
            &&& res.1 == (if wide {
                be64_at(s, 8)
            } else {
                be32_at(s, 4) as u64
            })
            &&& res.2 == (if wide {
                be32_at(s, 16)
            } else {
                be32_at(s, 8)
            })
            &&& res.3 == (if wide {
                be64_at(s, 20)
            } else {
                be32_at(s, 12) as u64
            })
            &&& buf_bytes(*final(r)) == s.skip(
                if wide {
                    28
                } else {
                    16
                },
            )
        }),
{
    let ghost s = buf_bytes(*r);
    if wide {
        let a = take_u64(r);
        proof {
            lemma_read_skip(s, 8);
            lemma_read_skip(s, 16);
            lemma_read_skip(s, 20);
        }
        let b = take_u64(r);
        let m = take_u32(r);
        let d = take_u64(r);
        (a, b, m, d)
    } else {
        let a = take_u32(r);
        proof {
            lemma_read_skip(s, 4);
            lemma_read_skip(s, 8);
            lemma_read_skip(s, 12);
        }
        let b = take_u32(r);
        let m = take_u32(r);
        let d = take_u32(r);
        (a as u64, b as u64, m, d as u64)
    }
}

/// Movie header.
#[allow(non_camel_case_types)]
#[derive(Debug, Clone, PartialEq, Eq)]
pub struct mvhd {
    pub creation_time: u64,
    pub modification_time: u64,
    pub timescale: u32,
    pub duration: u64,
    pub rate: u32,
    pub volume: u16,
    pub matrix: [u32; 9],
    pub next_track_id: u32,
}

impl View for mvhd {
    type V = MvhdModel;

    open spec fn view(&self) -> MvhdModel {
        MvhdModel {
            creation_time: self.creation_time,
            modification_time: self.modification_time,
            timescale: self.timescale,
            duration: self.duration,
            rate: self.rate,
            volume: self.volume,
            matrix: self.matrix@,
            next_track_id: self.next_track_id,
        }
    }
}

/// The unity matrix.
pub open spec fn unity_matrix() -> Seq<u32> {
    seq![0x00010000u32, 0, 0, 0, 0x00010000, 0, 0, 0, 0x40000000]
}

/// The unity matrix.
pub fn unity() -> (m: [u32; 9])
    ensures
        m@ == unity_matrix(),
{
    let mut m = [0u32; 9];
    m[0] = 0x00010000;
    m[4] = 0x00010000;
    m[8] = 0x40000000;
    assert(m@ =~= unity_matrix());
    m
}

impl MvhdModel {
    pub open spec fn initial() -> MvhdModel {
        MvhdModel {
            creation_time: 0,
            modification_time: 0,
            timescale: 0,
            duration: 0,
            rate: 0x00010000,
            volume: 0x0100,
            matrix: unity_matrix(),
            next_track_id: 0,
        }
    }
}

impl Default for mvhd {
    fn default() -> (r: Self)
        ensures
            r@ == MvhdModel::initial(),
    {
        mvhd {
            creation_time: 0,
            modification_time: 0,
            timescale: 0,
            duration: 0,
            rate: 0x00010000,
            volume: 0x0100,
            matrix: unity(),
            next_track_id: 0,
        }
    }
}

impl mvhd {
    pub const BOX_TYPE: u32 = 0x6d766864;

    #[verifier::rlimit(100)]
    #[verifier::spinoff_prover]
    pub fn len(&self) -> (r: usize)
        ensures
            r == self@.bytes().len(),
    {
        proof {
            lemma_be32_seq(self.matrix@);
        }
        if is_wide(self.creation_time, self.modification_time, self.duration) {
            112
        } else {
            100
        }
    }

    #[verifier::rlimit(100)]
    #[verifier::spinoff_prover]
    pub fn parse(r: &mut BytesMut) -> (res: Result<mvhd, DecodeError>)
        ensures
            match res {
                Ok(v) => MvhdModel::parse(buf_bytes(*old(r))) matches Ok((m, n)) && m == v@
                    && buf_bytes(*final(r)) == buf_bytes(*old(r)).skip(n),
                Err(e) => MvhdModel::parse(buf_bytes(*old(r))) == Err::<(MvhdModel, int), _>(e),
            },
    {
        let ghost s = buf_bytes(*r);
        let n = buf_len(r);
        let base = match FullBox::parse(r) {
            Ok(b) => b,
            Err(e) => return Err(e),
        };
        let wide = base.version == 1;
        let t: usize = if wide {
            32
        } else {
            20
        };
        if n < t + 80 {
            return Err(DecodeError::Truncated);
        }
        let times = take_times(r, wide);
        let rate = take_u32(r);
        proof {
            lemma_read_skip(s, t as int);
            lemma_read_skip(s, t + 4);
        }
        let volume = take_u16(r);
        let _ = take_u16(r);
        let _ = take_u64(r);
        let words = take_words(r, 9);
        proof {
            lemma_read_skip(s, t + 76);
            assert forall|i: int| 0 <= i < 9 implies words@[i] == be32_at(s, t + 16 + 4 * i) by {
                lemma_read_skip(s, t + 16 + 4 * i);
                lemma_read_skip(s.skip(t + 16), 4 * i);
            }
        }
        let matrix = to_matrix(&words);
        let _ = take_u64(r);
        let _ = take_u64(r);
        let _ = take_u64(r);
        let next_track_id = take_u32(r);
        let v = mvhd {
            creation_time: times.0,
            modification_time: times.1,
            timescale: times.2,
            duration: times.3,
            rate,
            volume,
            matrix,
            next_track_id,
        };
        assert(v@.matrix =~= MvhdModel::parse(s)->Ok_0.0.matrix);
        Ok(v)
    }

    #[verifier::rlimit(100)]
    #[verifier::spinoff_prover]
    pub fn write(&self, w: &mut BytesMut)
        requires
            buf_bytes(*old(w)).len() + 112 <= max_buf(),
        ensures
            buf_bytes(*final(w)) == buf_bytes(*old(w)) + self@.bytes(),
    {
        let ghost w0 = buf_bytes(*w);
        proof {
            lemma_be32_seq(self.matrix@);
        }
        let wide = is_wide(self.creation_time, self.modification_time, self.duration);
        put_u32(
            w,
            if wide {
                0x01000000
            } else {
                0
            },
        );
        put_times(w, wide, self.creation_time, self.modification_time, self.timescale, self.duration);
        put_u32(w, self.rate);
        put_u16(w, self.volume);
        put_zeros(w, 10);
        put_words(w, self.matrix.as_slice());
        put_zeros(w, 24);
        put_u32(w, self.next_track_id);
        assert(buf_bytes(*w) =~= w0 + self@.bytes());
    }

    pub fn as_bytes(&self) -> (r: BytesMut)
        ensures
            buf_bytes(r) == self@.bytes(),
    {
        let mut w = buf_new();
        self.write(&mut w);
        assert(buf_bytes(w) =~= self@.bytes());
        w
    }
}

/// Encoding an `mvhd` writes version 1 exactly when a time needs 64 bits,
/// and decoding the result gives back the same box.
#[verifier::rlimit(100)]
#[verifier::spinoff_prover]
pub proof fn lemma_mvhd_round_trip(m: MvhdModel)
    requires
        m.matrix.len() == 9,
    ensures
        m.bytes()[0] == (if m.wide() {
            1u8
        } else {
            0u8
        }),
        MvhdModel::parse(m.bytes()) == Ok::<_, DecodeError>((m, m.bytes().len() as int)),
{
    let wide = m.wide();
    let v: u32 = if wide {
        0x01000000
    } else {
        0
    };
    let h = be32(v);
    let tb = times_bytes(wide, m.creation_time, m.modification_time, m.timescale, m.duration);
    let tail = be32(m.rate) + be16(m.volume) + zeros(10) + be32_seq(m.matrix) + zeros(24) + be32(
        m.next_track_id,
    );
    let s = m.bytes();
    lemma_be32_seq(m.matrix);
    assert(s == h + tb + tail);
    assert(s[0] == h[0]);
    let t: int = (h.len() + tb.len()) as int;
    if wide {
        assert(be64_at(s, 4) == be64_at(be64(m.creation_time), 0));
        assert(be64_at(s, 12) == be64_at(be64(m.modification_time), 0));
        assert(be32_at(s, 20) == be32_at(be32(m.timescale), 0));
        assert(be64_at(s, 24) == be64_at(be64(m.duration), 0));
    } else {
        assert(be32_at(s, 4) == be32_at(be32(m.creation_time as u32), 0));
        assert(be32_at(s, 8) == be32_at(be32(m.modification_time as u32), 0));
        assert(be32_at(s, 12) == be32_at(be32(m.timescale), 0));
        assert(be32_at(s, 16) == be32_at(be32(m.duration as u32), 0));
    }
    assert(be32_at(s, t) == be32_at(be32(m.rate), 0));
    assert(be16_at(s, t + 4) == be16_at(be16(m.volume), 0));
    assert(be32_at(s, t + 76) == be32_at(be32(m.next_track_id), 0));
    let p = MvhdModel::parse(s)->Ok_0.0;
    assert forall|i: int| 0 <= i < 9 implies p.matrix[i] == m.matrix[i] by {
        assert(be32_at(s, t + 16 + 4 * i) == be32_at(be32_seq(m.matrix), 4 * i));
    }
    assert(p.matrix =~= m.matrix);
}

/// What a `tkhd` box holds. The flags are kept; the version is picked by
/// encoding.
pub struct TkhdModel {
    pub flags: u32,
    pub creation_time: u64,
    pub modification_time: u64,
    pub track_id: u32,
    pub duration: u64,
    pub layer: u16,
    pub alternate_group: u16,
    pub volume: u16,
    pub matrix: Seq<u32>,
    pub width: u32,
    pub height: u32,
}

impl TkhdModel {
    pub open spec fn wide(self) -> bool {
        needs_wide(self.creation_time, self.modification_time, self.duration)
    }

    pub open spec fn times(self) -> Seq<u8> {
        if self.wide() {
            be64(self.creation_time) + be64(self.modification_time) + be32(self.track_id) + be32(0)
                + be64(self.duration)
        } else {
            be32(self.creation_time as u32) + be32(self.modification_time as u32) + be32(
                self.track_id,
            ) + be32(0) + be32(self.duration as u32)
        }
    }

    pub open spec fn bytes(self) -> Seq<u8> {
        FullBox {
            version: if self.wide() {
                1
            } else {
                0
            },
            flags: self.flags,
        }.spec_bytes() + self.times() + (be64(0) + be16(self.layer) + be16(self.alternate_group)
            + be16(self.volume) + be16(0) + be32_seq(self.matrix) + be32(self.width) + be32(
            self.height,
        ))
    }

    pub open spec fn parse(s: Seq<u8>) -> Result<(TkhdModel, int), DecodeError> {
        if s.len() < 4 {
            Err(DecodeError::Truncated)
        } else {
            let wide = s[0] == 1;
            let t: int = if wide {
                36
            } else {
                24
            };
            if s.len() < t + 60 {
                Err(DecodeError::Truncated)
            } else {
                Ok(
                    (
                        TkhdModel {
                            flags: be24_at(s, 1),
                            creation_time: if wide {
                                be64_at(s, 4)
                            } else {
                                be32_at(s, 4) as u64
                            },
                            modification_time: if wide {
                                be64_at(s, 12)
                            } else {
                                be32_at(s, 8) as u64
                            },
                            track_id: if wide {
                                be32_at(s, 20)
                            } else {
                                be32_at(s, 12)
                            },
                            duration: if wide {
                                be64_at(s, 28)
                            } else {
                                be32_at(s, 20) as u64
                            },
                            layer: be16_at(s, t + 8),
                            alternate_group: be16_at(s, t + 10),
                            volume: be16_at(s, t + 12),
                            matrix: Seq::new(9, |i: int| be32_at(s, t + 16 + 4 * i)),
                            width: be32_at(s, t + 52),
                            height: be32_at(s, t + 56),
                        },
                        t + 60,
                    ),
                )
            }
        }
    }
}

/// Track header.
#[allow(non_camel_case_types)]
#[derive(Debug, Clone, PartialEq, Eq)]
pub struct tkhd {
    pub flags: u32,
    pub creation_time: u64,
    pub modification_time: u64,
    pub track_id: u32,
    pub duration: u64,
    pub layer: u16,
    pub alternate_group: u16,
    pub volume: u16,
    pub matrix: [u32; 9],
    pub width: u32,
    pub height: u32,
}

pub const TRACK_ENABLED: u32 = 0x000001;
pub const TRACK_IN_MOVIE: u32 = 0x000002;
pub const TRACK_IN_PREVIEW: u32 = 0x000004;

impl View for tkhd {
    type V = TkhdModel;

    open spec fn view(&self) -> TkhdModel {
        TkhdModel {
            flags: self.flags,
            creation_time: self.creation_time,
            modification_time: self.modification_time,
            track_id: self.track_id,
            duration: self.duration,
            layer: self.layer,
            alternate_group: self.alternate_group,
            volume: self.volume,
            matrix: self.matrix@,
            width: self.width,
            height: self.height,
        }
    }
}

impl TkhdModel {
    pub open spec fn initial() -> TkhdModel {
        TkhdModel {
            flags: (TRACK_ENABLED + TRACK_IN_MOVIE + TRACK_IN_PREVIEW) as u32,
            creation_time: 0,
            modification_time: 0,
            track_id: 0,
            duration: 0,
            layer: 0,
            alternate_group: 0,
            volume: 0,
            matrix: unity_matrix(),
            width: 0,
            height: 0,
        }
    }
}

impl Default for tkhd {
    fn default() -> (r: Self)
        ensures
            r@ == TkhdModel::initial(),
    {
        tkhd {
            flags: TRACK_ENABLED + TRACK_IN_MOVIE + TRACK_IN_PREVIEW,
            creation_time: 0,
            modification_time: 0,
            track_id: 0,
            duration: 0,
            layer: 0,
            alternate_group: 0,
            volume: 0,
            matrix: unity(),
            width: 0,
            height: 0,
        }
    }
}

impl tkhd {
    pub const BOX_TYPE: u32 = 0x746b6864;

    #[verifier::rlimit(100)]
    #[verifier::spinoff_prover]
    pub fn len(&self) -> (r: usize)
        ensures
            r == self@.bytes().len(),
    {
        proof {
            lemma_be32_seq(self.matrix@);
        }
        if is_wide(self.creation_time, self.modification_time, self.duration) {
            96
        } else {
            84
        }
    }

    #[verifier::rlimit(100)]
    #[verifier::spinoff_prover]
    pub fn parse(r: &mut BytesMut) -> (res: Result<tkhd, DecodeError>)
        ensures
            match res {
                Ok(v) => TkhdModel::parse(buf_bytes(*old(r))) matches Ok((m, n)) && m == v@
                    && buf_bytes(*final(r)) == buf_bytes(*old(r)).skip(n),
                Err(e) => TkhdModel::parse(buf_bytes(*old(r))) == Err::<(TkhdModel, int), _>(e),
            },
    {
        let ghost s = buf_bytes(*r);
        let n = buf_len(r);
        let base = match FullBox::parse(r) {
            Ok(b) => b,
            Err(e) => return Err(e),
        };
        let wide = base.version == 1;
        let t: usize = if wide {
            36
        } else {
            24
        };
        if n < t + 60 {
            return Err(DecodeError::Truncated);
        }
        let creation_time;
        let modification_time;
        let track_id;
        let duration;
        if wide {
            proof {
                lemma_read_skip(s, 4);
                lemma_read_skip(s, 12);
                lemma_read_skip(s, 20);
                lemma_read_skip(s, 28);
            }
            creation_time = take_u64(r);
            modification_time = take_u64(r);
            track_id = take_u32(r);
            let _ = take_u32(r);
            duration = take_u64(r);
        } else {
            proof {
                lemma_read_skip(s, 4);
                lemma_read_skip(s, 8);
                lemma_read_skip(s, 12);
                lemma_read_skip(s, 20);
            }
            creation_time = take_u32(r) as u64;
            modification_time = take_u32(r) as u64;
            track_id = take_u32(r);
            let _ = take_u32(r);
            duration = take_u32(r) as u64;
        }
        proof {
            lemma_read_skip(s, t + 8);
            lemma_read_skip(s, t + 10);
            lemma_read_skip(s, t + 12);
            lemma_read_skip(s, t + 52);
            lemma_read_skip(s, t + 56);
        }
        let _ = take_u64(r);
        let layer = take_u16(r);
        let alternate_group = take_u16(r);
        let volume = take_u16(r);
        let _ = take_u16(r);
        let words = take_words(r, 9);
        proof {
            assert forall|i: int| 0 <= i < 9 implies words@[i] == be32_at(s, t + 16 + 4 * i) by {
                lemma_read_skip(s, t + 16 + 4 * i);
                lemma_read_skip(s.skip(t + 16), 4 * i);
            }
        }
        let matrix = to_matrix(&words);
        let width = take_u32(r);
        let height = take_u32(r);
        let v = tkhd {
            flags: base.flags,
            creation_time,
            modification_time,
            track_id,
            duration,
            layer,
            alternate_group,
            volume,
            matrix,
            width,
            height,
        };
        assert(v@.matrix =~= TkhdModel::parse(s)->Ok_0.0.matrix);
        Ok(v)
    }

    #[verifier::rlimit(100)]
    #[verifier::spinoff_prover]
    pub fn write(&self, w: &mut BytesMut)
        requires
            buf_bytes(*old(w)).len() + 96 <= max_buf(),
        ensures
            buf_bytes(*final(w)) == buf_bytes(*old(w)) + self@.bytes(),
    {
        let ghost w0 = buf_bytes(*w);
        proof {
            lemma_be32_seq(self.matrix@);
        }
        let wide = is_wide(self.creation_time, self.modification_time, self.duration);
        let h = FullBox::new(
            if wide {
                1
            } else {
                0
            },
            self.flags,
        );
        h.write(w);
        if wide {
            put_u64(w, self.creation_time);
            put_u64(w, self.modification_time);
            put_u32(w, self.track_id);
            put_u32(w, 0);
            put_u64(w, self.duration);
        } else {
            put_u32(w, self.creation_time as u32);
            put_u32(w, self.modification_time as u32);
            put_u32(w, self.track_id);
            put_u32(w, 0);
            put_u32(w, self.duration as u32);
        }
        assert(buf_bytes(*w) =~= w0 + h.spec_bytes() + self@.times());
        put_u64(w, 0);
        put_u16(w, self.layer);
        put_u16(w, self.alternate_group);
        put_u16(w, self.volume);
        put_u16(w, 0);
        put_words(w, self.matrix.as_slice());
        put_u32(w, self.width);
        put_u32(w, self.height);
        assert(buf_bytes(*w) =~= w0 + self@.bytes());
    }

    pub fn as_bytes(&self) -> (r: BytesMut)
        ensures
            buf_bytes(r) == self@.bytes(),
    {
        let mut w = buf_new();
        self.write(&mut w);
        assert(buf_bytes(w) =~= self@.bytes());
        w
    }
}

/// Encoding a `tkhd` writes version 1 exactly when a time needs 64 bits,
/// and decoding the result gives back the same box.
#[verifier::rlimit(100)]
#[verifier::spinoff_prover]
pub proof fn lemma_tkhd_round_trip(m: TkhdModel)
    requires
        m.matrix.len() == 9,
        m.flags < 0x1000000,
    ensures
        m.bytes()[0] == (if m.wide() {
            1u8
        } else {
            0u8
        }),
        TkhdModel::parse(m.bytes()) == Ok::<_, DecodeError>((m, m.bytes().len() as int)),
{
    let wide = m.wide();
    let h = FullBox {
        version: if wide {
            1
        } else {
            0
        },
        flags: m.flags,
    };
    let hb = h.spec_bytes();
    let tb = m.times();
    let tail = be64(0) + be16(m.layer) + be16(m.alternate_group) + be16(m.volume) + be16(0)
        + be32_seq(m.matrix) + be32(m.width) + be32(m.height);
    let s = m.bytes();
    lemma_be32_seq(m.matrix);
    assert(s == hb + tb + tail);
    assert(s[0] == hb[0]);
    assert(be24_at(s, 1) == be24_at(crate::buf::be24(m.flags), 0));
    let t: int = (hb.len() + tb.len()) as int;
    if wide {
        assert(be64_at(s, 4) == be64_at(be64(m.creation_time), 0));
        assert(be64_at(s, 12) == be64_at(be64(m.modification_time), 0));
        assert(be32_at(s, 20) == be32_at(be32(m.track_id), 0));
        assert(be64_at(s, 28) == be64_at(be64(m.duration), 0));
    } else {
        assert(be32_at(s, 4) == be32_at(be32(m.creation_time as u32), 0));
        assert(be32_at(s, 8) == be32_at(be32(m.modification_time as u32), 0));
        assert(be32_at(s, 12) == be32_at(be32(m.track_id), 0));
        assert(be32_at(s, 20) == be32_at(be32(m.duration as u32), 0));
    }
    assert(be16_at(s, t + 8) == be16_at(be16(m.layer), 0));
    assert(be16_at(s, t + 10) == be16_at(be16(m.alternate_group), 0));
    assert(be16_at(s, t + 12) == be16_at(be16(m.volume), 0));
    assert(be32_at(s, t + 52) == be32_at(be32(m.width), 0));
    assert(be32_at(s, t + 56) == be32_at(be32(m.height), 0));
    let p = TkhdModel::parse(s)->Ok_0.0;
    assert forall|i: int| 0 <= i < 9 implies p.matrix[i] == m.matrix[i] by {
        assert(be32_at(s, t + 16 + 4 * i) == be32_at(be32_seq(m.matrix), 4 * i));
    }
    assert(p.matrix =~= m.matrix);
}

/// What an `mdhd` box holds. The flags are kept; the version is picked by
/// encoding.
pub struct MdhdModel {
    pub flags: u32,
    pub creation_time: u64,
    pub modification_time: u64,
    pub timescale: u32,
    pub duration: u64,
    pub language: u16,
}

impl MdhdModel {
    pub open spec fn wide(self) -> bool {
        needs_wide(self.creation_time, self.modification_time, self.duration)
    }

    pub open spec fn bytes(self) -> Seq<u8> {
        FullBox {
            version: if self.wide() {
                1
            } else {
                0
            },
            flags: self.flags,
        }.spec_bytes() + times_bytes(
            self.wide(),
            self.creation_time,
            self.modification_time,
            self.timescale,
            self.duration,
        ) + (be16(self.language) + be16(0))
    }

    pub open spec fn parse(s: Seq<u8>) -> Result<(MdhdModel, int), DecodeError> {
        if s.len() < 4 {
            Err(DecodeError::Truncated)
        } else {
            let wide = s[0] == 1;
            let t: int = if wide {
                32
            } else {
                20
            };
            if s.len() < t + 4 {
                Err(DecodeError::Truncated)
            } else {
                Ok(
                    (
                        MdhdModel {
                            flags: be24_at(s, 1),
                            creation_time: if wide {
                                be64_at(s, 4)
                            } else {
                                be32_at(s, 4) as u64
                            },
                            modification_time: if wide {
                                be64_at(s, 12)
                            } else {
                                be32_at(s, 8) as u64
                            },
                            timescale: if wide {
                                be32_at(s, 20)
                            } else {
                                be32_at(s, 12)
                            },
                            duration: if wide {
                                be64_at(s, 24)
                            } else {
                                be32_at(s, 16) as u64
                            },
                            language: be16_at(s, t),
                        },
                        t + 4,
                    ),
                )
            }
        }
    }
}

/// Media header: the media's time scale and its packed language code.
#[allow(non_camel_case_types)]
#[derive(Debug, Clone, Copy, PartialEq, Eq)]
pub struct mdhd {
    pub flags: u32,
    pub creation_time: u64,
    pub modification_time: u64,
    pub timescale: u32,
    pub duration: u64,
    pub language: u16,
}

impl View for mdhd {
    type V = MdhdModel;

    open spec fn view(&self) -> MdhdModel {
        MdhdModel {
            flags: self.flags,
            creation_time: self.creation_time,
            modification_time: self.modification_time,
            timescale: self.timescale,
            duration: self.duration,
            language: self.language,
        }
    }
}

impl Default for mdhd {
    fn default() -> (r: Self)
        ensures
            r@ == (MdhdModel {
                flags: 0,
                creation_time: 0,
                modification_time: 0,
                timescale: 0,
                duration: 0,
                language: 0,
            }),
    {
        mdhd {
            flags: 0,
            creation_time: 0,
            modification_time: 0,
            timescale: 0,
            duration: 0,
            language: 0,
        }
    }
}

impl mdhd {
    pub const BOX_TYPE: u32 = 0x6d646864;

    #[verifier::rlimit(100)]
    #[verifier::spinoff_prover]
    pub fn len(&self) -> (r: usize)
        ensures
            r == self@.bytes().len(),
    {
        if is_wide(self.creation_time, self.modification_time, self.duration) {
            36
        } else {
            24
        }
    }

    #[verifier::rlimit(100)]
    #[verifier::spinoff_prover]
    pub fn parse(r: &mut BytesMut) -> (res: Result<mdhd, DecodeError>)
        ensures
            match res {
                Ok(v) => MdhdModel::parse(buf_bytes(*old(r))) matches Ok((m, n)) && m == v@
                    && buf_bytes(*final(r)) == buf_bytes(*old(r)).skip(n),
                Err(e) => MdhdModel::parse(buf_bytes(*old(r))) == Err::<(MdhdModel, int), _>(e),
            },
    {
        let ghost s = buf_bytes(*r);
        let n = buf_len(r);
        let base = match FullBox::parse(r) {
            Ok(b) => b,
            Err(e) => return Err(e),
        };
        let wide = base.version == 1;
        let t: usize = if wide {
            32
        } else {
            20
        };
        if n < t + 4 {
            return Err(DecodeError::Truncated);
        }
        let times = take_times(r, wide);
        proof {
            lemma_read_skip(s, t as int);
        }
        let language = take_u16(r);
        let _ = take_u16(r);
        Ok(
            mdhd {
                flags: base.flags,
                creation_time: times.0,
                modification_time: times.1,
                timescale: times.2,
                duration: times.3,
                language,
            },
        )
    }

    #[verifier::rlimit(100)]
    #[verifier::spinoff_prover]
    pub fn write(&self, w: &mut BytesMut)
        requires
            buf_bytes(*old(w)).len() + 36 <= max_buf(),
        ensures
            buf_bytes(*final(w)) == buf_bytes(*old(w)) + self@.bytes(),
    {
        let ghost w0 = buf_bytes(*w);
        let wide = is_wide(self.creation_time, self.modification_time, self.duration);
        let h = FullBox::new(
            if wide {
                1
            } else {
                0
            },
            self.flags,
        );
        h.write(w);
        put_times(w, wide, self.creation_time, self.modification_time, self.timescale, self.duration);
        put_u16(w, self.language);
        put_u16(w, 0);
        assert(buf_bytes(*w) =~= w0 + self@.bytes());
    }

    pub fn as_bytes(&self) -> (r: BytesMut)
        ensures
            buf_bytes(r) == self@.bytes(),
    {
        let mut w = buf_new();
        self.write(&mut w);
        assert(buf_bytes(w) =~= self@.bytes());
        w
    }
}

/// Encoding an `mdhd` writes version 1 exactly when a time needs 64 bits,
/// and decoding the result gives back the same box.
#[verifier::rlimit(100)]
#[verifier::spinoff_prover]
pub proof fn lemma_mdhd_round_trip(m: MdhdModel)
    requires
        m.flags < 0x1000000,
    ensures
        m.bytes()[0] == (if m.wide() {
            1u8
        } else {
            0u8
        }),
        MdhdModel::parse(m.bytes()) == Ok::<_, DecodeError>((m, m.bytes().len() as int)),
{
    let wide = m.wide();
    let h = FullBox {
        version: if wide {
            1
        } else {
            0
        },
        flags: m.flags,
    };
    let hb = h.spec_bytes();
    let tb = times_bytes(wide, m.creation_time, m.modification_time, m.timescale, m.duration);
    let s = m.bytes();
    assert(s[0] == hb[0]);
    assert(be24_at(s, 1) == be24_at(crate::buf::be24(m.flags), 0));
    if wide {
        assert(be64_at(s, 4) == be64_at(be64(m.creation_time), 0));
        assert(be64_at(s, 12) == be64_at(be64(m.modification_time), 0));
        assert(be32_at(s, 20) == be32_at(be32(m.timescale), 0));
        assert(be64_at(s, 24) == be64_at(be64(m.duration), 0));
        assert(be16_at(s, 32) == be16_at(be16(m.language), 0));
    } else {
        assert(be32_at(s, 4) == be32_at(be32(m.creation_time as u32), 0));
        assert(be32_at(s, 8) == be32_at(be32(m.modification_time as u32), 0));
        assert(be32_at(s, 12) == be32_at(be32(m.timescale), 0));
        assert(be32_at(s, 16) == be32_at(be32(m.duration as u32), 0));
        assert(be16_at(s, 20) == be16_at(be16(m.language), 0));
    }
}

/// What an `hdlr` box holds.
pub struct HdlrModel {
    pub base: FullBox,
    pub handler_type: u32,
    pub name: Seq<char>,
}

impl HdlrModel {
    /// The name's bytes fill the rest of the payload, with no terminator
    /// added.
    pub open spec fn bytes(self) -> Seq<u8> {
        self.base.spec_bytes() + be32(0) + be32(self.handler_type) + zeros(12) + encode_utf8(
            self.name,
        )
    }

    pub open spec fn parse(s: Seq<u8>) -> Result<(HdlrModel, int), DecodeError> {
        if s.len() < 24 {
            Err(DecodeError::Truncated)
        } else if !valid_utf8(s.skip(24)) {
            Err(DecodeError::Malformed)
        } else {
            Ok(
                (
                    HdlrModel {
                        base: FullBox { version: s[0], flags: be24_at(s, 1) },
                        handler_type: be32_at(s, 8),
                        name: decode_utf8(s.skip(24)),
                    },
                    s.len() as int,
                ),
            )
        }
    }
}

/// Handler reference: the kind of media of a track, and a name for it.
#[allow(non_camel_case_types)]
#[derive(Debug, Clone, PartialEq, Eq)]
pub struct hdlr {
    pub base: FullBox,
    pub handler_type: u32,
    pub name: String,
}

impl View for hdlr {
    type V = HdlrModel;

    open spec fn view(&self) -> HdlrModel {
        HdlrModel { base: self.base, handler_type: self.handler_type, name: self.name@ }
    }
}

impl Default for hdlr {
    fn default() -> (r: Self)
        ensures
            r@ == (HdlrModel {
                base: FullBox { version: 0, flags: 0 },
                handler_type: 0,
                name: Seq::empty(),
            }),
    {
        hdlr { base: FullBox::new(0, 0), handler_type: 0, name: String::new() }
    }
}

impl hdlr {
    pub const BOX_TYPE: u32 = 0x68646c72;

    #[verifier::rlimit(100)]
    #[verifier::spinoff_prover]
    pub fn len(&self) -> (r: usize)
        requires
            self@.bytes().len() <= max_buf(),
        ensures
            r == self@.bytes().len(),
    {
        24 + self.name.as_str().as_bytes().len()
    }

    #[verifier::rlimit(100)]
    #[verifier::spinoff_prover]
    pub fn parse(r: &mut BytesMut) -> (res: Result<hdlr, DecodeError>)
        ensures
            match res {
                Ok(v) => HdlrModel::parse(buf_bytes(*old(r))) matches Ok((m, n)) && m == v@
                    && buf_bytes(*final(r)) == buf_bytes(*old(r)).skip(n),
                Err(e) => HdlrModel::parse(buf_bytes(*old(r))) == Err::<(HdlrModel, int), _>(e),
            },
    {
        let ghost s = buf_bytes(*r);
        if buf_len(r) < 24 {
            return Err(DecodeError::Truncated);
        }
        let base = match FullBox::parse(r) {
            Ok(b) => b,
            Err(e) => return Err(e),
        };
        proof {
            lemma_read_skip(s, 8);
        }
        let _ = take_u32(r);
        let handler_type = take_u32(r);
        let _ = take_u32(r);
        let _ = take_u64(r);
        match take_text(r) {
            Some(name) => {
                assert(buf_bytes(*r) =~= s.skip(s.len() as int));
                Ok(hdlr { base, handler_type, name })
            },
            None => Err(DecodeError::Malformed),
        }
    }

    #[verifier::rlimit(100)]
    #[verifier::spinoff_prover]
    pub fn write(&self, w: &mut BytesMut)
        requires
            buf_bytes(*old(w)).len() + self@.bytes().len() <= max_buf(),
        ensures
            buf_bytes(*final(w)) == buf_bytes(*old(w)) + self@.bytes(),
    {
        let ghost w0 = buf_bytes(*w);
        self.base.write(w);
        put_u32(w, 0);
        put_u32(w, self.handler_type);
        put_zeros(w, 12);
        put_text(w, &self.name);
        assert(buf_bytes(*w) =~= w0 + self@.bytes());
    }

    pub fn as_bytes(&self) -> (r: BytesMut)
        requires
            self@.bytes().len() <= max_buf(),
        ensures
            buf_bytes(r) == self@.bytes(),
    {
        let mut w = buf_new();
        self.write(&mut w);
        assert(buf_bytes(w) =~= self@.bytes());
        w
    }
}

/// Decoding an encoded `hdlr` gives it back, given 24-bit flags.
#[verifier::rlimit(100)]
#[verifier::spinoff_prover]
pub proof fn lemma_hdlr_round_trip(m: HdlrModel)
    requires
        m.base.flags < 0x1000000,
    ensures
        HdlrModel::parse(m.bytes()) == Ok::<_, DecodeError>((m, m.bytes().len() as int)),
{
    let s = m.bytes();
    let head = m.base.spec_bytes() + be32(0) + be32(m.handler_type) + zeros(12);
    assert(head.len() == 24);
    assert(s.skip(24) =~= encode_utf8(m.name));
    assert(be24_at(s, 1) == be24_at(crate::buf::be24(m.base.flags), 0));
    assert(be32_at(s, 8) == be32_at(be32(m.handler_type), 0));
    crate::object::lemma_full_box_round_trip(m.base, Seq::empty());
}

} // verus!
