use bytes::{BufMut, BytesMut};
use isobmff::avc::avcC;
use isobmff::edts::{edts, elst};
use isobmff::ftyp::ftyp;
use isobmff::media::{hdlr, mdhd, mvhd, tkhd};
use isobmff::media_info::{dref, DataEntry};
use isobmff::moof::{tfdt, tfhd, traf, trun};
use isobmff::object::{header_len, DecodeError, FullBox, Object};
use isobmff::moov::moov;
use isobmff::mvex::{mvex, trex};
use isobmff::sample_entry::{stsd, SampleEntry};
use isobmff::sample_table::{stco, stsc, stsz, stts};

fn bytes_of(b: &[u8]) -> BytesMut {
    let mut rst = BytesMut::new();
    rst.put(b);
    rst
}

fn unity() -> [u32; 9] {
    [0x00010000, 0, 0, 0, 0x00010000, 0, 0, 0, 0x40000000]
}

fn flags_of(payload: &BytesMut) -> u32 {
    ((payload[1] as u32) << 16) | ((payload[2] as u32) << 8) | payload[3] as u32
}

#[test]
fn ftyp_scenario_round_trip() {
    let b = ftyp {
        major_brand: 0x69736f35,
        minor_version: 1,
        compatible_brands: vec![0x61766331, 0x69736f35, 0x64617368],
    };
    let mut buf = Object { box_type: ftyp::BOX_TYPE, payload: b.as_bytes() }.as_bytes();
    assert_eq!(28, buf.len());
    assert_eq!(&buf[0..8], &[0, 0, 0, 28, b'f', b't', b'y', b'p']);
    let mut obj = Object::parse(&mut buf).unwrap();
    assert_eq!(0x66747970, obj.box_type);
    assert_eq!(20, obj.payload.len());
    assert_eq!(b, ftyp::parse(&mut obj.payload).unwrap());
    assert_eq!(0, buf.len());
}

#[test]
fn trun_columns_follow_first_sample() {
    let mut t = trun::default();
    t.samples.push((None, Some(9814), None, Some(0)));
    t.samples.push((Some(1), Some(817), None, Some(3000)));
    let mut payload = t.as_bytes();
    assert_eq!(0x000200 | 0x000800, flags_of(&payload));
    assert_eq!(8 + 2 * 8, payload.len());
    assert_eq!(t.len(), payload.len());
    let d = trun::parse(&mut payload).unwrap();
    assert_eq!(
        vec![(None, Some(9814), None, Some(0)), (None, Some(817), None, Some(3000))],
        d.samples
    );
}

#[test]
fn trun_all_and_no_columns() {
    let mut all = trun::default();
    all.data_offset = Some(7);
    all.first_sample_flags = Some(9);
    all.samples.push((Some(1), Some(2), Some(3), Some(4)));
    all.samples.push((Some(5), Some(6), Some(7), Some(8)));
    let mut p = all.as_bytes();
    assert_eq!(0x000F05, flags_of(&p));
    assert_eq!(16 + 2 * 16, p.len());
    assert_eq!(all.len(), p.len());
    assert_eq!(all, trun::parse(&mut p).unwrap());

    let mut none = trun::default();
    none.samples.push((None, None, None, None));
    let mut p = none.as_bytes();
    assert_eq!(0, flags_of(&p));
    assert_eq!(8, p.len());
    assert_eq!(none.len(), p.len());
    assert_eq!(none, trun::parse(&mut p).unwrap());
}

#[test]
fn tfhd_flags_from_options() {
    let mut all = tfhd::default();
    all.track_id = 3;
    all.base_data_offset = Some(0x1_0000_0000);
    all.sample_description_index = Some(1);
    all.default_sample_duration = Some(2);
    all.default_sample_size = Some(3);
    all.default_sample_flags = Some(4);
    let mut p = all.as_bytes();
    assert_eq!(0x02003B, flags_of(&p));
    assert_eq!(32, p.len());
    assert_eq!(all.len(), p.len());
    assert_eq!(all, tfhd::parse(&mut p).unwrap());

    let mut none = tfhd::default();
    none.track_id = 3;
    let mut p = none.as_bytes();
    assert_eq!(0x020000, flags_of(&p));
    assert_eq!(8, p.len());
    assert_eq!(none.len(), p.len());
    assert_eq!(none, tfhd::parse(&mut p).unwrap());
}

#[test]
fn tfhd_keeps_moof_bit_off() {
    let mut h = tfhd::default();
    h.default_base_is_moof = false;
    h.default_sample_size = Some(12);
    let mut p = h.as_bytes();
    assert_eq!(0x000010, flags_of(&p));
    assert_eq!(h, tfhd::parse(&mut p).unwrap());
}

#[test]
fn mvhd_version_minimality() {
    let mut m = mvhd {
        creation_time: 1,
        modification_time: 2,
        timescale: 1000,
        duration: u32::MAX as u64,
        rate: 0x00010000,
        volume: 0x0100,
        matrix: unity(),
        next_track_id: 2,
    };
    let mut p = m.as_bytes();
    assert_eq!(0, p[0]);
    assert_eq!(100, p.len());
    assert_eq!(m.len(), p.len());
    assert_eq!(m, mvhd::parse(&mut p).unwrap());

    m.duration = u32::MAX as u64 + 1;
    let mut p = m.as_bytes();
    assert_eq!(1, p[0]);
    assert_eq!(112, p.len());
    assert_eq!(m.len(), p.len());
    assert_eq!(m, mvhd::parse(&mut p).unwrap());
}

#[test]
fn tkhd_and_mdhd_version_minimality() {
    let mut t = tkhd::default();
    t.track_id = 1;
    let mut p = t.as_bytes();
    assert_eq!(0, p[0]);
    assert_eq!(84, p.len());
    assert_eq!(t, tkhd::parse(&mut p).unwrap());
    t.creation_time = 1 << 40;
    let mut p = t.as_bytes();
    assert_eq!(1, p[0]);
    assert_eq!(96, p.len());
    assert_eq!(t.len(), p.len());
    assert_eq!(t, tkhd::parse(&mut p).unwrap());

    let mut d = mdhd::default();
    d.timescale = 90000;
    let mut p = d.as_bytes();
    assert_eq!((0, 24), (p[0], p.len()));
    assert_eq!(d, mdhd::parse(&mut p).unwrap());
    d.modification_time = u64::MAX;
    let mut p = d.as_bytes();
    assert_eq!((1, 36), (p[0], p.len()));
    assert_eq!(d.len(), p.len());
    assert_eq!(d, mdhd::parse(&mut p).unwrap());
}

#[test]
fn tfdt_width() {
    assert_eq!(0, tfdt::new(5).base.version);
    assert_eq!(1, tfdt::new(u32::MAX as u64 + 1).base.version);
    let t = tfdt::new(u32::MAX as u64 + 1);
    let mut p = t.as_bytes();
    assert_eq!(12, p.len());
    assert_eq!(t, tfdt::parse(&mut p).unwrap());
    let t = tfdt::new(60000);
    let mut p = t.as_bytes();
    assert_eq!(8, p.len());
    assert_eq!(t, tfdt::parse(&mut p).unwrap());
}

#[test]
fn unknown_child_is_dropped() {
    let mut h = tfhd::default();
    h.track_id = 9;
    let header = Object { box_type: tfhd::BOX_TYPE, payload: h.as_bytes() }.as_bytes();
    let mut payload = BytesMut::new();
    payload.put(&header[..]);
    payload.put(&Object { box_type: 0x61626364, payload: bytes_of(&[1, 2, 3]) }.as_bytes()[..]);
    let d = traf::parse(&mut payload).unwrap();
    assert_eq!(h, d.tfhd);
    assert_eq!(None, d.tfdt);
    assert!(d.truns.is_empty());
    assert_eq!(&header[..], &d.as_bytes()[..]);
}

#[test]
fn extended_size_boundary() {
    assert_eq!(16, header_len(u32::MAX as usize - 8));
    assert_eq!(8, header_len(u32::MAX as usize - 9));
    assert_eq!(8, header_len(0));
    let b = Object { box_type: 0x66726565, payload: bytes_of(&[7; 5]) }.as_bytes();
    assert_eq!(&b[0..4], &[0, 0, 0, 13]);
}

#[test]
fn extended_size_decodes() {
    let mut raw = bytes_of(&[0, 0, 0, 1, b'f', b'r', b'e', b'e', 0, 0, 0, 0, 0, 0, 0, 19, 1, 2, 3, 9]);
    let o = Object::parse(&mut raw).unwrap();
    assert_eq!(0x66726565, o.box_type);
    assert_eq!(&o.payload[..], &[1, 2, 3]);
    assert_eq!(&raw[..], &[9]);
}

#[test]
fn size_zero_takes_the_rest() {
    let mut raw = bytes_of(&[0, 0, 0, 0, b'm', b'd', b'a', b't', 4, 5, 6]);
    let o = Object::parse(&mut raw).unwrap();
    assert_eq!(&o.payload[..], &[4, 5, 6]);
    assert_eq!(0, raw.len());
}

#[test]
fn envelope_errors() {
    assert_eq!(Some(DecodeError::Truncated), Object::parse(&mut bytes_of(&[0, 0, 0])).err());
    assert_eq!(
        Some(DecodeError::Malformed),
        Object::parse(&mut bytes_of(&[0, 0, 0, 4, b'f', b'r', b'e', b'e'])).err()
    );
    assert_eq!(
        Some(DecodeError::Truncated),
        Object::parse(&mut bytes_of(&[0, 0, 0, 9, b'f', b'r', b'e', b'e'])).err()
    );
    assert_eq!(
        Some(DecodeError::Malformed),
        Object::parse(&mut bytes_of(&[0, 0, 0, 1, b'f', b'r', b'e', b'e', 0, 0, 0, 0, 0, 0, 0, 8])).err()
    );
}

#[test]
fn leaf_errors() {
    assert_eq!(Some(DecodeError::Truncated), ftyp::parse(&mut bytes_of(&[0; 10])).err());
    assert_eq!(Some(DecodeError::Truncated), mvhd::parse(&mut bytes_of(&[0; 99])).err());
    assert_eq!(Some(DecodeError::Truncated), mvhd::parse(&mut bytes_of(&[1; 100])).err());
    let mut bad = bytes_of(&[0; 24]);
    bad.put_u8(0xff);
    assert_eq!(Some(DecodeError::Malformed), hdlr::parse(&mut bad).err());
    // A run that declares two 4-byte samples but holds one.
    let mut short = bytes_of(&[0, 0, 0x01, 0, 0, 0, 0, 2, 0, 0, 0, 1]);
    assert_eq!(Some(DecodeError::Truncated), trun::parse(&mut short).err());
    // A table that declares more entries than the payload holds.
    assert_eq!(Some(DecodeError::Truncated), stco::parse(&mut bytes_of(&[0, 0, 0, 0, 0, 0, 0, 2, 0, 0, 0, 1])).err());
}

#[test]
fn table_round_trips() {
    let t = stts { base: FullBox::new(0, 0), entries: vec![(3, 1000), (1, 500)] };
    let mut p = t.as_bytes();
    assert_eq!(t.len(), p.len());
    assert_eq!(t, stts::parse(&mut p).unwrap());
    let c = stsc { base: FullBox::new(0, 0), entries: vec![(1, 2, 1), (5, 3, 1)] };
    let mut p = c.as_bytes();
    assert_eq!(8 + 24, p.len());
    assert_eq!(c, stsc::parse(&mut p).unwrap());
    let o = stco { base: FullBox::new(0, 0), entries: vec![48, 1024, 9000] };
    let mut p = o.as_bytes();
    assert_eq!(o.len(), p.len());
    assert_eq!(o, stco::parse(&mut p).unwrap());
}

#[test]
fn stsz_uniform_and_table() {
    let u = stsz { base: FullBox::new(0, 0), sample_size: 512, sample_count: 40, entries: vec![] };
    let mut p = u.as_bytes();
    assert_eq!(12, p.len());
    assert_eq!(u, stsz::parse(&mut p).unwrap());
    let t = stsz { base: FullBox::new(0, 0), sample_size: 0, sample_count: 3, entries: vec![10, 20, 30] };
    let mut p = t.as_bytes();
    assert_eq!(24, p.len());
    assert_eq!(t.len(), p.len());
    assert_eq!(t, stsz::parse(&mut p).unwrap());
}

#[test]
fn stsz_table_after_uniform_size_is_malformed() {
    let mut p = FullBox::new(0, 0).as_bytes();
    p.put_u32(5);
    p.put_u32(1);
    p.put_u32(5);
    assert_eq!(Some(DecodeError::Malformed), stsz::parse(&mut p).err());
}

#[test]
fn data_entry_bytes() {
    let e = DataEntry::url_ { base: FullBox::new(0, 1), location: "a".to_owned() };
    let mut p = e.as_bytes();
    assert_eq!(&p[..], &[0, 0, 0, 13, b'u', b'r', b'l', b' ', 0, 0, 0, 1, b'a']);
    assert_eq!(Some(e), DataEntry::parse(&mut p).unwrap());
}

#[test]
fn dref_passes_over_unknown_entries() {
    let mut payload = FullBox::new(0, 0).as_bytes();
    payload.put_u32(2);
    payload.put(&Object { box_type: 0x75726e20, payload: bytes_of(&[0, 0, 0, 0, b'x']) }.as_bytes()[..]);
    payload.put(&Object { box_type: 0x75726c20, payload: bytes_of(&[0, 0, 0, 1]) }.as_bytes()[..]);
    let d = dref::parse(&mut payload).unwrap();
    assert_eq!(
        vec![DataEntry::url_ { base: FullBox::new(0, 1), location: "".to_owned() }],
        d.entries
    );
}

#[test]
fn avcc_reserved_bits_are_set() {
    let a = avcC {
        configuration_version: 1,
        profile_indication: 100,
        profile_compatibility: 0,
        level_indication: 31,
        length_size_minus_one: 3,
        sps: vec![bytes_of(&[0x67, 0x64])],
        pps: vec![bytes_of(&[0x68]), bytes_of(&[0x68, 0x01])],
        ext: bytes_of(&[0xfd, 0xf8, 0xf8, 0x00]),
    };
    let mut p = a.as_bytes();
    assert_eq!(0xff, p[4]);
    assert_eq!(0xe1, p[5]);
    assert_eq!(7 + 4 + 3 + 4 + 4, p.len());
    assert_eq!(a, avcC::parse(&mut p).unwrap());

    // Reserved bits written as zero still decode to the same record.
    let mut zeroed = bytes_of(&[1, 100, 0, 31, 0x03, 0x01, 0, 2, 0x67, 0x64, 0]);
    let d = avcC::parse(&mut zeroed).unwrap();
    assert_eq!(3, d.length_size_minus_one);
    assert_eq!(1, d.sps.len());
    assert!(d.pps.is_empty());
    assert_eq!(0xff, d.as_bytes()[4]);
    assert_eq!(0xe1, d.as_bytes()[5]);
}

#[test]
fn sample_entry_layers() {
    let other = SampleEntry::Base { handler_type: 0x74657874, data_reference_index: 1 };
    let boxed = Object { box_type: other.get_handler_type(), payload: other.as_bytes() }.as_bytes();
    assert_eq!(16, boxed.len());
    let mut buf = boxed.clone();
    assert_eq!(other, SampleEntry::parse(&mut buf).unwrap());

    let long_name = SampleEntry::avc1 {
        base: Box::new(SampleEntry::Visual {
            base: Box::new(SampleEntry::Base { handler_type: 0x61766331, data_reference_index: 1 }),
            width: 640,
            height: 480,
            horiz_resolution: 0x00480000,
            vert_resolution: 0x00480000,
            frame_count: 1,
            compressor_name: "AVC Coding".to_owned(),
            depth: 24,
        }),
        ext: bytes_of(&[0, 0, 0, 8, b'b', b't', b'r', b't']),
    };
    let p = long_name.as_bytes();
    assert_eq!(8 + 70 + 8, p.len());
    assert_eq!(10, p[42]);
    let mut buf = Object { box_type: 0x61766331, payload: p }.as_bytes();
    assert_eq!(long_name, SampleEntry::parse(&mut buf).unwrap());

    let table = stsd { base: FullBox::new(0, 0), entries: vec![long_name, other] };
    let mut p = table.as_bytes();
    assert_eq!(table, stsd::parse(&mut p).unwrap());
}

#[test]
fn moov_with_fragment_defaults() {
    let mut m = moov::default();
    m.mvhd.timescale = 1000;
    m.mvex = Some(mvex {
        trexs: vec![trex {
            base: FullBox::new(0, 0),
            track_id: 1,
            default_sample_description_index: 1,
            default_sample_duration: 512,
            default_sample_size: 0,
            default_sample_flags: 0x10000,
        }],
    });
    let mut p = m.as_bytes();
    assert_eq!(8 + 100 + 8 + 8 + 24, p.len());
    assert_eq!(m.len(), p.len());
    assert_eq!(m, isobmff::moov::parse(&mut p).unwrap());
}

#[test]
fn edit_list_version_and_round_trip() {
    let narrow = elst { flags: 0, entries: vec![(1000, -1, 1, 0), (2000, 0, 1, 0)] };
    let mut p = narrow.as_bytes();
    assert_eq!(0, p[0]);
    assert_eq!(8 + 2 * 12, p.len());
    assert_eq!(narrow.len(), p.len());
    assert_eq!(narrow, elst::parse(&mut p).unwrap());

    let wide = elst { flags: 0, entries: vec![(1000, -1, 1, 0), (1 << 33, 5, -1, 7)] };
    let mut p = wide.as_bytes();
    assert_eq!(1, p[0]);
    assert_eq!(8 + 2 * 20, p.len());
    assert_eq!(wide, elst::parse(&mut p).unwrap());

    let mut t = isobmff::moov::trak::default();
    t.edts = Some(edts { elst: Some(narrow) });
    let mut p = t.as_bytes();
    assert_eq!(t.len(), p.len());
    assert_eq!(t, isobmff::moov::trak::parse(&mut p).unwrap());
}
