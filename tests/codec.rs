use bytes::{BufMut, BytesMut};
use isobmff::avc::avcC;
use isobmff::ftyp::ftyp;
use isobmff::media::{hdlr, mdhd, mvhd, tkhd, TRACK_ENABLED, TRACK_IN_MOVIE, TRACK_IN_PREVIEW};
use isobmff::media_info::{dref, smhd, vmhd, DataEntry};
use isobmff::moof::{mfhd, moof, tfdt, tfhd, traf, trun};
use isobmff::moov::{dinf, mdia, minf, moov, stbl, trak, MediaInformationHeader};
use isobmff::object::{header_len, DecodeError, FullBox, Object};
use isobmff::sample_entry::{stsd, SampleEntry};
use isobmff::sample_table::{stco, stsc, stsz, stts};

fn wrap(box_type: u32, payload: BytesMut) -> BytesMut {
    Object { box_type, payload }.as_bytes()
}

fn unity() -> [u32; 9] {
    [0x00010000, 0, 0, 0, 0x00010000, 0, 0, 0, 0x40000000]
}

fn language(code: &str) -> u16 {
    let mut rst = 0_u16;
    for c in code.as_bytes() {
        rst = (rst << 5) | (0b11111 & (c - 0x60)) as u16;
    }
    rst
}

fn bytes_of(b: &[u8]) -> BytesMut {
    let mut rst = BytesMut::new();
    rst.put(b);
    rst
}

#[test]
fn chk_ftyp() {
    let b = ftyp {
        major_brand: 0x69736f35,
        minor_version: 1,
        compatible_brands: vec![0x61766331, 0x69736f35, 0x64617368],
    };
    let mut buf = wrap(ftyp::BOX_TYPE, b.as_bytes());
    let mut obj = Object::parse(&mut buf).unwrap();

    assert_eq!(ftyp::BOX_TYPE, obj.box_type);
    assert_eq!(b.len(), obj.payload.len());
    assert_eq!(b, ftyp::parse(&mut obj.payload).unwrap());
}

#[test]
fn chk_moof() {
    let b = moof {
        mfhd: {
            let mut v = mfhd::default();
            v.sequence_number = 1;
            v
        },
        trafs: vec![
            {
                let mut v = traf::default();
                v.tfhd.track_id = 1;
                v.tfhd.default_sample_duration = Some(200);
                v.tfhd.default_sample_size = Some(3815);
                v.tfhd.default_sample_flags = Some(0);
                v.tfdt = Some({
                    let mut v = tfdt::default();
                    v.base_media_decode_time = 60000;
                    v
                });
                v.truns.push({
                    let mut v = trun::default();
                    v.data_offset = Some(196);
                    v.samples.push((None, Some(3815), Some(0), None));
                    v.samples.push((None, Some(344), Some(0x810000), None));
                    v
                });
                v
            },
            {
                let mut v = traf::default();
                v.tfhd.track_id = 2;
                v.tfhd.default_sample_duration = Some(33554432);
                v.tfhd.default_sample_size = Some(12);
                v.truns.push({
                    let mut v = trun::default();
                    v.data_offset = Some(23928);
                    v.samples.push((Some(6), None, None, None));
                    v.samples.push((Some(169), None, None, None));
                    v
                });
                v
            },
        ],
    };
    let mut buf = wrap(moof::BOX_TYPE, b.as_bytes());
    let mut obj = Object::parse(&mut buf).unwrap();

    assert_eq!(moof::BOX_TYPE, obj.box_type);
    assert_eq!(b.len(), obj.payload.len());
    assert_eq!(b, isobmff::moof::parse(&mut obj.payload).unwrap());
}

#[test]
fn chk_moov() {
    let avc_config = avcC {
        configuration_version: 1,
        profile_indication: 77,
        profile_compatibility: 64,
        level_indication: 21,
        length_size_minus_one: 3,
        sps: vec![bytes_of(&b"'M@\x15\xa9\x182\x13\xfd\xe0\rA\x80A\xad\xb0\xad{\xdf\x01"[..])],
        pps: vec![bytes_of(&b"(\xde\t\x88"[..])],
        ext: BytesMut::new(),
    };
    let b = moov {
        mvhd: mvhd {
            creation_time: 0,
            modification_time: 0,
            timescale: 1000,
            duration: 0,
            rate: 0x00010000,
            volume: 0x0100,
            matrix: unity(),
            next_track_id: 3,
        },
        traks: vec![
            trak {
                tkhd: tkhd {
                    flags: TRACK_ENABLED | TRACK_IN_MOVIE | TRACK_IN_PREVIEW,
                    creation_time: 0,
                    modification_time: 3503872213,
                    track_id: 1,
                    duration: 0,
                    layer: 0,
                    alternate_group: 0,
                    volume: 0x0100,
                    matrix: unity(),
                    width: 26214400,
                    height: 19660800,
                },
                edts: None,
                mdia: mdia {
                    mdhd: mdhd {
                        flags: 0,
                        creation_time: 0,
                        modification_time: 0,
                        timescale: 90000,
                        duration: 0,
                        language: language("und"),
                    },
                    hdlr: hdlr {
                        base: FullBox::new(0, 0),
                        handler_type: 0x76696465,
                        name: "VideoHandler\u{0}".to_owned(),
                    },
                    minf: minf {
                        mhd: MediaInformationHeader::vmhd(vmhd {
                            base: FullBox::new(0, 0),
                            graphicsmode: 0,
                            opcolor: [0, 0, 0],
                        }),
                        dinf: dinf {
                            dref: dref {
                                base: FullBox::new(0, 0),
                                entries: vec![DataEntry::url_ {
                                    base: FullBox::new(0, 0x000001),
                                    location: "".to_owned(),
                                }],
                            },
                        },
                        stbl: stbl {
                            stsd: stsd {
                                base: FullBox::new(0, 0),
                                entries: vec![SampleEntry::avc1 {
                                    base: Box::new(SampleEntry::Visual {
                                        base: Box::new(SampleEntry::Base {
                                            handler_type: 0x61766331,
                                            data_reference_index: 1,
                                        }),
                                        width: 400,
                                        height: 300,
                                        horiz_resolution: 0x00480000,
                                        vert_resolution: 0x00480000,
                                        frame_count: 1,
                                        compressor_name: "".to_owned(),
                                        depth: 24,
                                    }),
                                    ext: wrap(avcC::BOX_TYPE, avc_config.as_bytes()),
                                }],
                            },
                            stts: stts { base: FullBox::new(0, 0), entries: vec![] },
                            stsc: stsc { base: FullBox::new(0, 0), entries: vec![] },
                            stsz: stsz {
                                base: FullBox::new(0, 0),
                                sample_size: 0,
                                sample_count: 0,
                                entries: vec![],
                            },
                            stco: stco { base: FullBox::new(0, 0), entries: vec![] },
                        },
                    },
                },
            },
            trak {
                tkhd: tkhd {
                    flags: 0,
                    creation_time: 0,
                    modification_time: 3503872213,
                    track_id: 2,
                    duration: 0,
                    layer: 0,
                    alternate_group: 1,
                    volume: 0x0100,
                    matrix: unity(),
                    width: 0,
                    height: 0,
                },
                edts: None,
                mdia: mdia {
                    mdhd: mdhd {
                        flags: 0,
                        creation_time: 0,
                        modification_time: 0,
                        timescale: 22050,
                        duration: 0,
                        language: language("und"),
                    },
                    hdlr: hdlr {
                        base: FullBox::new(0, 0),
                        handler_type: 0x736f756e,
                        name: "SoundHandler\u{0}".to_owned(),
                    },
                    minf: minf {
                        mhd: MediaInformationHeader::smhd(smhd {
                            base: FullBox::new(0, 0),
                            balance: 0,
                        }),
                        dinf: dinf {
                            dref: dref {
                                base: FullBox::new(0, 0),
                                entries: vec![DataEntry::url_ {
                                    base: FullBox::new(0, 0x000001),
                                    location: "".to_owned(),
                                }],
                            },
                        },
                        stbl: stbl {
                            stsd: stsd {
                                base: FullBox::new(0, 0),
                                entries: vec![SampleEntry::mp4a {
                                    base: Box::new(SampleEntry::Audio {
                                        base: Box::new(SampleEntry::Base {
                                            handler_type: 0x6d703461,
                                            data_reference_index: 1,
                                        }),
                                        channel_count: 2,
                                        sample_size: 16,
                                        sample_rate: 1445068800,
                                    }),
                                    ext: BytesMut::new(),
                                }],
                            },
                            stts: stts { base: FullBox::new(0, 0), entries: vec![] },
                            stsc: stsc { base: FullBox::new(0, 0), entries: vec![] },
                            stsz: stsz {
                                base: FullBox::new(0, 0),
                                sample_size: 0,
                                sample_count: 0,
                                entries: vec![],
                            },
                            stco: stco { base: FullBox::new(0, 0), entries: vec![] },
                        },
                    },
                },
            },
        ],
        mvex: None,
    };
    let mut buf = wrap(moov::BOX_TYPE, b.as_bytes());
    let mut obj = Object::parse(&mut buf).unwrap();

    assert_eq!(moov::BOX_TYPE, obj.box_type);
    assert_eq!(b, isobmff::moov::parse(&mut obj.payload).unwrap());

    // The configuration record inside the avc1 entry decodes back as well.
    let stsd = &b.traks[0].mdia.minf.stbl.stsd;
    if let SampleEntry::avc1 { ext, .. } = &stsd.entries[0] {
        let mut ext = ext.clone();
        let mut inner = Object::parse(&mut ext).unwrap();
        assert_eq!(avcC::BOX_TYPE, inner.box_type);
        assert_eq!(avc_config, avcC::parse(&mut inner.payload).unwrap());
    } else {
        panic!("expected an avc1 entry");
    }
}
