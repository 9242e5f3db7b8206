//! TLV container, ISO BMFF box splitting and rendition specs.

use bitstream::ingest::container::{decode, encode, Record, RecordType};
use bitstream::ingest::mp4::{avc1_codec_string, BoxSplitter, FragmentAssembler, Unit};
use bitstream::ingest::rendition::{FragmentMux, RenditionError, RenditionSpec};

fn bx(kind: &[u8; 4], payload: &[u8]) -> Vec<u8> {
    let mut v = ((8 + payload.len()) as u32).to_be_bytes().to_vec();
    v.extend_from_slice(kind);
    v.extend_from_slice(payload);
    v
}

#[test]
fn roundtrip() {
    let recs = vec![
        Record::new(RecordType::Init, vec![1u8, 2, 3]),
        Record::new(RecordType::Media, vec![9u8; 1000]),
        Record::new(RecordType::Meta, b"{}".to_vec()),
    ];
    let enc = encode(&recs);
    assert_eq!(enc.len(), 5 * 3 + 3 + 1000 + 2);
    assert_eq!(decode(&enc), recs);
}

#[test]
fn empty_and_opaque() {
    assert!(decode(&[]).is_empty());
    assert!(decode(&encode(&[])).is_empty());
    let junk = vec![0x00u8, 0x00, 0x00, 0x20, b'f', b't', b'y', b'p', 1, 2, 3];
    assert!(decode(&junk).is_empty());
    let mut t = encode(&[Record::new(RecordType::Media, vec![1u8; 10])]).to_vec();
    t.truncate(8);
    assert!(decode(&t).is_empty());
}

#[test]
fn record_type_codes() {
    assert_eq!(RecordType::from_u8(1), Some(RecordType::Init));
    assert_eq!(RecordType::from_u8(2), Some(RecordType::Media));
    assert_eq!(RecordType::from_u8(3), Some(RecordType::Meta));
    assert_eq!(RecordType::from_u8(0), None);
    assert_eq!(RecordType::from_u8(4), None);
    for t in [RecordType::Init, RecordType::Media, RecordType::Meta] {
        assert_eq!(RecordType::from_u8(t.to_u8()), Some(t));
    }
}

#[test]
fn record_encoding_layout() {
    let enc = encode(&[Record::new(RecordType::Media, vec![0xAA, 0xBB])]);
    assert_eq!(enc, vec![2, 0, 0, 0, 2, 0xAA, 0xBB]);
    let two = vec![Record::new(RecordType::Init, vec![]), Record::new(RecordType::Meta, vec![7])];
    assert_eq!(decode(&encode(&two)), two);
}

#[test]
fn splits_and_groups() {
    let mut a = FragmentAssembler::new();
    let mut stream = Vec::new();
    stream.extend(bx(b"ftyp", b"isom"));
    stream.extend(bx(b"moov", &[0u8; 40]));
    stream.extend(bx(b"moof", &[1u8; 20]));
    stream.extend(bx(b"mdat", &[2u8; 100]));
    stream.extend(bx(b"moof", &[3u8; 20]));
    stream.extend(bx(b"mdat", &[4u8; 50]));
    let mut units = Vec::new();
    for c in stream.chunks(7) {
        units.extend(a.feed(c));
    }
    assert_eq!(units.len(), 3);
    assert!(matches!(units[0], Unit::Init(ref b) if b.len() == 12 + 48));
    assert!(matches!(units[1], Unit::Media(ref b) if b.len() == 28 + 108));
    assert!(matches!(units[2], Unit::Media(ref b) if b.len() == 28 + 58));
}

#[test]
fn codec_string() {
    let mut init = bx(b"ftyp", b"isom");
    let mut avcc = bx(b"avcC", &[1, 0x64, 0x00, 0x1f, 0xff]);
    init.append(&mut avcc);
    assert_eq!(avc1_codec_string(&init).as_deref(), Some("avc1.64001f"));
    assert_eq!(avc1_codec_string(b"nothing"), None);
}

#[test]
fn box_splitter_waits_for_whole_boxes() {
    let mut s = BoxSplitter::new();
    let b = bx(b"free", &[5u8; 3]);
    s.feed(&b[..6]);
    assert!(s.next_box().is_none());
    s.feed(&b[6..]);
    let got = s.next_box().expect("a whole box");
    assert_eq!(&got.kind, b"free");
    assert_eq!(got.bytes, b);
    assert!(s.next_box().is_none());
}

#[test]
fn rendition_specs() {
    let r = RenditionSpec::parse("720p:3000").unwrap();
    assert_eq!((r.label.as_str(), r.height, r.kbps), ("720p", 720, 3000));
    let r = RenditionSpec::parse("480pp:1500").unwrap();
    assert_eq!((r.label.as_str(), r.height, r.kbps), ("480p", 480, 1500));
    assert_eq!(RenditionSpec::parse("480p"), Err(RenditionError::Format));
    assert_eq!(RenditionSpec::parse("x:1"), Err(RenditionError::Height));
    assert_eq!(RenditionSpec::parse("480p:fast"), Err(RenditionError::Kbps));
    let list = RenditionSpec::parse_list(" 480p:1500, ,720p:3000 ").unwrap();
    assert_eq!(list.len(), 2);
    assert_eq!(list[1].kbps, 3000);
    assert_eq!(RenditionSpec::parse_list("480p:1500,bad"), Err(RenditionError::Format));
    let ladder = RenditionSpec::ladder(&list);
    assert_eq!(ladder.layers.len(), 2);
    assert_eq!(ladder.layers[0].label, "480p");
    assert_eq!(ladder.layers[1].bitrate_kbps, 3000);
}

#[test]
fn unknown_record_types_are_skipped() {
    let payload = [9u8, 0, 0, 0, 1, 0xAA, 2, 0, 0, 0, 1, 0x01];
    assert_eq!(decode(&payload), vec![Record { kind: RecordType::Media, data: vec![0x01u8] }]);
    // A truncated record after an unknown one still ends decoding.
    let cut = [9u8, 0, 0, 0, 1, 0xAA, 2, 0, 0, 0, 4, 0x01];
    assert!(decode(&cut).is_empty());
}

#[test]
fn a_mux_with_small_fragments_fits_and_builds() {
    let specs = vec![RenditionSpec::parse("360p:800").unwrap(), RenditionSpec::parse("720p:3000").unwrap()];
    let mut mux = FragmentMux::new(&specs);
    assert!(mux.sizes_fit_now());
    mux.on_init(0, vec![1, 2, 3]);
    mux.on_media(0, vec![4, 5]);
    mux.on_media(1, vec![6]);
    assert!(mux.sizes_fit_now());
    let c = mux.build();
    assert_eq!(c.layers.len(), 2);
    // Rendition 0: INIT then the fragment, as two records; rendition 1: one record.
    assert_eq!(decode(&c.layers[0]), vec![Record::new(RecordType::Init, vec![1, 2, 3]), Record::new(RecordType::Media, vec![4, 5])]);
    assert_eq!(decode(&c.layers[1]), vec![Record::new(RecordType::Media, vec![6])]);
}
