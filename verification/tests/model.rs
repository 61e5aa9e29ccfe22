use bmff_provenance::adapter::{is_supported, DashIO};
use bmff_provenance::bytes::{push_range, push_u32, push_u64, read_u32, read_u64, store_u32, store_u64};
use bmff_provenance::error::Error;
use bmff_provenance::header::{
    is_container_kind, new_header, push_header, read_header, BoxHeader, SizeForm, KIND_MDAT,
    KIND_MOOV, KIND_STBL, KIND_STCO, KIND_TRAK,
};
use bmff_provenance::offsets::{is_table_kind, move_offsets, move_tree_offsets};
use bmff_provenance::presentation::{
    find_representation, AdaptationSet, DashManifest, Period, Representation, SegmentTemplate,
};
use bmff_provenance::tree::{BoxNode, Container};
use bmff_provenance::walker::read_level;
use bmff_provenance::writer::ReferenceKind;

fn plain(kind: &str, payload: &[u8]) -> Vec<u8> {
    let mut out = Vec::new();
    out.extend_from_slice(&((payload.len() as u32 + 8).to_be_bytes()));
    out.extend_from_slice(kind.as_bytes());
    out.extend_from_slice(payload);
    out
}

fn large(kind: &str, payload: &[u8]) -> Vec<u8> {
    let mut out = vec![0u8, 0, 0, 1];
    out.extend_from_slice(kind.as_bytes());
    out.extend_from_slice(&((payload.len() as u64 + 16).to_be_bytes()));
    out.extend_from_slice(payload);
    out
}

fn open_ended(kind: &str, payload: &[u8]) -> Vec<u8> {
    let mut out = vec![0u8, 0, 0, 0];
    out.extend_from_slice(kind.as_bytes());
    out.extend_from_slice(payload);
    out
}

fn nested() -> Vec<u8> {
    let leaf = plain("stco", &[0, 0, 0, 0, 0, 0, 0, 0]);
    let stbl = large("stbl", &leaf);
    let mut tracks = plain("trak", &stbl);
    tracks.extend_from_slice(&plain("trak", b""));
    let mut data = plain("ftyp", b"isom");
    data.extend_from_slice(&plain("moov", &tracks));
    data.extend_from_slice(&open_ended("mdat", b"payload bytes"));
    data
}

fn representation(id: &str, init: Option<&str>) -> Representation {
    Representation {
        id: id.to_string(),
        bandwidth: 1000,
        codecs: "avc1".to_string(),
        segment_template: init.map(|name| SegmentTemplate {
            initialization: name.to_string(),
            media: "chunk-$Number$.m4s".to_string(),
            timescale: 90000,
            duration: 180000,
        }),
    }
}

fn manifest() -> DashManifest {
    DashManifest {
        duration: "PT10S".to_string(),
        min_buffer_time: "PT2S".to_string(),
        periods: vec![
            Period { adaptation_sets: vec![] },
            Period {
                adaptation_sets: vec![
                    AdaptationSet {
                        id: "0".to_string(),
                        mime_type: "video/mp4".to_string(),
                        representations: vec![
                            representation("v1", Some("v1/init.mp4")),
                            representation("v2", Some("v2/init.mp4")),
                            representation("bare", None),
                        ],
                    },
                    AdaptationSet {
                        id: "1".to_string(),
                        mime_type: "audio/mp4".to_string(),
                        representations: vec![
                            representation("a1", Some("a1/init.mp4")),
                            representation("v2", Some("shadowed.mp4")),
                        ],
                    },
                ],
            },
        ],
    }
}

#[test]
fn numbers_are_stored_most_significant_byte_first() {
    let mut out = vec![9u8];
    push_u32(&mut out, 0x0102_0304);
    push_u64(&mut out, 0x1112_1314_1516_1718);
    assert_eq!(out, vec![9, 1, 2, 3, 4, 0x11, 0x12, 0x13, 0x14, 0x15, 0x16, 0x17, 0x18]);
    assert_eq!(read_u32(&out, 1), 0x0102_0304);
    assert_eq!(read_u64(&out, 5), 0x1112_1314_1516_1718);
    assert_eq!(read_u32(&[0xff, 0xff, 0xff, 0xff], 0), u32::MAX);
    assert_eq!(read_u64(&[0xff; 8], 0), u64::MAX);
}

#[test]
fn numbers_are_stored_in_place() {
    let mut buf = vec![0u8; 12];
    store_u32(&mut buf, 1, 0xa1b2_c3d4);
    store_u64(&mut buf, 4, 0x0102_0304_0506_0708);
    assert_eq!(buf, vec![0, 0xa1, 0xb2, 0xc3, 1, 2, 3, 4, 5, 6, 7, 8]);
    let mut out = vec![1u8];
    push_range(&mut out, &buf, 1, 4);
    assert_eq!(out, vec![1, 0xa1, 0xb2, 0xc3]);
}

#[test]
fn headers_come_in_three_forms() {
    let data = nested();
    let boxes = read_level(&data, 0, data.len()).unwrap();
    assert_eq!(boxes.len(), 3);
    assert_eq!(boxes[2], BoxHeader { kind: KIND_MDAT, form: SizeForm::ToEnd, offset: 68, size: 21 });
    let stbl = read_header(&data, 28, 60).unwrap();
    assert_eq!(stbl, BoxHeader { kind: KIND_STBL, form: SizeForm::Large, offset: 28, size: 32 });
    assert_eq!(stbl.header_length(), 16);
    assert_eq!(stbl.payload_offset(), 44);
    assert_eq!(stbl.end_offset(), 60);
    assert_eq!(boxes[0].header_length(), 8);
    assert!(boxes[2].runs_to_end());
    assert!(!boxes[0].runs_to_end());
}

#[test]
fn a_large_size_needs_sixteen_bytes_and_a_size_that_covers_them() {
    let mut data = large("mdat", b"");
    assert!(read_header(&data, 0, data.len()).is_ok());
    assert_eq!(read_header(&data, 0, 15), Err(Error::MalformedContainer));
    data[15] = 15;
    assert_eq!(read_header(&data, 0, data.len()), Err(Error::MalformedContainer));
    data[15] = 17;
    assert_eq!(read_header(&data, 0, data.len()), Err(Error::MalformedContainer));
}

#[test]
fn a_header_needs_a_sound_region() {
    let data = plain("ftyp", b"isom");
    assert_eq!(read_header(&data, 0, 13), Err(Error::MalformedContainer));
    assert_eq!(read_header(&data, 5, 4), Err(Error::MalformedContainer));
    assert_eq!(read_header(&data, 6, 12), Err(Error::MalformedContainer));
    assert_eq!(read_level(&data, 12, 12), Ok(vec![]));
    assert_eq!(read_level(&data, 12, 11), Err(Error::MalformedContainer));
}

#[test]
fn the_tree_lists_boxes_in_document_order() {
    let data = nested();
    let tree = Container::parse(&data).unwrap();
    let seen: Vec<(u32, usize, usize)> =
        tree.nodes.iter().map(|n| (n.header.kind, n.header.offset, n.depth)).collect();
    assert_eq!(
        seen,
        vec![
            (0x6674_7970, 0, 0),
            (KIND_MOOV, 12, 0),
            (KIND_TRAK, 20, 1),
            (KIND_STBL, 28, 2),
            (KIND_STCO, 44, 3),
            (KIND_TRAK, 60, 1),
            (KIND_MDAT, 68, 0),
        ]
    );
}

#[test]
fn parsing_then_serializing_gives_the_same_bytes() {
    let data = nested();
    let tree = Container::parse(&data).unwrap();
    assert_eq!(tree.serialize(&data).unwrap(), data);
    let empty = Container::parse(&[]).unwrap();
    assert!(empty.nodes.is_empty());
    assert_eq!(empty.serialize(&[]).unwrap(), Vec::<u8>::new());
}

#[test]
fn serializing_writes_headers_from_fields() {
    let source = b"0123456789abcdefghij".to_vec();
    let tree = Container {
        nodes: vec![
            BoxNode {
                header: BoxHeader { kind: KIND_MOOV, form: SizeForm::Compact, offset: 0, size: 20 },
                depth: 0,
            },
            BoxNode {
                header: BoxHeader { kind: KIND_MDAT, form: SizeForm::Large, offset: 0, size: 19 },
                depth: 1,
            },
            BoxNode {
                header: BoxHeader { kind: KIND_MDAT, form: SizeForm::ToEnd, offset: 2, size: 10 },
                depth: 0,
            },
        ],
    };
    let mut expected = vec![0u8, 0, 0, 20, b'm', b'o', b'o', b'v'];
    expected.extend_from_slice(&[0, 0, 0, 1, b'm', b'd', b'a', b't', 0, 0, 0, 0, 0, 0, 0, 19]);
    expected.extend_from_slice(b"ghi");
    expected.extend_from_slice(&[0, 0, 0, 0, b'm', b'd', b'a', b't']);
    expected.extend_from_slice(b"ab");
    assert_eq!(tree.serialize(&source).unwrap(), expected);
}

#[test]
fn serializing_refuses_what_cannot_be_written() {
    let source = vec![0u8; 16];
    let node = |form, offset, size| Container {
        nodes: vec![BoxNode { header: BoxHeader { kind: KIND_MDAT, form, offset, size }, depth: 0 }],
    };
    assert!(node(SizeForm::Compact, 0, 16).serialize(&source).is_ok());
    assert_eq!(node(SizeForm::Compact, 0, 7).serialize(&source), Err(Error::MalformedContainer));
    assert_eq!(node(SizeForm::Compact, 1, 16).serialize(&source), Err(Error::MalformedContainer));
    assert_eq!(node(SizeForm::Large, 0, 15).serialize(&source), Err(Error::MalformedContainer));
    assert_eq!(node(SizeForm::ToEnd, 17, 8).serialize(&source), Err(Error::MalformedContainer));
}

#[test]
fn new_headers_are_compact_while_the_size_fits() {
    assert_eq!(
        new_header(KIND_MDAT, 5, 200),
        BoxHeader { kind: KIND_MDAT, form: SizeForm::Compact, offset: 5, size: 208 }
    );
    assert_eq!(
        new_header(KIND_MDAT, 0, 0xffff_fff7),
        BoxHeader { kind: KIND_MDAT, form: SizeForm::Compact, offset: 0, size: 0xffff_ffff }
    );
    assert_eq!(
        new_header(KIND_MDAT, 0, 0xffff_fff8),
        BoxHeader { kind: KIND_MDAT, form: SizeForm::Large, offset: 0, size: 0x1_0000_0008 }
    );
    let mut out = Vec::new();
    push_header(&mut out, &new_header(KIND_MDAT, 0, 0xffff_fff8));
    assert_eq!(out, vec![0, 0, 0, 1, b'm', b'd', b'a', b't', 0, 0, 0, 1, 0, 0, 0, 8]);
}

#[test]
fn only_some_kinds_hold_boxes() {
    for kind in ["moov", "trak", "edts", "mdia", "minf", "stbl", "mvex", "moof", "traf"] {
        assert!(is_container_kind(u32::from_be_bytes(kind.as_bytes().try_into().unwrap())));
    }
    for kind in ["ftyp", "mdat", "stco", "co64", "c2pa", "c2rf", "free"] {
        assert!(!is_container_kind(u32::from_be_bytes(kind.as_bytes().try_into().unwrap())));
    }
}

#[test]
fn repairing_moves_entries_at_or_after_the_threshold() {
    let mut data = plain("ftyp", b"isom");
    let mut payload = vec![0u8, 0, 0, 0, 0, 0, 0, 3];
    for e in [11u32, 12, 13] {
        payload.extend_from_slice(&e.to_be_bytes());
    }
    data.extend_from_slice(&plain("stco", &payload));
    let grown = move_offsets(&data, 12, 100, 0).unwrap();
    assert_eq!(&grown[..28], &data[..28]);
    assert_eq!(&grown[28..], &[0, 0, 0, 11, 0, 0, 0, 112, 0, 0, 0, 113]);
    let shrunk = move_offsets(&data, 12, 0, 12).unwrap();
    assert_eq!(&shrunk[28..], &[0, 0, 0, 11, 0, 0, 0, 0, 0, 0, 0, 1]);
    assert_eq!(move_offsets(&data, 12, 0, 13), Err(Error::MalformedContainer));
    assert_eq!(move_offsets(&data, 14, 0, 13).unwrap(), data);
    let tree = Container::parse(&data).unwrap();
    assert_eq!(move_tree_offsets(&data, &tree.nodes, 13, 5, 2).unwrap()[36..], [0, 0, 0, 16]);
    assert_eq!(move_offsets(&data[..39], 12, 1, 0), Err(Error::MalformedContainer));
}

#[test]
fn the_adapter_declares_its_types() {
    let io = DashIO::new("dash");
    assert_eq!(io.asset_type(), "dash");
    assert_eq!(io.supported_types(), vec!["dash", "m4s", "cmfv", "cmfa", "cmft"]);
    for t in ["dash", "m4s", "cmfv", "cmfa", "cmft"] {
        assert!(is_supported(t));
    }
    for t in ["mp4", "", "DASH", "m4sx", "cmf"] {
        assert!(!is_supported(t));
    }
}

#[test]
fn an_unknown_representation_is_unsupported() {
    let io = DashIO::new("m4s");
    assert_eq!(io.resolve_segment(&manifest(), "missing"), Err(Error::UnsupportedAssetType));
    assert_eq!(io.resolve_segment(&manifest(), ""), Err(Error::UnsupportedAssetType));
    assert_eq!(io.resolve_segment(&manifest(), "V1"), Err(Error::UnsupportedAssetType));
}

#[test]
fn a_representation_resolves_to_its_initialization_segment() {
    let io = DashIO::new("cmfv");
    let m = manifest();
    assert_eq!(io.resolve_segment(&m, "v1"), Ok("v1/init.mp4"));
    assert_eq!(io.resolve_segment(&m, "a1"), Ok("a1/init.mp4"));
    assert_eq!(io.resolve_segment(&m, "v2"), Ok("v2/init.mp4"));
    assert_eq!(find_representation(&m, "v2").unwrap().segment_template.as_ref().unwrap().timescale, 90000);
    assert!(find_representation(&m, "nope").is_none());
}

#[test]
fn a_representation_without_segments_is_unsupported() {
    let io = DashIO::new("dash");
    assert_eq!(io.resolve_segment(&manifest(), "bare"), Err(Error::UnsupportedAssetType));
}

#[test]
fn an_adapter_for_another_type_resolves_nothing() {
    let io = DashIO::new("jpeg");
    assert_eq!(io.resolve_segment(&manifest(), "v1"), Err(Error::UnsupportedAssetType));
}

#[test]
fn the_adapter_hands_operations_to_the_engine() {
    let io = DashIO::new("dash");
    let mut data = plain("ftyp", b"isom");
    data.extend_from_slice(&plain("mdat", b"media"));
    let signed = io.write_cai(&data, b"store").unwrap();
    assert_eq!(io.read_cai(&signed).unwrap(), b"store".to_vec());
    assert_eq!(io.read_cai(&data), Err(Error::NotFound));
    let ranges = io.get_object_locations_from_stream(&signed).unwrap();
    assert_eq!(ranges.len(), 3);
    assert_eq!((ranges[1].offset, ranges[1].length), (12, 13));
    let mut patched = signed.clone();
    assert_eq!(io.patch_cai_store(&mut patched, b"STORE"), Ok(()));
    assert_eq!(io.read_cai(&patched).unwrap(), b"STORE".to_vec());
    assert_eq!(io.patch_cai_store(&mut patched, b"too long"), Err(Error::PatchSizeMismatch));
    assert_eq!(io.remove_cai_store_from_stream(&signed).unwrap(), data);
    assert_eq!(io.remove_cai_store_from_stream(&data), Err(Error::NotFound));
    let referred =
        io.embed_reference_to_stream(&signed, ReferenceKind::Xmp, "https://e.org/x").unwrap();
    assert_eq!(&referred[12..21], &[0, 0, 0, 24, b'c', b'2', b'r', b'f', 0]);
    assert_eq!(&referred[21..36], b"https://e.org/x");
    assert_eq!(io.read_cai(&referred), Err(Error::NotFound));
}

#[test]
fn errors_say_what_went_wrong() {
    assert_eq!(Error::MalformedContainer.message(), "malformed container");
    assert_eq!(Error::NotFound.message(), "no store found");
    assert_eq!(Error::PatchSizeMismatch.message(), "store does not fit the reserved space");
    assert_eq!(Error::UnsupportedAssetType.message(), "unsupported asset type");
}

#[test]
fn the_top_level_of_the_tree_is_the_first_level() {
    let data = nested();
    let tree = Container::parse(&data).unwrap();
    assert_eq!(tree.top_level(), read_level(&data, 0, data.len()).unwrap());
    assert_eq!(tree.top_level().len(), 3);
}

#[test]
fn only_chunk_offset_boxes_are_tables() {
    assert!(is_table_kind(KIND_STCO));
    assert!(is_table_kind(0x636f_3634));
    assert!(!is_table_kind(KIND_MOOV));
    assert!(!is_table_kind(KIND_MDAT));
}
