use bmff_provenance::error::Error;
use bmff_provenance::hashing::{hash_ranges, hash_ranges_for, HashObjectPosition, Role};
use bmff_provenance::header::{
    read_header, BoxHeader, SizeForm, KIND_FTYP, KIND_MDAT, KIND_MOOV, KIND_REFERENCE, KIND_STORE,
};
use bmff_provenance::locator::{find_store, locate_store, read_store, StoreLocation};
use bmff_provenance::tree::Container;
use bmff_provenance::walker::{read_children, read_level};
use bmff_provenance::writer::{
    embed_remote_reference, kind_from_tag, patch_store, read_reference, remove_store, tag_of,
    write_store, ReferenceKind,
};

fn boxed(kind: &str, payload: &[u8]) -> Vec<u8> {
    let mut out = Vec::new();
    out.extend_from_slice(&((payload.len() as u32 + 8).to_be_bytes()));
    out.extend_from_slice(kind.as_bytes());
    out.extend_from_slice(payload);
    out
}

fn table32(entries: &[u32]) -> Vec<u8> {
    let mut payload = vec![0u8, 0, 0, 0];
    payload.extend_from_slice(&(entries.len() as u32).to_be_bytes());
    for e in entries {
        payload.extend_from_slice(&e.to_be_bytes());
    }
    boxed("stco", &payload)
}

fn table64(entries: &[u64]) -> Vec<u8> {
    let mut payload = vec![0u8, 0, 0, 0];
    payload.extend_from_slice(&(entries.len() as u32).to_be_bytes());
    for e in entries {
        payload.extend_from_slice(&e.to_be_bytes());
    }
    boxed("co64", &payload)
}

fn movie(table: &[u8], total: usize) -> Vec<u8> {
    let stbl = boxed("stbl", table);
    let minf = boxed("minf", &stbl);
    let mdia = boxed("mdia", &minf);
    let trak = boxed("trak", &mdia);
    let filler_payload = total - 8 - trak.len() - 8;
    let mut inner = boxed("mvhd", &vec![7u8; filler_payload]);
    inner.extend_from_slice(&trak);
    let moov = boxed("moov", &inner);
    assert_eq!(moov.len(), total);
    moov
}

fn media() -> Vec<u8> {
    let mut payload = Vec::new();
    for i in 0..9992usize {
        payload.push((i % 251) as u8);
    }
    boxed("mdat", &payload)
}

fn asset_with(table: &[u8]) -> Vec<u8> {
    let mut out = boxed("ftyp", b"isom\0\0\0\0isomiso2");
    out.extend_from_slice(&movie(table, 500));
    out.extend_from_slice(&media());
    out
}

fn asset() -> Vec<u8> {
    asset_with(&table32(&[532, 600]))
}

fn kinds_and_sizes(data: &[u8]) -> Vec<(u32, usize, usize)> {
    read_level(data, 0, data.len()).unwrap().iter().map(|h| (h.kind, h.offset, h.size)).collect()
}

fn be32(data: &[u8], at: usize) -> u32 {
    u32::from_be_bytes([data[at], data[at + 1], data[at + 2], data[at + 3]])
}

fn table_entry_position(data: &[u8]) -> usize {
    let tree = Container::parse(data).unwrap();
    let node = tree.nodes.iter().find(|n| n.header.kind == 0x7374_636f).unwrap();
    node.header.offset + 16
}

#[test]
fn sample_asset_has_the_expected_layout() {
    let data = asset();
    assert_eq!(data.len(), 24 + 500 + 10000);
    assert_eq!(
        kinds_and_sizes(&data),
        vec![(KIND_FTYP, 0, 24), (KIND_MOOV, 24, 500), (KIND_MDAT, 524, 10000)]
    );
}

#[test]
fn inserting_a_store_places_it_after_the_file_type_box() {
    let data = asset();
    let store = vec![0xabu8; 200];
    let out = write_store(&data, &store).unwrap();
    assert_eq!(out.len(), data.len() + 208);
    assert_eq!(
        kinds_and_sizes(&out),
        vec![
            (KIND_FTYP, 0, 24),
            (KIND_STORE, 24, 208),
            (KIND_MOOV, 232, 500),
            (KIND_MDAT, 732, 10000)
        ]
    );
    assert_eq!(&out[..24], &data[..24]);
    assert_eq!(&out[32..232], &store[..]);
    assert_eq!(&out[732..], &data[524..]);
}

#[test]
fn inserting_a_store_moves_offsets_by_its_size() {
    let data = asset();
    let at = table_entry_position(&data);
    assert_eq!(be32(&data, at), 532);
    assert_eq!(be32(&data, at + 4), 600);
    let out = write_store(&data, &vec![1u8; 200]).unwrap();
    let moved_at = table_entry_position(&out);
    assert_eq!(moved_at, at + 208);
    assert_eq!(be32(&out, moved_at), 740);
    assert_eq!(be32(&out, moved_at + 4), 808);
    assert_eq!(out[740], data[532]);
    assert_eq!(out[808], data[600]);
}

#[test]
fn offsets_before_the_store_stay() {
    let data = asset_with(&table32(&[4, 24, 532]));
    let at = table_entry_position(&data);
    let out = write_store(&data, &vec![1u8; 10]).unwrap();
    let moved_at = table_entry_position(&out);
    assert_eq!(moved_at, at + 18);
    assert_eq!(be32(&out, moved_at), 4);
    assert_eq!(be32(&out, moved_at + 4), 42);
    assert_eq!(be32(&out, moved_at + 8), 550);
}

#[test]
fn removing_the_store_restores_the_original() {
    let data = asset();
    let out = write_store(&data, &vec![9u8; 200]).unwrap();
    assert_eq!(remove_store(&out).unwrap(), data);
}

#[test]
fn removing_from_an_unsigned_asset_finds_nothing() {
    assert_eq!(remove_store(&asset()), Err(Error::NotFound));
}

#[test]
fn reading_gives_back_what_was_written() {
    let store: Vec<u8> = (0..200u32).map(|i| (i * 3) as u8).collect();
    let out = write_store(&asset(), &store).unwrap();
    assert_eq!(read_store(&out).unwrap(), store);
}

#[test]
fn reading_an_unsigned_asset_finds_nothing() {
    assert_eq!(read_store(&asset()), Err(Error::NotFound));
    assert_eq!(find_store(&asset()), Ok(None));
}

#[test]
fn replacing_equals_writing_directly() {
    let data = asset();
    let first = write_store(&data, &vec![1u8; 300]).unwrap();
    let second = write_store(&first, &vec![2u8; 120]).unwrap();
    let direct = write_store(&data, &vec![2u8; 120]).unwrap();
    assert_eq!(second, direct);
    let grown = write_store(&second, &vec![3u8; 5000]).unwrap();
    assert_eq!(grown, write_store(&data, &vec![3u8; 5000]).unwrap());
}

#[test]
fn replacing_moves_offsets_by_the_difference() {
    let data = asset();
    let first = write_store(&data, &vec![1u8; 300]).unwrap();
    let second = write_store(&first, &vec![2u8; 100]).unwrap();
    let at = table_entry_position(&second);
    assert_eq!(be32(&second, at), 532 + 108);
    assert_eq!(second[532 + 108], data[532]);
}

#[test]
fn writing_an_empty_store_gives_a_bare_header() {
    let data = asset();
    let out = write_store(&data, &[]).unwrap();
    assert_eq!(out.len(), data.len() + 8);
    assert_eq!(read_store(&out).unwrap(), Vec::<u8>::new());
    assert_eq!(&out[24..32], &[0, 0, 0, 8, b'c', b'2', b'p', b'a']);
}

#[test]
fn patching_in_place_keeps_the_length() {
    let mut out = write_store(&asset(), &vec![5u8; 64]).unwrap();
    let before = out.clone();
    assert_eq!(patch_store(&mut out, &vec![6u8; 64]), Ok(()));
    assert_eq!(out.len(), before.len());
    assert_eq!(read_store(&out).unwrap(), vec![6u8; 64]);
    assert_eq!(&out[..32], &before[..32]);
    assert_eq!(&out[96..], &before[96..]);
}

#[test]
fn patching_with_less_pads_with_zeros() {
    let mut out = write_store(&asset(), &vec![5u8; 64]).unwrap();
    assert_eq!(patch_store(&mut out, &[1, 2, 3]), Ok(()));
    let mut expected = vec![1u8, 2, 3];
    expected.extend_from_slice(&[0u8; 61]);
    assert_eq!(read_store(&out).unwrap(), expected);
}

#[test]
fn patching_with_more_fails_and_changes_nothing() {
    let mut out = write_store(&asset(), &vec![5u8; 64]).unwrap();
    let before = out.clone();
    assert_eq!(patch_store(&mut out, &vec![6u8; 65]), Err(Error::PatchSizeMismatch));
    assert_eq!(out, before);
}

#[test]
fn patching_an_unsigned_asset_finds_nothing() {
    let mut data = asset();
    let before = data.clone();
    assert_eq!(patch_store(&mut data, &[1]), Err(Error::NotFound));
    assert_eq!(data, before);
}

#[test]
fn hash_ranges_of_an_unsigned_asset_are_one_range() {
    let data = asset();
    assert_eq!(
        hash_ranges(&data).unwrap(),
        vec![HashObjectPosition { offset: 0, length: 10524, role: Role::Included }]
    );
}

#[test]
fn hash_ranges_of_a_signed_asset_skip_the_store() {
    let out = write_store(&asset(), &vec![0u8; 200]).unwrap();
    let ranges = hash_ranges(&out).unwrap();
    assert_eq!(
        ranges,
        vec![
            HashObjectPosition { offset: 0, length: 24, role: Role::Included },
            HashObjectPosition { offset: 24, length: 208, role: Role::Excluded },
            HashObjectPosition { offset: 232, length: 10500, role: Role::Included },
        ]
    );
    assert_eq!(ranges.iter().map(|r| r.length).sum::<usize>(), out.len());
}

#[test]
fn hash_ranges_leave_out_empty_stretches() {
    let store = boxed("c2pa", &[1, 2, 3]);
    assert_eq!(
        hash_ranges(&store).unwrap(),
        vec![HashObjectPosition { offset: 0, length: 11, role: Role::Excluded }]
    );
    assert_eq!(hash_ranges(&[]).unwrap(), vec![]);
}

#[test]
fn hash_ranges_reject_a_store_outside_the_asset() {
    let header = BoxHeader { kind: KIND_STORE, form: SizeForm::Compact, offset: 10, size: 20 };
    let loc = StoreLocation { header, duplicates: false };
    assert_eq!(hash_ranges_for(29, Some(loc)), Err(Error::MalformedContainer));
    assert_eq!(
        hash_ranges_for(30, Some(loc)).unwrap(),
        vec![
            HashObjectPosition { offset: 0, length: 10, role: Role::Included },
            HashObjectPosition { offset: 10, length: 20, role: Role::Excluded },
        ]
    );
}

#[test]
fn the_first_store_wins_and_duplicates_are_flagged() {
    let mut data = boxed("ftyp", b"isom");
    data.extend_from_slice(&boxed("c2pa", b"first"));
    data.extend_from_slice(&boxed("mdat", b"media"));
    data.extend_from_slice(&boxed("c2pa", b"second"));
    let loc = find_store(&data).unwrap().unwrap();
    assert_eq!(loc.header.offset, 12);
    assert_eq!(loc.header.size, 13);
    assert!(loc.duplicates);
    assert_eq!(read_store(&data).unwrap(), b"first".to_vec());
    let single = write_store(&boxed("ftyp", b"isom"), b"only").unwrap();
    let boxes = read_level(&single, 0, single.len()).unwrap();
    assert_eq!(locate_store(&boxes).unwrap().duplicates, false);
}

#[test]
fn a_reference_takes_the_place_of_the_store() {
    let data = asset();
    let signed = write_store(&data, &vec![4u8; 50]).unwrap();
    let uri = "https://example.com/m.c2pa";
    let out = embed_remote_reference(&signed, ReferenceKind::StegoS, uri.as_bytes()).unwrap();
    assert_eq!(read_store(&out), Err(Error::NotFound));
    let boxes = kinds_and_sizes(&out);
    assert_eq!(boxes[1], (KIND_REFERENCE, 24, 8 + 1 + uri.len()));
    assert_eq!(out[32], 1);
    assert_eq!(&out[33..33 + uri.len()], uri.as_bytes());
    assert_eq!(
        out,
        embed_remote_reference(&data, ReferenceKind::StegoS, uri.as_bytes()).unwrap()
    );
    let back = write_store(&out, &vec![4u8; 50]).unwrap();
    assert_eq!(back, signed);
    assert_eq!(remove_store(&out).unwrap(), data);
}

#[test]
fn reference_kinds_have_their_tags() {
    let data = boxed("ftyp", b"isom");
    for (kind, tag) in [
        (ReferenceKind::Xmp, 0u8),
        (ReferenceKind::StegoS, 1),
        (ReferenceKind::StegoB, 2),
        (ReferenceKind::Watermark, 3),
    ] {
        let out = embed_remote_reference(&data, kind, b"u").unwrap();
        assert_eq!(&out[12..], &[0, 0, 0, 10, b'c', b'2', b'r', b'f', tag, b'u']);
    }
}

#[test]
fn wide_tables_move_too() {
    let data = asset_with(&table64(&[532, 0x1_0000_0000]));
    let out = write_store(&data, &vec![0u8; 92]).unwrap();
    let tree = Container::parse(&out).unwrap();
    let node = tree.nodes.iter().find(|n| n.header.kind == 0x636f_3634).unwrap();
    let at = node.header.offset + 16;
    let first = u64::from_be_bytes(out[at..at + 8].try_into().unwrap());
    let second = u64::from_be_bytes(out[at + 8..at + 16].try_into().unwrap());
    assert_eq!(first, 632);
    assert_eq!(second, 0x1_0000_0064);
    assert_eq!(remove_store(&out).unwrap(), data);
}

#[test]
fn an_offset_that_no_longer_fits_is_refused() {
    let data = asset_with(&table32(&[0xffff_fff0]));
    assert_eq!(write_store(&data, &vec![0u8; 200]), Err(Error::MalformedContainer));
    assert!(write_store(&data, &vec![0u8; 7]).is_ok());
}

#[test]
fn a_table_that_counts_more_than_it_holds_is_refused() {
    let mut table = table32(&[532]);
    table[15] = 2;
    let data = asset_with(&table);
    assert!(Container::parse(&data).is_ok());
    assert_eq!(write_store(&data, &[1]), Err(Error::MalformedContainer));
}

#[test]
fn a_container_without_file_type_box_is_refused() {
    let mut data = boxed("free", b"pad");
    data.extend_from_slice(&boxed("mdat", b"media"));
    assert_eq!(write_store(&data, &[1, 2]), Err(Error::MalformedContainer));
    assert_eq!(write_store(&[], &[1, 2]), Err(Error::MalformedContainer));
}

#[test]
fn a_file_type_box_that_runs_to_the_end_is_refused() {
    let mut data = boxed("ftyp", b"isom");
    data[3] = 0;
    assert_eq!(read_level(&data, 0, data.len()).unwrap()[0].form, SizeForm::ToEnd);
    assert_eq!(write_store(&data, &[1, 2]), Err(Error::MalformedContainer));
}

#[test]
fn a_truncated_header_is_malformed() {
    let mut data = boxed("ftyp", b"isom");
    data.extend_from_slice(&[0, 0, 0]);
    assert_eq!(read_level(&data, 0, data.len()), Err(Error::MalformedContainer));
    assert_eq!(read_store(&data), Err(Error::MalformedContainer));
    assert_eq!(hash_ranges(&data), Err(Error::MalformedContainer));
    assert_eq!(write_store(&data, &[1]), Err(Error::MalformedContainer));
    assert_eq!(remove_store(&data), Err(Error::MalformedContainer));
    let mut copy = data.clone();
    assert_eq!(patch_store(&mut copy, &[1]), Err(Error::MalformedContainer));
    assert_eq!(copy, data);
}

#[test]
fn a_size_past_the_end_is_malformed() {
    let mut data = boxed("ftyp", b"isom");
    data[3] = 13;
    assert_eq!(read_header(&data, 0, data.len()), Err(Error::MalformedContainer));
    data[3] = 7;
    assert_eq!(read_header(&data, 0, data.len()), Err(Error::MalformedContainer));
    data[3] = 12;
    assert_eq!(
        read_header(&data, 0, data.len()),
        Ok(BoxHeader { kind: KIND_FTYP, form: SizeForm::Compact, offset: 0, size: 12 })
    );
}

#[test]
fn a_child_past_its_parent_is_malformed() {
    let mut inner = boxed("trak", b"");
    inner[3] = 9;
    let mut data = boxed("ftyp", b"isom");
    data.extend_from_slice(&boxed("moov", &inner));
    assert!(read_level(&data, 0, data.len()).is_ok());
    assert_eq!(Container::parse(&data).err(), Some(Error::MalformedContainer));
    assert_eq!(write_store(&data, &[1]), Err(Error::MalformedContainer));
    assert_eq!(read_store(&data), Err(Error::NotFound));
}

#[test]
fn a_reference_is_read_back() {
    let data = asset();
    assert_eq!(read_reference(&data), Err(Error::NotFound));
    let out = embed_remote_reference(&data, ReferenceKind::Watermark, b"urn:x:1").unwrap();
    assert_eq!(read_reference(&out), Ok((ReferenceKind::Watermark, b"urn:x:1".to_vec())));
    let empty = embed_remote_reference(&data, ReferenceKind::Xmp, b"").unwrap();
    assert_eq!(read_reference(&empty), Ok((ReferenceKind::Xmp, vec![])));
    let signed = write_store(&out, b"store").unwrap();
    assert_eq!(read_reference(&signed), Err(Error::NotFound));
}

#[test]
fn a_reference_box_needs_a_known_tag() {
    let mut data = boxed("ftyp", b"isom");
    data.extend_from_slice(&boxed("c2rf", b""));
    assert_eq!(read_reference(&data), Err(Error::MalformedContainer));
    let mut data = boxed("ftyp", b"isom");
    data.extend_from_slice(&boxed("c2rf", &[4, b'u']));
    assert_eq!(read_reference(&data), Err(Error::MalformedContainer));
    data.extend_from_slice(&[1, 2, 3]);
    assert_eq!(read_reference(&data), Err(Error::MalformedContainer));
}

#[test]
fn tags_and_kinds_correspond() {
    for kind in
        [ReferenceKind::Xmp, ReferenceKind::StegoS, ReferenceKind::StegoB, ReferenceKind::Watermark]
    {
        assert_eq!(kind_from_tag(tag_of(kind)), Some(kind));
    }
    assert_eq!(kind_from_tag(4), None);
    assert_eq!(kind_from_tag(255), None);
}

#[test]
fn children_are_read_on_demand() {
    let data = asset();
    let top = read_level(&data, 0, data.len()).unwrap();
    let inside = read_children(&data, &top[1]).unwrap();
    let kinds: Vec<u32> = inside.iter().map(|h| h.kind).collect();
    assert_eq!(kinds, vec![0x6d76_6864, 0x7472_616b]);
    assert_eq!(inside[0].offset, 32);
    assert_eq!(inside[1].end_offset(), 524);
    assert_eq!(read_children(&data, &top[0]), Ok(vec![]));
    assert_eq!(read_children(&data, &top[2]), Ok(vec![]));
    let outside = BoxHeader { kind: KIND_MOOV, form: SizeForm::Compact, offset: 24, size: 20000 };
    assert_eq!(read_children(&data, &outside), Err(Error::MalformedContainer));
    let crooked = BoxHeader { kind: KIND_MOOV, form: SizeForm::Compact, offset: 24, size: 499 };
    assert_eq!(read_children(&data, &crooked), Err(Error::MalformedContainer));
}

#[test]
fn a_written_container_is_a_box_tree_again() {
    let out = write_store(&asset(), &vec![3u8; 77]).unwrap();
    let tree = Container::parse(&out).unwrap();
    assert_eq!(tree.serialize(&out).unwrap(), out);
    let back = remove_store(&out).unwrap();
    assert!(Container::parse(&back).is_ok());
}

#[test]
fn a_last_box_that_runs_to_the_end_keeps_doing_so() {
    let mut data = boxed("ftyp", b"isom");
    data.extend_from_slice(&[0, 0, 0, 0, b'm', b'd', b'a', b't', 1, 2, 3]);
    let out = write_store(&data, b"s").unwrap();
    assert_eq!(out.len(), data.len() + 9);
    let boxes = read_level(&out, 0, out.len()).unwrap();
    assert_eq!(boxes[2], BoxHeader { kind: KIND_MDAT, form: SizeForm::ToEnd, offset: 21, size: 11 });
    assert_eq!(remove_store(&out).unwrap(), data);
}

#[test]
fn a_store_that_runs_to_the_end_is_replaced_by_a_sized_box() {
    let mut data = boxed("ftyp", b"isom");
    data.extend_from_slice(&[0, 0, 0, 0, b'c', b'2', b'p', b'a', 9, 9]);
    assert_eq!(read_store(&data).unwrap(), vec![9, 9]);
    let out = write_store(&data, b"new").unwrap();
    assert_eq!(&out[12..], &[0, 0, 0, 11, b'c', b'2', b'p', b'a', b'n', b'e', b'w']);
    assert_eq!(remove_store(&data).unwrap(), boxed("ftyp", b"isom"));
}

#[test]
fn boxes_before_the_file_type_box_stay_in_front() {
    let mut data = boxed("free", b"pad");
    data.extend_from_slice(&boxed("ftyp", b"isom"));
    data.extend_from_slice(&boxed("mdat", b"media"));
    let out = write_store(&data, b"s").unwrap();
    let kinds: Vec<u32> = read_level(&out, 0, out.len()).unwrap().iter().map(|h| h.kind).collect();
    assert_eq!(kinds, vec![0x6672_6565, KIND_FTYP, KIND_STORE, KIND_MDAT]);
}

#[test]
fn deep_nesting_is_walked() {
    let depth = 40_000usize;
    let mut data = Vec::with_capacity(depth * 8);
    for level in 0..depth {
        data.extend_from_slice(&(((depth - level) * 8) as u32).to_be_bytes());
        data.extend_from_slice(b"moov");
    }
    let tree = Container::parse(&data).unwrap();
    assert_eq!(tree.nodes.len(), depth);
    assert_eq!(tree.nodes[depth - 1].depth, depth - 1);
    assert_eq!(tree.nodes[depth - 1].header.size, 8);
    assert_eq!(tree.serialize(&data).unwrap(), data);
    assert_eq!(write_store(&data, b"s"), Err(Error::MalformedContainer));
}

#[test]
fn replacing_a_store_moves_offsets_after_it_only() {
    let mut data = boxed("ftyp", b"isom");
    data.extend_from_slice(&boxed("c2pa", &[7u8; 20]));
    let mut payload = vec![0u8, 0, 0, 0, 0, 0, 0, 4];
    for e in [11u32, 12, 39, 40] {
        payload.extend_from_slice(&e.to_be_bytes());
    }
    let moov = boxed("moov", &boxed("stco", &payload));
    data.extend_from_slice(&moov);
    data.extend_from_slice(&boxed("mdat", b"media"));
    let out = write_store(&data, &[1u8; 5]).unwrap();
    let at = table_entry_position(&out);
    assert_eq!(at, 12 + 13 + 8 + 16);
    assert_eq!(be32(&out, at), 11);
    assert_eq!(be32(&out, at + 4), 12);
    assert_eq!(be32(&out, at + 8), 39);
    assert_eq!(be32(&out, at + 12), 25);
    assert_eq!(out[25], data[40]);
    assert_eq!(out[11], data[11]);
}
