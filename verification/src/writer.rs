//! Writing, replacing, patching and removing the provenance box.
//!
//! The provenance box is the first top-level box that holds a store or a
//! reference to one. A container has room for one: writing puts the new box
//! in the place of the old one, or, where there is none, right after the
//! file-type box. Bytes after that place move, and the entries of the offset
//! tables that point at them move with them.

use vstd::prelude::*;
use crate::bytes::{overwrite, push_range};
use crate::error::Error;
use crate::header::{
    fresh_header, header_bytes, lemma_header_bytes_len, new_header, push_header, BoxHeader,
    SizeForm, KIND_FTYP, KIND_REFERENCE, KIND_STORE,
};
use crate::guarantees::{
    lemma_patched_container, lemma_reference_read_back, lemma_removed_container,
    lemma_written_container,
};
use crate::locator::{
    find_box, find_store, lemma_found_box_within, locate, store_location, stored, top_level,
    StoreLocation,
};
use crate::moving::{moved_region, region_movable};
use crate::offsets::move_tree_offsets;
use crate::tree::{flat, valid, BoxNode, Container};
use crate::walker::read_level;

verus! {

/// `buf` with `[start, end)` taken out and `insert` put in its place.
pub open spec fn spliced(buf: Seq<u8>, start: int, end: int, insert: Seq<u8>) -> Seq<u8> {
    buf.subrange(0, start) + insert + buf.subrange(end, buf.len() as int)
}

/// The bytes of a new box of `kind` around `payload`.
pub open spec fn box_bytes(kind: u32, payload: Seq<u8>) -> Seq<u8> {
    header_bytes(fresh_header(kind, 0, payload.len() as int)) + payload
}

/// The place of the provenance box among the top-level boxes: the range of
/// the first store or reference box, or, where there is none, the empty
/// range right after the first file-type box.
///
/// There is no place without a file-type box, nor after a file-type box that
/// runs to the end of the container.
pub open spec fn slot_of(boxes: Seq<BoxHeader>) -> Option<(int, int)> {
    match find_box(boxes, KIND_STORE, KIND_REFERENCE) {
        Some(loc) => Some((loc.header.offset as int, loc.header.end())),
        None => match find_box(boxes, KIND_FTYP, KIND_FTYP) {
            Some(f) => if f.header.form == SizeForm::ToEnd {
                None
            } else {
                Some((f.header.end(), f.header.end()))
            },
            None => None,
        },
    }
}

/// The container with `[start, end)` replaced by `insert` and every offset
/// table entry that points at or after `end` moved by the change in length.
pub open spec fn rewritten(data: Seq<u8>, start: int, end: int, insert: Seq<u8>) -> Result<
    Seq<u8>,
    Error,
> {
    let total = data.len() as int;
    let delta = insert.len() - (end - start);
    if region_movable(data, 0, total, end, delta) {
        Ok(spliced(moved_region(data, 0, total, end, delta), start, end, insert))
    } else {
        Err(Error::MalformedContainer)
    }
}

/// The container with a box of `kind` around `payload` as its provenance
/// box.
pub open spec fn written(data: Seq<u8>, kind: u32, payload: Seq<u8>) -> Result<Seq<u8>, Error> {
    if !valid(data, 0, data.len() as int) {
        Err(Error::MalformedContainer)
    } else {
        match slot_of(top_level(data)->0) {
            None => Err(Error::MalformedContainer),
            Some((start, end)) => rewritten(data, start, end, box_bytes(kind, payload)),
        }
    }
}

/// The container without its provenance box.
pub open spec fn removed(data: Seq<u8>) -> Result<Seq<u8>, Error> {
    if !valid(data, 0, data.len() as int) {
        Err(Error::MalformedContainer)
    } else {
        match find_box(top_level(data)->0, KIND_STORE, KIND_REFERENCE) {
            None => Err(Error::NotFound),
            Some(loc) => rewritten(data, loc.header.offset as int, loc.header.end(), Seq::empty()),
        }
    }
}

/// `n` zero bytes.
pub open spec fn zeros(n: int) -> Seq<u8> {
    Seq::new(n as nat, |i: int| 0u8)
}

/// The container with the payload of its store box overwritten by `store`
/// and, where `store` is shorter, zero bytes up to the end of the box.
pub open spec fn patched(data: Seq<u8>, store: Seq<u8>) -> Result<Seq<u8>, Error> {
    match store_location(data) {
        Err(e) => Err(e),
        Ok(None) => Err(Error::NotFound),
        Ok(Some(loc)) => {
            let room = loc.header.end() - loc.header.payload_start();
            if store.len() > room {
                Err(Error::PatchSizeMismatch)
            } else {
                Ok(overwrite(data, loc.header.payload_start(), store + zeros(room - store.len())))
            }
        },
    }
}

/// How a reference to a store kept elsewhere is carried.
#[derive(Clone, Copy, Debug, PartialEq, Eq, Structural)]
pub enum ReferenceKind {
    /// As descriptive metadata.
    Xmp,
    /// As a short steganographic mark.
    StegoS,
    /// As a long steganographic mark.
    StegoB,
    /// As a watermark.
    Watermark,
}

/// The byte that stands for a kind of reference.
pub open spec fn kind_tag(kind: ReferenceKind) -> u8 {
    match kind {
        ReferenceKind::Xmp => 0,
        ReferenceKind::StegoS => 1,
        ReferenceKind::StegoB => 2,
        ReferenceKind::Watermark => 3,
    }
}

/// The payload of a reference box: the tag of the kind, then the URI.
pub open spec fn reference_payload(kind: ReferenceKind, uri: Seq<u8>) -> Seq<u8> {
    seq![kind_tag(kind)] + uri
}

/// The kind that a tag byte stands for.
pub open spec fn kind_of_tag(tag: u8) -> Option<ReferenceKind> {
    if tag == 0 {
        Some(ReferenceKind::Xmp)
    } else if tag == 1 {
        Some(ReferenceKind::StegoS)
    } else if tag == 2 {
        Some(ReferenceKind::StegoB)
    } else if tag == 3 {
        Some(ReferenceKind::Watermark)
    } else {
        None
    }
}

/// The reference that the container carries: the kind and the URI in its
/// first reference box.
pub open spec fn referenced(data: Seq<u8>) -> Result<(ReferenceKind, Seq<u8>), Error> {
    match top_level(data) {
        None => Err(Error::MalformedContainer),
        Some(boxes) => match find_box(boxes, KIND_REFERENCE, KIND_REFERENCE) {
            None => Err(Error::NotFound),
            Some(loc) => {
                let payload = data.subrange(loc.header.payload_start(), loc.header.end());
                if payload.len() == 0 {
                    Err(Error::MalformedContainer)
                } else {
                    match kind_of_tag(payload[0]) {
                        None => Err(Error::MalformedContainer),
                        Some(kind) => Ok((kind, payload.subrange(1, payload.len() as int))),
                    }
                }
            },
        },
    }
}

/// Finds the place of the provenance box.
fn find_slot(boxes: &Vec<BoxHeader>, data: Ghost<Seq<u8>>) -> (res: Option<(usize, usize)>)
    requires
        top_level(data@) == Some(boxes@),
        data@.len() <= usize::MAX,
    ensures
        match res {
            Some((start, end)) => slot_of(boxes@) == Some((start as int, end as int)) && start
                <= end <= data@.len(),
            None => slot_of(boxes@) is None,
        },
{
    match locate(boxes, KIND_STORE, KIND_REFERENCE) {
        Some(loc) => {
            proof {
                lemma_found_box_within(data@, KIND_STORE, KIND_REFERENCE);
            }
            Some((loc.header.offset, loc.header.end_offset()))
        },
        None => match locate(boxes, KIND_FTYP, KIND_FTYP) {
            None => None,
            Some(f) => {
                proof {
                    lemma_found_box_within(data@, KIND_FTYP, KIND_FTYP);
                }
                if f.header.runs_to_end() {
                    None
                } else {
                    let at: usize = f.header.end_offset();
                    Some((at, at))
                }
            },
        },
    }
}

/// Replaces `[start, end)` by a new box (or by nothing) and moves the
/// offsets that point after it.
fn rewrite(
    data: &[u8],
    nodes: &Vec<BoxNode>,
    start: usize,
    end: usize,
    fresh: Option<(u32, &[u8])>,
) -> (res: Result<Vec<u8>, Error>)
    requires
        start <= end <= data@.len(),
        nodes@ == flat(data@, 0, data@.len() as int, 0),
        fresh matches Some((kind, payload)) ==> data@.len() + payload@.len() + 16
            <= usize::MAX,
    ensures
        ({
            let insert = match fresh {
                Some((kind, payload)) => box_bytes(kind, payload@),
                None => Seq::empty(),
            };
            match res {
                Ok(out) => rewritten(data@, start as int, end as int, insert) == Ok::<
                    Seq<u8>,
                    Error,
                >(out@),
                Err(e) => rewritten(data@, start as int, end as int, insert) == Err::<
                    Seq<u8>,
                    Error,
                >(e),
            }
        }),
{
    let total: usize = data.len();
    let removed_len: usize = end - start;
    let mut out: Vec<u8> = Vec::new();
    match fresh {
        Some((kind, payload)) => {
            let h: BoxHeader = new_header(kind, 0, payload.len());
            proof {
                lemma_header_bytes_len(h);
            }
            let buf: Vec<u8> = match move_tree_offsets(data, nodes, end, h.size, removed_len) {
                Err(e) => {
                    return Err(e);
                },
                Ok(buf) => buf,
            };
            push_range(&mut out, buf.as_slice(), 0, start);
            push_header(&mut out, &h);
            push_range(&mut out, payload, 0, payload.len());
            push_range(&mut out, buf.as_slice(), end, total);
            proof {
                assert(payload@.subrange(0, payload@.len() as int) =~= payload@);
                assert(out@ =~= spliced(buf@, start as int, end as int, box_bytes(kind, payload@)));
            }
            Ok(out)
        },
        None => {
            let buf: Vec<u8> = match move_tree_offsets(data, nodes, end, 0, removed_len) {
                Err(e) => {
                    return Err(e);
                },
                Ok(buf) => buf,
            };
            push_range(&mut out, buf.as_slice(), 0, start);
            push_range(&mut out, buf.as_slice(), end, total);
            proof {
                assert(out@ =~= spliced(buf@, start as int, end as int, Seq::empty()));
            }
            Ok(out)
        },
    }
}

/// Puts a box of `kind` around `payload` in the place of the provenance box.
fn write_box(data: &[u8], kind: u32, payload: &[u8]) -> (res: Result<Vec<u8>, Error>)
    requires
        data@.len() + payload@.len() + 16 <= usize::MAX,
    ensures
        match res {
            Ok(out) => written(data@, kind, payload@) == Ok::<Seq<u8>, Error>(out@),
            Err(e) => written(data@, kind, payload@) == Err::<Seq<u8>, Error>(e),
        },
{
    let total: usize = data.len();
    let tree: Container = match Container::parse(data) {
        Err(e) => {
            return Err(e);
        },
        Ok(tree) => tree,
    };
    let boxes: Vec<BoxHeader> = tree.top_level();
    match find_slot(&boxes, Ghost(data@)) {
        None => Err(Error::MalformedContainer),
        Some((start, end)) => rewrite(data, &tree.nodes, start, end, Some((kind, payload))),
    }
}

/// Embeds `store` in the container: in the place of the store or reference
/// it holds, or, where it holds none, right after its file-type box.
///
/// Offset table entries that point at or after the place move by the change
/// in length. `MalformedContainer` where the bytes are no box tree, where
/// there is no file-type box to write after (or it runs to the end of the
/// container), or where an offset table is not whole or an entry would no
/// longer fit.
pub fn write_store(data: &[u8], store: &[u8]) -> (res: Result<Vec<u8>, Error>)
    requires
        data@.len() + store@.len() + 16 <= usize::MAX,
    ensures
        match res {
            Ok(out) => {
                &&& written(data@, KIND_STORE, store@) == Ok::<Seq<u8>, Error>(out@)
                &&& valid(out@, 0, out@.len() as int)
                &&& stored(out@) == Ok::<Seq<u8>, Error>(store@)
            },
            Err(e) => written(data@, KIND_STORE, store@) == Err::<Seq<u8>, Error>(e),
        },
{
    let res = write_box(data, KIND_STORE, store);
    proof {
        if res is Ok {
            lemma_written_container(data@, KIND_STORE, store@, res->Ok_0@);
        }
    }
    res
}

/// The tag byte of a kind of reference.
pub fn tag_of(kind: ReferenceKind) -> (t: u8)
    ensures
        t == kind_tag(kind),
{
    match kind {
        ReferenceKind::Xmp => 0,
        ReferenceKind::StegoS => 1,
        ReferenceKind::StegoB => 2,
        ReferenceKind::Watermark => 3,
    }
}

/// Embeds a reference to a store kept at `uri` in the place of the
/// provenance box. A store that the container held is gone afterwards.
pub fn embed_remote_reference(data: &[u8], kind: ReferenceKind, uri: &[u8]) -> (res: Result<
    Vec<u8>,
    Error,
>)
    requires
        data@.len() + uri@.len() + 17 <= usize::MAX,
    ensures
        match res {
            Ok(out) => {
                &&& written(data@, KIND_REFERENCE, reference_payload(kind, uri@)) == Ok::<
                    Seq<u8>,
                    Error,
                >(out@)
                &&& valid(out@, 0, out@.len() as int)
                &&& referenced(out@) == Ok::<(ReferenceKind, Seq<u8>), Error>((kind, uri@))
            },
            Err(e) => written(data@, KIND_REFERENCE, reference_payload(kind, uri@)) == Err::<
                Seq<u8>,
                Error,
            >(e),
        },
{
    let mut payload: Vec<u8> = Vec::new();
    payload.push(tag_of(kind));
    push_range(&mut payload, uri, 0, uri.len());
    proof {
        assert(uri@.subrange(0, uri@.len() as int) =~= uri@);
        assert(payload@ =~= reference_payload(kind, uri@));
    }
    let res = write_box(data, KIND_REFERENCE, payload.as_slice());
    proof {
        if res is Ok {
            lemma_written_container(data@, KIND_REFERENCE, payload@, res->Ok_0@);
            lemma_reference_read_back(data@, kind, uri@, res->Ok_0@);
        }
    }
    res
}

/// The kind that a tag byte stands for.
pub fn kind_from_tag(tag: u8) -> (kind: Option<ReferenceKind>)
    ensures
        kind == kind_of_tag(tag),
{
    if tag == 0 {
        Some(ReferenceKind::Xmp)
    } else if tag == 1 {
        Some(ReferenceKind::StegoS)
    } else if tag == 2 {
        Some(ReferenceKind::StegoB)
    } else if tag == 3 {
        Some(ReferenceKind::Watermark)
    } else {
        None
    }
}

/// Reads the reference that the container carries.
///
/// `NotFound` where it has no reference box; `MalformedContainer` where its
/// top level cannot be walked, or the reference box is empty or starts with
/// a byte that stands for no kind.
pub fn read_reference(data: &[u8]) -> (res: Result<(ReferenceKind, Vec<u8>), Error>)
    ensures
        match res {
            Ok((kind, uri)) => referenced(data@) == Ok::<(ReferenceKind, Seq<u8>), Error>(
                (kind, uri@),
            ),
            Err(e) => referenced(data@) == Err::<(ReferenceKind, Seq<u8>), Error>(e),
        },
{
    let total: usize = data.len();
    let boxes: Vec<BoxHeader> = match read_level(data, 0, total) {
        Err(e) => {
            return Err(e);
        },
        Ok(boxes) => boxes,
    };
    match locate(&boxes, KIND_REFERENCE, KIND_REFERENCE) {
        None => Err(Error::NotFound),
        Some(loc) => {
            proof {
                lemma_found_box_within(data@, KIND_REFERENCE, KIND_REFERENCE);
            }
            let from: usize = loc.header.payload_offset();
            let to: usize = loc.header.end_offset();
            if from == to {
                return Err(Error::MalformedContainer);
            }
            let ghost payload = data@.subrange(from as int, to as int);
            assert(payload[0] == data@[from as int]);
            match kind_from_tag(data[from]) {
                None => Err(Error::MalformedContainer),
                Some(kind) => {
                    let mut uri: Vec<u8> = Vec::new();
                    push_range(&mut uri, data, from + 1, to);
                    assert(uri@ =~= payload.subrange(1, payload.len() as int));
                    Ok((kind, uri))
                },
            }
        },
    }
}

/// Removes the provenance box and moves the offsets that pointed after it
/// back. `NotFound` where the container holds neither store nor reference.
pub fn remove_store(data: &[u8]) -> (res: Result<Vec<u8>, Error>)
    ensures
        match res {
            Ok(out) => removed(data@) == Ok::<Seq<u8>, Error>(out@) && valid(
                out@,
                0,
                out@.len() as int,
            ),
            Err(e) => removed(data@) == Err::<Seq<u8>, Error>(e),
        },
{
    let total: usize = data.len();
    let tree: Container = match Container::parse(data) {
        Err(e) => {
            return Err(e);
        },
        Ok(tree) => tree,
    };
    let boxes: Vec<BoxHeader> = tree.top_level();
    match locate(&boxes, KIND_STORE, KIND_REFERENCE) {
        None => Err(Error::NotFound),
        Some(loc) => {
            proof {
                lemma_found_box_within(data@, KIND_STORE, KIND_REFERENCE);
            }
            let res = rewrite(data, &tree.nodes, loc.header.offset, loc.header.end_offset(), None);
            proof {
                if res is Ok {
                    lemma_removed_container(data@, res->Ok_0@);
                }
            }
            res
        },
    }
}

/// Overwrites the store in place, where the new bytes fit the payload of
/// the store box. A shorter store is followed by zero bytes up to the end of
/// the box. Nothing moves, so no offset is touched.
///
/// `PatchSizeMismatch` where `store` is longer than the payload of the store
/// box, `NotFound` where there is no store box; the container is then left
/// as it was.
pub fn patch_store(data: &mut Vec<u8>, store: &[u8]) -> (res: Result<(), Error>)
    ensures
        match res {
            Ok(()) => {
                &&& patched(old(data)@, store@) == Ok::<Seq<u8>, Error>(final(data)@)
                &&& final(data)@.len() == old(data)@.len()
                &&& top_level(final(data)@) == top_level(old(data)@)
                &&& valid(final(data)@, 0, final(data)@.len() as int) == valid(
                    old(data)@,
                    0,
                    old(data)@.len() as int,
                )
            },
            Err(e) => patched(old(data)@, store@) == Err::<Seq<u8>, Error>(e) && final(data)@
                == old(data)@,
        },
{
    let total: usize = data.len();
    let loc: StoreLocation = match find_store(data.as_slice()) {
        Err(e) => {
            return Err(e);
        },
        Ok(None) => {
            return Err(Error::NotFound);
        },
        Ok(Some(loc)) => loc,
    };
    proof {
        lemma_found_box_within(data@, KIND_STORE, KIND_STORE);
    }
    let from: usize = loc.header.payload_offset();
    let room: usize = loc.header.end_offset() - from;
    let given: usize = store.len();
    if given > room {
        return Err(Error::PatchSizeMismatch);
    }
    let ghost fill = store@ + zeros(room - given);
    let ghost goal = overwrite(old(data)@, from as int, fill);
    let mut i: usize = 0;
    while i < room
        invariant
            i <= room,
            given <= room,
            given == store@.len(),
            from + room <= total,
            total == old(data)@.len(),
            data@.len() == total,
            fill == store@ + zeros(room - given),
            goal == overwrite(old(data)@, from as int, fill),
            forall|j: int| 0 <= j < from + i ==> data@[j] == goal[j],
            forall|j: int| from + i <= j < total ==> data@[j] == old(data)@[j],
        decreases room - i,
    {
        let b: u8 = if i < given {
            store[i]
        } else {
            0
        };
        assert(goal[from + i] == fill[i as int]);
        data.set(from + i, b);
        i = i + 1;
    }
    assert(data@ =~= goal);
    proof {
        lemma_patched_container(old(data)@, store@, data@);
    }
    Ok(())
}

} // verus!
