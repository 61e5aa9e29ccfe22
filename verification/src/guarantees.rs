//! What writing and removing the provenance box guarantee.
//!
//! The container that comes out is a box tree again; the box that was
//! written is found and read back; removing what was written gives back the
//! container as it was; and replacing a store is the same as writing the
//! replacement in the first place.

use vstd::prelude::*;
use crate::bytes::overwrite;
use crate::composition::{
    lemma_movable_by_nothing, lemma_moved_by_nothing, lemma_moved_twice, moves_compose,
};
use crate::error::Error;
use crate::hashing::{hash_ranges_now, included, HashObjectPosition, Role};
use crate::header::{
    decode_header, fresh_header, lemma_decode_from_header_bytes, lemma_decoded_header_bounds,
    lemma_header_bytes_len, KIND_FTYP, KIND_REFERENCE, KIND_STORE,
};
use crate::locator::{
    find_box, first_of_kind, lemma_first_of_kind, lemma_first_of_kind_unique, store_location,
    stored, top_level,
};
use crate::moving::{lemma_moved_region_len, moved_region, region_movable};
use crate::offsets::moved;
use crate::regions::{
    lemma_join, lemma_level_split_at, lemma_region_is_local, lemma_shifted_by_nothing,
    shifted_headers,
};
use crate::splice::{
    boxes_after, boxes_before, fresh_box, lemma_data_around_slot, lemma_spliced_container, slot_at,
    slot_end, slot_start,
};
use crate::tree::{lemma_valid_has_level, valid};
use crate::walker::{lemma_level_tiles, level, tiles};
use crate::writer::{
    box_bytes, kind_of_tag, kind_tag, patched, reference_payload, referenced, removed, rewritten,
    slot_of, spliced, written, zeros, ReferenceKind,
};

verus! {

/// A box of this kind is a provenance box.
pub open spec fn is_slot_kind(kind: u32) -> bool {
    kind == KIND_STORE || kind == KIND_REFERENCE
}

/// The container holds a provenance box.
pub open spec fn slot_taken(data: Seq<u8>) -> bool {
    let boxes = top_level(data)->0;
    first_of_kind(boxes, KIND_STORE, KIND_REFERENCE) < boxes.len()
}

/// The index among the top-level boxes at which the provenance box is, or
/// at which it is put in: after the first file-type box.
pub open spec fn slot_index(data: Seq<u8>) -> int {
    let boxes = top_level(data)->0;
    if slot_taken(data) {
        first_of_kind(boxes, KIND_STORE, KIND_REFERENCE)
    } else {
        first_of_kind(boxes, KIND_FTYP, KIND_FTYP) + 1
    }
}

/// The place of the provenance box of a valid container, as an index among
/// its top-level boxes: no box before it is a provenance box.
pub proof fn lemma_slot_of(data: Seq<u8>)
    requires
        valid(data, 0, data.len() as int),
        data.len() <= usize::MAX,
        slot_of(top_level(data)->0) is Some,
    ensures
        slot_at(data, slot_index(data), slot_taken(data)),
        slot_of(top_level(data)->0) == Some(
            (slot_start(data, slot_index(data)), slot_end(data, slot_index(data), slot_taken(data))),
        ),
        forall|k: int|
            0 <= k < slot_index(data) ==> !is_slot_kind((#[trigger] top_level(data)->0[k]).kind),
        slot_taken(data) == (find_box(top_level(data)->0, KIND_STORE, KIND_REFERENCE) is Some),
{
    let total = data.len() as int;
    lemma_valid_has_level(data, 0, total);
    let boxes = top_level(data)->0;
    lemma_level_tiles(data, 0, total);
    assert(tiles(data, boxes, 0, total));
    lemma_first_of_kind(boxes, KIND_STORE, KIND_REFERENCE);
    if !slot_taken(data) {
        lemma_first_of_kind(boxes, KIND_FTYP, KIND_FTYP);
        let f = first_of_kind(boxes, KIND_FTYP, KIND_FTYP);
        assert(f < boxes.len());
        if f + 1 < boxes.len() {
            assert(boxes[f].end() == boxes[f + 1].offset);
        } else {
            assert(boxes.last() == boxes[f]);
        }
    }
}

/// What is known of a container into which a provenance box was written: it
/// is a box tree; its top-level boxes are those before the place of the box,
/// the new box, and those after the place, moved; the new box is its
/// provenance box, and stands right after the first file-type box where the
/// container held none before; and where a store was written, the store is
/// read back.
pub proof fn lemma_written_container(data: Seq<u8>, kind: u32, payload: Seq<u8>, out: Seq<u8>)
    requires
        data.len() + payload.len() + 16 <= usize::MAX,
        is_slot_kind(kind),
        written(data, kind, payload) == Ok::<Seq<u8>, Error>(out),
    ensures
        ({
            let i = slot_index(data);
            let s = slot_start(data, i);
            let e = slot_end(data, i, slot_taken(data));
            let h = fresh_header(kind, s, payload.len() as int);
            &&& out.len() == data.len() + h.size - (e - s)
            &&& valid(out, 0, out.len() as int)
            &&& top_level(out) == Some(
                boxes_before(data, i) + seq![h] + shifted_headers(
                    boxes_after(data, i, slot_taken(data)),
                    h.size - (e - s),
                ),
            )
            &&& slot_taken(out)
            &&& slot_index(out) == i
            &&& top_level(out)->0[i] == h
            &&& !slot_taken(data) ==> i > 0 && top_level(out)->0[i - 1].kind == KIND_FTYP
                && top_level(out)->0[i - 1] == top_level(data)->0[i - 1]
            &&& out.subrange(h.payload_start(), h.end()) == payload
            &&& kind == KIND_STORE ==> stored(out) == Ok::<Seq<u8>, Error>(payload)
            &&& kind == KIND_STORE ==> store_location(out) is Ok && store_location(out)->Ok_0
                is Some && store_location(out)->Ok_0->0.header == h
        }),
{
    let total = data.len() as int;
    lemma_slot_of(data);
    let i = slot_index(data);
    let taken = slot_taken(data);
    let s = slot_start(data, i);
    let e = slot_end(data, i, taken);
    let h = fresh_header(kind, s, payload.len() as int);
    let fresh = Some((kind, payload));
    lemma_header_bytes_len(fresh_header(kind, 0, payload.len() as int));
    let ins = box_bytes(kind, payload);
    assert(ins.len() == h.size);
    let delta = ins.len() - (e - s);
    lemma_moved_region_len(data, 0, total, e, delta);
    lemma_data_around_slot(data, i, taken, e, delta);
    lemma_spliced_container(data, i, taken, fresh, e, delta, out);
    let top = top_level(out)->0;
    let before = boxes_before(data, i);
    assert(top == before + fresh_box(fresh, s) + shifted_headers(
        boxes_after(data, i, taken),
        delta,
    ));
    assert(top[i] == h);
    assert forall|k: int| 0 <= k < i implies (#[trigger] top[k]).kind != KIND_STORE && top[k].kind
        != KIND_REFERENCE by {
        assert(top[k] == before[k]);
        assert(before[k] == top_level(data)->0[k]);
        assert(!is_slot_kind(top_level(data)->0[k].kind));
    }
    lemma_first_of_kind_unique(top, KIND_STORE, KIND_REFERENCE, i);
    if !taken {
        lemma_first_of_kind(top_level(data)->0, KIND_FTYP, KIND_FTYP);
        assert(top[i - 1] == before[i - 1]);
    }
    assert(out.subrange(h.payload_start(), h.end()) =~= out.subrange(s, s + ins.len()).subrange(
        h.header_len(),
        h.size as int,
    ));
    assert(ins.subrange(h.header_len(), h.size as int) =~= payload);
    if kind == KIND_STORE {
        lemma_first_of_kind_unique(top, KIND_STORE, KIND_STORE, i);
    }
}

/// What is known of a container whose store was patched in place: it is as
/// long as it was and has the top-level boxes it had, so its store is where
/// it was and its hash ranges are what they were; it is a box tree if it was
/// one; and its store holds the new bytes, followed by zero bytes up to the
/// end of the box.
pub proof fn lemma_patched_container(data: Seq<u8>, store: Seq<u8>, out: Seq<u8>)
    requires
        patched(data, store) == Ok::<Seq<u8>, Error>(out),
    ensures
        out.len() == data.len(),
        top_level(out) == top_level(data),
        store_location(out) == store_location(data),
        hash_ranges_now(out) == hash_ranges_now(data),
        valid(out, 0, out.len() as int) == valid(data, 0, data.len() as int),
        ({
            let h = store_location(data)->Ok_0->0.header;
            stored(out) == Ok::<Seq<u8>, Error>(
                store + zeros(h.end() - h.payload_start() - store.len()),
            )
        }),
{
    let total = data.len() as int;
    let boxes = top_level(data)->0;
    lemma_level_tiles(data, 0, total);
    assert(tiles(data, boxes, 0, total));
    lemma_first_of_kind(boxes, KIND_STORE, KIND_STORE);
    let i = first_of_kind(boxes, KIND_STORE, KIND_STORE);
    let h = boxes[i];
    let s = h.offset as int;
    let ps = h.payload_start();
    let e = h.end();
    let fill = store + zeros(e - ps - store.len());
    assert(out == overwrite(data, ps, fill));
    assert(out.len() == total);
    lemma_level_split_at(data, 0, total, i);
    assert(decode_header(data, s, total) == Some(h));
    lemma_decoded_header_bounds(data, s, total);
    assert(out.subrange(0, s) =~= data.subrange(0, s));
    assert(out.subrange(s, ps) =~= data.subrange(s, ps));
    assert(out.subrange(e, total) =~= data.subrange(e, total));
    assert(out.subrange(ps, e) =~= fill);
    lemma_region_is_local(data, 0, s, out, 0, s, 0);
    lemma_shifted_by_nothing(level(data, 0, s)->0);
    lemma_region_is_local(data, e, total, out, e, total, 0);
    match level(data, e, total) {
        Some(more) => {
            lemma_shifted_by_nothing(more);
        },
        None => {},
    }
    lemma_decode_from_header_bytes(data, s, total, out, s, total);
    assert(decode_header(out, s, total) == Some(h));
    assert(level(out, s, total) == level(data, s, total));
    assert(valid(out, s, total) == valid(data, s, total));
    lemma_join(data, 0, s, total, 0);
    lemma_join(out, 0, s, total, 0);
}

/// The hash ranges of a container into which a store was written: what
/// precedes the store box, the store box left out, and what follows it.
pub proof fn lemma_hash_ranges_after_write(data: Seq<u8>, store: Seq<u8>, out: Seq<u8>)
    requires
        data.len() + store.len() + 16 <= usize::MAX,
        written(data, KIND_STORE, store) == Ok::<Seq<u8>, Error>(out),
    ensures
        ({
            let h = fresh_header(
                KIND_STORE,
                slot_start(data, slot_index(data)),
                store.len() as int,
            );
            hash_ranges_now(out) == Ok::<Seq<HashObjectPosition>, Error>(
                included(0, h.offset as int) + seq![
                    HashObjectPosition {
                        offset: h.offset,
                        length: h.size,
                        role: Role::Excluded,
                    },
                ] + included(h.end(), out.len() as int),
            )
        }),
{
    lemma_written_container(data, KIND_STORE, store, out);
}

/// The reference that was embedded is read back, kind and URI.
pub proof fn lemma_reference_read_back(
    data: Seq<u8>,
    kind: ReferenceKind,
    uri: Seq<u8>,
    out: Seq<u8>,
)
    requires
        data.len() + uri.len() + 17 <= usize::MAX,
        written(data, KIND_REFERENCE, reference_payload(kind, uri)) == Ok::<Seq<u8>, Error>(out),
    ensures
        referenced(out) == Ok::<(ReferenceKind, Seq<u8>), Error>((kind, uri)),
{
    let payload = reference_payload(kind, uri);
    lemma_written_container(data, KIND_REFERENCE, payload, out);
    let i = slot_index(data);
    let top = top_level(out)->0;
    lemma_first_of_kind(top, KIND_STORE, KIND_REFERENCE);
    lemma_first_of_kind_unique(top, KIND_REFERENCE, KIND_REFERENCE, i);
    assert(payload[0] == kind_tag(kind));
    assert(kind_of_tag(kind_tag(kind)) == Some(kind));
    assert(payload.subrange(1, payload.len() as int) =~= uri);
}

/// What is known of a container from which the provenance box was removed:
/// it is a box tree, and its top-level boxes are those before the box and
/// those after it, moved back by the size of the box.
pub proof fn lemma_removed_container(data: Seq<u8>, out: Seq<u8>)
    requires
        data.len() <= usize::MAX,
        removed(data) == Ok::<Seq<u8>, Error>(out),
    ensures
        ({
            let i = slot_index(data);
            let gone = top_level(data)->0[i];
            &&& slot_taken(data)
            &&& out.len() == data.len() - gone.size
            &&& valid(out, 0, out.len() as int)
            &&& top_level(out) == Some(
                boxes_before(data, i) + shifted_headers(boxes_after(data, i, true), -gone.size),
            )
        }),
{
    let total = data.len() as int;
    lemma_valid_has_level(data, 0, total);
    lemma_first_of_kind(top_level(data)->0, KIND_STORE, KIND_REFERENCE);
    lemma_slot_of(data);
    let i = slot_index(data);
    let s = slot_start(data, i);
    let e = slot_end(data, i, true);
    let fresh = None::<(u32, Seq<u8>)>;
    lemma_moved_region_len(data, 0, total, e, -(e - s));
    lemma_data_around_slot(data, i, true, e, -(e - s));
    lemma_spliced_container(data, i, true, fresh, e, -(e - s), out);
    assert(boxes_before(data, i) + fresh_box(fresh, s) + shifted_headers(
        boxes_after(data, i, true),
        -(e - s),
    ) =~= boxes_before(data, i) + shifted_headers(boxes_after(data, i, true), -(e - s)));
}

/// Moving up by `n` from `s` and then back by `n` from `s + n` is no move.
proof fn lemma_there_and_back(s: int, n: int)
    requires
        0 <= n,
    ensures
        moves_compose(s, n, s + n, -n, 0, 0),
{
    assert forall|v: int| 0 <= v implies moved(#[trigger] moved(v, s, n), s + n, -n) == moved(
        v,
        0,
        0,
    ) by {}
}

/// Moving up by `n` from `s` and then by `k - n` from `s + n` is moving up
/// by `k` from `s`.
proof fn lemma_up_and_on(s: int, n: int, k: int)
    requires
        0 <= n,
    ensures
        moves_compose(s, n, s + n, k - n, s, k),
{
    assert forall|v: int| 0 <= v implies moved(#[trigger] moved(v, s, n), s + n, k - n) == moved(
        v,
        s,
        k,
    ) by {}
}

/// What a container that held no provenance box looks like once one was
/// written into it, seen from the container it was: the two parts around the
/// new box hold the parts of the old container with the offsets moved, and
/// the new box is the provenance box.
proof fn lemma_after_first_write(data: Seq<u8>, kind: u32, payload: Seq<u8>, x: Seq<u8>)
    requires
        data.len() + payload.len() + 16 <= usize::MAX,
        is_slot_kind(kind),
        valid(data, 0, data.len() as int),
        !slot_taken(data),
        written(data, kind, payload) == Ok::<Seq<u8>, Error>(x),
    ensures
        ({
            let total = data.len() as int;
            let i = slot_index(data);
            let s = slot_start(data, i);
            let n = box_bytes(kind, payload).len() as int;
            &&& slot_at(data, i, false)
            &&& slot_of(top_level(data)->0) == Some((s, s))
            &&& 0 <= s <= total
            &&& 8 <= n <= payload.len() + 16
            &&& x.len() == total + n
            &&& valid(x, 0, x.len() as int)
            &&& slot_at(x, i, true)
            &&& slot_taken(x)
            &&& slot_index(x) == i
            &&& slot_start(x, i) == s
            &&& slot_end(x, i, true) == s + n
            &&& slot_of(top_level(x)->0) == Some((s, s + n))
            &&& region_movable(data, 0, s, s, n)
            &&& region_movable(data, s, total, s, n)
            &&& x.subrange(0, s) == moved_region(data, 0, s, s, n)
            &&& x.subrange(s + n, x.len() as int) == moved_region(data, s, total, s, n)
        }),
{
    let total = data.len() as int;
    lemma_slot_of(data);
    let i = slot_index(data);
    let s = slot_start(data, i);
    let h = fresh_header(kind, s, payload.len() as int);
    lemma_header_bytes_len(fresh_header(kind, 0, payload.len() as int));
    let n = box_bytes(kind, payload).len() as int;
    assert(n == h.size);
    lemma_moved_region_len(data, 0, total, s, n);
    lemma_data_around_slot(data, i, false, s, n);
    lemma_spliced_container(data, i, false, Some((kind, payload)), s, n, x);
    lemma_written_container(data, kind, payload, x);
    let top = top_level(x)->0;
    assert(top[i] == h);
    assert(find_box(top, KIND_STORE, KIND_REFERENCE) is Some);
    assert(find_box(top, KIND_STORE, KIND_REFERENCE)->0.header == h);
}

/// Removing the provenance box that was written into a container that held
/// none gives back the container, byte for byte.
pub proof fn lemma_remove_undoes_write(data: Seq<u8>, kind: u32, payload: Seq<u8>, x: Seq<u8>)
    requires
        data.len() + payload.len() + 16 <= usize::MAX,
        is_slot_kind(kind),
        valid(data, 0, data.len() as int),
        !slot_taken(data),
        written(data, kind, payload) == Ok::<Seq<u8>, Error>(x),
    ensures
        removed(x) == Ok::<Seq<u8>, Error>(data),
{
    let total = data.len() as int;
    lemma_after_first_write(data, kind, payload, x);
    let i = slot_index(data);
    let s = slot_start(data, i);
    let n = box_bytes(kind, payload).len() as int;
    let end = x.len() as int;
    lemma_data_around_slot(x, i, true, s + n, -n);
    lemma_there_and_back(s, n);
    lemma_moved_twice(data, 0, s, x, 0, s, s, n, s + n, -n, 0, 0);
    lemma_moved_twice(data, s, total, x, s + n, end, s, n, s + n, -n, 0, 0);
    lemma_moved_by_nothing(data, 0, s, 0);
    lemma_moved_by_nothing(data, s, total, 0);
    lemma_movable_by_nothing(data, 0, s, s, n, 0);
    lemma_movable_by_nothing(data, s, total, s, n, 0);
    let back = moved_region(x, 0, end, s + n, -n);
    assert(region_movable(x, 0, end, s + n, -n));
    assert(rewritten(x, s, s + n, Seq::<u8>::empty()) == Ok::<Seq<u8>, Error>(
        spliced(back, s, s + n, Seq::<u8>::empty()),
    ));
    assert(spliced(back, s, s + n, Seq::<u8>::empty()) =~= back.subrange(0, s) + back.subrange(
        s + n,
        end,
    ));
    assert(data.subrange(0, s) + data.subrange(s, total) =~= data);
}

/// Writing a provenance box into a container that held none, and then
/// replacing it, comes to the same as writing the replacement in the first
/// place: the same bytes where it succeeds, the same refusal where it does
/// not.
pub proof fn lemma_replace_is_write(
    data: Seq<u8>,
    kind_first: u32,
    first: Seq<u8>,
    x: Seq<u8>,
    kind_second: u32,
    second: Seq<u8>,
)
    requires
        data.len() + first.len() + second.len() + 32 <= usize::MAX,
        is_slot_kind(kind_first),
        is_slot_kind(kind_second),
        valid(data, 0, data.len() as int),
        !slot_taken(data),
        written(data, kind_first, first) == Ok::<Seq<u8>, Error>(x),
    ensures
        written(x, kind_second, second) == written(data, kind_second, second),
{
    let total = data.len() as int;
    lemma_after_first_write(data, kind_first, first, x);
    let i = slot_index(data);
    let s = slot_start(data, i);
    let n = box_bytes(kind_first, first).len() as int;
    let end = x.len() as int;
    let ins = box_bytes(kind_second, second);
    lemma_header_bytes_len(fresh_header(kind_second, 0, second.len() as int));
    let k = ins.len() as int;
    lemma_data_around_slot(x, i, true, s + n, k - n);
    lemma_data_around_slot(data, i, false, s, k);
    lemma_up_and_on(s, n, k);
    lemma_moved_twice(data, 0, s, x, 0, s, s, n, s + n, k - n, s, k);
    lemma_moved_twice(data, s, total, x, s + n, end, s, n, s + n, k - n, s, k);
    let twice = moved_region(x, 0, end, s + n, k - n);
    let once = moved_region(data, 0, total, s, k);
    assert(region_movable(x, 0, end, s + n, k - n) == region_movable(data, 0, total, s, k));
    assert(written(x, kind_second, second) == rewritten(x, s, s + n, ins));
    assert(written(data, kind_second, second) == rewritten(data, s, s, ins));
    if region_movable(data, 0, total, s, k) {
        assert(spliced(twice, s, s + n, ins) =~= twice.subrange(0, s) + ins + twice.subrange(
            s + n,
            end,
        ));
        assert(spliced(once, s, s, ins) =~= once.subrange(0, s) + ins + once.subrange(s, total));
    }
}

} // verus!
