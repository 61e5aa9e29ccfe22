//! Offsets follow what they point at.
//!
//! After a box was put in, replaced or taken out, every offset table of the
//! container is found again, where it was or moved with what surrounds it;
//! each of its entries holds the moved position; and at the moved position
//! stands the byte that stood at the old one.

use vstd::prelude::*;
use crate::bytes::lemma_u32_at_range;
use crate::composition::lemma_moved_table_entries;
use crate::error::Error;
use crate::guarantees::{is_slot_kind, lemma_slot_of, slot_index, slot_taken};
use crate::header::{
    decode_header, fresh_header, is_container, lemma_decoded_header_bounds,
    lemma_header_bytes_len, BoxHeader, KIND_REFERENCE, KIND_STORE,
};
use crate::locator::{lemma_first_of_kind, top_level};
use crate::moving::{
    lemma_moved_entries_len, lemma_moved_region_len, lemma_moved_region_parts, moved_body,
    moved_entries, moved_region, region_movable,
};
use crate::offsets::{entry_at, entry_pos, is_table, moved, table_count, table_movable, table_whole};
use crate::regions::{shift_header, shift_node, shifted};
use crate::splice::{
    fresh_bytes, fresh_fits, fresh_nodes, lemma_data_around_slot, lemma_spliced_container, slot_at,
    slot_end, slot_start,
};
use crate::tree::{flat, lemma_valid_has_level, BoxNode};
use crate::writer::{box_bytes, removed, spliced, written};

verus! {

/// The table at `hw` in `w` is the table at `h` in `x` with every entry
/// moved: it is whole, counts as many entries, and each is the moved entry.
pub open spec fn entries_moved(
    x: Seq<u8>,
    h: BoxHeader,
    w: Seq<u8>,
    hw: BoxHeader,
    threshold: int,
    delta: int,
) -> bool {
    &&& table_whole(w, hw)
    &&& table_count(w, hw) == table_count(x, h)
    &&& forall|k: int|
        0 <= k < table_count(x, h) ==> #[trigger] entry_at(w, hw, k) == moved(
            entry_at(x, h, k),
            threshold,
            delta,
        )
}

/// The position lies among the entries of a whole offset table of the box
/// tree of the region.
pub open spec fn in_entries(data: Seq<u8>, pos: int, limit: int, q: int) -> bool
    decreases limit - pos,
{
    if pos >= limit {
        false
    } else {
        match decode_header(data, pos, limit) {
            None => false,
            Some(h) => {
                proof {
                    lemma_decoded_header_bounds(data, pos, limit);
                }
                if q < h.end() {
                    if is_container(h.kind) {
                        in_entries(data, h.payload_start(), h.end(), q)
                    } else {
                        is_table(h.kind) && table_whole(data, h) && entry_pos(h, 0) <= q
                            < entry_pos(h, table_count(data, h))
                    }
                } else {
                    in_entries(data, h.end(), limit, q)
                }
            },
        }
    }
}

/// Moving the offsets of a region changes no byte but those of the entries
/// of its offset tables.
pub proof fn lemma_moved_frame(
    data: Seq<u8>,
    pos: int,
    limit: int,
    threshold: int,
    delta: int,
    q: int,
)
    requires
        0 <= pos <= q < limit,
        limit <= data.len(),
        !in_entries(data, pos, limit, q),
    ensures
        moved_region(data, pos, limit, threshold, delta).len() == limit - pos,
        moved_region(data, pos, limit, threshold, delta)[q - pos] == data[q],
    decreases limit - pos,
{
    lemma_moved_region_len(data, pos, limit, threshold, delta);
    match decode_header(data, pos, limit) {
        None => {},
        Some(h) => {
            lemma_decoded_header_bounds(data, pos, limit);
            lemma_moved_region_parts(data, pos, limit, threshold, delta);
            let m = moved_region(data, pos, limit, threshold, delta);
            let ps = h.payload_start();
            let end = h.end();
            if q < ps {
                assert(m[q - pos] == m.subrange(0, h.header_len())[q - pos]);
            } else if q < end {
                let body = moved_body(data, h, threshold, delta);
                assert(m[q - pos] == m.subrange(h.header_len(), h.size as int)[q - ps]);
                if is_container(h.kind) {
                    lemma_moved_frame(data, ps, end, threshold, delta, q);
                } else if is_table(h.kind) && table_whole(data, h) {
                    let count = table_count(data, h);
                    lemma_u32_at_range(data, ps + 4);
                    lemma_moved_entries_len(data, h, count, threshold, delta);
                    let first = data.subrange(ps, ps + 8);
                    let entries = moved_entries(data, h, count, threshold, delta);
                    let last = data.subrange(entry_pos(h, count), end);
                    assert(body == first + entries + last);
                    if q < ps + 8 {
                        assert(body[q - ps] == first[q - ps]);
                    } else {
                        assert(body[q - ps] == last[q - entry_pos(h, count)]);
                    }
                }
            } else {
                lemma_moved_frame(data, end, limit, threshold, delta, q);
                assert(m[q - pos] == m.subrange(h.size as int, limit - pos)[q - end]);
            }
        },
    }
}

/// Every offset table of a region is found in the moved region where it
/// was, with every entry moved.
pub proof fn lemma_region_entries_moved(
    x: Seq<u8>,
    a: int,
    l: int,
    w: Seq<u8>,
    b: int,
    m: int,
    depth: int,
    threshold: int,
    delta: int,
    j: int,
)
    requires
        0 <= a <= l <= x.len(),
        0 <= b <= m <= w.len(),
        l <= usize::MAX,
        m <= usize::MAX,
        l - a == m - b,
        w.subrange(b, m) == moved_region(x, a, l, threshold, delta),
        region_movable(x, a, l, threshold, delta),
        0 <= j < flat(x, a, l, depth).len(),
        is_table(flat(x, a, l, depth)[j].header.kind),
    ensures
        entries_moved(
            x,
            flat(x, a, l, depth)[j].header,
            w,
            shift_header(flat(x, a, l, depth)[j].header, b - a),
            threshold,
            delta,
        ),
    decreases l - a,
{
    let h = decode_header(x, a, l)->0;
    lemma_decoded_header_bounds(x, a, l);
    lemma_moved_region_parts(x, a, l, threshold, delta);
    let rw = w.subrange(b, m);
    let node = BoxNode { header: h, depth: depth as usize };
    let inner = if is_container(h.kind) {
        flat(x, h.payload_start(), h.end(), depth + 1)
    } else {
        Seq::empty()
    };
    let rest = flat(x, h.end(), l, depth);
    let all = flat(x, a, l, depth);
    assert(all == seq![node] + inner + rest);
    let by = b - a;
    if j == 0 {
        assert(all[0] == node);
        let hw = shift_header(h, by);
        assert(table_movable(x, h, threshold, delta));
        assert(w.subrange(hw.payload_start(), hw.end()) =~= rw.subrange(
            h.header_len(),
            h.size as int,
        ));
        lemma_moved_table_entries(x, h, w, hw, threshold, delta);
    } else if j < 1 + inner.len() {
        assert(all[j] == inner[j - 1]);
        assert(w.subrange(b + h.header_len(), b + h.size) =~= rw.subrange(
            h.header_len(),
            h.size as int,
        ));
        lemma_region_entries_moved(
            x,
            h.payload_start(),
            h.end(),
            w,
            b + h.header_len(),
            b + h.size,
            depth + 1,
            threshold,
            delta,
            j - 1,
        );
    } else {
        assert(all[j] == rest[j - 1 - inner.len()]);
        assert(w.subrange(b + h.size, m) =~= rw.subrange(h.size as int, l - a));
        lemma_region_entries_moved(
            x,
            h.end(),
            l,
            w,
            b + h.size,
            m,
            depth,
            threshold,
            delta,
            j - 1 - inner.len(),
        );
    }
}

/// `out` is `data` with `[s, e)` replaced by `added` bytes that hold
/// `added_nodes` boxes, and the offsets follow: the offset tables before
/// `s` are where they were, those from `e` on have moved by the change in
/// length; each holds the moved entries; and a byte that is neither in the
/// replaced stretch nor itself part of an entry stands at its moved
/// position.
pub open spec fn offsets_follow(
    data: Seq<u8>,
    s: int,
    e: int,
    added: int,
    added_nodes: int,
    out: Seq<u8>,
) -> bool {
    let total = data.len() as int;
    let delta = added - (e - s);
    let before = flat(data, 0, s, 0);
    let after = flat(data, e, total, 0);
    let tree = flat(out, 0, out.len() as int, 0);
    &&& tree.len() == before.len() + added_nodes + after.len()
    &&& forall|j: int|
        0 <= j < before.len() && is_table((#[trigger] before[j]).header.kind) ==> tree[j]
            == before[j] && entries_moved(data, before[j].header, out, before[j].header, e, delta)
    &&& forall|j: int|
        0 <= j < after.len() && is_table((#[trigger] after[j]).header.kind) ==> tree[before.len()
            + added_nodes + j] == shift_node(after[j], delta) && entries_moved(
            data,
            after[j].header,
            out,
            shift_header(after[j].header, delta),
            e,
            delta,
        )
    &&& forall|v: int|
        0 <= v < total && !(s <= v < e) && !in_entries(data, 0, total, v) ==> out[moved(
            v,
            e,
            delta,
        )] == #[trigger] data[v]
}

/// In the container that comes of replacing the slot of a valid container
/// and moving its offsets, the offsets follow.
pub proof fn lemma_spliced_offsets(
    data: Seq<u8>,
    i: int,
    replace: bool,
    fresh: Option<(u32, Seq<u8>)>,
    out: Seq<u8>,
)
    requires
        slot_at(data, i, replace),
        fresh_fits(fresh),
        region_movable(
            data,
            0,
            data.len() as int,
            slot_end(data, i, replace),
            fresh_bytes(fresh).len() - (slot_end(data, i, replace) - slot_start(data, i)),
        ),
        out == spliced(
            moved_region(
                data,
                0,
                data.len() as int,
                slot_end(data, i, replace),
                fresh_bytes(fresh).len() - (slot_end(data, i, replace) - slot_start(data, i)),
            ),
            slot_start(data, i),
            slot_end(data, i, replace),
            fresh_bytes(fresh),
        ),
        out.len() <= usize::MAX,
    ensures
        offsets_follow(
            data,
            slot_start(data, i),
            slot_end(data, i, replace),
            fresh_bytes(fresh).len() as int,
            fresh_nodes(fresh, slot_start(data, i)).len() as int,
            out,
        ),
{
    let total = data.len() as int;
    let s = slot_start(data, i);
    let e = slot_end(data, i, replace);
    let n = fresh_bytes(fresh).len() as int;
    let delta = n - (e - s);
    let m = moved_region(data, 0, total, e, delta);
    lemma_data_around_slot(data, i, replace, e, delta);
    lemma_spliced_container(data, i, replace, fresh, e, delta, out);
    let before = flat(data, 0, s, 0);
    let after = flat(data, e, total, 0);
    let tree = flat(out, 0, out.len() as int, 0);
    let shift_len = shifted(after, delta).len();
    assert(shift_len == after.len());
    assert forall|j: int|
        0 <= j < before.len() && is_table((#[trigger] before[j]).header.kind) implies tree[j]
        == before[j] && entries_moved(data, before[j].header, out, before[j].header, e, delta) by {
        lemma_region_entries_moved(data, 0, s, out, 0, s, 0, e, delta, j);
        assert(shift_header(before[j].header, 0) == before[j].header);
    }
    assert forall|j: int|
        0 <= j < after.len() && is_table((#[trigger] after[j]).header.kind) implies tree[before.len()
        + fresh_nodes(fresh, s).len() + j] == shift_node(after[j], delta) && entries_moved(
        data,
        after[j].header,
        out,
        shift_header(after[j].header, delta),
        e,
        delta,
    ) by {
        lemma_region_entries_moved(data, e, total, out, s + n, out.len() as int, 0, e, delta, j);
        assert(shifted(after, delta)[j] == shift_node(after[j], delta));
    }
    assert forall|v: int|
        0 <= v < total && !(s <= v < e) && !in_entries(data, 0, total, v) implies out[moved(
        v,
        e,
        delta,
    )] == #[trigger] data[v] by {
        lemma_moved_frame(data, 0, total, e, delta, v);
        assert(m[v] == data[v]);
    }
}

/// After a provenance box was written, the offsets follow.
pub proof fn lemma_written_offsets(data: Seq<u8>, kind: u32, payload: Seq<u8>, out: Seq<u8>)
    requires
        data.len() + payload.len() + 16 <= usize::MAX,
        is_slot_kind(kind),
        written(data, kind, payload) == Ok::<Seq<u8>, Error>(out),
    ensures
        offsets_follow(
            data,
            slot_start(data, slot_index(data)),
            slot_end(data, slot_index(data), slot_taken(data)),
            box_bytes(kind, payload).len() as int,
            1,
            out,
        ),
{
    let total = data.len() as int;
    lemma_slot_of(data);
    let i = slot_index(data);
    let taken = slot_taken(data);
    let s = slot_start(data, i);
    let e = slot_end(data, i, taken);
    lemma_header_bytes_len(fresh_header(kind, 0, payload.len() as int));
    let n = box_bytes(kind, payload).len() as int;
    lemma_moved_region_len(data, 0, total, e, n - (e - s));
    lemma_data_around_slot(data, i, taken, e, n - (e - s));
    lemma_spliced_offsets(data, i, taken, Some((kind, payload)), out);
}

/// After the provenance box was removed, the offsets follow.
pub proof fn lemma_removed_offsets(data: Seq<u8>, out: Seq<u8>)
    requires
        data.len() <= usize::MAX,
        removed(data) == Ok::<Seq<u8>, Error>(out),
    ensures
        offsets_follow(
            data,
            slot_start(data, slot_index(data)),
            slot_end(data, slot_index(data), true),
            0,
            0,
            out,
        ),
{
    let total = data.len() as int;
    lemma_valid_has_level(data, 0, total);
    lemma_first_of_kind(top_level(data)->0, KIND_STORE, KIND_REFERENCE);
    lemma_slot_of(data);
    let i = slot_index(data);
    let s = slot_start(data, i);
    let e = slot_end(data, i, true);
    lemma_moved_region_len(data, 0, total, e, -(e - s));
    lemma_data_around_slot(data, i, true, e, -(e - s));
    lemma_spliced_offsets(data, i, true, None::<(u32, Seq<u8>)>, out);
}

} // verus!
