//! The box structure of a container after a box was put in, replaced or
//! taken out at the top level, and its offsets moved.

use vstd::prelude::*;
use crate::header::{
    decode_header, fresh_header, header_bytes, is_container, lemma_decoded_header_bounds,
    lemma_encode_then_decode, lemma_header_bytes_len, BoxHeader, SizeForm,
};
use crate::locator::top_level;
use crate::moving::{
    lemma_join_moved, lemma_moved_keeps_structure, lemma_moved_region_len,
    lemma_moved_region_parts, moved_region, region_movable,
};
use crate::offsets::is_table;
use crate::regions::{
    boundary, lemma_join, lemma_level_split_at, lemma_nodes_shifted_by_nothing,
    lemma_shifted_by_nothing, shifted, shifted_headers, sized,
};
use crate::tree::{flat, lemma_valid_has_level, valid, BoxNode};
use crate::walker::level;
use crate::writer::{box_bytes, spliced};

verus! {

/// Where the stretch to replace starts: at top-level box `i`, or at the end
/// of the container for `i` past the last box.
pub open spec fn slot_start(data: Seq<u8>, i: int) -> int {
    boundary(top_level(data)->0, i, data.len() as int)
}

/// Where the stretch to replace ends: after box `i` where that box is
/// replaced, else where it starts.
pub open spec fn slot_end(data: Seq<u8>, i: int, replace: bool) -> int {
    if replace {
        top_level(data)->0[i].end()
    } else {
        slot_start(data, i)
    }
}

/// Top-level box `i` can be replaced (it holds no boxes and is no offset
/// table), or a box can be put in before it.
pub open spec fn slot_at(data: Seq<u8>, i: int, replace: bool) -> bool {
    let boxes = top_level(data)->0;
    &&& valid(data, 0, data.len() as int)
    &&& data.len() <= usize::MAX
    &&& 0 <= i <= boxes.len()
    &&& replace ==> i < boxes.len() && !is_container(boxes[i].kind) && !is_table(boxes[i].kind)
    &&& !replace && i == boxes.len() && i > 0 ==> boxes.last().form != SizeForm::ToEnd
}

/// The top-level boxes that stay where they are: those before the slot.
pub open spec fn boxes_before(data: Seq<u8>, i: int) -> Seq<BoxHeader> {
    top_level(data)->0.subrange(0, i)
}

/// The top-level boxes that move: those after the slot.
pub open spec fn boxes_after(data: Seq<u8>, i: int, replace: bool) -> Seq<BoxHeader> {
    let boxes = top_level(data)->0;
    boxes.subrange(
        if replace {
            i + 1
        } else {
            i
        },
        boxes.len() as int,
    )
}

/// The node of the box that is replaced, as a list of at most one node.
pub open spec fn slot_nodes(data: Seq<u8>, i: int, replace: bool) -> Seq<BoxNode> {
    if replace {
        seq![BoxNode { header: top_level(data)->0[i], depth: 0 }]
    } else {
        Seq::empty()
    }
}

/// What lies around the slot of a valid container, before and after its
/// offsets are moved: valid regions with the top-level boxes of the
/// container, moved as regions of their own.
pub proof fn lemma_data_around_slot(
    data: Seq<u8>,
    i: int,
    replace: bool,
    threshold: int,
    delta: int,
)
    requires
        slot_at(data, i, replace),
    ensures
        ({
            let total = data.len() as int;
            let s = slot_start(data, i);
            let e = slot_end(data, i, replace);
            let m = moved_region(data, 0, total, threshold, delta);
            &&& top_level(data) is Some
            &&& 0 <= s <= e <= total
            &&& i > 0 ==> s == top_level(data)->0[i - 1].end()
            &&& sized(data, 0, s)
            &&& valid(data, 0, s)
            &&& valid(data, e, total)
            &&& level(data, 0, s) == Some(boxes_before(data, i))
            &&& level(data, e, total) == Some(boxes_after(data, i, replace))
            &&& m.len() == total
            &&& m.subrange(0, s) == moved_region(data, 0, s, threshold, delta)
            &&& m.subrange(e, total) == moved_region(data, e, total, threshold, delta)
            &&& m.subrange(s, e) == data.subrange(s, e)
            &&& flat(data, 0, total, 0) == flat(data, 0, s, 0) + slot_nodes(data, i, replace)
                + flat(data, e, total, 0)
            &&& region_movable(data, 0, total, threshold, delta) == (region_movable(
                data,
                0,
                s,
                threshold,
                delta,
            ) && region_movable(data, e, total, threshold, delta))
        }),
{
    let total = data.len() as int;
    lemma_valid_has_level(data, 0, total);
    let boxes = top_level(data)->0;
    lemma_level_split_at(data, 0, total, i);
    let s = slot_start(data, i);
    let e = slot_end(data, i, replace);
    lemma_join(data, 0, s, total, 0);
    lemma_join_moved(data, 0, s, total, threshold, delta);
    lemma_moved_region_len(data, 0, total, threshold, delta);
    lemma_moved_region_len(data, 0, s, threshold, delta);
    lemma_moved_region_len(data, s, total, threshold, delta);
    let m = moved_region(data, 0, total, threshold, delta);
    let front = moved_region(data, 0, s, threshold, delta);
    let back = moved_region(data, s, total, threshold, delta);
    assert(m == front + back);
    assert(m.subrange(0, s) =~= front);
    assert(m.subrange(s, total) =~= back);
    if replace {
        let here = boxes.subrange(i, boxes.len() as int);
        assert(here.len() > 0);
        assert(here[0] == boxes[i]);
        assert(s < total);
        let h = decode_header(data, s, total)->0;
        lemma_decoded_header_bounds(data, s, total);
        let more = level(data, h.end(), total)->0;
        assert(here == seq![h] + more);
        assert(h == boxes[i]);
        assert(more =~= boxes.subrange(i + 1, boxes.len() as int));
        lemma_moved_region_parts(data, s, total, threshold, delta);
        assert(m.subrange(e, total) =~= back.subrange(h.size as int, total - s));
        assert(m.subrange(s, e) =~= back.subrange(0, h.header_len()) + back.subrange(
            h.header_len(),
            h.size as int,
        ));
        assert(data.subrange(s, h.payload_start()) + data.subrange(h.payload_start(), e)
            =~= data.subrange(s, e));
        let node = BoxNode { header: h, depth: 0 };
        assert(flat(data, s, total, 0) =~= seq![node] + flat(data, e, total, 0));
        assert(flat(data, 0, s, 0) + (seq![node] + flat(data, e, total, 0)) =~= flat(data, 0, s, 0)
            + slot_nodes(data, i, replace) + flat(data, e, total, 0));
    } else {
        assert(m.subrange(s, e) =~= data.subrange(s, e));
        assert(flat(data, 0, s, 0) + flat(data, s, total, 0) =~= flat(data, 0, s, 0) + slot_nodes(
            data,
            i,
            replace,
        ) + flat(data, e, total, 0));
    }
}

/// The box that is put in, as a list of at most one header.
pub open spec fn fresh_box(fresh: Option<(u32, Seq<u8>)>, at: int) -> Seq<BoxHeader> {
    match fresh {
        Some((kind, payload)) => seq![fresh_header(kind, at, payload.len() as int)],
        None => Seq::empty(),
    }
}

/// The node of the box that is put in, as a list of at most one node.
pub open spec fn fresh_nodes(fresh: Option<(u32, Seq<u8>)>, at: int) -> Seq<BoxNode> {
    match fresh {
        Some((kind, payload)) => seq![
            BoxNode { header: fresh_header(kind, at, payload.len() as int), depth: 0 },
        ],
        None => Seq::empty(),
    }
}

/// The bytes that are put in.
pub open spec fn fresh_bytes(fresh: Option<(u32, Seq<u8>)>) -> Seq<u8> {
    match fresh {
        Some((kind, payload)) => box_bytes(kind, payload),
        None => Seq::empty(),
    }
}

/// A new box can be put in: it holds no boxes and its size fits.
pub open spec fn fresh_fits(fresh: Option<(u32, Seq<u8>)>) -> bool {
    fresh matches Some((kind, payload)) ==> !is_container(kind) && payload.len() + 16
        <= usize::MAX
}

/// A container made of a valid part of stated sizes, a new box (or nothing)
/// and a valid rest is valid, and its top-level boxes are those of the three.
pub proof fn lemma_container_around_slot(
    out: Seq<u8>,
    s: int,
    fresh: Option<(u32, Seq<u8>)>,
    before: Seq<BoxHeader>,
    after: Seq<BoxHeader>,
)
    requires
        0 <= s,
        s + fresh_bytes(fresh).len() <= out.len() <= usize::MAX,
        fresh_fits(fresh),
        out.subrange(s, s + fresh_bytes(fresh).len()) == fresh_bytes(fresh),
        valid(out, 0, s),
        sized(out, 0, s),
        level(out, 0, s) == Some(before),
        valid(out, s + fresh_bytes(fresh).len(), out.len() as int),
        level(out, s + fresh_bytes(fresh).len(), out.len() as int) == Some(after),
    ensures
        valid(out, 0, out.len() as int),
        top_level(out) == Some(before + fresh_box(fresh, s) + after),
        fresh is Some ==> decode_header(out, s, out.len() as int) == Some(fresh_box(fresh, s)[0]),
        flat(out, 0, out.len() as int, 0) == flat(out, 0, s, 0) + fresh_nodes(fresh, s) + flat(
            out,
            s + fresh_bytes(fresh).len(),
            out.len() as int,
            0,
        ),
{
    let total = out.len() as int;
    let n = fresh_bytes(fresh).len() as int;
    lemma_join(out, 0, s, total, 0);
    match fresh {
        None => {
            assert(before + fresh_box(fresh, s) + after =~= before + after);
            assert(flat(out, 0, s, 0) + fresh_nodes(fresh, s) + flat(out, s, total, 0) =~= flat(
                out,
                0,
                s,
                0,
            ) + flat(out, s, total, 0));
        },
        Some((kind, payload)) => {
            let h = fresh_header(kind, s, payload.len() as int);
            lemma_header_bytes_len(h);
            assert(header_bytes(h) == header_bytes(fresh_header(kind, 0, payload.len() as int)));
            assert(n == h.size);
            assert(out.subrange(s, s + h.header_len()) =~= out.subrange(s, s + n).subrange(
                0,
                h.header_len(),
            ));
            assert(box_bytes(kind, payload).subrange(0, h.header_len()) =~= header_bytes(h));
            lemma_encode_then_decode(out, s, total, h);
            lemma_decoded_header_bounds(out, s, total);
            assert(level(out, s, total) == Some(seq![h] + after));
            assert(before + (seq![h] + after) =~= before + fresh_box(fresh, s) + after);
            let node = BoxNode { header: h, depth: 0 };
            assert(flat(out, s, total, 0) =~= seq![node] + flat(out, s + n, total, 0));
            assert(flat(out, 0, s, 0) + (seq![node] + flat(out, s + n, total, 0)) =~= flat(
                out,
                0,
                s,
                0,
            ) + fresh_nodes(fresh, s) + flat(out, s + n, total, 0));
        },
    }
}

/// The container that comes of replacing the slot of a valid container and
/// moving its offsets is valid. Its top-level boxes are the boxes before the
/// slot, where they were; the new box, if there is one; and the boxes after
/// the slot, moved by the change in length. What precedes the slot and what
/// follows it hold their old bytes with the offsets moved.
pub proof fn lemma_spliced_container(
    data: Seq<u8>,
    i: int,
    replace: bool,
    fresh: Option<(u32, Seq<u8>)>,
    threshold: int,
    delta: int,
    out: Seq<u8>,
)
    requires
        slot_at(data, i, replace),
        fresh_fits(fresh),
        out == spliced(
            moved_region(data, 0, data.len() as int, threshold, delta),
            slot_start(data, i),
            slot_end(data, i, replace),
            fresh_bytes(fresh),
        ),
        out.len() <= usize::MAX,
    ensures
        ({
            let s = slot_start(data, i);
            let e = slot_end(data, i, replace);
            let n = fresh_bytes(fresh).len() as int;
            &&& out.len() == data.len() + n - (e - s)
            &&& valid(out, 0, out.len() as int)
            &&& top_level(out) == Some(
                boxes_before(data, i) + fresh_box(fresh, s) + shifted_headers(
                    boxes_after(data, i, replace),
                    n - (e - s),
                ),
            )
            &&& out.subrange(0, s) == moved_region(data, 0, s, threshold, delta)
            &&& out.subrange(s, s + n) == fresh_bytes(fresh)
            &&& out.subrange(s + n, out.len() as int) == moved_region(
                data,
                e,
                data.len() as int,
                threshold,
                delta,
            )
            &&& sized(out, 0, s)
            &&& fresh is Some ==> decode_header(out, s, out.len() as int) == Some(
                fresh_box(fresh, s)[0],
            )
            &&& flat(out, 0, out.len() as int, 0) == flat(data, 0, s, 0) + fresh_nodes(fresh, s)
                + shifted(flat(data, e, data.len() as int, 0), n - (e - s))
        }),
{
    let total = data.len() as int;
    let s = slot_start(data, i);
    let e = slot_end(data, i, replace);
    let ins = fresh_bytes(fresh);
    lemma_nodes_shifted_by_nothing(flat(data, 0, s, 0));
    let n = ins.len() as int;
    let m = moved_region(data, 0, total, threshold, delta);
    lemma_data_around_slot(data, i, replace, threshold, delta);
    assert(out.subrange(0, s) =~= m.subrange(0, s));
    assert(out.subrange(s, s + n) =~= ins);
    assert(out.subrange(s + n, out.len() as int) =~= m.subrange(e, total));
    lemma_moved_keeps_structure(data, 0, s, out, 0, s, 0, threshold, delta);
    lemma_shifted_by_nothing(boxes_before(data, i));
    lemma_moved_keeps_structure(
        data,
        e,
        total,
        out,
        s + n,
        out.len() as int,
        0,
        threshold,
        delta,
    );
    lemma_container_around_slot(
        out,
        s,
        fresh,
        boxes_before(data, i),
        shifted_headers(boxes_after(data, i, replace), n - (e - s)),
    );
}

} // verus!
