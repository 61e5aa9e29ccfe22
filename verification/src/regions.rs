//! How the box structure of a region depends on its bytes alone.
//!
//! A region is a stretch `[pos, limit)` of a byte string. What is read in it
//! (its boxes, their nesting, whether it is valid) is decided by the bytes
//! of the region: the same bytes elsewhere read the same, with every offset
//! moved by the distance. And a region that ends a chain of boxes with
//! stated sizes can be read apart from what follows it.

use vstd::prelude::*;
use crate::header::{
    decode_header, header_window, lemma_decode_is_local, lemma_decoded_header_bounds, is_container,
    BoxHeader, SizeForm,
};
use crate::tree::{flat, valid, BoxNode};
use crate::walker::{lemma_level_tiles, level, tiles};

verus! {

/// The header at an offset moved by `by`.
pub open spec fn shift_header(h: BoxHeader, by: int) -> BoxHeader {
    BoxHeader { offset: (h.offset + by) as usize, ..h }
}

/// The node at an offset moved by `by`.
pub open spec fn shift_node(n: BoxNode, by: int) -> BoxNode {
    BoxNode { header: shift_header(n.header, by), depth: n.depth }
}

/// The headers, each at an offset moved by `by`.
pub open spec fn shifted_headers(boxes: Seq<BoxHeader>, by: int) -> Seq<BoxHeader> {
    Seq::new(boxes.len(), |i: int| shift_header(boxes[i], by))
}

/// The nodes, each at an offset moved by `by`.
pub open spec fn shifted(nodes: Seq<BoxNode>, by: int) -> Seq<BoxNode> {
    Seq::new(nodes.len(), |i: int| shift_node(nodes[i], by))
}

/// The region is tiled by boxes that state their size: none of them runs
/// "to the end", so none depends on where the region ends.
pub open spec fn sized(data: Seq<u8>, pos: int, limit: int) -> bool
    decreases limit - pos,
{
    if pos >= limit {
        pos == limit
    } else {
        match decode_header(data, pos, limit) {
            None => false,
            Some(h) => {
                proof {
                    lemma_decoded_header_bounds(data, pos, limit);
                }
                h.form != SizeForm::ToEnd && sized(data, h.end(), limit)
            },
        }
    }
}

/// A header that states its size is decoded alike under every limit that
/// leaves room for its box.
pub proof fn lemma_decode_other_limit(data: Seq<u8>, pos: int, limit: int, other: int)
    requires
        decode_header(data, pos, limit) is Some,
        decode_header(data, pos, limit)->0.form != SizeForm::ToEnd,
        decode_header(data, pos, limit)->0.end() <= other <= data.len(),
        other <= usize::MAX,
    ensures
        decode_header(data, pos, other) == decode_header(data, pos, limit),
{
    reveal(decode_header);
}

/// The same bytes read the same wherever they stand: a region of `y` that
/// holds the bytes of a region of `x` is valid if that one is, and has its
/// boxes, each moved by the distance between the two.
pub proof fn lemma_region_is_local(
    x: Seq<u8>,
    a: int,
    l: int,
    y: Seq<u8>,
    b: int,
    m: int,
    depth: int,
)
    requires
        0 <= a <= l <= x.len(),
        0 <= b <= m <= y.len(),
        l <= usize::MAX,
        m <= usize::MAX,
        l - a == m - b,
        x.subrange(a, l) == y.subrange(b, m),
    ensures
        valid(x, a, l) == valid(y, b, m),
        sized(x, a, l) == sized(y, b, m),
        flat(y, b, m, depth) == shifted(flat(x, a, l, depth), b - a),
        match level(x, a, l) {
            Some(boxes) => level(y, b, m) == Some(shifted_headers(boxes, b - a)),
            None => level(y, b, m) is None,
        },
    decreases l - a,
{
    let by = b - a;
    if a >= l {
        assert(shifted(Seq::<BoxNode>::empty(), by) =~= Seq::<BoxNode>::empty());
        assert(shifted_headers(Seq::<BoxHeader>::empty(), by) =~= Seq::<BoxHeader>::empty());
    } else {
        let rx = x.subrange(a, l);
        let ry = y.subrange(b, m);
        let w = if a + 16 <= l {
            16
        } else {
            l - a
        };
        assert(header_window(x, a, l) =~= rx.subrange(0, w));
        assert(header_window(y, b, m) =~= ry.subrange(0, w));
        lemma_decode_is_local(x, a, l, y, b, m);
        match decode_header(x, a, l) {
            None => {
                assert(shifted(Seq::<BoxNode>::empty(), by) =~= Seq::<BoxNode>::empty());
            },
            Some(h) => {
                lemma_decoded_header_bounds(x, a, l);
                lemma_decoded_header_bounds(y, b, m);
                let hy = decode_header(y, b, m)->0;
                assert(hy == shift_header(h, by));
                let node = BoxNode { header: h, depth: depth as usize };
                let node_y = BoxNode { header: hy, depth: depth as usize };
                assert(node_y == shift_node(node, by));
                assert(x.subrange(h.end(), l) =~= rx.subrange(h.size as int, l - a));
                assert(y.subrange(hy.end(), m) =~= ry.subrange(h.size as int, l - a));
                lemma_region_is_local(x, h.end(), l, y, hy.end(), m, depth);
                let inner_x = if is_container(h.kind) {
                    flat(x, h.payload_start(), h.end(), depth + 1)
                } else {
                    Seq::empty()
                };
                let inner_y = if is_container(h.kind) {
                    flat(y, hy.payload_start(), hy.end(), depth + 1)
                } else {
                    Seq::empty()
                };
                if is_container(h.kind) {
                    assert(x.subrange(h.payload_start(), h.end()) =~= rx.subrange(
                        h.header_len(),
                        h.size as int,
                    ));
                    assert(y.subrange(hy.payload_start(), hy.end()) =~= ry.subrange(
                        h.header_len(),
                        h.size as int,
                    ));
                    lemma_region_is_local(
                        x,
                        h.payload_start(),
                        h.end(),
                        y,
                        hy.payload_start(),
                        hy.end(),
                        depth + 1,
                    );
                } else {
                    assert(shifted(Seq::<BoxNode>::empty(), by) =~= Seq::<BoxNode>::empty());
                }
                let rest_x = flat(x, h.end(), l, depth);
                let rest_y = flat(y, hy.end(), m, depth);
                assert(flat(x, a, l, depth) == seq![node] + inner_x + rest_x);
                assert(flat(y, b, m, depth) == seq![node_y] + inner_y + rest_y);
                assert(shifted(seq![node] + inner_x + rest_x, by) =~= seq![node_y] + shifted(
                    inner_x,
                    by,
                ) + shifted(rest_x, by));
                match level(x, h.end(), l) {
                    None => {},
                    Some(more) => {
                        assert(shifted_headers(seq![h] + more, by) =~= seq![hy] + shifted_headers(
                            more,
                            by,
                        ));
                    },
                }
            },
        }
    }
}

/// A region tiled by boxes of stated size, followed by another region, reads
/// as the two read one after the other.
pub proof fn lemma_join(data: Seq<u8>, a: int, s: int, l: int, depth: int)
    requires
        0 <= a <= s <= l <= data.len(),
        l <= usize::MAX,
        sized(data, a, s),
    ensures
        level(data, a, s) is Some,
        valid(data, a, l) == (valid(data, a, s) && valid(data, s, l)),
        sized(data, a, l) == sized(data, s, l),
        flat(data, a, l, depth) == flat(data, a, s, depth) + flat(data, s, l, depth),
        level(data, a, l) == match level(data, s, l) {
            Some(more) => Some(level(data, a, s)->0 + more),
            None => None,
        },
    decreases s - a,
{
    if a >= s {
        assert(flat(data, a, s, depth) + flat(data, s, l, depth) =~= flat(data, s, l, depth));
        match level(data, s, l) {
            Some(more) => {
                assert(Seq::<BoxHeader>::empty() + more =~= more);
            },
            None => {},
        }
    } else {
        let h = decode_header(data, a, s)->0;
        lemma_decoded_header_bounds(data, a, s);
        lemma_decode_other_limit(data, a, s, l);
        lemma_join(data, h.end(), s, l, depth);
        let node = BoxNode { header: h, depth: depth as usize };
        let inner = if is_container(h.kind) {
            flat(data, h.payload_start(), h.end(), depth + 1)
        } else {
            Seq::empty()
        };
        assert(flat(data, a, s, depth) == seq![node] + inner + flat(data, h.end(), s, depth));
        assert(flat(data, a, l, depth) == seq![node] + inner + flat(data, h.end(), l, depth));
        assert(seq![node] + inner + (flat(data, h.end(), s, depth) + flat(data, s, l, depth))
            =~= seq![node] + inner + flat(data, h.end(), s, depth) + flat(data, s, l, depth));
        match level(data, s, l) {
            Some(more) => {
                let front = level(data, h.end(), s)->0;
                assert(seq![h] + (front + more) =~= seq![h] + front + more);
            },
            None => {},
        }
    }
}

/// Where box `i` of a level starts, or where the level ends for `i` past the
/// last box.
pub open spec fn boundary(boxes: Seq<BoxHeader>, i: int, limit: int) -> int {
    if 0 <= i < boxes.len() {
        boxes[i].offset as int
    } else {
        limit
    }
}

/// A level can be read in two parts, split where any of its boxes starts:
/// the part before is tiled by boxes of stated size and holds the boxes
/// before the split, the part after holds the others. It can be split at its
/// end too, unless its last box runs to the end.
pub proof fn lemma_level_split_at(data: Seq<u8>, pos: int, limit: int, i: int)
    requires
        level(data, pos, limit) is Some,
        0 <= i <= level(data, pos, limit)->0.len(),
        i == level(data, pos, limit)->0.len() && i > 0 ==> level(data, pos, limit)->0.last().form
            != SizeForm::ToEnd,
    ensures
        ({
            let boxes = level(data, pos, limit)->0;
            let s = boundary(boxes, i, limit);
            &&& pos <= s <= limit
            &&& i > 0 ==> s == boxes[i - 1].end()
            &&& sized(data, pos, s)
            &&& level(data, pos, s) == Some(boxes.subrange(0, i))
            &&& level(data, s, limit) == Some(boxes.subrange(i, boxes.len() as int))
        }),
    decreases i,
{
    let boxes = level(data, pos, limit)->0;
    lemma_level_tiles(data, pos, limit);
    assert(tiles(data, boxes, pos, limit));
    let s = boundary(boxes, i, limit);
    if i == 0 {
        assert(s == pos);
        assert(boxes.subrange(0, 0) =~= Seq::<BoxHeader>::empty());
        assert(boxes.subrange(0, boxes.len() as int) =~= boxes);
    } else {
        let h = decode_header(data, pos, limit)->0;
        lemma_decoded_header_bounds(data, pos, limit);
        let rest = level(data, h.end(), limit)->0;
        assert(boxes == seq![h] + rest);
        assert(boxes[0] == h);
        lemma_level_tiles(data, h.end(), limit);
        if rest.len() > 0 {
            assert(boxes.last() == rest.last());
        }
        if i < boxes.len() {
            assert(boxes[i] == rest[i - 1]);
        }
        if i > 1 {
            assert(boxes[i - 1] == rest[i - 2]);
        }
        assert(boundary(rest, i - 1, limit) == s);
        lemma_level_split_at(data, h.end(), limit, i - 1);
        assert(h.form != SizeForm::ToEnd);
        assert(h.end() <= s);
        lemma_decode_other_limit(data, pos, limit, s);
        assert(seq![h] + rest.subrange(0, i - 1) =~= boxes.subrange(0, i));
        assert(rest.subrange(i - 1, rest.len() as int) =~= boxes.subrange(i, boxes.len() as int));
    }
}

/// Moving headers by nothing leaves them where they are.
pub proof fn lemma_shifted_by_nothing(boxes: Seq<BoxHeader>)
    ensures
        shifted_headers(boxes, 0) == boxes,
{
    assert(shifted_headers(boxes, 0) =~= boxes);
}

/// Moving nodes by nothing leaves them where they are.
pub proof fn lemma_nodes_shifted_by_nothing(nodes: Seq<BoxNode>)
    ensures
        shifted(nodes, 0) == nodes,
{
    assert(shifted(nodes, 0) =~= nodes);
}

} // verus!
