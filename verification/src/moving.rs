//! What moving the offsets of a container amounts to, box by box.
//!
//! `moved_region` follows the box tree: headers stay, boxes that hold boxes
//! are moved inside, offset tables get moved entries, every other payload
//! stays. Repairing the tables of a region node by node gives exactly that.

use vstd::prelude::*;
use crate::bytes::{lemma_u32_at_range, overwrite};
use crate::header::{
    decode_header, is_container, lemma_decode_from_header_bytes, lemma_decoded_header_bounds,
    BoxHeader,
};
use crate::regions::{
    lemma_decode_other_limit, lemma_region_is_local, shift_header, shift_node, shifted,
    shifted_headers, sized,
};
use crate::walker::level;
use crate::offsets::{
    all_movable, entry_at, entry_bytes, entry_pos, is_table, moved, repair_nodes, repair_table,
    table_count, table_movable, table_whole,
};
use crate::tree::{flat, valid, BoxNode};

verus! {

/// The bytes of the first `n` entries of a table, each moved.
pub open spec fn moved_entries(
    orig: Seq<u8>,
    h: BoxHeader,
    n: int,
    threshold: int,
    delta: int,
) -> Seq<u8>
    decreases n,
{
    if n <= 0 {
        Seq::empty()
    } else {
        moved_entries(orig, h, n - 1, threshold, delta) + entry_bytes(
            h.kind,
            moved(entry_at(orig, h, n - 1), threshold, delta),
        )
    }
}

/// The payload of a table with every entry moved: version, flags and count
/// as they were, the moved entries, and what follows the entries as it was.
pub open spec fn moved_table(orig: Seq<u8>, h: BoxHeader, threshold: int, delta: int) -> Seq<u8> {
    orig.subrange(h.payload_start(), h.payload_start() + 8) + moved_entries(
        orig,
        h,
        table_count(orig, h),
        threshold,
        delta,
    ) + orig.subrange(entry_pos(h, table_count(orig, h)), h.end())
}

/// Every offset table in the box tree of the region is movable.
pub open spec fn region_movable(
    orig: Seq<u8>,
    pos: int,
    limit: int,
    threshold: int,
    delta: int,
) -> bool
    decreases limit - pos,
{
    if pos >= limit {
        true
    } else {
        match decode_header(orig, pos, limit) {
            None => true,
            Some(h) => {
                proof {
                    lemma_decoded_header_bounds(orig, pos, limit);
                }
                &&& is_container(h.kind) ==> region_movable(
                    orig,
                    h.payload_start(),
                    h.end(),
                    threshold,
                    delta,
                )
                &&& is_table(h.kind) ==> table_movable(orig, h, threshold, delta)
                &&& region_movable(orig, h.end(), limit, threshold, delta)
            },
        }
    }
}

/// The bytes of the region with every entry of every offset table in its
/// box tree moved.
pub open spec fn moved_region(
    orig: Seq<u8>,
    pos: int,
    limit: int,
    threshold: int,
    delta: int,
) -> Seq<u8>
    decreases limit - pos,
{
    if pos >= limit {
        Seq::empty()
    } else {
        match decode_header(orig, pos, limit) {
            None => orig.subrange(pos, limit),
            Some(h) => {
                proof {
                    lemma_decoded_header_bounds(orig, pos, limit);
                }
                orig.subrange(pos, h.payload_start()) + (if is_container(h.kind) {
                    moved_region(orig, h.payload_start(), h.end(), threshold, delta)
                } else if is_table(h.kind) && table_whole(orig, h) {
                    moved_table(orig, h, threshold, delta)
                } else {
                    orig.subrange(h.payload_start(), h.end())
                }) + moved_region(orig, h.end(), limit, threshold, delta)
            },
        }
    }
}

/// Moved entries take the room of the entries.
pub proof fn lemma_moved_entries_len(
    orig: Seq<u8>,
    h: BoxHeader,
    n: int,
    threshold: int,
    delta: int,
)
    requires
        0 <= n,
    ensures
        moved_entries(orig, h, n, threshold, delta).len() == entry_pos(h, n) - entry_pos(h, 0),
    decreases n,
{
    if n > 0 {
        lemma_moved_entries_len(orig, h, n - 1, threshold, delta);
    }
}

/// A moved table payload is as long as the payload.
pub proof fn lemma_moved_table_len(orig: Seq<u8>, h: BoxHeader, threshold: int, delta: int)
    requires
        table_whole(orig, h),
        0 <= table_count(orig, h),
    ensures
        moved_table(orig, h, threshold, delta).len() == h.end() - h.payload_start(),
{
    lemma_moved_entries_len(orig, h, table_count(orig, h), threshold, delta);
}

/// A moved region is as long as the region.
pub proof fn lemma_moved_region_len(
    orig: Seq<u8>,
    pos: int,
    limit: int,
    threshold: int,
    delta: int,
)
    requires
        0 <= pos <= limit <= orig.len(),
    ensures
        moved_region(orig, pos, limit, threshold, delta).len() == limit - pos,
    decreases limit - pos,
{
    if pos < limit {
        match decode_header(orig, pos, limit) {
            None => {},
            Some(h) => {
                lemma_decoded_header_bounds(orig, pos, limit);
                lemma_moved_region_len(orig, h.end(), limit, threshold, delta);
                if is_container(h.kind) {
                    lemma_moved_region_len(orig, h.payload_start(), h.end(), threshold, delta);
                } else if is_table(h.kind) && table_whole(orig, h) {
                    lemma_u32_at_range(orig, h.payload_start() + 4);
                    lemma_moved_table_len(orig, h, threshold, delta);
                }
            },
        }
    }
}

/// Overwriting with one patch and then with another right after it is
/// overwriting with the two patches joined.
pub proof fn lemma_overwrite_adjacent(buf: Seq<u8>, p: int, a: Seq<u8>, b: Seq<u8>)
    requires
        0 <= p,
        p + a.len() + b.len() <= buf.len(),
    ensures
        overwrite(overwrite(buf, p, a), p + a.len(), b) == overwrite(buf, p, a + b),
{
    assert(overwrite(overwrite(buf, p, a), p + a.len(), b) =~= overwrite(buf, p, a + b));
}

/// A patch can take in the bytes before it that it leaves as they are.
pub proof fn lemma_overwrite_from_earlier(buf: Seq<u8>, p: int, q: int, z: Seq<u8>)
    requires
        0 <= p <= q,
        q + z.len() <= buf.len(),
    ensures
        overwrite(buf, q, z) == overwrite(buf, p, buf.subrange(p, q) + z),
{
    assert(overwrite(buf, q, z) =~= overwrite(buf, p, buf.subrange(p, q) + z));
}

/// A patch can take in the bytes after it that it leaves as they are.
pub proof fn lemma_overwrite_to_later(buf: Seq<u8>, p: int, z: Seq<u8>, r: int)
    requires
        0 <= p,
        p + z.len() <= r <= buf.len(),
    ensures
        overwrite(buf, p, z) == overwrite(buf, p, z + buf.subrange(p + z.len(), r)),
{
    assert(overwrite(buf, p, z) =~= overwrite(buf, p, z + buf.subrange(p + z.len(), r)));
}

/// Two byte strings that hold the same bytes over a stretch hold the same
/// bytes over every stretch inside it.
pub proof fn lemma_same_inside(a: Seq<u8>, b: Seq<u8>, lo: int, hi: int, p: int, q: int)
    requires
        0 <= lo <= p <= q <= hi,
        hi <= a.len(),
        hi <= b.len(),
        a.subrange(lo, hi) == b.subrange(lo, hi),
    ensures
        a.subrange(p, q) == b.subrange(p, q),
{
    assert(a.subrange(p, q) =~= a.subrange(lo, hi).subrange(p - lo, q - lo));
    assert(b.subrange(p, q) =~= b.subrange(lo, hi).subrange(p - lo, q - lo));
}

/// Repairing the first `n` entries of a table is overwriting them with
/// their moved bytes.
pub proof fn lemma_repair_table_closed(
    buf: Seq<u8>,
    orig: Seq<u8>,
    h: BoxHeader,
    n: int,
    threshold: int,
    delta: int,
)
    requires
        0 <= n,
        entry_pos(h, n) <= buf.len(),
    ensures
        repair_table(buf, orig, h, n, threshold, delta) == overwrite(
            buf,
            entry_pos(h, 0),
            moved_entries(orig, h, n, threshold, delta),
        ),
    decreases n,
{
    if n == 0 {
        assert(overwrite(buf, entry_pos(h, 0), Seq::<u8>::empty()) =~= buf);
    } else {
        lemma_repair_table_closed(buf, orig, h, n - 1, threshold, delta);
        lemma_moved_entries_len(orig, h, n - 1, threshold, delta);
        let before = moved_entries(orig, h, n - 1, threshold, delta);
        let one = entry_bytes(h.kind, moved(entry_at(orig, h, n - 1), threshold, delta));
        assert(entry_pos(h, n - 1) == entry_pos(h, 0) + before.len());
        assert(entry_pos(h, n) == entry_pos(h, n - 1) + one.len());
        lemma_overwrite_adjacent(buf, entry_pos(h, 0), before, one);
    }
}

/// Repairing the nodes of two lists, one after the other.
pub proof fn lemma_repair_nodes_concat(
    buf: Seq<u8>,
    orig: Seq<u8>,
    a: Seq<BoxNode>,
    b: Seq<BoxNode>,
    threshold: int,
    delta: int,
)
    ensures
        repair_nodes(buf, orig, a + b, threshold, delta) == repair_nodes(
            repair_nodes(buf, orig, a, threshold, delta),
            orig,
            b,
            threshold,
            delta,
        ),
    decreases b.len(),
{
    if b.len() == 0 {
        assert(a + b =~= a);
    } else {
        assert((a + b).drop_last() =~= a + b.drop_last());
        assert((a + b).last() == b.last());
        lemma_repair_nodes_concat(buf, orig, a, b.drop_last(), threshold, delta);
    }
}

/// Repairing a single node.
pub proof fn lemma_repair_one_node(
    buf: Seq<u8>,
    orig: Seq<u8>,
    node: BoxNode,
    threshold: int,
    delta: int,
)
    ensures
        repair_nodes(buf, orig, seq![node], threshold, delta) == if is_table(node.header.kind) {
            repair_table(
                buf,
                orig,
                node.header,
                table_count(orig, node.header),
                threshold,
                delta,
            )
        } else {
            buf
        },
{
    let one = seq![node];
    assert(one.drop_last() =~= Seq::<BoxNode>::empty());
    assert(one.last() == node);
    assert(repair_nodes(buf, orig, one.drop_last(), threshold, delta) == buf);
}

/// Repairing one box of the region node by node: its own node, then the
/// nodes inside it.
proof fn lemma_repair_box(
    buf: Seq<u8>,
    orig: Seq<u8>,
    pos: int,
    limit: int,
    depth: int,
    threshold: int,
    delta: int,
)
    requires
        0 <= pos < limit,
        limit <= orig.len(),
        buf.len() == orig.len(),
        decode_header(orig, pos, limit) is Some,
        region_movable(orig, pos, limit, threshold, delta),
        buf.subrange(pos, limit) == orig.subrange(pos, limit),
        ({
            let h = decode_header(orig, pos, limit)->0;
            is_container(h.kind) ==> repair_nodes(
                buf,
                orig,
                flat(orig, h.payload_start(), h.end(), depth + 1),
                threshold,
                delta,
            ) == overwrite(
                buf,
                h.payload_start(),
                moved_region(orig, h.payload_start(), h.end(), threshold, delta),
            )
        }),
    ensures
        ({
            let h = decode_header(orig, pos, limit)->0;
            let node = BoxNode { header: h, depth: depth as usize };
            let inner = if is_container(h.kind) {
                flat(orig, h.payload_start(), h.end(), depth + 1)
            } else {
                Seq::empty()
            };
            let body = if is_container(h.kind) {
                moved_region(orig, h.payload_start(), h.end(), threshold, delta)
            } else if is_table(h.kind) && table_whole(orig, h) {
                moved_table(orig, h, threshold, delta)
            } else {
                orig.subrange(h.payload_start(), h.end())
            };
            &&& body.len() == h.end() - h.payload_start()
            &&& repair_nodes(buf, orig, seq![node] + inner, threshold, delta) == overwrite(
                buf,
                pos,
                orig.subrange(pos, h.payload_start()) + body,
            )
        }),
{
    let h = decode_header(orig, pos, limit)->0;
    lemma_decoded_header_bounds(orig, pos, limit);
    let node = BoxNode { header: h, depth: depth as usize };
    let ps = h.payload_start();
    let end = h.end();
    let head = orig.subrange(pos, ps);
    lemma_same_inside(buf, orig, pos, limit, pos, ps);
    lemma_same_inside(buf, orig, pos, limit, ps, end);
    lemma_repair_one_node(buf, orig, node, threshold, delta);
    if is_container(h.kind) {
        let inner = flat(orig, ps, end, depth + 1);
        let body = moved_region(orig, ps, end, threshold, delta);
        lemma_moved_region_len(orig, ps, end, threshold, delta);
        lemma_repair_nodes_concat(buf, orig, seq![node], inner, threshold, delta);
        lemma_overwrite_from_earlier(buf, pos, ps, body);
    } else if is_table(h.kind) {
        assert(table_movable(orig, h, threshold, delta));
        let count = table_count(orig, h);
        lemma_u32_at_range(orig, ps + 4);
        let entries = moved_entries(orig, h, count, threshold, delta);
        lemma_moved_entries_len(orig, h, count, threshold, delta);
        lemma_repair_table_closed(buf, orig, h, count, threshold, delta);
        let last = entry_pos(h, count);
        lemma_same_inside(buf, orig, pos, limit, ps, ps + 8);
        lemma_same_inside(buf, orig, pos, limit, last, end);
        lemma_overwrite_to_later(buf, ps + 8, entries, end);
        lemma_overwrite_from_earlier(buf, pos, ps + 8, entries + buf.subrange(last, end));
        assert(buf.subrange(pos, ps + 8) =~= head + orig.subrange(ps, ps + 8));
        assert(buf.subrange(pos, ps + 8) + (entries + buf.subrange(last, end)) =~= head
            + moved_table(orig, h, threshold, delta));
        assert(seq![node] + Seq::<BoxNode>::empty() =~= seq![node]);
    } else {
        let body = orig.subrange(ps, end);
        assert(overwrite(buf, pos, head + body) =~= buf);
        assert(seq![node] + Seq::<BoxNode>::empty() =~= seq![node]);
    }
}

/// Repairing the tables of a region node by node gives the moved region.
pub proof fn lemma_repair_is_moved_region(
    buf: Seq<u8>,
    orig: Seq<u8>,
    pos: int,
    limit: int,
    depth: int,
    threshold: int,
    delta: int,
)
    requires
        0 <= pos <= limit <= orig.len(),
        buf.len() == orig.len(),
        region_movable(orig, pos, limit, threshold, delta),
        buf.subrange(pos, limit) == orig.subrange(pos, limit),
    ensures
        repair_nodes(buf, orig, flat(orig, pos, limit, depth), threshold, delta) == overwrite(
            buf,
            pos,
            moved_region(orig, pos, limit, threshold, delta),
        ),
    decreases limit - pos,
{
    if pos >= limit {
        assert(overwrite(buf, pos, Seq::<u8>::empty()) =~= buf);
    } else {
        match decode_header(orig, pos, limit) {
            None => {
                assert(overwrite(buf, pos, orig.subrange(pos, limit)) =~= buf);
            },
            Some(h) => {
                lemma_decoded_header_bounds(orig, pos, limit);
                let node = BoxNode { header: h, depth: depth as usize };
                let ps = h.payload_start();
                let end = h.end();
                let inner = if is_container(h.kind) {
                    flat(orig, ps, end, depth + 1)
                } else {
                    Seq::empty()
                };
                let rest = flat(orig, end, limit, depth);
                if is_container(h.kind) {
                    lemma_same_inside(buf, orig, pos, limit, ps, end);
                    lemma_repair_is_moved_region(buf, orig, ps, end, depth + 1, threshold, delta);
                }
                lemma_repair_box(buf, orig, pos, limit, depth, threshold, delta);
                let body = if is_container(h.kind) {
                    moved_region(orig, ps, end, threshold, delta)
                } else if is_table(h.kind) && table_whole(orig, h) {
                    moved_table(orig, h, threshold, delta)
                } else {
                    orig.subrange(ps, end)
                };
                let front = orig.subrange(pos, ps) + body;
                let mid = repair_nodes(buf, orig, seq![node] + inner, threshold, delta);
                assert(mid == overwrite(buf, pos, front));
                assert(front.len() == end - pos);
                assert(mid.subrange(end, limit) =~= buf.subrange(end, limit));
                lemma_same_inside(buf, orig, pos, limit, end, limit);
                lemma_repair_is_moved_region(mid, orig, end, limit, depth, threshold, delta);
                lemma_repair_nodes_concat(buf, orig, seq![node] + inner, rest, threshold, delta);
                let after = moved_region(orig, end, limit, threshold, delta);
                lemma_moved_region_len(orig, end, limit, threshold, delta);
                lemma_overwrite_adjacent(buf, pos, front, after);
            },
        }
    }
}

/// Movability of two lists of nodes, one after the other.
pub proof fn lemma_all_movable_concat(
    orig: Seq<u8>,
    a: Seq<BoxNode>,
    b: Seq<BoxNode>,
    threshold: int,
    delta: int,
)
    ensures
        all_movable(orig, a + b, threshold, delta) == (all_movable(orig, a, threshold, delta)
            && all_movable(orig, b, threshold, delta)),
{
    let ab = a + b;
    if all_movable(orig, ab, threshold, delta) {
        assert forall|i: int| 0 <= i < a.len() && is_table(
            (#[trigger] a[i]).header.kind,
        ) implies table_movable(orig, a[i].header, threshold, delta) by {
            assert(ab[i] == a[i]);
        }
        assert forall|i: int| 0 <= i < b.len() && is_table(
            (#[trigger] b[i]).header.kind,
        ) implies table_movable(orig, b[i].header, threshold, delta) by {
            assert(ab[a.len() + i] == b[i]);
        }
    }
    if all_movable(orig, a, threshold, delta) && all_movable(orig, b, threshold, delta) {
        assert forall|i: int| 0 <= i < ab.len() && is_table(
            (#[trigger] ab[i]).header.kind,
        ) implies table_movable(orig, ab[i].header, threshold, delta) by {
            if i < a.len() {
                assert(ab[i] == a[i]);
            } else {
                assert(ab[i] == b[i - a.len()]);
            }
        }
    }
}

/// The tables among the nodes of a region are all movable exactly when the
/// region is movable.
pub proof fn lemma_movable_nodes_are_movable_region(
    orig: Seq<u8>,
    pos: int,
    limit: int,
    depth: int,
    threshold: int,
    delta: int,
)
    ensures
        all_movable(orig, flat(orig, pos, limit, depth), threshold, delta) == region_movable(
            orig,
            pos,
            limit,
            threshold,
            delta,
        ),
    decreases limit - pos,
{
    if pos < limit {
        match decode_header(orig, pos, limit) {
            None => {},
            Some(h) => {
                lemma_decoded_header_bounds(orig, pos, limit);
                let node = BoxNode { header: h, depth: depth as usize };
                let inner = if is_container(h.kind) {
                    flat(orig, h.payload_start(), h.end(), depth + 1)
                } else {
                    Seq::empty()
                };
                let rest = flat(orig, h.end(), limit, depth);
                if is_container(h.kind) {
                    lemma_movable_nodes_are_movable_region(
                        orig,
                        h.payload_start(),
                        h.end(),
                        depth + 1,
                        threshold,
                        delta,
                    );
                }
                lemma_movable_nodes_are_movable_region(
                    orig,
                    h.end(),
                    limit,
                    depth,
                    threshold,
                    delta,
                );
                lemma_all_movable_concat(orig, seq![node] + inner, rest, threshold, delta);
                lemma_all_movable_concat(orig, seq![node], inner, threshold, delta);
                let one = seq![node];
                assert(one[0] == node);
                assert(all_movable(orig, one, threshold, delta) == (is_table(h.kind)
                    ==> table_movable(orig, h, threshold, delta)));
            },
        }
    }
}

/// The payload of the box at the start of a region, as it is in the moved
/// region.
pub open spec fn moved_body(orig: Seq<u8>, h: BoxHeader, threshold: int, delta: int) -> Seq<u8> {
    if is_container(h.kind) {
        moved_region(orig, h.payload_start(), h.end(), threshold, delta)
    } else if is_table(h.kind) && table_whole(orig, h) {
        moved_table(orig, h, threshold, delta)
    } else {
        orig.subrange(h.payload_start(), h.end())
    }
}

/// A moved region that starts with a box is made of three parts: the header
/// of the box as it was, its payload moved, and the moved rest.
pub proof fn lemma_moved_region_parts(
    orig: Seq<u8>,
    pos: int,
    limit: int,
    threshold: int,
    delta: int,
)
    requires
        0 <= pos < limit,
        limit <= orig.len(),
        decode_header(orig, pos, limit) is Some,
    ensures
        ({
            let h = decode_header(orig, pos, limit)->0;
            let m = moved_region(orig, pos, limit, threshold, delta);
            &&& m.len() == limit - pos
            &&& moved_body(orig, h, threshold, delta).len() == h.end() - h.payload_start()
            &&& m.subrange(0, h.header_len()) == orig.subrange(pos, h.payload_start())
            &&& m.subrange(h.header_len(), h.size as int) == moved_body(orig, h, threshold, delta)
            &&& m.subrange(h.size as int, limit - pos) == moved_region(
                orig,
                h.end(),
                limit,
                threshold,
                delta,
            )
        }),
{
    let h = decode_header(orig, pos, limit)->0;
    lemma_decoded_header_bounds(orig, pos, limit);
    lemma_moved_region_len(orig, pos, limit, threshold, delta);
    lemma_moved_region_len(orig, h.end(), limit, threshold, delta);
    if is_container(h.kind) {
        lemma_moved_region_len(orig, h.payload_start(), h.end(), threshold, delta);
    } else if is_table(h.kind) && table_whole(orig, h) {
        lemma_u32_at_range(orig, h.payload_start() + 4);
        lemma_moved_table_len(orig, h, threshold, delta);
    }
    let m = moved_region(orig, pos, limit, threshold, delta);
    let head = orig.subrange(pos, h.payload_start());
    let body = moved_body(orig, h, threshold, delta);
    let after = moved_region(orig, h.end(), limit, threshold, delta);
    assert(m == head + body + after);
    assert(m.subrange(0, h.header_len()) =~= head);
    assert(m.subrange(h.header_len(), h.size as int) =~= body);
    assert(m.subrange(h.size as int, limit - pos) =~= after);
}

/// Moving offsets leaves the box tree as it is: a region that holds the
/// moved bytes of another is valid if that one is, and has its boxes, each
/// moved by the distance between the two.
pub proof fn lemma_moved_keeps_structure(
    x: Seq<u8>,
    a: int,
    l: int,
    w: Seq<u8>,
    b: int,
    m: int,
    depth: int,
    threshold: int,
    delta: int,
)
    requires
        0 <= a <= l <= x.len(),
        0 <= b <= m <= w.len(),
        l <= usize::MAX,
        m <= usize::MAX,
        l - a == m - b,
        w.subrange(b, m) == moved_region(x, a, l, threshold, delta),
    ensures
        valid(w, b, m) == valid(x, a, l),
        sized(w, b, m) == sized(x, a, l),
        flat(w, b, m, depth) == shifted(flat(x, a, l, depth), b - a),
        match level(x, a, l) {
            Some(boxes) => level(w, b, m) == Some(shifted_headers(boxes, b - a)),
            None => level(w, b, m) is None,
        },
    decreases l - a,
{
    let by = b - a;
    if a >= l {
        assert(shifted(Seq::<BoxNode>::empty(), by) =~= Seq::<BoxNode>::empty());
        assert(shifted_headers(Seq::<BoxHeader>::empty(), by) =~= Seq::<BoxHeader>::empty());
    } else {
        match decode_header(x, a, l) {
            None => {
                lemma_region_is_local(x, a, l, w, b, m, depth);
            },
            Some(h) => {
                lemma_decoded_header_bounds(x, a, l);
                lemma_moved_region_parts(x, a, l, threshold, delta);
                let rw = w.subrange(b, m);
                assert(w.subrange(b, b + h.header_len()) =~= rw.subrange(0, h.header_len()));
                lemma_decode_from_header_bytes(x, a, l, w, b, m);
                lemma_decoded_header_bounds(w, b, m);
                let hw = decode_header(w, b, m)->0;
                assert(hw == shift_header(h, by));
                let node = BoxNode { header: h, depth: depth as usize };
                let node_w = BoxNode { header: hw, depth: depth as usize };
                assert(node_w == shift_node(node, by));
                assert(w.subrange(hw.end(), m) =~= rw.subrange(h.size as int, l - a));
                lemma_moved_keeps_structure(
                    x,
                    h.end(),
                    l,
                    w,
                    hw.end(),
                    m,
                    depth,
                    threshold,
                    delta,
                );
                let inner_x = if is_container(h.kind) {
                    flat(x, h.payload_start(), h.end(), depth + 1)
                } else {
                    Seq::empty()
                };
                let inner_w = if is_container(h.kind) {
                    flat(w, hw.payload_start(), hw.end(), depth + 1)
                } else {
                    Seq::empty()
                };
                if is_container(h.kind) {
                    assert(w.subrange(hw.payload_start(), hw.end()) =~= rw.subrange(
                        h.header_len(),
                        h.size as int,
                    ));
                    lemma_moved_keeps_structure(
                        x,
                        h.payload_start(),
                        h.end(),
                        w,
                        hw.payload_start(),
                        hw.end(),
                        depth + 1,
                        threshold,
                        delta,
                    );
                } else {
                    assert(shifted(Seq::<BoxNode>::empty(), by) =~= Seq::<BoxNode>::empty());
                }
                let rest_x = flat(x, h.end(), l, depth);
                let rest_w = flat(w, hw.end(), m, depth);
                assert(flat(x, a, l, depth) == seq![node] + inner_x + rest_x);
                assert(flat(w, b, m, depth) == seq![node_w] + inner_w + rest_w);
                assert(shifted(seq![node] + inner_x + rest_x, by) =~= seq![node_w] + shifted(
                    inner_x,
                    by,
                ) + shifted(rest_x, by));
                match level(x, h.end(), l) {
                    None => {},
                    Some(more) => {
                        assert(shifted_headers(seq![h] + more, by) =~= seq![hw] + shifted_headers(
                            more,
                            by,
                        ));
                    },
                }
            },
        }
    }
}

/// A region tiled by boxes of stated size, followed by another region, is
/// moved as the two are moved one after the other.
pub proof fn lemma_join_moved(
    data: Seq<u8>,
    a: int,
    s: int,
    l: int,
    threshold: int,
    delta: int,
)
    requires
        0 <= a <= s <= l <= data.len(),
        l <= usize::MAX,
        sized(data, a, s),
    ensures
        moved_region(data, a, l, threshold, delta) == moved_region(data, a, s, threshold, delta)
            + moved_region(data, s, l, threshold, delta),
        region_movable(data, a, l, threshold, delta) == (region_movable(
            data,
            a,
            s,
            threshold,
            delta,
        ) && region_movable(data, s, l, threshold, delta)),
    decreases s - a,
{
    if a >= s {
        assert(moved_region(data, a, s, threshold, delta) + moved_region(
            data,
            s,
            l,
            threshold,
            delta,
        ) =~= moved_region(data, s, l, threshold, delta));
    } else {
        let h = decode_header(data, a, s)->0;
        lemma_decoded_header_bounds(data, a, s);
        lemma_decode_other_limit(data, a, s, l);
        lemma_join_moved(data, h.end(), s, l, threshold, delta);
        let head = data.subrange(a, h.payload_start());
        let body = moved_body(data, h, threshold, delta);
        let mid = moved_region(data, h.end(), s, threshold, delta);
        let after = moved_region(data, s, l, threshold, delta);
        assert(moved_region(data, a, s, threshold, delta) == head + body + mid);
        assert(moved_region(data, a, l, threshold, delta) == head + body + (mid + after));
        assert(head + body + (mid + after) =~= head + body + mid + after);
    }
}

} // verus!
