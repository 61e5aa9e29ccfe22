//! The box tree of a container, flattened in document order.
//!
//! A node is a box header together with its nesting depth. The nodes of a
//! container are listed as they occur in the bytes: a box, then everything
//! inside it, then the box after it. The boxes inside a node are therefore
//! the run of deeper nodes that follows it.

use vstd::prelude::*;
use crate::bytes::push_range;
use crate::error::Error;
use crate::walker::level;
use crate::header::{
    decode_header, header_bytes, is_container, is_container_kind, lemma_decode_then_encode,
    lemma_decoded_header_bounds, push_header, read_header, BoxHeader, SizeForm,
};

verus! {

/// A box of the tree and how deep it is nested: 0 at the top level.
#[derive(Clone, Copy, Debug, PartialEq, Eq, Structural)]
pub struct BoxNode {
    pub header: BoxHeader,
    pub depth: usize,
}

/// The boxes of a container, in document order.
#[derive(Clone, Debug, PartialEq, Eq)]
pub struct Container {
    pub nodes: Vec<BoxNode>,
}

/// The region `[pos, limit)` is tiled by boxes, and so is the payload of
/// every box in it whose kind says that it holds boxes.
pub open spec fn valid(data: Seq<u8>, pos: int, limit: int) -> bool
    decreases limit - pos,
{
    if pos >= limit {
        pos == limit
    } else {
        match decode_header(data, pos, limit) {
            None => false,
            Some(h) => {
                proof {
                    lemma_decoded_header_bounds(data, pos, limit);
                }
                (is_container(h.kind) ==> valid(data, h.payload_start(), h.end())) && valid(
                    data,
                    h.end(),
                    limit,
                )
            },
        }
    }
}

/// The nodes of the region `[pos, limit)` in document order, the boxes that
/// tile the region being at `depth`.
///
/// Where a header cannot be decoded the list stops; `valid` says whether
/// that happens.
pub open spec fn flat(data: Seq<u8>, pos: int, limit: int, depth: int) -> Seq<BoxNode>
    decreases limit - pos,
{
    if pos >= limit {
        Seq::empty()
    } else {
        match decode_header(data, pos, limit) {
            None => Seq::empty(),
            Some(h) => {
                proof {
                    lemma_decoded_header_bounds(data, pos, limit);
                }
                seq![BoxNode { header: h, depth: depth as usize }] + (if is_container(h.kind) {
                    flat(data, h.payload_start(), h.end(), depth + 1)
                } else {
                    Seq::empty()
                }) + flat(data, h.end(), limit, depth)
            },
        }
    }
}

/// The nodes still to come once the region at hand is done: for each
/// enclosing box, innermost last in `frames`, what follows up to its limit.
spec fn flat_frames(data: Seq<u8>, pos: int, frames: Seq<usize>) -> Seq<BoxNode>
    decreases frames.len(),
{
    if frames.len() == 0 {
        Seq::empty()
    } else {
        flat(data, pos, frames.last() as int, frames.len() - 1) + flat_frames(
            data,
            frames.last() as int,
            frames.drop_last(),
        )
    }
}

/// Validity of what `flat_frames` lists.
spec fn valid_frames(data: Seq<u8>, pos: int, frames: Seq<usize>) -> bool
    decreases frames.len(),
{
    if frames.len() == 0 {
        true
    } else {
        valid(data, pos, frames.last() as int) && valid_frames(
            data,
            frames.last() as int,
            frames.drop_last(),
        )
    }
}

/// What a node contributes to the bytes of its container: its header, and
/// its payload unless the payload is made of boxes, which contribute
/// themselves.
pub open spec fn node_bytes(n: BoxNode, src: Seq<u8>) -> Seq<u8> {
    header_bytes(n.header) + (if is_container(n.header.kind) {
        Seq::empty()
    } else {
        src.subrange(n.header.payload_start(), n.header.end())
    })
}

/// The bytes that a list of nodes stands for, payloads taken from `src`.
pub open spec fn bytes_of(nodes: Seq<BoxNode>, src: Seq<u8>) -> Seq<u8>
    decreases nodes.len(),
{
    if nodes.len() == 0 {
        Seq::empty()
    } else {
        bytes_of(nodes.drop_last(), src) + node_bytes(nodes.last(), src)
    }
}

/// A node can be written out: its header can state its size, and, where its
/// payload is copied from the source, the payload lies in the source.
pub open spec fn node_fits(n: BoxNode, src_len: int) -> bool {
    n.header.encodable() && (is_container(n.header.kind) || n.header.within(src_len))
}

/// The bytes of two lists of nodes, one after the other.
pub proof fn lemma_bytes_of_concat(a: Seq<BoxNode>, b: Seq<BoxNode>, src: Seq<u8>)
    ensures
        bytes_of(a + b, src) == bytes_of(a, src) + bytes_of(b, src),
    decreases b.len(),
{
    if b.len() == 0 {
        assert(a + b =~= a);
        assert(bytes_of(a, src) + bytes_of(b, src) =~= bytes_of(a, src));
    } else {
        assert((a + b).drop_last() =~= a + b.drop_last());
        assert((a + b).last() == b.last());
        lemma_bytes_of_concat(a, b.drop_last(), src);
        assert(bytes_of(a, src) + bytes_of(b.drop_last(), src) + node_bytes(b.last(), src)
            =~= bytes_of(a, src) + (bytes_of(b.drop_last(), src) + node_bytes(b.last(), src)));
    }
}

/// The bytes of a single node.
pub proof fn lemma_bytes_of_one(n: BoxNode, src: Seq<u8>)
    ensures
        bytes_of(seq![n], src) == node_bytes(n, src),
{
    let s = seq![n];
    assert(s.drop_last() =~= Seq::<BoxNode>::empty());
    assert(bytes_of(s.drop_last(), src) =~= Seq::<u8>::empty());
    assert(bytes_of(s, src) =~= node_bytes(n, src));
}

/// Three stretches of a byte string that follow one another make up the
/// stretch from the start of the first to the end of the last.
proof fn lemma_three_stretches(data: Seq<u8>, a: int, b: int, c: int, d: int)
    requires
        0 <= a <= b <= c <= d <= data.len(),
    ensures
        data.subrange(a, b) + data.subrange(b, c) + data.subrange(c, d) == data.subrange(a, d),
{
    assert(data.subrange(a, b) + data.subrange(b, c) + data.subrange(c, d) =~= data.subrange(
        a,
        d,
    ));
}

/// The bytes of a box followed by other boxes: the bytes of its node, of the
/// nodes inside it, and of the nodes after it.
proof fn lemma_bytes_of_box(node: BoxNode, inner: Seq<BoxNode>, rest: Seq<BoxNode>, src: Seq<u8>)
    ensures
        bytes_of(seq![node] + inner + rest, src) == node_bytes(node, src) + bytes_of(inner, src)
            + bytes_of(rest, src),
{
    lemma_bytes_of_concat(seq![node] + inner, rest, src);
    lemma_bytes_of_concat(seq![node], inner, src);
    lemma_bytes_of_one(node, src);
}

/// Within a valid region, every node can be written out.
pub proof fn lemma_region_nodes_fit(data: Seq<u8>, pos: int, limit: int, depth: int)
    requires
        0 <= pos,
        limit <= data.len(),
        valid(data, pos, limit),
    ensures
        forall|k: int|
            0 <= k < flat(data, pos, limit, depth).len() ==> node_fits(
                #[trigger] flat(data, pos, limit, depth)[k],
                data.len() as int,
            ),
    decreases limit - pos,
{
    if pos < limit {
        let h = decode_header(data, pos, limit)->0;
        lemma_decoded_header_bounds(data, pos, limit);
        let node = BoxNode { header: h, depth: depth as usize };
        let inner = if is_container(h.kind) {
            flat(data, h.payload_start(), h.end(), depth + 1)
        } else {
            Seq::empty()
        };
        let rest = flat(data, h.end(), limit, depth);
        let all = flat(data, pos, limit, depth);
        assert(all == seq![node] + inner + rest);
        if is_container(h.kind) {
            lemma_region_nodes_fit(data, h.payload_start(), h.end(), depth + 1);
        }
        lemma_region_nodes_fit(data, h.end(), limit, depth);
        assert(node_fits(node, data.len() as int));
        assert forall|k: int| 0 <= k < all.len() implies node_fits(
            #[trigger] all[k],
            data.len() as int,
        ) by {
            if k == 0 {
                assert(all[0] == node);
            } else if k < 1 + inner.len() {
                assert(all[k] == inner[k - 1]);
            } else {
                assert(all[k] == rest[k - 1 - inner.len()]);
            }
        }
    }
}

/// Within a valid region, writing out the nodes gives the bytes of the
/// region.
pub proof fn lemma_region_round_trip(data: Seq<u8>, pos: int, limit: int, depth: int)
    requires
        0 <= pos,
        limit <= data.len(),
        valid(data, pos, limit),
    ensures
        bytes_of(flat(data, pos, limit, depth), data) == data.subrange(pos, limit),
    decreases limit - pos,
{
    if pos >= limit {
        assert(data.subrange(pos, limit) =~= Seq::<u8>::empty());
    } else {
        let h = decode_header(data, pos, limit)->0;
        lemma_decoded_header_bounds(data, pos, limit);
        lemma_decode_then_encode(data, pos, limit);
        let node = BoxNode { header: h, depth: depth as usize };
        let inner = if is_container(h.kind) {
            flat(data, h.payload_start(), h.end(), depth + 1)
        } else {
            Seq::empty()
        };
        let rest = flat(data, h.end(), limit, depth);
        assert(flat(data, pos, limit, depth) == seq![node] + inner + rest);
        if is_container(h.kind) {
            lemma_region_round_trip(data, h.payload_start(), h.end(), depth + 1);
        }
        lemma_region_round_trip(data, h.end(), limit, depth);
        lemma_bytes_of_box(node, inner, rest, data);
        let head = data.subrange(pos, h.payload_start());
        let body = data.subrange(h.payload_start(), h.end());
        let tail = data.subrange(h.end(), limit);
        assert(header_bytes(h) == head);
        assert(bytes_of(rest, data) == tail);
        assert(node_bytes(node, data) + bytes_of(inner, data) == head + body) by {
            if is_container(h.kind) {
                assert(node_bytes(node, data) =~= head);
            } else {
                assert(bytes_of(inner, data) =~= Seq::<u8>::empty());
                assert(node_bytes(node, data) + bytes_of(inner, data) =~= head + body);
            }
        }
        lemma_three_stretches(data, pos, h.payload_start(), h.end(), limit);
    }
}

/// Parsing a container and writing its nodes out again gives the bytes that
/// were parsed.
pub proof fn lemma_round_trip(data: Seq<u8>)
    requires
        valid(data, 0, data.len() as int),
    ensures
        bytes_of(flat(data, 0, data.len() as int, 0), data) == data,
        forall|k: int|
            0 <= k < flat(data, 0, data.len() as int, 0).len() ==> node_fits(
                #[trigger] flat(data, 0, data.len() as int, 0)[k],
                data.len() as int,
            ),
{
    lemma_region_round_trip(data, 0, data.len() as int, 0);
    lemma_region_nodes_fit(data, 0, data.len() as int, 0);
    assert(data.subrange(0, data.len() as int) =~= data);
}

/// A valid region has a top level that can be walked.
pub proof fn lemma_valid_has_level(data: Seq<u8>, pos: int, limit: int)
    requires
        valid(data, pos, limit),
    ensures
        level(data, pos, limit) is Some,
    decreases limit - pos,
{
    if pos < limit {
        let h = decode_header(data, pos, limit)->0;
        lemma_decoded_header_bounds(data, pos, limit);
        lemma_valid_has_level(data, h.end(), limit);
    }
}

/// The headers of the nodes that are nested `depth` deep, in order.
pub open spec fn at_depth(nodes: Seq<BoxNode>, depth: int) -> Seq<BoxHeader>
    decreases nodes.len(),
{
    if nodes.len() == 0 {
        Seq::empty()
    } else if nodes.last().depth == depth {
        at_depth(nodes.drop_last(), depth).push(nodes.last().header)
    } else {
        at_depth(nodes.drop_last(), depth)
    }
}

/// The nodes at a depth in two lists, one after the other.
pub proof fn lemma_at_depth_concat(a: Seq<BoxNode>, b: Seq<BoxNode>, depth: int)
    ensures
        at_depth(a + b, depth) == at_depth(a, depth) + at_depth(b, depth),
    decreases b.len(),
{
    if b.len() == 0 {
        assert(a + b =~= a);
        assert(at_depth(a, depth) + at_depth(b, depth) =~= at_depth(a, depth));
    } else {
        assert((a + b).drop_last() =~= a + b.drop_last());
        assert((a + b).last() == b.last());
        lemma_at_depth_concat(a, b.drop_last(), depth);
        if b.last().depth == depth {
            assert((at_depth(a, depth) + at_depth(b.drop_last(), depth)).push(b.last().header)
                =~= at_depth(a, depth) + at_depth(b.drop_last(), depth).push(b.last().header));
        }
    }
}

/// The nodes at a depth in a list of one.
proof fn lemma_at_depth_one(node: BoxNode, depth: int)
    ensures
        at_depth(seq![node], depth) == if node.depth == depth {
            seq![node.header]
        } else {
            Seq::empty()
        },
{
    let one = seq![node];
    assert(one.drop_last() =~= Seq::<BoxNode>::empty());
    assert(one.last() == node);
    assert(at_depth(one.drop_last(), depth) =~= Seq::<BoxHeader>::empty());
    if node.depth == depth {
        assert(Seq::<BoxHeader>::empty().push(node.header) =~= seq![node.header]);
    }
}

/// No node of a region is nested less deep than the boxes that tile it.
pub proof fn lemma_nodes_are_deep(data: Seq<u8>, pos: int, limit: int, depth: int, above: int)
    requires
        0 <= above < depth,
        0 <= pos,
        depth + (limit - pos) <= usize::MAX,
    ensures
        at_depth(flat(data, pos, limit, depth), above) == Seq::<BoxHeader>::empty(),
    decreases limit - pos,
{
    if pos < limit {
        match decode_header(data, pos, limit) {
            None => {},
            Some(h) => {
                lemma_decoded_header_bounds(data, pos, limit);
                let node = BoxNode { header: h, depth: depth as usize };
                let inner = if is_container(h.kind) {
                    flat(data, h.payload_start(), h.end(), depth + 1)
                } else {
                    Seq::empty()
                };
                let rest = flat(data, h.end(), limit, depth);
                if is_container(h.kind) {
                    lemma_nodes_are_deep(data, h.payload_start(), h.end(), depth + 1, above);
                }
                lemma_nodes_are_deep(data, h.end(), limit, depth, above);
                lemma_at_depth_concat(seq![node] + inner, rest, above);
                lemma_at_depth_concat(seq![node], inner, above);
                lemma_at_depth_one(node, above);
                assert(at_depth(seq![node], above) + at_depth(inner, above) + at_depth(rest, above)
                    =~= Seq::<BoxHeader>::empty());
            },
        }
    }
}

/// The nodes of a valid region that are nested as deep as the region itself
/// are the boxes that tile it.
pub proof fn lemma_level_of_tree(data: Seq<u8>, pos: int, limit: int, depth: int)
    requires
        0 <= depth,
        0 <= pos,
        depth + (limit - pos) <= usize::MAX,
        valid(data, pos, limit),
    ensures
        level(data, pos, limit) == Some(at_depth(flat(data, pos, limit, depth), depth)),
    decreases limit - pos,
{
    if pos < limit {
        let h = decode_header(data, pos, limit)->0;
        lemma_decoded_header_bounds(data, pos, limit);
        let node = BoxNode { header: h, depth: depth as usize };
        let inner = if is_container(h.kind) {
            flat(data, h.payload_start(), h.end(), depth + 1)
        } else {
            Seq::empty()
        };
        let rest = flat(data, h.end(), limit, depth);
        if is_container(h.kind) {
            lemma_nodes_are_deep(data, h.payload_start(), h.end(), depth + 1, depth);
        }
        lemma_level_of_tree(data, h.end(), limit, depth);
        lemma_at_depth_concat(seq![node] + inner, rest, depth);
        lemma_at_depth_concat(seq![node], inner, depth);
        lemma_at_depth_one(node, depth);
        assert(at_depth(seq![node], depth) + at_depth(inner, depth) + at_depth(rest, depth)
            =~= seq![h] + at_depth(rest, depth));
    }
}

impl Container {
    /// The top-level boxes of the tree.
    pub fn top_level(&self) -> (boxes: Vec<BoxHeader>)
        ensures
            boxes@ == at_depth(self.nodes@, 0),
    {
        let mut boxes: Vec<BoxHeader> = Vec::new();
        let mut i: usize = 0;
        proof {
            assert(self.nodes@.subrange(0, 0) =~= Seq::<BoxNode>::empty());
        }
        while i < self.nodes.len()
            invariant
                i <= self.nodes@.len(),
                boxes@ == at_depth(self.nodes@.subrange(0, i as int), 0),
            decreases self.nodes@.len() - i,
        {
            let node: BoxNode = self.nodes[i];
            proof {
                let more = self.nodes@.subrange(0, i + 1);
                assert(more.drop_last() =~= self.nodes@.subrange(0, i as int));
                assert(more.last() == node);
            }
            if node.depth == 0 {
                boxes.push(node.header);
            }
            i = i + 1;
        }
        proof {
            assert(self.nodes@.subrange(0, i as int) =~= self.nodes@);
        }
        boxes
    }

    /// Reads the whole box tree of `data`.
    ///
    /// Succeeds exactly on the byte strings that are tiled by boxes at the
    /// top level and inside every box that holds boxes; the nodes are then
    /// all boxes in document order.
    pub fn parse(data: &[u8]) -> (res: Result<Container, Error>)
        ensures
            match res {
                Ok(c) => valid(data@, 0, data@.len() as int) && c.nodes@ == flat(
                    data@,
                    0,
                    data@.len() as int,
                    0,
                ) && level(data@, 0, data@.len() as int) == Some(at_depth(c.nodes@, 0)),
                Err(e) => e == Error::MalformedContainer && !valid(data@, 0, data@.len() as int),
            },
    {
        let len: usize = data.len();
        let mut nodes: Vec<BoxNode> = Vec::new();
        let mut frames: Vec<usize> = Vec::new();
        let mut pos: usize = 0;
        let mut limit: usize = len;
        proof {
            assert(nodes@ + flat(data@, 0, len as int, 0) + flat_frames(data@, len as int, frames@)
                =~= flat(data@, 0, len as int, 0));
        }
        loop
            invariant
                pos <= limit <= len,
                len == data@.len(),
                forall|k: int| 0 <= k < frames@.len() ==> limit <= #[trigger] frames@[k] <= len,
                forall|i: int, j: int|
                    0 <= i <= j < frames@.len() ==> #[trigger] frames@[i] >= #[trigger] frames@[j],
                flat(data@, 0, len as int, 0) == nodes@ + flat(
                    data@,
                    pos as int,
                    limit as int,
                    frames@.len() as int,
                ) + flat_frames(data@, limit as int, frames@),
                valid(data@, 0, len as int) <==> valid(data@, pos as int, limit as int)
                    && valid_frames(data@, limit as int, frames@),
            decreases len - pos, frames@.len(),
        {
            if pos == limit {
                let ghost before = frames@;
                match frames.pop() {
                    None => {
                        proof {
                            assert(nodes@ + Seq::<BoxNode>::empty() + Seq::<BoxNode>::empty()
                                =~= nodes@);
                            lemma_level_of_tree(data@, 0, len as int, 0);
                        }
                        return Ok(Container { nodes });
                    },
                    Some(outer) => {
                        proof {
                            assert(frames@ =~= before.drop_last());
                            assert(outer == before.last());
                            assert(nodes@ + Seq::<BoxNode>::empty() + flat_frames(
                                data@,
                                limit as int,
                                before,
                            ) =~= nodes@ + flat(
                                data@,
                                pos as int,
                                outer as int,
                                frames@.len() as int,
                            ) + flat_frames(data@, outer as int, frames@));
                        }
                        limit = outer;
                    },
                }
            } else {
                match read_header(data, pos, limit) {
                    Err(e) => {
                        return Err(e);
                    },
                    Ok(h) => {
                        proof {
                            lemma_decoded_header_bounds(data@, pos as int, limit as int);
                        }
                        let depth: usize = frames.len();
                        let node = BoxNode { header: h, depth };
                        let ghost inner = if is_container(h.kind) {
                            flat(data@, h.payload_start(), h.end(), depth + 1)
                        } else {
                            Seq::empty()
                        };
                        let ghost rest = flat(data@, h.end(), limit as int, depth as int);
                        let ghost tail = flat_frames(data@, limit as int, frames@);
                        proof {
                            assert(flat(data@, pos as int, limit as int, depth as int) == seq![node]
                                + inner + rest);
                            assert(nodes@ + (seq![node] + inner + rest) + tail =~= nodes@.push(node)
                                + inner + (rest + tail));
                        }
                        nodes.push(node);
                        if is_container_kind(h.kind) {
                            let ghost before = frames@;
                            frames.push(limit);
                            proof {
                                assert(frames@.drop_last() =~= before);
                                assert(frames@.last() == limit);
                                assert(flat_frames(data@, h.end(), frames@) == rest + tail);
                            }
                            limit = pos + h.size;
                            pos = pos + h.header_length();
                        } else {
                            proof {
                                assert(nodes@ + inner + (rest + tail) =~= nodes@ + rest + tail);
                            }
                            pos = pos + h.size;
                        }
                    },
                }
            }
        }
    }

    /// Writes the nodes out: each header from its fields, each payload that
    /// is not made of boxes copied from `src`.
    ///
    /// Fails where a node cannot be written: its size does not fit the form
    /// of its header, or its payload does not lie in `src`.
    pub fn serialize(&self, src: &[u8]) -> (res: Result<Vec<u8>, Error>)
        ensures
            match res {
                Ok(out) => out@ == bytes_of(self.nodes@, src@) && forall|k: int|
                    0 <= k < self.nodes@.len() ==> node_fits(
                        #[trigger] self.nodes@[k],
                        src@.len() as int,
                    ),
                Err(e) => e == Error::MalformedContainer && exists|k: int|
                    0 <= k < self.nodes@.len() && !node_fits(
                        #[trigger] self.nodes@[k],
                        src@.len() as int,
                    ),
            },
    {
        let mut out: Vec<u8> = Vec::new();
        let mut i: usize = 0;
        proof {
            assert(self.nodes@.subrange(0, 0) =~= Seq::<BoxNode>::empty());
        }
        while i < self.nodes.len()
            invariant
                i <= self.nodes@.len(),
                out@ == bytes_of(self.nodes@.subrange(0, i as int), src@),
                forall|k: int|
                    0 <= k < i ==> node_fits(#[trigger] self.nodes@[k], src@.len() as int),
            decreases self.nodes@.len() - i,
        {
            let node: BoxNode = self.nodes[i];
            let h: BoxHeader = node.header;
            let size_ok: bool = match h.form {
                SizeForm::Compact => 8 <= h.size && h.size <= 0xffff_ffff,
                SizeForm::Large => 16 <= h.size,
                SizeForm::ToEnd => 8 <= h.size,
            };
            let holds_boxes: bool = is_container_kind(h.kind);
            let inside: bool = holds_boxes || (h.header_length() <= h.size && h.offset <= src.len()
                && h.size <= src.len() - h.offset);
            if !size_ok || !inside {
                assert(!node_fits(self.nodes@[i as int], src@.len() as int));
                return Err(Error::MalformedContainer);
            }
            let ghost before = out@;
            push_header(&mut out, &h);
            if !holds_boxes {
                push_range(&mut out, src, h.offset + h.header_length(), h.offset + h.size);
            }
            proof {
                let done = self.nodes@.subrange(0, i as int);
                let more = self.nodes@.subrange(0, i + 1);
                assert(more.drop_last() =~= done);
                assert(more.last() == node);
                assert(out@ =~= before + node_bytes(node, src@));
            }
            i = i + 1;
        }
        proof {
            assert(self.nodes@.subrange(0, i as int) =~= self.nodes@);
        }
        Ok(out)
    }
}

} // verus!
