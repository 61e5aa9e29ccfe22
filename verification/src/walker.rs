//! Walking the boxes that stand side by side in one region of a container.

use vstd::prelude::*;
use crate::error::Error;
use crate::header::{
    decode_header, is_container, is_container_kind, lemma_decoded_header_bounds, read_header,
    BoxHeader,
};

verus! {

/// The boxes that tile `[pos, limit)` exactly, in order.
///
/// There are none (`None`) when some header in the chain cannot be decoded,
/// or when the region is not a region at all (`pos > limit`).
pub open spec fn level(data: Seq<u8>, pos: int, limit: int) -> Option<Seq<BoxHeader>>
    decreases limit - pos,
{
    if pos >= limit {
        if pos == limit {
            Some(Seq::empty())
        } else {
            None
        }
    } else {
        match decode_header(data, pos, limit) {
            None => None,
            Some(h) => {
                proof {
                    lemma_decoded_header_bounds(data, pos, limit);
                }
                match level(data, pos + h.size as int, limit) {
                    None => None,
                    Some(rest) => Some(seq![h] + rest),
                }
            },
        }
    }
}

/// What holds of the boxes of a level: each is the header decoded at its own
/// offset, covers at least its header, and lies inside `[pos, limit)`; the
/// first starts at `pos`, each next one where the one before ends, and the
/// last ends at `limit`.
pub open spec fn tiles(data: Seq<u8>, boxes: Seq<BoxHeader>, pos: int, limit: int) -> bool {
    &&& pos <= limit
    &&& (boxes.len() == 0 <==> pos == limit)
    &&& boxes.len() > 0 ==> boxes[0].offset == pos && boxes.last().end() == limit
    &&& forall|k: int|
        0 <= k < boxes.len() ==> {
            &&& pos <= (#[trigger] boxes[k]).offset
            &&& 8 <= boxes[k].header_len() <= boxes[k].size
            &&& boxes[k].end() <= limit
            &&& decode_header(data, boxes[k].offset as int, limit) == Some(boxes[k])
        }
    &&& forall|i: int, j: int|
        0 <= i && j == i + 1 && j < boxes.len() ==> (#[trigger] boxes[i]).end() == (
        #[trigger] boxes[j]).offset
}

/// The boxes of a level tile its region.
pub proof fn lemma_level_tiles(data: Seq<u8>, pos: int, limit: int)
    requires
        level(data, pos, limit) is Some,
    ensures
        tiles(data, level(data, pos, limit)->0, pos, limit),
    decreases limit - pos,
{
    if pos < limit {
        let h = decode_header(data, pos, limit)->0;
        lemma_decoded_header_bounds(data, pos, limit);
        let next = pos + h.size as int;
        lemma_level_tiles(data, next, limit);
        let rest = level(data, next, limit)->0;
        let boxes = level(data, pos, limit)->0;
        assert(boxes == seq![h] + rest);
        assert(boxes.len() == rest.len() + 1);
        assert(boxes[0] == h);
        assert forall|k: int| 1 <= k < boxes.len() implies boxes[k] == rest[k - 1] by {}
        assert(tiles(data, rest, next, limit));
        if rest.len() > 0 {
            assert(boxes.last() == rest.last());
            assert(boxes[1] == rest[0]);
        }
        assert forall|k: int| 0 <= k < boxes.len() implies {
            &&& pos <= (#[trigger] boxes[k]).offset
            &&& 8 <= boxes[k].header_len() <= boxes[k].size
            &&& boxes[k].end() <= limit
            &&& decode_header(data, boxes[k].offset as int, limit) == Some(boxes[k])
        } by {
            if k > 0 {
                assert(boxes[k] == rest[k - 1]);
            }
        }
        assert forall|i: int, j: int| 0 <= i && j == i + 1 && j < boxes.len() implies (
        #[trigger] boxes[i]).end() == (#[trigger] boxes[j]).offset by {
            assert(boxes[j] == rest[j - 1]);
            if i > 0 {
                assert(boxes[i] == rest[i - 1]);
            }
        }
    }
}

/// Reads the boxes that tile `[start, limit)`.
///
/// This is one level of the tree: the top level for `start == 0` and
/// `limit == data.len()`, the children of a box for its payload.
pub fn read_level(data: &[u8], start: usize, limit: usize) -> (res: Result<Vec<BoxHeader>, Error>)
    ensures
        match res {
            Ok(boxes) => level(data@, start as int, limit as int) == Some(boxes@),
            Err(e) => e == Error::MalformedContainer && level(data@, start as int, limit as int)
                is None,
        },
{
    if start > limit {
        return Err(Error::MalformedContainer);
    }
    let mut boxes: Vec<BoxHeader> = Vec::new();
    let mut pos: usize = start;
    while pos < limit
        invariant
            start <= pos <= limit,
            level(data@, start as int, limit as int) == match level(
                data@,
                pos as int,
                limit as int,
            ) {
                Some(rest) => Some(boxes@ + rest),
                None => None,
            },
        decreases limit - pos,
    {
        match read_header(data, pos, limit) {
            Err(e) => {
                return Err(e);
            },
            Ok(h) => {
                proof {
                    lemma_decoded_header_bounds(data@, pos as int, limit as int);
                    let next = level(data@, pos + h.size as int, limit as int);
                    if next is Some {
                        assert(boxes@ + (seq![h] + next->0) =~= boxes@.push(h) + next->0);
                    }
                }
                boxes.push(h);
                pos = pos + h.size;
            },
        }
    }
    assert(boxes@ + Seq::<BoxHeader>::empty() =~= boxes@);
    Ok(boxes)
}

/// The boxes inside a box: those that tile its payload where its kind says
/// that it holds boxes, none where it does not.
///
/// There is no answer (`None`) for a box that does not lie in the data, or
/// whose payload is not tiled by boxes.
pub open spec fn children(data: Seq<u8>, h: BoxHeader) -> Option<Seq<BoxHeader>> {
    if !is_container(h.kind) {
        Some(Seq::empty())
    } else if h.within(data.len() as int) {
        level(data, h.payload_start(), h.end())
    } else {
        None
    }
}

/// Reads the boxes inside a box.
pub fn read_children(data: &[u8], h: &BoxHeader) -> (res: Result<Vec<BoxHeader>, Error>)
    ensures
        match res {
            Ok(boxes) => children(data@, *h) == Some(boxes@),
            Err(e) => e == Error::MalformedContainer && children(data@, *h) is None,
        },
{
    if !is_container_kind(h.kind) {
        return Ok(Vec::new());
    }
    let total: usize = data.len();
    let hlen: usize = h.header_length();
    if h.size < hlen || h.offset > total || h.size > total - h.offset {
        return Err(Error::MalformedContainer);
    }
    read_level(data, h.offset + hlen, h.offset + h.size)
}

} // verus!
