//! Finding the provenance store among the top-level boxes of a container.

use vstd::prelude::*;
use crate::bytes::push_range;
use crate::error::Error;
use crate::header::{BoxHeader, KIND_STORE};
use crate::walker::{lemma_level_tiles, level, read_level, tiles};

verus! {

/// The box that was looked for, and whether more than one was there.
///
/// Only the first box of the kind counts. `duplicates` is a warning that
/// others follow it; they are never read or changed.
#[derive(Clone, Copy, Debug, PartialEq, Eq, Structural)]
pub struct StoreLocation {
    pub header: BoxHeader,
    pub duplicates: bool,
}

/// The index of the first box whose kind is `a` or `b`, or the number of
/// boxes where there is none.
pub open spec fn first_of_kind(boxes: Seq<BoxHeader>, a: u32, b: u32) -> int
    decreases boxes.len(),
{
    if boxes.len() == 0 {
        0
    } else if boxes.first().kind == a || boxes.first().kind == b {
        0
    } else {
        1 + first_of_kind(boxes.drop_first(), a, b)
    }
}

/// The first box whose kind is `a` or `b`, with the warning that another
/// such box follows it.
pub open spec fn find_box(boxes: Seq<BoxHeader>, a: u32, b: u32) -> Option<StoreLocation> {
    let i = first_of_kind(boxes, a, b);
    if i < boxes.len() {
        let after = boxes.subrange(i + 1, boxes.len() as int);
        Some(StoreLocation { header: boxes[i], duplicates: first_of_kind(after, a, b) < after.len() })
    } else {
        None
    }
}

/// `first_of_kind` is an index of the list or its length; the box there is
/// of the kind, and no box before it is.
pub proof fn lemma_first_of_kind(boxes: Seq<BoxHeader>, a: u32, b: u32)
    ensures
        0 <= first_of_kind(boxes, a, b) <= boxes.len(),
        first_of_kind(boxes, a, b) < boxes.len() ==> {
            let h = boxes[first_of_kind(boxes, a, b)];
            h.kind == a || h.kind == b
        },
        forall|k: int|
            0 <= k < first_of_kind(boxes, a, b) ==> (#[trigger] boxes[k]).kind != a && boxes[k].kind
                != b,
    decreases boxes.len(),
{
    if boxes.len() > 0 && !(boxes.first().kind == a || boxes.first().kind == b) {
        let rest = boxes.drop_first();
        lemma_first_of_kind(rest, a, b);
        assert forall|k: int| 0 <= k < first_of_kind(boxes, a, b) implies (
        #[trigger] boxes[k]).kind != a && boxes[k].kind != b by {
            if k > 0 {
                assert(boxes[k] == rest[k - 1]);
            }
        }
    }
}

/// The index at which a box of the kind stands and before which none does is
/// `first_of_kind`; so is the length of a list without such a box.
pub proof fn lemma_first_of_kind_unique(boxes: Seq<BoxHeader>, a: u32, b: u32, i: int)
    requires
        0 <= i <= boxes.len(),
        forall|k: int| 0 <= k < i ==> (#[trigger] boxes[k]).kind != a && boxes[k].kind != b,
        i < boxes.len() ==> boxes[i].kind == a || boxes[i].kind == b,
    ensures
        first_of_kind(boxes, a, b) == i,
    decreases boxes.len(),
{
    if boxes.len() > 0 && i > 0 {
        let rest = boxes.drop_first();
        assert(boxes[0].kind != a && boxes[0].kind != b);
        assert forall|k: int| 0 <= k < i - 1 implies (#[trigger] rest[k]).kind != a && rest[k].kind
            != b by {
            assert(rest[k] == boxes[k + 1]);
        }
        if i < boxes.len() {
            assert(rest[i - 1] == boxes[i]);
        }
        lemma_first_of_kind_unique(rest, a, b, i - 1);
    }
}

/// The index of the first box of kind `a` or `b` at or after `start`.
fn first_from(boxes: &Vec<BoxHeader>, start: usize, a: u32, b: u32) -> (r: usize)
    requires
        start <= boxes@.len(),
    ensures
        start <= r <= boxes@.len(),
        r - start == first_of_kind(boxes@.subrange(start as int, boxes@.len() as int), a, b),
{
    let n: usize = boxes.len();
    let mut i: usize = start;
    while i < n
        invariant
            start <= i <= n,
            n == boxes@.len(),
            first_of_kind(boxes@.subrange(start as int, n as int), a, b) == (i - start)
                + first_of_kind(boxes@.subrange(i as int, n as int), a, b),
        decreases n - i,
    {
        let kind: u32 = boxes[i].kind;
        proof {
            let here = boxes@.subrange(i as int, n as int);
            assert(here.first() == boxes@[i as int]);
            assert(here.drop_first() =~= boxes@.subrange(i + 1, n as int));
        }
        if kind == a || kind == b {
            return i;
        }
        i = i + 1;
    }
    i
}

/// Finds the first box whose kind is `a` or `b`.
pub fn locate(boxes: &Vec<BoxHeader>, a: u32, b: u32) -> (r: Option<StoreLocation>)
    ensures
        r == find_box(boxes@, a, b),
{
    let n: usize = boxes.len();
    let i: usize = first_from(boxes, 0, a, b);
    proof {
        assert(boxes@.subrange(0, n as int) =~= boxes@);
    }
    if i < n {
        let j: usize = first_from(boxes, i + 1, a, b);
        Some(StoreLocation { header: boxes[i], duplicates: j < n })
    } else {
        None
    }
}

/// Finds the store among top-level boxes: the first box of the store kind.
pub fn locate_store(boxes: &Vec<BoxHeader>) -> (r: Option<StoreLocation>)
    ensures
        r == find_box(boxes@, KIND_STORE, KIND_STORE),
{
    locate(boxes, KIND_STORE, KIND_STORE)
}

/// The top-level boxes of a container.
pub open spec fn top_level(data: Seq<u8>) -> Option<Seq<BoxHeader>> {
    level(data, 0, data.len() as int)
}

/// Where the store of a container is: nowhere (`Ok(None)`), at a box, or
/// undecided because the top level cannot be walked.
pub open spec fn store_location(data: Seq<u8>) -> Result<Option<StoreLocation>, Error> {
    match top_level(data) {
        None => Err(Error::MalformedContainer),
        Some(boxes) => Ok(find_box(boxes, KIND_STORE, KIND_STORE)),
    }
}

/// The bytes of the store of a container.
pub open spec fn stored(data: Seq<u8>) -> Result<Seq<u8>, Error> {
    match store_location(data) {
        Err(e) => Err(e),
        Ok(None) => Err(Error::NotFound),
        Ok(Some(loc)) => Ok(data.subrange(loc.header.payload_start(), loc.header.end())),
    }
}

/// A box found among the top-level boxes of a container lies in the
/// container, and is no shorter than its header.
pub proof fn lemma_found_box_within(data: Seq<u8>, a: u32, b: u32)
    requires
        top_level(data) is Some,
        find_box(top_level(data)->0, a, b) is Some,
    ensures
        ({
            let h = find_box(top_level(data)->0, a, b)->0.header;
            &&& 8 <= h.header_len() <= h.size
            &&& h.end() <= data.len()
            &&& h.kind == a || h.kind == b
        }),
{
    let boxes = top_level(data)->0;
    lemma_level_tiles(data, 0, data.len() as int);
    lemma_first_of_kind(boxes, a, b);
    let i = first_of_kind(boxes, a, b);
    assert(tiles(data, boxes, 0, data.len() as int));
    assert(boxes[i].end() <= data.len());
}

/// Walks the top level of `data` and finds the store.
pub fn find_store(data: &[u8]) -> (res: Result<Option<StoreLocation>, Error>)
    ensures
        res == store_location(data@),
{
    match read_level(data, 0, data.len()) {
        Err(e) => Err(e),
        Ok(boxes) => Ok(locate_store(&boxes)),
    }
}

/// Reads the store of `data`: the payload of its first store box.
///
/// `NotFound` where the container has no store box; `MalformedContainer`
/// where its top level cannot be walked.
pub fn read_store(data: &[u8]) -> (res: Result<Vec<u8>, Error>)
    ensures
        match res {
            Ok(bytes) => stored(data@) == Ok::<Seq<u8>, Error>(bytes@),
            Err(e) => stored(data@) == Err::<Seq<u8>, Error>(e),
        },
{
    let total: usize = data.len();
    match find_store(data) {
        Err(e) => Err(e),
        Ok(None) => Err(Error::NotFound),
        Ok(Some(loc)) => {
            proof {
                lemma_found_box_within(data@, KIND_STORE, KIND_STORE);
            }
            let mut out: Vec<u8> = Vec::new();
            push_range(&mut out, data, loc.header.payload_offset(), loc.header.end_offset());
            assert(out@ =~= data@.subrange(loc.header.payload_start(), loc.header.end()));
            Ok(out)
        },
    }
}

} // verus!
