//! Chunk-offset tables: the boxes whose entries are absolute positions in
//! the container, and how their entries move when bytes are put in or taken
//! out before what they point to.
//!
//! A table is a box of kind `stco` (32-bit entries) or `co64` (64-bit
//! entries). Its payload is four bytes of version and flags, a 32-bit count,
//! and that many entries.

use vstd::prelude::*;
use crate::bytes::{
    overwrite, push_range, read_u32, read_u64, store_u32, store_u64, u32_at, u32_bytes, u64_at,
    u64_bytes,
};
use crate::error::Error;
use crate::header::{BoxHeader, KIND_CO64, KIND_STCO};
use crate::moving::{
    lemma_movable_nodes_are_movable_region, lemma_moved_region_len, lemma_repair_is_moved_region,
    moved_region, region_movable,
};
use crate::tree::{flat, valid, BoxNode, Container};

verus! {

/// A box of this kind is an offset table.
pub open spec fn is_table(kind: u32) -> bool {
    kind == KIND_STCO || kind == KIND_CO64
}

/// The largest value that an entry of a table of this kind can hold.
pub open spec fn entry_limit(kind: u32) -> int {
    if kind == KIND_CO64 {
        u64::MAX as int
    } else {
        u32::MAX as int
    }
}

/// The number of entries that the table announces.
pub open spec fn table_count(data: Seq<u8>, h: BoxHeader) -> int {
    u32_at(data, h.payload_start() + 4)
}

/// Where entry `k` of the table is stored.
pub open spec fn entry_pos(h: BoxHeader, k: int) -> int {
    if h.kind == KIND_CO64 {
        h.payload_start() + 8 + 8 * k
    } else {
        h.payload_start() + 8 + 4 * k
    }
}

/// The value of entry `k` of the table.
pub open spec fn entry_at(data: Seq<u8>, h: BoxHeader, k: int) -> int {
    if h.kind == KIND_CO64 {
        u64_at(data, entry_pos(h, k))
    } else {
        u32_at(data, entry_pos(h, k))
    }
}

/// The bytes of an entry of value `v` in a table of this kind.
pub open spec fn entry_bytes(kind: u32, v: int) -> Seq<u8> {
    if kind == KIND_CO64 {
        u64_bytes(v as u64)
    } else {
        u32_bytes(v as u32)
    }
}

/// The table lies in the data, has its count, and has room for as many
/// entries as it counts.
pub open spec fn table_whole(data: Seq<u8>, h: BoxHeader) -> bool {
    &&& h.end() <= data.len()
    &&& h.payload_start() + 8 <= h.end()
    &&& entry_pos(h, table_count(data, h)) <= h.end()
}

/// Where a position ends up when `delta` bytes are added at `threshold`
/// (taken away, for a negative `delta`): positions from `threshold` on move,
/// those before it stay.
pub open spec fn moved(v: int, threshold: int, delta: int) -> int {
    if v >= threshold {
        v + delta
    } else {
        v
    }
}

/// The table is whole and each of its entries, once moved, still fits an
/// entry.
pub open spec fn table_movable(data: Seq<u8>, h: BoxHeader, threshold: int, delta: int) -> bool {
    &&& table_whole(data, h)
    &&& forall|k: int|
        0 <= k < table_count(data, h) ==> 0 <= moved(
            #[trigger] entry_at(data, h, k),
            threshold,
            delta,
        ) <= entry_limit(h.kind)
}

/// Every table among the nodes is movable.
pub open spec fn all_movable(
    data: Seq<u8>,
    nodes: Seq<BoxNode>,
    threshold: int,
    delta: int,
) -> bool {
    forall|i: int|
        0 <= i < nodes.len() && is_table((#[trigger] nodes[i]).header.kind) ==> table_movable(
            data,
            nodes[i].header,
            threshold,
            delta,
        )
}

/// `buf` with the first `n` entries of the table replaced by the moved
/// values of the entries of `orig`.
pub open spec fn repair_table(
    buf: Seq<u8>,
    orig: Seq<u8>,
    h: BoxHeader,
    n: int,
    threshold: int,
    delta: int,
) -> Seq<u8>
    decreases n,
{
    if n <= 0 {
        buf
    } else {
        overwrite(
            repair_table(buf, orig, h, n - 1, threshold, delta),
            entry_pos(h, n - 1),
            entry_bytes(h.kind, moved(entry_at(orig, h, n - 1), threshold, delta)),
        )
    }
}

/// `buf` with every entry of every table among the nodes replaced by the
/// moved value of that entry in `orig`.
pub open spec fn repair_nodes(
    buf: Seq<u8>,
    orig: Seq<u8>,
    nodes: Seq<BoxNode>,
    threshold: int,
    delta: int,
) -> Seq<u8>
    decreases nodes.len(),
{
    if nodes.len() == 0 {
        buf
    } else {
        let prev = repair_nodes(buf, orig, nodes.drop_last(), threshold, delta);
        let h = nodes.last().header;
        if is_table(h.kind) {
            repair_table(prev, orig, h, table_count(orig, h), threshold, delta)
        } else {
            prev
        }
    }
}

/// `orig` with every entry of every table among the nodes moved.
pub open spec fn repair_all(orig: Seq<u8>, nodes: Seq<BoxNode>, threshold: int, delta: int) -> Seq<
    u8,
> {
    repair_nodes(orig, orig, nodes, threshold, delta)
}

/// Whether a box of this kind is an offset table.
pub fn is_table_kind(kind: u32) -> (b: bool)
    ensures
        b == is_table(kind),
{
    kind == KIND_STCO || kind == KIND_CO64
}

/// Moves entry `k` of a table: reads it in `data`, writes it moved into
/// `buf`. Where the moved value does not fit, `buf` stays as it is.
fn move_entry(
    data: &[u8],
    buf: &mut Vec<u8>,
    h: &BoxHeader,
    k: u32,
    threshold: usize,
    added: usize,
    removed: usize,
) -> (res: Result<(), Error>)
    requires
        is_table(h.kind),
        old(buf)@.len() == data@.len(),
        entry_pos(*h, k + 1) <= data@.len(),
    ensures
        final(buf)@.len() == data@.len(),
        match res {
            Ok(()) => {
                let v = moved(entry_at(data@, *h, k as int), threshold as int, added - removed);
                &&& 0 <= v <= entry_limit(h.kind)
                &&& final(buf)@ == overwrite(
                    old(buf)@,
                    entry_pos(*h, k as int),
                    entry_bytes(h.kind, v),
                )
            },
            Err(e) => {
                let v = moved(entry_at(data@, *h, k as int), threshold as int, added - removed);
                &&& e == Error::MalformedContainer
                &&& !(0 <= v <= entry_limit(h.kind))
                &&& final(buf)@ == old(buf)@
            },
        },
{
    let total: usize = data.len();
    let start: usize = h.offset + h.header_length();
    if h.kind == KIND_CO64 {
        let pos: usize = start + 8 + 8 * (k as usize);
        let v: u64 = read_u64(data, pos);
        let mut target: u128 = v as u128;
        if v as u128 >= threshold as u128 {
            let up: u128 = v as u128 + added as u128;
            if up < removed as u128 {
                return Err(Error::MalformedContainer);
            }
            target = up - removed as u128;
        }
        if target > 0xffff_ffff_ffff_ffff {
            return Err(Error::MalformedContainer);
        }
        store_u64(buf, pos, target as u64);
        Ok(())
    } else {
        let pos: usize = start + 8 + 4 * (k as usize);
        let v: u32 = read_u32(data, pos);
        let mut target: u128 = v as u128;
        if v as u128 >= threshold as u128 {
            let up: u128 = v as u128 + added as u128;
            if up < removed as u128 {
                return Err(Error::MalformedContainer);
            }
            target = up - removed as u128;
        }
        if target > 0xffff_ffff {
            return Err(Error::MalformedContainer);
        }
        store_u32(buf, pos, target as u32);
        Ok(())
    }
}

/// Whether the table lies in the data with its count and all the entries it
/// counts; its count, where it does.
fn check_table(data: &[u8], h: &BoxHeader) -> (res: Option<u32>)
    requires
        is_table(h.kind),
    ensures
        match res {
            Some(count) => table_whole(data@, *h) && count == table_count(data@, *h),
            None => !table_whole(data@, *h),
        },
{
    let total: usize = data.len();
    let hlen: usize = h.header_length();
    if h.offset > total || h.size > total - h.offset || h.size < hlen || h.size - hlen < 8 {
        return None;
    }
    let start: usize = h.offset + hlen;
    let room: u64 = (h.size - hlen - 8) as u64;
    let count: u32 = read_u32(data, start + 4);
    let need: u64 = if h.kind == KIND_CO64 {
        8 * (count as u64)
    } else {
        4 * (count as u64)
    };
    if need > room {
        None
    } else {
        Some(count)
    }
}

/// Moves the entries of one table: reads them in `data`, writes them moved
/// into `buf`.
fn repair_one(
    data: &[u8],
    buf: &mut Vec<u8>,
    h: &BoxHeader,
    threshold: usize,
    added: usize,
    removed: usize,
) -> (res: Result<(), Error>)
    requires
        is_table(h.kind),
        old(buf)@.len() == data@.len(),
    ensures
        final(buf)@.len() == data@.len(),
        match res {
            Ok(()) => table_movable(data@, *h, threshold as int, added - removed) && final(buf)@
                == repair_table(
                old(buf)@,
                data@,
                *h,
                table_count(data@, *h),
                threshold as int,
                added - removed,
            ),
            Err(e) => e == Error::MalformedContainer && !table_movable(
                data@,
                *h,
                threshold as int,
                added - removed,
            ),
        },
{
    let count: u32 = match check_table(data, h) {
        None => {
            return Err(Error::MalformedContainer);
        },
        Some(count) => count,
    };
    let mut k: u32 = 0;
    while k < count
        invariant
            is_table(h.kind),
            k <= count,
            count == table_count(data@, *h),
            table_whole(data@, *h),
            buf@.len() == data@.len(),
            buf@ == repair_table(old(buf)@, data@, *h, k as int, threshold as int, added - removed),
            forall|j: int|
                0 <= j < k ==> 0 <= moved(
                    #[trigger] entry_at(data@, *h, j),
                    threshold as int,
                    added - removed,
                ) <= entry_limit(h.kind),
        decreases count - k,
    {
        match move_entry(data, buf, h, k, threshold, added, removed) {
            Err(e) => {
                return Err(e);
            },
            Ok(()) => {},
        }
        k = k + 1;
    }
    Ok(())
}

/// Moves every entry of every offset table among `nodes`, for `added` bytes
/// put in and `removed` bytes taken out just before `threshold`.
///
/// The entries are read in `data`; the result is a copy of `data` with the
/// moved entries. `MalformedContainer` where a table is not whole or an
/// entry, once moved, does not fit.
fn repair_offsets(
    data: &[u8],
    nodes: &Vec<BoxNode>,
    threshold: usize,
    added: usize,
    removed: usize,
) -> (res: Result<Vec<u8>, Error>)
    ensures
        match res {
            Ok(buf) => all_movable(data@, nodes@, threshold as int, added - removed) && buf@
                == repair_all(data@, nodes@, threshold as int, added - removed) && buf@.len()
                == data@.len(),
            Err(e) => e == Error::MalformedContainer && !all_movable(
                data@,
                nodes@,
                threshold as int,
                added - removed,
            ),
        },
{
    let mut buf: Vec<u8> = Vec::new();
    push_range(&mut buf, data, 0, data.len());
    assert(buf@ =~= data@);
    let mut i: usize = 0;
    proof {
        assert(nodes@.subrange(0, 0) =~= Seq::<BoxNode>::empty());
    }
    while i < nodes.len()
        invariant
            i <= nodes@.len(),
            buf@.len() == data@.len(),
            buf@ == repair_nodes(
                data@,
                data@,
                nodes@.subrange(0, i as int),
                threshold as int,
                added - removed,
            ),
            forall|j: int|
                0 <= j < i && is_table((#[trigger] nodes@[j]).header.kind) ==> table_movable(
                    data@,
                    nodes@[j].header,
                    threshold as int,
                    added - removed,
                ),
        decreases nodes@.len() - i,
    {
        let h: BoxHeader = nodes[i].header;
        proof {
            let more = nodes@.subrange(0, i + 1);
            assert(more.drop_last() =~= nodes@.subrange(0, i as int));
            assert(more.last() == nodes@[i as int]);
        }
        if is_table_kind(h.kind) {
            match repair_one(data, &mut buf, &h, threshold, added, removed) {
                Err(e) => {
                    assert(is_table(nodes@[i as int].header.kind));
                    return Err(e);
                },
                Ok(()) => {},
            }
        }
        i = i + 1;
    }
    proof {
        assert(nodes@.subrange(0, i as int) =~= nodes@);
    }
    Ok(buf)
}

/// Moves every entry of every offset table of a container whose nodes are
/// at hand, for `added` bytes put in and `removed` bytes taken out just
/// before `threshold`.
pub fn move_tree_offsets(
    data: &[u8],
    nodes: &Vec<BoxNode>,
    threshold: usize,
    added: usize,
    removed: usize,
) -> (res: Result<Vec<u8>, Error>)
    requires
        nodes@ == flat(data@, 0, data@.len() as int, 0),
    ensures
        match res {
            Ok(buf) => region_movable(
                data@,
                0,
                data@.len() as int,
                threshold as int,
                added - removed,
            ) && buf@ == moved_region(
                data@,
                0,
                data@.len() as int,
                threshold as int,
                added - removed,
            ) && buf@.len() == data@.len(),
            Err(e) => e == Error::MalformedContainer && !region_movable(
                data@,
                0,
                data@.len() as int,
                threshold as int,
                added - removed,
            ),
        },
{
    let total: usize = data.len();
    proof {
        let delta = added - removed;
        lemma_movable_nodes_are_movable_region(data@, 0, total as int, 0, threshold as int, delta);
        if region_movable(data@, 0, total as int, threshold as int, delta) {
            let moved = moved_region(data@, 0, total as int, threshold as int, delta);
            lemma_repair_is_moved_region(
                data@,
                data@,
                0,
                total as int,
                0,
                threshold as int,
                delta,
            );
            lemma_moved_region_len(data@, 0, total as int, threshold as int, delta);
            assert(overwrite(data@, 0, moved) =~= moved);
        }
    }
    repair_offsets(data, nodes, threshold, added, removed)
}

/// Moves every entry of every offset table in the box tree of `data`, for
/// `added` bytes put in and `removed` bytes taken out just before
/// `threshold`: entries that point at or after `threshold` move by the
/// difference, the others stay, and so does every other byte.
///
/// `MalformedContainer` where the bytes are no box tree, where a table does
/// not hold as many entries as it counts, or where an entry, once moved,
/// does not fit its table.
pub fn move_offsets(data: &[u8], threshold: usize, added: usize, removed: usize) -> (res: Result<
    Vec<u8>,
    Error,
>)
    ensures
        match res {
            Ok(buf) => valid(data@, 0, data@.len() as int) && region_movable(
                data@,
                0,
                data@.len() as int,
                threshold as int,
                added - removed,
            ) && buf@ == moved_region(
                data@,
                0,
                data@.len() as int,
                threshold as int,
                added - removed,
            ),
            Err(e) => e == Error::MalformedContainer && !(valid(data@, 0, data@.len() as int)
                && region_movable(
                data@,
                0,
                data@.len() as int,
                threshold as int,
                added - removed,
            )),
        },
{
    match Container::parse(data) {
        Err(e) => Err(e),
        Ok(tree) => move_tree_offsets(data, &tree.nodes, threshold, added, removed),
    }
}

} // verus!
