//! The byte ranges of a container that a hard-binding hash covers, and the
//! one it leaves out.

use vstd::prelude::*;
use crate::error::Error;
use crate::header::KIND_STORE;
use crate::locator::{find_store, lemma_found_box_within, store_location, StoreLocation};

verus! {

/// What a range is to the hash.
#[derive(Clone, Copy, Debug, PartialEq, Eq, Structural)]
pub enum Role {
    /// Content: the hash covers it.
    Included,
    /// The store box: the hash skips it.
    Excluded,
}

/// A range of the asset and its role for hashing.
#[derive(Clone, Copy, Debug, PartialEq, Eq, Structural)]
pub struct HashObjectPosition {
    pub offset: usize,
    pub length: usize,
    pub role: Role,
}

/// An included range, or nothing where it would be empty.
pub open spec fn included(from: int, to: int) -> Seq<HashObjectPosition> {
    if from < to {
        seq![
            HashObjectPosition {
                offset: from as usize,
                length: (to - from) as usize,
                role: Role::Included,
            },
        ]
    } else {
        Seq::empty()
    }
}

/// The ranges of an asset of `total` bytes: what precedes the store box,
/// the store box, what follows it. Without a store the whole asset is one
/// included range. Empty included ranges are left out.
pub open spec fn hash_ranges_of(total: int, store: Option<StoreLocation>) -> Seq<
    HashObjectPosition,
> {
    match store {
        None => included(0, total),
        Some(loc) => included(0, loc.header.offset as int) + seq![
            HashObjectPosition {
                offset: loc.header.offset,
                length: loc.header.size,
                role: Role::Excluded,
            },
        ] + included(loc.header.end(), total),
    }
}

/// The ranges follow one another without gap or overlap from `from` to `to`.
pub open spec fn covers(ranges: Seq<HashObjectPosition>, from: int, to: int) -> bool
    decreases ranges.len(),
{
    if ranges.len() == 0 {
        from == to
    } else {
        ranges.first().offset == from && covers(
            ranges.drop_first(),
            from + ranges.first().length,
            to,
        )
    }
}

/// The sum of the lengths of the ranges.
pub open spec fn total_length(ranges: Seq<HashObjectPosition>) -> int
    decreases ranges.len(),
{
    if ranges.len() == 0 {
        0
    } else {
        ranges.first().length + total_length(ranges.drop_first())
    }
}

/// Ranges that cover `[from, to)` have lengths that add up to `to - from`.
pub proof fn lemma_covering_ranges_add_up(ranges: Seq<HashObjectPosition>, from: int, to: int)
    requires
        covers(ranges, from, to),
    ensures
        total_length(ranges) == to - from,
    decreases ranges.len(),
{
    if ranges.len() > 0 {
        lemma_covering_ranges_add_up(ranges.drop_first(), from + ranges.first().length, to);
    }
}

/// An included range, where it is not empty, covers what it was made for.
proof fn lemma_included_covers(from: int, to: int)
    requires
        0 <= from <= to <= usize::MAX,
    ensures
        covers(included(from, to), from, to),
{
    if from < to {
        let r = included(from, to);
        assert(r.drop_first() =~= Seq::<HashObjectPosition>::empty());
        assert(covers(r.drop_first(), to, to));
    }
}

/// Covering ranges put one after the other cover the two stretches together.
proof fn lemma_covers_concat(
    a: Seq<HashObjectPosition>,
    b: Seq<HashObjectPosition>,
    from: int,
    mid: int,
    to: int,
)
    requires
        covers(a, from, mid),
        covers(b, mid, to),
    ensures
        covers(a + b, from, to),
    decreases a.len(),
{
    if a.len() == 0 {
        assert(a + b =~= b);
    } else {
        lemma_covers_concat(a.drop_first(), b, from + a.first().length, mid, to);
        assert((a + b).drop_first() =~= a.drop_first() + b);
        assert((a + b).first() == a.first());
    }
}

/// The ranges of an asset cover it from its first byte to its last, exactly
/// once each, whether or not it holds a store; so their lengths add up to the
/// length of the asset.
pub proof fn lemma_hash_ranges_complete(total: int, store: Option<StoreLocation>)
    requires
        0 <= total <= usize::MAX,
        store matches Some(loc) ==> loc.header.end() <= total,
    ensures
        covers(hash_ranges_of(total, store), 0, total),
        total_length(hash_ranges_of(total, store)) == total,
{
    match store {
        None => {
            lemma_included_covers(0, total);
        },
        Some(loc) => {
            let s = loc.header.offset as int;
            let e = loc.header.end();
            let mid = seq![
                HashObjectPosition {
                    offset: loc.header.offset,
                    length: loc.header.size,
                    role: Role::Excluded,
                },
            ];
            lemma_included_covers(0, s);
            lemma_included_covers(e, total);
            assert(mid.drop_first() =~= Seq::<HashObjectPosition>::empty());
            assert(covers(mid.drop_first(), e, e));
            assert(covers(mid, s, e));
            lemma_covers_concat(included(0, s), mid, 0, s, e);
            lemma_covers_concat(included(0, s) + mid, included(e, total), 0, e, total);
        },
    }
    lemma_covering_ranges_add_up(hash_ranges_of(total, store), 0, total);
}

/// Appends the included range `[from, to)` unless it is empty.
fn push_included(out: &mut Vec<HashObjectPosition>, from: usize, to: usize)
    requires
        from <= to,
    ensures
        final(out)@ == old(out)@ + included(from as int, to as int),
{
    if from < to {
        out.push(HashObjectPosition { offset: from, length: to - from, role: Role::Included });
        assert(out@ =~= old(out)@ + included(from as int, to as int));
    } else {
        assert(out@ =~= old(out)@ + included(from as int, to as int));
    }
}

/// The ranges of an asset of `total` bytes whose store box is at `store`.
///
/// `MalformedContainer` where the store box is said to end after the asset.
pub fn hash_ranges_for(total: usize, store: Option<StoreLocation>) -> (res: Result<
    Vec<HashObjectPosition>,
    Error,
>)
    ensures
        match res {
            Ok(ranges) => ranges@ == hash_ranges_of(total as int, store) && (store is Some
                ==> store->0.header.end() <= total),
            Err(e) => e == Error::MalformedContainer && store is Some && store->0.header.end()
                > total,
        },
{
    let mut out: Vec<HashObjectPosition> = Vec::new();
    match store {
        None => {
            push_included(&mut out, 0, total);
            assert(out@ =~= hash_ranges_of(total as int, store));
            Ok(out)
        },
        Some(loc) => {
            let h = loc.header;
            if h.offset > total || h.size > total - h.offset {
                return Err(Error::MalformedContainer);
            }
            push_included(&mut out, 0, h.offset);
            out.push(HashObjectPosition { offset: h.offset, length: h.size, role: Role::Excluded });
            push_included(&mut out, h.offset + h.size, total);
            assert(out@ =~= hash_ranges_of(total as int, store));
            Ok(out)
        },
    }
}

/// The ranges of a container, as its top level stands now.
pub open spec fn hash_ranges_now(data: Seq<u8>) -> Result<Seq<HashObjectPosition>, Error> {
    match store_location(data) {
        Err(e) => Err(e),
        Ok(store) => Ok(hash_ranges_of(data.len() as int, store)),
    }
}

/// Walks the top level of `data`, finds the store and gives the ranges to
/// hash and the range to skip.
pub fn hash_ranges(data: &[u8]) -> (res: Result<Vec<HashObjectPosition>, Error>)
    ensures
        match res {
            Ok(ranges) => hash_ranges_now(data@) == Ok::<Seq<HashObjectPosition>, Error>(ranges@)
                && covers(ranges@, 0, data@.len() as int) && total_length(ranges@) == data@.len(),
            Err(e) => hash_ranges_now(data@) == Err::<Seq<HashObjectPosition>, Error>(e),
        },
{
    let total: usize = data.len();
    match find_store(data) {
        Err(e) => Err(e),
        Ok(store) => {
            proof {
                if store is Some {
                    lemma_found_box_within(data@, KIND_STORE, KIND_STORE);
                }
                lemma_hash_ranges_complete(data@.len() as int, store);
            }
            match hash_ranges_for(total, store) {
                Ok(ranges) => Ok(ranges),
                Err(e) => {
                    assert(false);
                    Err(e)
                },
            }
        },
    }
}

} // verus!
