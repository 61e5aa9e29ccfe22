//! Moving the offsets of a container twice, and moving them by nothing.
//!
//! Moved offsets are offsets again. Where a second move follows a first,
//! each entry goes through both; and where the two amount to one move for
//! every value, the region moved twice is the region moved once.

use vstd::prelude::*;
use crate::bytes::{
    lemma_u32_at_range, lemma_u32_read_then_written, lemma_u32_written_then_read,
    lemma_u64_at_range, lemma_u64_read_then_written, lemma_u64_written_then_read,
};
use crate::header::{
    decode_header, header_window, is_container, lemma_decode_from_header_bytes,
    lemma_decode_is_local, lemma_decoded_header_bounds, BoxHeader, KIND_CO64,
};
use crate::moving::{
    lemma_moved_entries_len, lemma_moved_region_parts, moved_body, moved_entries, moved_region,
    moved_table, region_movable,
};
use crate::offsets::{
    entry_at, entry_bytes, entry_limit, entry_pos, is_table, moved, table_count, table_movable,
    table_whole,
};
use crate::regions::shift_header;

verus! {

/// Two moves, one after the other, amount to one move for every position.
pub open spec fn moves_compose(
    threshold1: int,
    delta1: int,
    threshold2: int,
    delta2: int,
    threshold: int,
    delta: int,
) -> bool {
    forall|v: int|
        0 <= v ==> moved(#[trigger] moved(v, threshold1, delta1), threshold2, delta2) == moved(
            v,
            threshold,
            delta,
        )
}

/// The bytes of entry `k` among the moved entries of a table.
pub proof fn lemma_moved_entries_at(
    orig: Seq<u8>,
    h: BoxHeader,
    n: int,
    k: int,
    threshold: int,
    delta: int,
)
    requires
        0 <= k < n,
    ensures
        moved_entries(orig, h, n, threshold, delta).subrange(
            entry_pos(h, k) - entry_pos(h, 0),
            entry_pos(h, k + 1) - entry_pos(h, 0),
        ) == entry_bytes(h.kind, moved(entry_at(orig, h, k), threshold, delta)),
    decreases n,
{
    let all = moved_entries(orig, h, n, threshold, delta);
    let front = moved_entries(orig, h, n - 1, threshold, delta);
    let one = entry_bytes(h.kind, moved(entry_at(orig, h, n - 1), threshold, delta));
    lemma_moved_entries_len(orig, h, n - 1, threshold, delta);
    lemma_moved_entries_len(orig, h, n, threshold, delta);
    let lo = entry_pos(h, k) - entry_pos(h, 0);
    let hi = entry_pos(h, k + 1) - entry_pos(h, 0);
    assert(all == front + one);
    if k == n - 1 {
        assert(all.subrange(lo, hi) =~= one);
    } else {
        lemma_moved_entries_at(orig, h, n - 1, k, threshold, delta);
        assert(all.subrange(lo, hi) =~= front.subrange(lo, hi));
    }
}

/// An entry that was written is read back as it was written.
pub proof fn lemma_entry_read_back(data: Seq<u8>, h: BoxHeader, k: int, v: int)
    requires
        0 <= k,
        entry_pos(h, k + 1) <= data.len(),
        0 <= v <= entry_limit(h.kind),
        data.subrange(entry_pos(h, k), entry_pos(h, k + 1)) == entry_bytes(h.kind, v),
    ensures
        entry_at(data, h, k) == v,
{
    if h.kind == KIND_CO64 {
        lemma_u64_written_then_read(data, entry_pos(h, k), v as u64);
    } else {
        lemma_u32_written_then_read(data, entry_pos(h, k), v as u32);
    }
}

/// Tables whose entries move to the same values have the same moved
/// entries.
pub proof fn lemma_moved_entries_same(
    w: Seq<u8>,
    hw: BoxHeader,
    threshold2: int,
    delta2: int,
    x: Seq<u8>,
    h: BoxHeader,
    threshold: int,
    delta: int,
    n: int,
)
    requires
        hw.kind == h.kind,
        forall|k: int|
            0 <= k < n ==> moved(#[trigger] entry_at(w, hw, k), threshold2, delta2) == moved(
                entry_at(x, h, k),
                threshold,
                delta,
            ),
    ensures
        moved_entries(w, hw, n, threshold2, delta2) == moved_entries(x, h, n, threshold, delta),
    decreases n,
{
    if n > 0 {
        lemma_moved_entries_same(w, hw, threshold2, delta2, x, h, threshold, delta, n - 1);
        assert(moved(entry_at(w, hw, n - 1), threshold2, delta2) == moved(
            entry_at(x, h, n - 1),
            threshold,
            delta,
        ));
    }
}

/// A table that holds the moved entries of another is whole, counts as many
/// entries, and each of its entries is the moved entry of the other.
pub proof fn lemma_moved_table_entries(
    x: Seq<u8>,
    h: BoxHeader,
    w: Seq<u8>,
    hw: BoxHeader,
    threshold1: int,
    delta1: int,
)
    requires
        is_table(h.kind),
        table_movable(x, h, threshold1, delta1),
        hw.kind == h.kind,
        hw.form == h.form,
        hw.size == h.size,
        hw.end() <= w.len(),
        w.subrange(hw.payload_start(), hw.end()) == moved_table(x, h, threshold1, delta1),
    ensures
        table_whole(w, hw),
        table_count(w, hw) == table_count(x, h),
        0 <= table_count(x, h),
        w.subrange(hw.payload_start(), hw.payload_start() + 8) == x.subrange(
            h.payload_start(),
            h.payload_start() + 8,
        ),
        w.subrange(entry_pos(hw, table_count(x, h)), hw.end()) == x.subrange(
            entry_pos(h, table_count(x, h)),
            h.end(),
        ),
        forall|k: int|
            0 <= k < table_count(x, h) ==> #[trigger] entry_at(w, hw, k) == moved(
                entry_at(x, h, k),
                threshold1,
                delta1,
            ),
{
    let count = table_count(x, h);
    lemma_u32_at_range(x, h.payload_start() + 4);
    let ps = h.payload_start();
    let psw = hw.payload_start();
    let by = psw - ps;
    let payload = w.subrange(psw, hw.end());
    let first = x.subrange(ps, ps + 8);
    let entries = moved_entries(x, h, count, threshold1, delta1);
    let last = x.subrange(entry_pos(h, count), h.end());
    lemma_moved_entries_len(x, h, count, threshold1, delta1);
    assert(payload == first + entries + last);
    assert(w.subrange(psw, psw + 8) =~= payload.subrange(0, 8));
    assert(payload.subrange(0, 8) =~= first);
    assert(w[psw + 4] == payload[4] && payload[4] == first[4] && first[4] == x[ps + 4]);
    assert(w[psw + 5] == payload[5] && payload[5] == first[5] && first[5] == x[ps + 5]);
    assert(w[psw + 6] == payload[6] && payload[6] == first[6] && first[6] == x[ps + 6]);
    assert(w[psw + 7] == payload[7] && payload[7] == first[7] && first[7] == x[ps + 7]);
    assert(table_count(w, hw) == count);
    assert(entry_pos(hw, count) == entry_pos(h, count) + by);
    assert(w.subrange(entry_pos(hw, count), hw.end()) =~= payload.subrange(
        8 + entries.len() as int,
        payload.len() as int,
    ));
    assert(payload.subrange(8 + entries.len() as int, payload.len() as int) =~= last);
    assert forall|k: int| 0 <= k < count implies #[trigger] entry_at(w, hw, k) == moved(
        entry_at(x, h, k),
        threshold1,
        delta1,
    ) by {
        lemma_moved_entries_at(x, h, count, k, threshold1, delta1);
        let lo = entry_pos(h, k) - entry_pos(h, 0);
        let hi = entry_pos(h, k + 1) - entry_pos(h, 0);
        assert(entry_pos(hw, k) == psw + 8 + lo);
        assert(entry_pos(hw, k + 1) == psw + 8 + hi);
        assert(hi <= entries.len());
        assert(w.subrange(entry_pos(hw, k), entry_pos(hw, k + 1)) =~= payload.subrange(
            8 + lo,
            8 + hi,
        ));
        assert(payload.subrange(8 + lo, 8 + hi) =~= entries.subrange(lo, hi));
        let v = moved(entry_at(x, h, k), threshold1, delta1);
        assert(0 <= v <= entry_limit(h.kind));
        lemma_entry_read_back(w, hw, k, v);
    }
}

/// An entry read in a table is a position.
proof fn lemma_entry_is_position(data: Seq<u8>, h: BoxHeader, k: int)
    ensures
        0 <= entry_at(data, h, k) <= entry_limit(h.kind),
{
    lemma_u32_at_range(data, entry_pos(h, k));
    lemma_u64_at_range(data, entry_pos(h, k));
}

/// A table moved twice is the table moved once, where the two moves amount
/// to the one; and it can be moved the second time exactly when the table
/// can be moved the one time.
proof fn lemma_table_moved_twice(
    x: Seq<u8>,
    h: BoxHeader,
    w: Seq<u8>,
    hw: BoxHeader,
    threshold1: int,
    delta1: int,
    threshold2: int,
    delta2: int,
    threshold: int,
    delta: int,
)
    requires
        is_table(h.kind),
        table_movable(x, h, threshold1, delta1),
        hw.kind == h.kind,
        hw.form == h.form,
        hw.size == h.size,
        hw.end() <= w.len(),
        w.subrange(hw.payload_start(), hw.end()) == moved_table(x, h, threshold1, delta1),
        moves_compose(threshold1, delta1, threshold2, delta2, threshold, delta),
    ensures
        table_whole(w, hw),
        moved_table(w, hw, threshold2, delta2) == moved_table(x, h, threshold, delta),
        table_movable(w, hw, threshold2, delta2) == table_movable(x, h, threshold, delta),
{
    let count = table_count(x, h);
    lemma_moved_table_entries(x, h, w, hw, threshold1, delta1);
    assert forall|k: int| 0 <= k < count implies moved(
        #[trigger] entry_at(w, hw, k),
        threshold2,
        delta2,
    ) == moved(entry_at(x, h, k), threshold, delta) by {
        lemma_entry_is_position(x, h, k);
        let v = entry_at(x, h, k);
        assert(moved(moved(v, threshold1, delta1), threshold2, delta2) == moved(
            v,
            threshold,
            delta,
        ));
    }
    lemma_moved_entries_same(w, hw, threshold2, delta2, x, h, threshold, delta, count);
    if table_movable(x, h, threshold, delta) {
        assert forall|k: int| 0 <= k < table_count(w, hw) implies 0 <= moved(
            #[trigger] entry_at(w, hw, k),
            threshold2,
            delta2,
        ) <= entry_limit(hw.kind) by {
            assert(0 <= moved(entry_at(x, h, k), threshold, delta) <= entry_limit(h.kind));
        }
    }
    if table_movable(w, hw, threshold2, delta2) {
        assert forall|k: int| 0 <= k < table_count(x, h) implies 0 <= moved(
            #[trigger] entry_at(x, h, k),
            threshold,
            delta,
        ) <= entry_limit(h.kind) by {
            assert(0 <= moved(entry_at(w, hw, k), threshold2, delta2) <= entry_limit(hw.kind));
        }
    }
}

/// A region moved twice is the region moved once, where the two moves
/// amount to the one: a region that holds the bytes of another, moved, is
/// moved to what the other is moved to in one go, and can be moved exactly
/// when the other can.
pub proof fn lemma_moved_twice(
    x: Seq<u8>,
    a: int,
    l: int,
    w: Seq<u8>,
    b: int,
    m: int,
    threshold1: int,
    delta1: int,
    threshold2: int,
    delta2: int,
    threshold: int,
    delta: int,
)
    requires
        0 <= a <= l <= x.len(),
        0 <= b <= m <= w.len(),
        l <= usize::MAX,
        m <= usize::MAX,
        l - a == m - b,
        w.subrange(b, m) == moved_region(x, a, l, threshold1, delta1),
        region_movable(x, a, l, threshold1, delta1),
        moves_compose(threshold1, delta1, threshold2, delta2, threshold, delta),
    ensures
        moved_region(w, b, m, threshold2, delta2) == moved_region(x, a, l, threshold, delta),
        region_movable(w, b, m, threshold2, delta2) == region_movable(x, a, l, threshold, delta),
    decreases l - a,
{
    if a < l {
        let rw = w.subrange(b, m);
        match decode_header(x, a, l) {
            None => {
                let n = if a + 16 <= l {
                    16
                } else {
                    l - a
                };
                assert(header_window(x, a, l) =~= x.subrange(a, l).subrange(0, n));
                assert(header_window(w, b, m) =~= rw.subrange(0, n));
                lemma_decode_is_local(x, a, l, w, b, m);
            },
            Some(h) => {
                lemma_decoded_header_bounds(x, a, l);
                lemma_moved_region_parts(x, a, l, threshold1, delta1);
                lemma_moved_region_parts(x, a, l, threshold, delta);
                assert(w.subrange(b, b + h.header_len()) =~= rw.subrange(0, h.header_len()));
                lemma_decode_from_header_bytes(x, a, l, w, b, m);
                lemma_decoded_header_bounds(w, b, m);
                let hw = decode_header(w, b, m)->0;
                assert(hw == shift_header(h, b - a));
                lemma_moved_region_parts(w, b, m, threshold2, delta2);
                assert(w.subrange(hw.end(), m) =~= rw.subrange(h.size as int, l - a));
                lemma_moved_twice(
                    x,
                    h.end(),
                    l,
                    w,
                    hw.end(),
                    m,
                    threshold1,
                    delta1,
                    threshold2,
                    delta2,
                    threshold,
                    delta,
                );
                assert(w.subrange(hw.payload_start(), hw.end()) =~= rw.subrange(
                    h.header_len(),
                    h.size as int,
                ));
                if is_container(h.kind) {
                    lemma_moved_twice(
                        x,
                        h.payload_start(),
                        h.end(),
                        w,
                        hw.payload_start(),
                        hw.end(),
                        threshold1,
                        delta1,
                        threshold2,
                        delta2,
                        threshold,
                        delta,
                    );
                } else if is_table(h.kind) {
                    lemma_table_moved_twice(
                        x,
                        h,
                        w,
                        hw,
                        threshold1,
                        delta1,
                        threshold2,
                        delta2,
                        threshold,
                        delta,
                    );
                }
                assert(moved_body(w, hw, threshold2, delta2) == moved_body(
                    x,
                    h,
                    threshold,
                    delta,
                ));
                let mw = moved_region(w, b, m, threshold2, delta2);
                let mx = moved_region(x, a, l, threshold, delta);
                assert(mw =~= mw.subrange(0, h.header_len()) + mw.subrange(
                    h.header_len(),
                    h.size as int,
                ) + mw.subrange(h.size as int, l - a));
                assert(mx =~= mx.subrange(0, h.header_len()) + mx.subrange(
                    h.header_len(),
                    h.size as int,
                ) + mx.subrange(h.size as int, l - a));
            },
        }
    }
}

/// The entries of a table, moved by nothing, are the entries.
pub proof fn lemma_entries_unmoved(data: Seq<u8>, h: BoxHeader, n: int, threshold: int)
    requires
        0 <= n,
        0 <= entry_pos(h, 0),
        entry_pos(h, n) <= data.len(),
    ensures
        moved_entries(data, h, n, threshold, 0) == data.subrange(entry_pos(h, 0), entry_pos(h, n)),
    decreases n,
{
    if n == 0 {
        assert(data.subrange(entry_pos(h, 0), entry_pos(h, 0)) =~= Seq::<u8>::empty());
    } else {
        lemma_entries_unmoved(data, h, n - 1, threshold);
        let at = entry_pos(h, n - 1);
        if h.kind == KIND_CO64 {
            lemma_u64_read_then_written(data, at);
        } else {
            lemma_u32_read_then_written(data, at);
        }
        assert(data.subrange(entry_pos(h, 0), at) + data.subrange(at, entry_pos(h, n))
            =~= data.subrange(entry_pos(h, 0), entry_pos(h, n)));
    }
}

/// A region moved by nothing is the region.
pub proof fn lemma_moved_by_nothing(data: Seq<u8>, pos: int, limit: int, threshold: int)
    requires
        0 <= pos <= limit <= data.len(),
    ensures
        moved_region(data, pos, limit, threshold, 0) == data.subrange(pos, limit),
    decreases limit - pos,
{
    if pos >= limit {
        assert(data.subrange(pos, limit) =~= Seq::<u8>::empty());
    } else {
        match decode_header(data, pos, limit) {
            None => {},
            Some(h) => {
                lemma_decoded_header_bounds(data, pos, limit);
                lemma_moved_by_nothing(data, h.end(), limit, threshold);
                let ps = h.payload_start();
                let end = h.end();
                if is_container(h.kind) {
                    lemma_moved_by_nothing(data, ps, end, threshold);
                } else if is_table(h.kind) && table_whole(data, h) {
                    let count = table_count(data, h);
                    lemma_u32_at_range(data, ps + 4);
                    lemma_entries_unmoved(data, h, count, threshold);
                    assert(moved_table(data, h, threshold, 0) =~= data.subrange(ps, end));
                }
                assert(moved_body(data, h, threshold, 0) == data.subrange(ps, end));
                assert(data.subrange(pos, ps) + data.subrange(ps, end) + data.subrange(end, limit)
                    =~= data.subrange(pos, limit));
            },
        }
    }
}

/// A region whose tables can be moved has whole tables, so it can be moved
/// by nothing.
pub proof fn lemma_movable_by_nothing(
    data: Seq<u8>,
    pos: int,
    limit: int,
    threshold1: int,
    delta1: int,
    threshold: int,
)
    requires
        region_movable(data, pos, limit, threshold1, delta1),
    ensures
        region_movable(data, pos, limit, threshold, 0),
    decreases limit - pos,
{
    if pos < limit {
        match decode_header(data, pos, limit) {
            None => {},
            Some(h) => {
                lemma_decoded_header_bounds(data, pos, limit);
                lemma_movable_by_nothing(data, h.end(), limit, threshold1, delta1, threshold);
                if is_container(h.kind) {
                    lemma_movable_by_nothing(
                        data,
                        h.payload_start(),
                        h.end(),
                        threshold1,
                        delta1,
                        threshold,
                    );
                }
                if is_table(h.kind) {
                    assert forall|k: int| 0 <= k < table_count(data, h) implies 0 <= moved(
                        #[trigger] entry_at(data, h, k),
                        threshold,
                        0,
                    ) <= entry_limit(h.kind) by {
                        lemma_entry_is_position(data, h, k);
                    }
                }
            },
        }
    }
}

} // verus!
