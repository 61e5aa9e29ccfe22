//! Big-endian integers inside byte strings.

use vstd::prelude::*;

verus! {

/// The number that four bytes denote, most significant byte first.
#[verifier::opaque]
pub open spec fn be32(b0: u8, b1: u8, b2: u8, b3: u8) -> int {
    b0 as int * 0x100_0000 + b1 as int * 0x1_0000 + b2 as int * 0x100 + b3 as int
}

/// The 32-bit number stored at `pos`.
pub open spec fn u32_at(data: Seq<u8>, pos: int) -> int
    recommends
        0 <= pos,
        pos + 4 <= data.len(),
{
    be32(data[pos], data[pos + 1], data[pos + 2], data[pos + 3])
}

/// The 64-bit number stored at `pos`.
pub open spec fn u64_at(data: Seq<u8>, pos: int) -> int
    recommends
        0 <= pos,
        pos + 8 <= data.len(),
{
    u32_at(data, pos) * 0x1_0000_0000 + u32_at(data, pos + 4)
}

/// A 32-bit number read from bytes fits 32 bits.
pub proof fn lemma_u32_at_range(data: Seq<u8>, pos: int)
    ensures
        0 <= u32_at(data, pos) <= u32::MAX,
{
    reveal(be32);
}

/// A 64-bit number read from bytes fits 64 bits.
pub proof fn lemma_u64_at_range(data: Seq<u8>, pos: int)
    ensures
        0 <= u64_at(data, pos) <= u64::MAX,
{
    reveal(be32);
}

/// The four bytes that store `v`, most significant first.
pub open spec fn u32_bytes(v: u32) -> Seq<u8> {
    seq![
        (v as int / 0x100_0000) as u8,
        (v as int / 0x1_0000 % 0x100) as u8,
        (v as int / 0x100 % 0x100) as u8,
        (v as int % 0x100) as u8,
    ]
}

/// The eight bytes that store `v`, most significant first.
pub open spec fn u64_bytes(v: u64) -> Seq<u8> {
    u32_bytes((v as int / 0x1_0000_0000) as u32) + u32_bytes((v as int % 0x1_0000_0000) as u32)
}

/// `data` with the bytes from `pos` on replaced by `patch`.
pub open spec fn overwrite(data: Seq<u8>, pos: int, patch: Seq<u8>) -> Seq<u8>
    recommends
        0 <= pos,
        pos + patch.len() <= data.len(),
{
    data.subrange(0, pos) + patch + data.subrange(pos + patch.len(), data.len() as int)
}

/// Reading back what `u32_bytes` wrote gives the number written.
pub proof fn lemma_u32_written_then_read(data: Seq<u8>, pos: int, v: u32)
    requires
        0 <= pos,
        pos + 4 <= data.len(),
        data.subrange(pos, pos + 4) == u32_bytes(v),
    ensures
        u32_at(data, pos) == v,
{
    reveal(be32);
    let w = data.subrange(pos, pos + 4);
    assert(w[0] == data[pos] && w[1] == data[pos + 1] && w[2] == data[pos + 2] && w[3] == data[pos
        + 3]);
}

/// The digits of a number in base 256 are the bytes it was built from.
proof fn lemma_be32_digits(b0: u8, b1: u8, b2: u8, b3: u8)
    by (bit_vector)
    ensures
        ({
            let v = (b0 as u64) * 0x100_0000 + (b1 as u64) * 0x1_0000 + (b2 as u64) * 0x100 + (
            b3 as u64);
            &&& v < 0x1_0000_0000
            &&& v / 0x100_0000 == b0
            &&& v / 0x1_0000 % 0x100 == b1
            &&& v / 0x100 % 0x100 == b2
            &&& v % 0x100 == b3
        }),
{
}

/// Writing the number that was read gives back the bytes read.
pub proof fn lemma_u32_read_then_written(data: Seq<u8>, pos: int)
    requires
        0 <= pos,
        pos + 4 <= data.len(),
    ensures
        0 <= u32_at(data, pos) <= u32::MAX,
        u32_bytes(u32_at(data, pos) as u32) == data.subrange(pos, pos + 4),
{
    reveal(be32);
    lemma_be32_digits(data[pos], data[pos + 1], data[pos + 2], data[pos + 3]);
    let v = u32_at(data, pos);
    assert(v == (data[pos] as u64) * 0x100_0000 + (data[pos + 1] as u64) * 0x1_0000 + (data[pos
        + 2] as u64) * 0x100 + (data[pos + 3] as u64));
    let w = u32_bytes(v as u32);
    let r = data.subrange(pos, pos + 4);
    assert(w.len() == 4 && r.len() == 4);
    assert(w[0] == r[0]);
    assert(w[1] == r[1]);
    assert(w[2] == r[2]);
    assert(w[3] == r[3]);
    assert(w =~= r);
}

/// Reading back what `u64_bytes` wrote gives the number written.
pub proof fn lemma_u64_written_then_read(data: Seq<u8>, pos: int, v: u64)
    requires
        0 <= pos,
        pos + 8 <= data.len(),
        data.subrange(pos, pos + 8) == u64_bytes(v),
    ensures
        u64_at(data, pos) == v,
{
    let w = data.subrange(pos, pos + 8);
    let hi = (v as int / 0x1_0000_0000) as u32;
    let lo = (v as int % 0x1_0000_0000) as u32;
    assert(data.subrange(pos, pos + 4) =~= w.subrange(0, 4));
    assert(data.subrange(pos + 4, pos + 8) =~= w.subrange(4, 8));
    assert(w.subrange(0, 4) =~= u32_bytes(hi));
    assert(w.subrange(4, 8) =~= u32_bytes(lo));
    lemma_u32_written_then_read(data, pos, hi);
    lemma_u32_written_then_read(data, pos + 4, lo);
}

/// Writing the 64-bit number that was read gives back the bytes read.
pub proof fn lemma_u64_read_then_written(data: Seq<u8>, pos: int)
    requires
        0 <= pos,
        pos + 8 <= data.len(),
    ensures
        0 <= u64_at(data, pos) <= u64::MAX,
        u64_bytes(u64_at(data, pos) as u64) == data.subrange(pos, pos + 8),
{
    lemma_u32_read_then_written(data, pos);
    lemma_u32_read_then_written(data, pos + 4);
    assert(u64_bytes(u64_at(data, pos) as u64) =~= data.subrange(pos, pos + 4) + data.subrange(
        pos + 4,
        pos + 8,
    ));
    assert(data.subrange(pos, pos + 4) + data.subrange(pos + 4, pos + 8) =~= data.subrange(
        pos,
        pos + 8,
    ));
}

/// Reads the 32-bit number stored at `pos`.
pub fn read_u32(data: &[u8], pos: usize) -> (v: u32)
    requires
        pos + 4 <= data.len(),
    ensures
        v == u32_at(data@, pos as int),
{
    let b0: u32 = data[pos] as u32;
    let b1: u32 = data[pos + 1] as u32;
    let b2: u32 = data[pos + 2] as u32;
    let b3: u32 = data[pos + 3] as u32;
    proof {
        reveal(be32);
    }
    b0 * 0x100_0000 + b1 * 0x1_0000 + b2 * 0x100 + b3
}

/// Reads the 64-bit number stored at `pos`.
pub fn read_u64(data: &[u8], pos: usize) -> (v: u64)
    requires
        pos + 8 <= data.len(),
    ensures
        v == u64_at(data@, pos as int),
{
    let hi: u64 = read_u32(data, pos) as u64;
    let lo: u64 = read_u32(data, pos + 4) as u64;
    hi * 0x1_0000_0000 + lo
}

/// Appends the four bytes of `v` to `out`.
pub fn push_u32(out: &mut Vec<u8>, v: u32)
    ensures
        final(out)@ == old(out)@ + u32_bytes(v),
{
    out.push((v / 0x100_0000) as u8);
    out.push((v / 0x1_0000 % 0x100) as u8);
    out.push((v / 0x100 % 0x100) as u8);
    out.push((v % 0x100) as u8);
    assert(out@ =~= old(out)@ + u32_bytes(v));
}

/// Appends the eight bytes of `v` to `out`.
pub fn push_u64(out: &mut Vec<u8>, v: u64)
    ensures
        final(out)@ == old(out)@ + u64_bytes(v),
{
    push_u32(out, (v / 0x1_0000_0000) as u32);
    push_u32(out, (v % 0x1_0000_0000) as u32);
    assert(out@ =~= old(out)@ + u64_bytes(v));
}

/// Appends `src[from..to]` to `out`.
pub fn push_range(out: &mut Vec<u8>, src: &[u8], from: usize, to: usize)
    requires
        from <= to <= src.len(),
    ensures
        final(out)@ == old(out)@ + src@.subrange(from as int, to as int),
{
    let mut i: usize = from;
    while i < to
        invariant
            from <= i <= to <= src.len(),
            out@ == old(out)@ + src@.subrange(from as int, i as int),
        decreases to - i,
    {
        out.push(src[i]);
        i = i + 1;
        assert(out@ =~= old(out)@ + src@.subrange(from as int, i as int));
    }
}

/// Stores the four bytes of `v` at `pos`, in place.
pub fn store_u32(buf: &mut Vec<u8>, pos: usize, v: u32)
    requires
        pos + 4 <= old(buf).len(),
    ensures
        final(buf)@ == overwrite(old(buf)@, pos as int, u32_bytes(v)),
{
    buf.set(pos, (v / 0x100_0000) as u8);
    buf.set(pos + 1, (v / 0x1_0000 % 0x100) as u8);
    buf.set(pos + 2, (v / 0x100 % 0x100) as u8);
    buf.set(pos + 3, (v % 0x100) as u8);
    assert(buf@ =~= overwrite(old(buf)@, pos as int, u32_bytes(v)));
}

/// Stores the eight bytes of `v` at `pos`, in place.
pub fn store_u64(buf: &mut Vec<u8>, pos: usize, v: u64)
    requires
        pos + 8 <= old(buf).len(),
    ensures
        final(buf)@ == overwrite(old(buf)@, pos as int, u64_bytes(v)),
{
    store_u32(buf, pos, (v / 0x1_0000_0000) as u32);
    store_u32(buf, pos + 4, (v % 0x1_0000_0000) as u32);
    assert(buf@ =~= overwrite(old(buf)@, pos as int, u64_bytes(v)));
}

} // verus!
