//! Box headers: the size and the four-character type that open every box.

use vstd::prelude::*;
use crate::bytes::{
    lemma_u32_at_range, lemma_u64_at_range, lemma_u32_read_then_written, lemma_u32_written_then_read, lemma_u64_read_then_written,
    lemma_u64_written_then_read, push_u32, push_u64, read_u32, read_u64, u32_at, u32_bytes,
    u64_at, u64_bytes,
};
use crate::error::Error;

verus! {

/// `ftyp`, the file-type box.
pub const KIND_FTYP: u32 = 0x6674_7970;

/// `moov`, the movie box.
pub const KIND_MOOV: u32 = 0x6d6f_6f76;

/// `trak`, a track inside the movie box.
pub const KIND_TRAK: u32 = 0x7472_616b;

/// `edts`, the edit box of a track.
pub const KIND_EDTS: u32 = 0x6564_7473;

/// `mdia`, the media box of a track.
pub const KIND_MDIA: u32 = 0x6d64_6961;

/// `minf`, the media information box.
pub const KIND_MINF: u32 = 0x6d69_6e66;

/// `stbl`, the sample table box.
pub const KIND_STBL: u32 = 0x7374_626c;

/// `mvex`, the movie extends box.
pub const KIND_MVEX: u32 = 0x6d76_6578;

/// `moof`, a movie fragment.
pub const KIND_MOOF: u32 = 0x6d6f_6f66;

/// `traf`, a track fragment.
pub const KIND_TRAF: u32 = 0x7472_6166;

/// `mdat`, the media data box.
pub const KIND_MDAT: u32 = 0x6d64_6174;

/// `stco`, the table of 32-bit chunk offsets.
pub const KIND_STCO: u32 = 0x7374_636f;

/// `co64`, the table of 64-bit chunk offsets.
pub const KIND_CO64: u32 = 0x636f_3634;

/// `c2pa`, the box that holds an embedded provenance store.
pub const KIND_STORE: u32 = 0x6332_7061;

/// `c2rf`, the box that holds a reference to a store kept elsewhere.
pub const KIND_REFERENCE: u32 = 0x6332_7266;

/// How a header states the size of its box.
#[derive(Clone, Copy, Debug, PartialEq, Eq, Structural)]
pub enum SizeForm {
    /// A 32-bit size in the first four bytes.
    Compact,
    /// The first four bytes hold 1, and a 64-bit size follows the type.
    Large,
    /// The first four bytes hold 0: the box runs to the end of what encloses it.
    ToEnd,
}

/// A box as its header describes it: where it starts, how long it is with
/// its header, and what it is.
#[derive(Clone, Copy, Debug, PartialEq, Eq, Structural)]
pub struct BoxHeader {
    pub kind: u32,
    pub form: SizeForm,
    pub offset: usize,
    pub size: usize,
}

impl BoxHeader {
    /// The number of bytes the header itself takes.
    pub open spec fn header_len(self) -> int {
        if self.form == SizeForm::Large {
            16
        } else {
            8
        }
    }

    /// The offset of the first byte after the header.
    pub open spec fn payload_start(self) -> int {
        self.offset + self.header_len()
    }

    /// The offset of the first byte after the box.
    pub open spec fn end(self) -> int {
        self.offset + self.size
    }

    /// The size that the header can state in its form.
    pub open spec fn encodable(self) -> bool {
        match self.form {
            SizeForm::Compact => 8 <= self.size <= u32::MAX,
            SizeForm::Large => 16 <= self.size <= u64::MAX,
            SizeForm::ToEnd => 8 <= self.size,
        }
    }

    /// The box lies inside `[0, bound)` and is no shorter than its header.
    pub open spec fn within(self, bound: int) -> bool {
        self.header_len() <= self.size && self.end() <= bound
    }

    /// The number of bytes the header itself takes.
    pub fn header_length(&self) -> (n: usize)
        ensures
            n == self.header_len(),
    {
        match self.form {
            SizeForm::Large => 16,
            _ => 8,
        }
    }

    /// The offset of the first byte after the header.
    pub fn payload_offset(&self) -> (n: usize)
        requires
            self.payload_start() <= usize::MAX,
        ensures
            n == self.payload_start(),
    {
        self.offset + self.header_length()
    }

    /// Whether the box runs to the end of what encloses it.
    pub fn runs_to_end(&self) -> (b: bool)
        ensures
            b == (self.form == SizeForm::ToEnd),
    {
        match self.form {
            SizeForm::ToEnd => true,
            _ => false,
        }
    }

    /// The offset of the first byte after the box.
    pub fn end_offset(&self) -> (n: usize)
        requires
            self.end() <= usize::MAX,
        ensures
            n == self.end(),
    {
        self.offset + self.size
    }
}

/// A box of one of these kinds holds boxes, and nothing else.
pub open spec fn is_container(kind: u32) -> bool {
    kind == KIND_MOOV || kind == KIND_TRAK || kind == KIND_EDTS || kind == KIND_MDIA || kind
        == KIND_MINF || kind == KIND_STBL || kind == KIND_MVEX || kind == KIND_MOOF || kind
        == KIND_TRAF
}

/// Whether a box of this kind holds boxes.
pub fn is_container_kind(kind: u32) -> (b: bool)
    ensures
        b == is_container(kind),
{
    kind == KIND_MOOV || kind == KIND_TRAK || kind == KIND_EDTS || kind == KIND_MDIA || kind
        == KIND_MINF || kind == KIND_STBL || kind == KIND_MVEX || kind == KIND_MOOF || kind
        == KIND_TRAF
}

/// The header that stands at `pos`, for a box that may reach up to `limit`.
///
/// There is none when fewer than eight bytes are left before `limit`, when a
/// 64-bit size is announced and fewer than sixteen are left, when the size is
/// smaller than the header, or when the box would end after `limit`.
#[verifier::opaque]
pub open spec fn decode_header(data: Seq<u8>, pos: int, limit: int) -> Option<BoxHeader> {
    if 0 <= pos && pos + 8 <= limit && limit <= data.len() && limit <= usize::MAX {
        let size32 = u32_at(data, pos);
        let kind = u32_at(data, pos + 4) as u32;
        if size32 == 0 {
            Some(
                BoxHeader {
                    kind,
                    form: SizeForm::ToEnd,
                    offset: pos as usize,
                    size: (limit - pos) as usize,
                },
            )
        } else if size32 == 1 {
            if pos + 16 <= limit && 16 <= u64_at(data, pos + 8) && pos + u64_at(data, pos + 8)
                <= limit {
                Some(
                    BoxHeader {
                        kind,
                        form: SizeForm::Large,
                        offset: pos as usize,
                        size: u64_at(data, pos + 8) as usize,
                    },
                )
            } else {
                None
            }
        } else if 8 <= size32 && pos + size32 <= limit {
            Some(BoxHeader { kind, form: SizeForm::Compact, offset: pos as usize, size: size32 as usize })
        } else {
            None
        }
    } else {
        None
    }
}

/// The bytes of a header.
pub open spec fn header_bytes(h: BoxHeader) -> Seq<u8> {
    match h.form {
        SizeForm::Compact => u32_bytes(h.size as u32) + u32_bytes(h.kind),
        SizeForm::ToEnd => u32_bytes(0) + u32_bytes(h.kind),
        SizeForm::Large => u32_bytes(1) + u32_bytes(h.kind) + u64_bytes(h.size as u64),
    }
}

/// A decoded header starts where it was looked for, covers at least itself,
/// and ends no later than the limit.
pub proof fn lemma_decoded_header_bounds(data: Seq<u8>, pos: int, limit: int)
    requires
        decode_header(data, pos, limit) is Some,
    ensures
        ({
            let h = decode_header(data, pos, limit)->0;
            &&& h.offset == pos
            &&& 8 <= h.header_len() <= h.size
            &&& h.end() <= limit <= data.len()
            &&& limit <= usize::MAX
            &&& h.form == SizeForm::ToEnd ==> h.end() == limit
            &&& h.encodable()
        }),
{
    reveal(decode_header);
    lemma_u32_at_range(data, pos);
    lemma_u32_at_range(data, pos + 4);
    lemma_u64_at_range(data, pos + 8);
}

/// Encoding a decoded header gives back the bytes it was decoded from.
pub proof fn lemma_decode_then_encode(data: Seq<u8>, pos: int, limit: int)
    requires
        decode_header(data, pos, limit) is Some,
    ensures
        ({
            let h = decode_header(data, pos, limit)->0;
            header_bytes(h) == data.subrange(pos, pos + h.header_len())
        }),
{
    reveal(decode_header);
    lemma_u32_at_range(data, pos);
    lemma_u32_at_range(data, pos + 4);
    lemma_u64_at_range(data, pos + 8);
    let h = decode_header(data, pos, limit)->0;
    lemma_u32_read_then_written(data, pos);
    lemma_u32_read_then_written(data, pos + 4);
    if h.form == SizeForm::Large {
        lemma_u64_read_then_written(data, pos + 8);
        assert(header_bytes(h) =~= data.subrange(pos, pos + 4) + data.subrange(pos + 4, pos + 8)
            + data.subrange(pos + 8, pos + 16));
        assert(data.subrange(pos, pos + 4) + data.subrange(pos + 4, pos + 8) + data.subrange(
            pos + 8,
            pos + 16,
        ) =~= data.subrange(pos, pos + 16));
    } else {
        assert(header_bytes(h) =~= data.subrange(pos, pos + 4) + data.subrange(pos + 4, pos + 8));
        assert(data.subrange(pos, pos + 4) + data.subrange(pos + 4, pos + 8) =~= data.subrange(
            pos,
            pos + 8,
        ));
    }
}

/// Decoding the bytes of a header gives back the header, provided the box it
/// announces fits under the limit (and, for a box that runs to the end, ends
/// exactly there).
pub proof fn lemma_encode_then_decode(data: Seq<u8>, pos: int, limit: int, h: BoxHeader)
    requires
        h.encodable(),
        h.offset == pos,
        0 <= pos,
        h.header_len() <= h.size,
        h.end() <= limit <= data.len(),
        limit <= usize::MAX,
        h.form == SizeForm::ToEnd ==> h.end() == limit,
        data.subrange(pos, pos + h.header_len()) == header_bytes(h),
    ensures
        decode_header(data, pos, limit) == Some(h),
{
    reveal(decode_header);
    let w = data.subrange(pos, pos + h.header_len());
    assert(data.subrange(pos, pos + 4) =~= w.subrange(0, 4));
    assert(data.subrange(pos + 4, pos + 8) =~= w.subrange(4, 8));
    assert(w.subrange(4, 8) =~= u32_bytes(h.kind));
    lemma_u32_written_then_read(data, pos + 4, h.kind);
    match h.form {
        SizeForm::Compact => {
            assert(w.subrange(0, 4) =~= u32_bytes(h.size as u32));
            lemma_u32_written_then_read(data, pos, h.size as u32);
        },
        SizeForm::ToEnd => {
            assert(w.subrange(0, 4) =~= u32_bytes(0));
            lemma_u32_written_then_read(data, pos, 0);
        },
        SizeForm::Large => {
            assert(w.subrange(0, 4) =~= u32_bytes(1));
            lemma_u32_written_then_read(data, pos, 1);
            assert(data.subrange(pos + 8, pos + 16) =~= w.subrange(8, 16));
            assert(w.subrange(8, 16) =~= u64_bytes(h.size as u64));
            lemma_u64_written_then_read(data, pos + 8, h.size as u64);
        },
    }
}

/// The bytes that deciding a header at `pos` can look at: sixteen, or as
/// many as are left before `limit`.
pub open spec fn header_window(data: Seq<u8>, pos: int, limit: int) -> Seq<u8> {
    data.subrange(
        pos,
        if pos + 16 <= limit {
            pos + 16
        } else {
            limit
        },
    )
}

/// A header is decoded from its own bytes and from how far the limit is:
/// the same bytes at another place, equally far from their limit, decode to
/// the same header at that place.
pub proof fn lemma_decode_is_local(
    a: Seq<u8>,
    pos_a: int,
    limit_a: int,
    b: Seq<u8>,
    pos_b: int,
    limit_b: int,
)
    requires
        0 <= pos_a <= limit_a <= a.len(),
        0 <= pos_b <= limit_b <= b.len(),
        limit_a <= usize::MAX,
        limit_b <= usize::MAX,
        limit_a - pos_a == limit_b - pos_b,
        header_window(a, pos_a, limit_a) == header_window(b, pos_b, limit_b),
    ensures
        match decode_header(a, pos_a, limit_a) {
            Some(h) => decode_header(b, pos_b, limit_b) == Some(
                BoxHeader { offset: pos_b as usize, ..h },
            ),
            None => decode_header(b, pos_b, limit_b) is None,
        },
{
    reveal(decode_header);
    let wa = header_window(a, pos_a, limit_a);
    let wb = header_window(b, pos_b, limit_b);
    if pos_a + 8 <= limit_a {
        assert(a[pos_a + 0] == wa[0] && b[pos_b + 0] == wb[0]);
        assert(a[pos_a + 1] == wa[1] && b[pos_b + 1] == wb[1]);
        assert(a[pos_a + 2] == wa[2] && b[pos_b + 2] == wb[2]);
        assert(a[pos_a + 3] == wa[3] && b[pos_b + 3] == wb[3]);
        assert(a[pos_a + 4] == wa[4] && b[pos_b + 4] == wb[4]);
        assert(a[pos_a + 5] == wa[5] && b[pos_b + 5] == wb[5]);
        assert(a[pos_a + 6] == wa[6] && b[pos_b + 6] == wb[6]);
        assert(a[pos_a + 7] == wa[7] && b[pos_b + 7] == wb[7]);
        if pos_a + 16 <= limit_a {
            assert(a[pos_a + 8] == wa[8] && b[pos_b + 8] == wb[8]);
            assert(a[pos_a + 9] == wa[9] && b[pos_b + 9] == wb[9]);
            assert(a[pos_a + 10] == wa[10] && b[pos_b + 10] == wb[10]);
            assert(a[pos_a + 11] == wa[11] && b[pos_b + 11] == wb[11]);
            assert(a[pos_a + 12] == wa[12] && b[pos_b + 12] == wb[12]);
            assert(a[pos_a + 13] == wa[13] && b[pos_b + 13] == wb[13]);
            assert(a[pos_a + 14] == wa[14] && b[pos_b + 14] == wb[14]);
            assert(a[pos_a + 15] == wa[15] && b[pos_b + 15] == wb[15]);
        }
    }
}

/// A header takes as many bytes as its form says.
pub proof fn lemma_header_bytes_len(h: BoxHeader)
    ensures
        header_bytes(h).len() == h.header_len(),
{
}

/// A header is decoded from the bytes of the header alone: where they stand
/// again, equally far from their limit, they decode to the same header.
pub proof fn lemma_decode_from_header_bytes(
    a: Seq<u8>,
    pos_a: int,
    limit_a: int,
    b: Seq<u8>,
    pos_b: int,
    limit_b: int,
)
    requires
        0 <= pos_b <= limit_b <= b.len(),
        limit_b <= usize::MAX,
        limit_a - pos_a == limit_b - pos_b,
        decode_header(a, pos_a, limit_a) is Some,
        a.subrange(pos_a, pos_a + decode_header(a, pos_a, limit_a)->0.header_len())
            == b.subrange(pos_b, pos_b + decode_header(a, pos_a, limit_a)->0.header_len()),
    ensures
        decode_header(b, pos_b, limit_b) == Some(
            BoxHeader { offset: pos_b as usize, ..decode_header(a, pos_a, limit_a)->0 },
        ),
{
    reveal(decode_header);
    lemma_u32_at_range(a, pos_a);
    lemma_u32_at_range(a, pos_a + 4);
    lemma_u64_at_range(a, pos_a + 8);
    let h = decode_header(a, pos_a, limit_a)->0;
    let n = h.header_len();
    let wa = a.subrange(pos_a, pos_a + n);
    let wb = b.subrange(pos_b, pos_b + n);
    assert(a[pos_a + 0] == wa[0] && b[pos_b + 0] == wb[0]);
    assert(a[pos_a + 1] == wa[1] && b[pos_b + 1] == wb[1]);
    assert(a[pos_a + 2] == wa[2] && b[pos_b + 2] == wb[2]);
    assert(a[pos_a + 3] == wa[3] && b[pos_b + 3] == wb[3]);
    assert(a[pos_a + 4] == wa[4] && b[pos_b + 4] == wb[4]);
    assert(a[pos_a + 5] == wa[5] && b[pos_b + 5] == wb[5]);
    assert(a[pos_a + 6] == wa[6] && b[pos_b + 6] == wb[6]);
    assert(a[pos_a + 7] == wa[7] && b[pos_b + 7] == wb[7]);
    if n == 16 {
        assert(a[pos_a + 8] == wa[8] && b[pos_b + 8] == wb[8]);
        assert(a[pos_a + 9] == wa[9] && b[pos_b + 9] == wb[9]);
        assert(a[pos_a + 10] == wa[10] && b[pos_b + 10] == wb[10]);
        assert(a[pos_a + 11] == wa[11] && b[pos_b + 11] == wb[11]);
        assert(a[pos_a + 12] == wa[12] && b[pos_b + 12] == wb[12]);
        assert(a[pos_a + 13] == wa[13] && b[pos_b + 13] == wb[13]);
        assert(a[pos_a + 14] == wa[14] && b[pos_b + 14] == wb[14]);
        assert(a[pos_a + 15] == wa[15] && b[pos_b + 15] == wb[15]);
    }
}

/// Reads the header at `pos` of a box that may reach up to `limit`.
pub fn read_header(data: &[u8], pos: usize, limit: usize) -> (res: Result<BoxHeader, Error>)
    ensures
        match res {
            Ok(h) => decode_header(data@, pos as int, limit as int) == Some(h),
            Err(e) => e == Error::MalformedContainer && decode_header(
                data@,
                pos as int,
                limit as int,
            ) is None,
        },
{
    proof {
        reveal(decode_header);
    }
    if limit > data.len() || pos > limit || limit - pos < 8 {
        return Err(Error::MalformedContainer);
    }
    let room: usize = limit - pos;
    let size32: u32 = read_u32(data, pos);
    let kind: u32 = read_u32(data, pos + 4);
    if size32 == 0 {
        Ok(BoxHeader { kind, form: SizeForm::ToEnd, offset: pos, size: room })
    } else if size32 == 1 {
        if room < 16 {
            return Err(Error::MalformedContainer);
        }
        let size64: u64 = read_u64(data, pos + 8);
        if size64 < 16 || size64 > room as u64 {
            return Err(Error::MalformedContainer);
        }
        Ok(BoxHeader { kind, form: SizeForm::Large, offset: pos, size: size64 as usize })
    } else {
        if size32 < 8 || size32 as u64 > room as u64 {
            return Err(Error::MalformedContainer);
        }
        Ok(BoxHeader { kind, form: SizeForm::Compact, offset: pos, size: size32 as usize })
    }
}

/// Appends the bytes of `h` to `out`.
pub fn push_header(out: &mut Vec<u8>, h: &BoxHeader)
    requires
        h.encodable(),
    ensures
        final(out)@ == old(out)@ + header_bytes(*h),
{
    match h.form {
        SizeForm::Compact => {
            push_u32(out, h.size as u32);
            push_u32(out, h.kind);
            assert(out@ =~= old(out)@ + header_bytes(*h));
        },
        SizeForm::ToEnd => {
            push_u32(out, 0);
            push_u32(out, h.kind);
            assert(out@ =~= old(out)@ + header_bytes(*h));
        },
        SizeForm::Large => {
            push_u32(out, 1);
            push_u32(out, h.kind);
            push_u64(out, h.size as u64);
            assert(out@ =~= old(out)@ + header_bytes(*h));
        },
    }
}

/// The header of a new box of `kind` at `offset` whose payload has
/// `payload_len` bytes: compact where the size fits 32 bits, large otherwise.
pub open spec fn fresh_header(kind: u32, offset: int, payload_len: int) -> BoxHeader {
    if payload_len + 8 <= u32::MAX {
        BoxHeader {
            kind,
            form: SizeForm::Compact,
            offset: offset as usize,
            size: (payload_len + 8) as usize,
        }
    } else {
        BoxHeader {
            kind,
            form: SizeForm::Large,
            offset: offset as usize,
            size: (payload_len + 16) as usize,
        }
    }
}

/// Makes the header of a new box of `kind` at `offset` around a payload of
/// `payload_len` bytes.
pub fn new_header(kind: u32, offset: usize, payload_len: usize) -> (h: BoxHeader)
    requires
        payload_len + 16 <= usize::MAX,
    ensures
        h == fresh_header(kind, offset as int, payload_len as int),
        h.encodable(),
        h.size == h.header_len() + payload_len,
{
    if payload_len <= 0xffff_fff7 {
        BoxHeader { kind, form: SizeForm::Compact, offset, size: payload_len + 8 }
    } else {
        BoxHeader { kind, form: SizeForm::Large, offset, size: payload_len + 16 }
    }
}

} // verus!
