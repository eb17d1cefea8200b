//! Little-endian integer views of byte sequences, and the exec readers
//! and writers that match them.

use vstd::prelude::*;

verus! {

/// The value of two bytes read little-endian.
pub open spec fn le16(b0: u8, b1: u8) -> int {
    b0 + 256 * b1
}

/// The value of four bytes read little-endian.
pub open spec fn le32(b0: u8, b1: u8, b2: u8, b3: u8) -> int {
    b0 + 256 * b1 + 65536 * b2 + 16777216 * b3
}

/// The four bytes that encode `v` little-endian.
pub open spec fn le32_bytes(v: int) -> Seq<u8> {
    seq![
        (v % 256) as u8,
        ((v / 256) % 256) as u8,
        ((v / 65536) % 256) as u8,
        ((v / 16777216) % 256) as u8,
    ]
}

/// Encoding four bytes as a little-endian value and decoding it again gives
/// the bytes back.
pub proof fn lemma_le32_roundtrip(b0: u8, b1: u8, b2: u8, b3: u8)
    ensures
        le32_bytes(le32(b0, b1, b2, b3)) =~= seq![b0, b1, b2, b3],
{
    let v = le32(b0, b1, b2, b3);
    assert(v % 256 == b0 && (v / 256) % 256 == b1 && (v / 65536) % 256 == b2 && (v / 16777216)
        % 256 == b3) by (nonlinear_arith)
        requires
            v == b0 + 256 * b1 + 65536 * b2 + 16777216 * b3,
    ;
}

/// One byte of the input.
pub fn byte_at(data: &[u8], i: usize) -> (r: u8)
    requires
        i < data@.len(),
    ensures
        r == data@[i as int],
{
    *vstd::slice::slice_index_get(data, i)
}

/// Two bytes read little-endian at offset `i`.
pub fn read_u16_le(data: &[u8], i: usize) -> (r: u16)
    requires
        i + 2 <= data@.len(),
        data@.len() <= usize::MAX,
    ensures
        r == le16(data@[i as int], data@[i + 1]),
{
    let b0 = byte_at(data, i);
    let b1 = byte_at(data, i + 1);
    b0 as u16 + (b1 as u16) * 256
}

/// Four bytes read little-endian at offset `i`.
pub fn read_u32_le(data: &[u8], i: usize) -> (r: u32)
    requires
        i + 4 <= data@.len(),
        data@.len() <= usize::MAX,
    ensures
        r == le32(data@[i as int], data@[i + 1], data@[i + 2], data@[i + 3]),
{
    let b0 = byte_at(data, i);
    let b1 = byte_at(data, i + 1);
    let b2 = byte_at(data, i + 2);
    let b3 = byte_at(data, i + 3);
    b0 as u32 + (b1 as u32) * 256 + (b2 as u32) * 65536 + (b3 as u32) * 16777216
}

/// Appends a copy of `src` to `out`.
pub fn append_bytes(out: &mut Vec<u8>, src: &Vec<u8>)
    ensures
        final(out)@ == old(out)@ + src@,
{
    let mut i: usize = 0;
    while i < src.len()
        invariant
            i <= src@.len(),
            out@ == old(out)@ + src@.subrange(0, i as int),
        decreases src@.len() - i,
    {
        out.push(src[i]);
        i = i + 1;
        assert(out@ =~= old(out)@ + src@.subrange(0, i as int));
    }
    assert(src@.subrange(0, src@.len() as int) =~= src@);
}

/// Appends the four little-endian bytes of `v` to `out`.
pub fn append_u32_le(out: &mut Vec<u8>, v: u32)
    ensures
        final(out)@ == old(out)@ + le32_bytes(v as int),
{
    out.push((v % 256) as u8);
    out.push(((v / 256) % 256) as u8);
    out.push(((v / 65536) % 256) as u8);
    out.push(((v / 16777216) % 256) as u8);
    assert(final(out)@ =~= old(out)@ + le32_bytes(v as int));
}

} // verus!
