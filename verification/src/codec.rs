//! The two outside computations a block's payload check rests on: DEFLATE
//! decompression and the CRC-32/ISO-HDLC checksum.  Both are functions of
//! their input bytes alone, so each is given a name here, and a trusted
//! wrapper ties the outside call to its name.

use vstd::prelude::*;

verus! {

/// What DEFLATE decompression yields on `s`: the decompressed bytes, or
/// `None` when `s` is not a well-formed deflate stream.
pub uninterp spec fn inflate_of(s: Seq<u8>) -> Option<Seq<u8>>;

/// The CRC-32/ISO-HDLC checksum of `s`.
pub uninterp spec fn crc32_of(s: Seq<u8>) -> u32;

/// Relies on `inflate::inflate_bytes`: decompresses a raw DEFLATE stream,
/// deterministically in the input bytes.  The bytes `03 00` are the fixed
/// one-block DEFLATE encoding of the empty string (RFC 1951), which the
/// canonical empty BGZF block carries as its payload.
#[verifier::external_body]
pub fn inflate_payload(data: &[u8]) -> (r: Option<Vec<u8>>)
    ensures
        (r is Some) == (inflate_of(data@) is Some),
        r is Some ==> inflate_of(data@) == Some((r->Some_0)@),
        r is Some && (r->Some_0)@ =~= Seq::<u8>::empty() <== data@ =~= seq![0x03u8, 0x00u8],
{
    match inflate::inflate_bytes(data) {
        Ok(v) => Some(v),
        Err(_) => None,
    }
}

/// Relies on `crc::Crc::<u32>::checksum` with the `CRC_32_ISO_HDLC` algorithm:
/// a pure function of the input bytes.  On empty input the checksum is 0,
/// since the algorithm's initial value and final xor are both `0xffffffff`.
#[verifier::external_body]
pub fn crc32_sum(data: &[u8]) -> (r: u32)
    ensures
        r == crc32_of(data@),
        data@.len() == 0 ==> r == 0,
{
    crc::Crc::<u32>::new(&crc::CRC_32_ISO_HDLC).checksum(data)
}

} // verus!
