//! The mathematical model of the scan: a small-step machine over the input
//! bytes.  One step of the machine is one pass of the scanner's block loop —
//! read a header, resynchronise or give up on damage, retire the previous
//! block, capture the next — and the machine's final state carries the
//! results, the bytes a rescue writes, and the list of blocks it re-emitted.

use vstd::prelude::*;

use crate::bytes::{le16, le32, le32_bytes};
use crate::codec::{crc32_of, inflate_of};

verus! {

/// A captured block: its header bytes (12 fixed bytes, plus the extra field
/// when scanning for rescue), its compressed payload, and the CRC32 and
/// inflated size its trailer declares.  `corrupted` records that the header
/// needed tolerant recovery.
pub ghost struct SpecBlock {
    pub header_bytes: Seq<u8>,
    pub deflated_payload: Seq<u8>,
    pub inflated_payload_crc32: int,
    pub inflated_payload_size: int,
    pub corrupted: bool,
}

/// The machine's state between block-loop passes.
pub ghost struct Machine {
    /// Read position in the input.
    pub pos: int,
    /// Where the previous pass started reading its block.
    pub prev_start: int,
    /// The block read by the previous pass, its payload not yet checked.
    pub prev: Option<SpecBlock>,
    pub blocks_count: int,
    pub blocks_size: int,
    pub bad_blocks_count: int,
    pub bad_blocks_size: int,
    pub truncated_in_block: bool,
    pub truncated_between_blocks: bool,
    /// The bytes of each block re-emitted so far (rescue only).
    pub emitted: Seq<Seq<u8>>,
    /// Everything written so far (rescue only).
    pub out: Seq<u8>,
    /// The canonical empty block was appended at the end.
    pub terminator_appended: bool,
    pub done: bool,
}

/// Addition in the scanner's 64-bit size accumulators, which wrap.
pub open spec fn wrap_add64(a: int, b: int) -> int {
    (a + b) % 0x1_0000_0000_0000_0000
}

/// How many of the four fixed header bytes at `p` hold their expected value
/// (1f 8b for gzip, 08 for deflate, 04 for FEXTRA).
pub open spec fn magic_score(data: Seq<u8>, p: int) -> int {
    (if data[p] == 0x1f {
        1int
    } else {
        0int
    }) + (if data[p + 1] == 0x8b {
        1int
    } else {
        0int
    }) + (if data[p + 2] == 0x08 {
        1int
    } else {
        0int
    }) + (if data[p + 3] == 0x04 {
        1int
    } else {
        0int
    })
}

/// The first offset at or after `start` where at least three of the four
/// fixed header bytes match, or the input length when there is none: where
/// the resynchronisation scan lands.
pub open spec fn sync_from(data: Seq<u8>, start: int) -> int
    decreases data.len() - start,
{
    if start + 4 > data.len() {
        data.len() as int
    } else if magic_score(data, start) >= 3 {
        start
    } else {
        sync_from(data, start + 1)
    }
}

pub proof fn lemma_sync_from(data: Seq<u8>, start: int)
    requires
        0 <= start <= data.len(),
    ensures
        start <= sync_from(data, start) <= data.len(),
        sync_from(data, start) < data.len() ==> sync_from(data, start) + 4 <= data.len()
            && magic_score(data, sync_from(data, start)) >= 3,
    decreases data.len() - start,
{
    if start + 4 > data.len() {
    } else if magic_score(data, start) >= 3 {
    } else {
        lemma_sync_from(data, start + 1);
    }
}

/// How many of an extra subfield's four lead bytes look like the BGZF
/// subfield (identifier 42 43, length 2).
pub open spec fn subfield_score(id0: u8, id1: u8, sublen: int) -> int {
    (if id0 == 0x42 {
        1int
    } else {
        0int
    }) + (if id1 == 0x43 {
        1int
    } else {
        0int
    }) + (if sublen % 256 == 2 {
        1int
    } else {
        0int
    }) + (if sublen / 256 == 0 {
        1int
    } else {
        0int
    })
}

/// Outcome of walking a header's extra subfields.
pub ghost enum WalkRes {
    /// The input ended inside the extra field.  `pre_corrupt` records whether
    /// a tolerated single-byte subfield corruption was seen first.
    Trunc { pre_corrupt: bool },
    /// A subfield claims to extend past the remaining extra-field bytes.
    Overrun { pre_corrupt: bool },
    /// The walk ran out of subfields: `off` is the read position after it,
    /// `rem` the unconsumed extra-field bytes, `bsize` the declared total
    /// block size (0 when no BGZF subfield was found), and `corrupt` whether
    /// any tolerated corruption was seen.
    Done { off: int, rem: int, bsize: int, corrupt: bool },
}

/// Walks the extra subfields: `off` is the absolute read position, `rem` the
/// declared extra-field bytes still to account for, `xlen` the whole declared
/// extra-field length.  A subfield whose four lead bytes all match BGZF — or
/// match in three of four when the extra field is exactly the canonical six
/// bytes — supplies the block size; others are skipped over.
pub open spec fn walk(
    data: Seq<u8>,
    off: int,
    rem: int,
    xlen: int,
    bsize: int,
    corrupt: bool,
) -> WalkRes
    decreases rem,
{
    if rem <= 4 {
        WalkRes::Done { off, rem, bsize, corrupt }
    } else if off + 2 > data.len() || off + 4 > data.len() {
        WalkRes::Trunc { pre_corrupt: corrupt }
    } else {
        let id0 = data[off];
        let id1 = data[off + 1];
        let sublen = le16(data[off + 2], data[off + 3]);
        let score = subfield_score(id0, id1, sublen);
        if sublen > rem - 4 {
            WalkRes::Overrun { pre_corrupt: corrupt }
        } else if score == 4 || (score == 3 && xlen == 6) {
            let corrupt2 = corrupt || score != 4;
            if off + 6 > data.len() {
                WalkRes::Trunc { pre_corrupt: corrupt2 }
            } else {
                let nb = (le16(data[off + 4], data[off + 5]) + 1) % 65536;
                walk(data, off + 6, rem - 4 - sublen, xlen, nb, corrupt2)
            }
        } else {
            walk(data, off + 4 + sublen, rem - 4 - sublen, xlen, bsize, corrupt)
        }
    }
}

/// The payload check: the deflate stream inflates, the checksum matches, and
/// the inflated length matches the declared one.
pub open spec fn payload_ok(b: SpecBlock) -> bool {
    match inflate_of(b.deflated_payload) {
        Some(p) => crc32_of(p) == b.inflated_payload_crc32 && p.len()
            == b.inflated_payload_size,
        None => false,
    }
}

/// A retired block counts as corrupted when its payload fails the check or
/// its header needed tolerant recovery.
pub open spec fn status_corrupt(b: SpecBlock) -> bool {
    !payload_ok(b) || b.corrupted
}

/// The bytes a rescue writes for a block: header, compressed payload, CRC32
/// and inflated size, the trailer fields little-endian.
pub open spec fn block_bytes(b: SpecBlock) -> Seq<u8> {
    b.header_bytes + b.deflated_payload + le32_bytes(b.inflated_payload_crc32) + le32_bytes(
        b.inflated_payload_size,
    )
}

/// The canonical 28-byte empty BGZF block that terminates a stream.
pub open spec fn terminator_bytes() -> Seq<u8> {
    seq![
        0x1fu8,
        0x8bu8,
        0x08u8,
        0x04u8,
        0x00u8,
        0x00u8,
        0x00u8,
        0x00u8,
        0x00u8,
        0xffu8,
        0x06u8,
        0x00u8,
        0x42u8,
        0x43u8,
        0x02u8,
        0x00u8,
        0x1bu8,
        0x00u8,
        0x03u8,
        0x00u8,
        0x00u8,
        0x00u8,
        0x00u8,
        0x00u8,
        0x00u8,
        0x00u8,
        0x00u8,
        0x00u8,
    ]
}

/// The machine before the first pass.
pub open spec fn scan_init() -> Machine {
    Machine {
        pos: 0,
        prev_start: 0,
        prev: None,
        blocks_count: 0,
        blocks_size: 0,
        bad_blocks_count: 0,
        bad_blocks_size: 0,
        truncated_in_block: false,
        truncated_between_blocks: false,
        emitted: Seq::empty(),
        out: Seq::empty(),
        terminator_appended: false,
        done: false,
    }
}

/// Marks the pending block corrupted, as happens when the bytes after it do
/// not look like a header.
pub open spec fn mark_prev_corrupt(m: Machine) -> Machine {
    match m.prev {
        None => m,
        Some(b) => Machine { prev: Some(SpecBlock { corrupted: true, ..b }), ..m },
    }
}

/// A fail-fast return: one more bad block counted, scan over.
pub open spec fn ff_exit(m: Machine) -> Machine {
    Machine { bad_blocks_count: m.bad_blocks_count + 1, done: true, ..m }
}

/// Writes a block's bytes (rescue only) and records it as emitted.
pub open spec fn emit(m: Machine, rc: bool, b: SpecBlock) -> Machine {
    if rc {
        Machine {
            prev: None,
            emitted: m.emitted.push(block_bytes(b)),
            out: m.out + block_bytes(b),
            ..m
        }
    } else {
        Machine { prev: None, ..m }
    }
}

/// Retires the pending block: counts it bad and drops it, or re-emits it.
pub open spec fn dispatch_prev(m: Machine, rc: bool, ff: bool) -> Machine {
    match m.prev {
        None => m,
        Some(b) => if status_corrupt(b) {
            let m1 = Machine {
                bad_blocks_count: m.bad_blocks_count + 1,
                bad_blocks_size: wrap_add64(m.bad_blocks_size, b.inflated_payload_size),
                prev: None,
                ..m
            };
            if ff {
                ff_exit(m1)
            } else {
                m1
            }
        } else {
            emit(m, rc, b)
        },
    }
}

/// Marks the file truncated between blocks and, in rescue, appends the
/// canonical empty block.
pub open spec fn terminate_between(m: Machine, rc: bool) -> Machine {
    let m1 = Machine { truncated_between_blocks: true, done: true, ..m };
    if rc {
        Machine {
            out: m1.out + terminator_bytes(),
            terminator_appended: true,
            ..m1
        }
    } else {
        m1
    }
}

/// End of input: retires the pending block, and classifies the file as
/// truncated between blocks when the last retired block was non-empty.
pub open spec fn drain(m: Machine, rc: bool, ff: bool) -> Machine {
    match m.prev {
        None => Machine { done: true, ..m },
        Some(b) => if status_corrupt(b) {
            let m1 = Machine {
                bad_blocks_count: m.bad_blocks_count + 1,
                bad_blocks_size: wrap_add64(m.bad_blocks_size, b.inflated_payload_size),
                prev: None,
                ..m
            };
            if ff {
                Machine { bad_blocks_count: m1.bad_blocks_count + 1, done: true, ..m1 }
            } else if b.inflated_payload_size != 0 {
                terminate_between(m1, rc)
            } else {
                Machine { done: true, ..m1 }
            }
        } else {
            let m1 = emit(m, rc, b);
            if b.inflated_payload_size != 0 {
                terminate_between(m1, rc)
            } else {
                Machine { done: true, ..m1 }
            }
        },
    }
}

/// One pass of the block loop on input `data`; `rc` is rescue mode, `ff`
/// fail-fast mode.
#[verifier::opaque]
pub open spec fn step(data: Seq<u8>, rc: bool, ff: bool, m: Machine) -> Machine {
    if m.done {
        m
    } else {
        let n = data.len() as int;
        let p = m.pos;
        if n - p <= 0 {
            drain(m, rc, ff)
        } else if n - p < 12 {
            let m1 = Machine { truncated_in_block: true, ..mark_prev_corrupt(m) };
            if ff {
                ff_exit(m1)
            } else {
                drain(m1, rc, ff)
            }
        } else {
            let score = magic_score(data, p);
            if score <= 2 {
                let m1 = mark_prev_corrupt(m);
                if ff {
                    ff_exit(m1)
                } else {
                    Machine { pos: sync_from(data, m.prev_start + 1), prev_start: p, ..m1 }
                }
            } else if ff && score == 3 {
                ff_exit(m)
            } else {
                let xlen = le16(data[p + 10], data[p + 11]);
                if rc && n - p < 12 + xlen {
                    let m1 = Machine { truncated_in_block: true, ..m };
                    if ff {
                        ff_exit(m1)
                    } else {
                        drain(m1, rc, ff)
                    }
                } else {
                    match walk(data, p + 12, xlen, xlen, 0, score == 3) {
                        WalkRes::Trunc { pre_corrupt } => if ff && pre_corrupt {
                            ff_exit(m)
                        } else {
                            let m1 = Machine { truncated_in_block: true, ..m };
                            if ff {
                                ff_exit(m1)
                            } else {
                                drain(m1, rc, ff)
                            }
                        },
                        WalkRes::Overrun { pre_corrupt: _ } => if ff {
                            ff_exit(m)
                        } else {
                            Machine { pos: sync_from(data, p + 1), prev_start: p, ..m }
                        },
                        WalkRes::Done { off, rem, bsize, corrupt } => if ff && corrupt {
                            ff_exit(m)
                        } else if rem != 0 || bsize == 0 {
                            if ff {
                                ff_exit(m)
                            } else {
                                Machine { pos: sync_from(data, p + 1), prev_start: p, ..m }
                            }
                        } else {
                            let m1 = dispatch_prev(m, rc, ff);
                            if m1.done {
                                m1
                            } else {
                                let dsize = (bsize - 20 - xlen) % 65536;
                                if n - off < dsize || n - off - dsize < 8 {
                                    let m2 = Machine { truncated_in_block: true, ..m1 };
                                    if ff {
                                        ff_exit(m2)
                                    } else {
                                        drain(m2, rc, ff)
                                    }
                                } else {
                                    let b = SpecBlock {
                                        header_bytes: if rc {
                                            data.subrange(p, p + 12 + xlen)
                                        } else {
                                            data.subrange(p, p + 12)
                                        },
                                        deflated_payload: data.subrange(off, off + dsize),
                                        inflated_payload_crc32: le32(
                                            data[off + dsize],
                                            data[off + dsize + 1],
                                            data[off + dsize + 2],
                                            data[off + dsize + 3],
                                        ),
                                        inflated_payload_size: le32(
                                            data[off + dsize + 4],
                                            data[off + dsize + 5],
                                            data[off + dsize + 6],
                                            data[off + dsize + 7],
                                        ),
                                        corrupted: corrupt,
                                    };
                                    Machine {
                                        prev: Some(b),
                                        blocks_count: m1.blocks_count + 1,
                                        blocks_size: wrap_add64(
                                            m1.blocks_size,
                                            b.inflated_payload_size,
                                        ),
                                        pos: off + dsize + 8,
                                        prev_start: p,
                                        ..m1
                                    }
                                }
                            }
                        },
                    }
                }
            }
        }
    }
}

/// The declared extra-field length in a block's bytes.
pub open spec fn bs_xlen(bs: Seq<u8>) -> int {
    le16(bs[10], bs[11])
}

/// A block's bytes parse cleanly: the four fixed header bytes match, the
/// subfield walk finds a block size without damage and consumes the whole
/// extra field, and the length is exactly header, payload and trailer.
#[verifier::opaque]
pub open spec fn block_parseable(bs: Seq<u8>) -> bool {
    let xlen = bs_xlen(bs);
    &&& bs.len() >= 12
    &&& magic_score(bs, 0) == 4
    &&& 12 + xlen <= bs.len()
    &&& match walk(bs, 12, xlen, xlen, 0, false) {
        WalkRes::Done { off, rem, bsize, corrupt } => {
            &&& rem == 0
            &&& bsize != 0
            &&& !corrupt
            &&& off == 12 + xlen
            &&& bs.len() == off + (bsize - 20 - xlen) % 65536 + 8
        },
        _ => false,
    }
}

/// The compressed payload within a block's bytes.
pub open spec fn bs_payload(bs: Seq<u8>) -> Seq<u8> {
    bs.subrange(12 + bs_xlen(bs), bs.len() - 8)
}

/// The CRC32 a block's trailer declares.
pub open spec fn bs_crc(bs: Seq<u8>) -> int {
    le32(bs[bs.len() - 8], bs[bs.len() - 7], bs[bs.len() - 6], bs[bs.len() - 5])
}

/// The inflated size a block's trailer declares.
pub open spec fn block_isize(bs: Seq<u8>) -> int {
    le32(bs[bs.len() - 4], bs[bs.len() - 3], bs[bs.len() - 2], bs[bs.len() - 1])
}

/// A well-formed block: it parses cleanly and its payload passes the check.
#[verifier::opaque]
pub open spec fn block_wf(bs: Seq<u8>) -> bool {
    &&& block_parseable(bs)
    &&& match inflate_of(bs_payload(bs)) {
        Some(p) => crc32_of(p) == bs_crc(bs) && p.len() == block_isize(bs),
        None => false,
    }
}

/// The concatenation of a list of byte sequences.
pub open spec fn cat(bss: Seq<Seq<u8>>) -> Seq<u8>
    decreases bss.len(),
{
    if bss.len() == 0 {
        Seq::empty()
    } else {
        cat(bss.drop_last()) + bss.last()
    }
}

pub proof fn lemma_cat_push(bss: Seq<Seq<u8>>, b: Seq<u8>)
    ensures
        cat(bss.push(b)) == cat(bss) + b,
{
    assert(bss.push(b).drop_last() =~= bss);
    assert(bss.push(b).last() == b);
}

/// What a scan in rescue mode guarantees of its writes: every re-emitted
/// block is well formed, and the output is exactly their concatenation,
/// followed by the canonical empty block when that was appended.
pub open spec fn emitted_ok(m: Machine) -> bool {
    &&& forall|i: int| 0 <= i < m.emitted.len() ==> block_wf(#[trigger] m.emitted[i])
    &&& m.out == cat(m.emitted) + (if m.terminator_appended {
        terminator_bytes()
    } else {
        Seq::<u8>::empty()
    })
    &&& m.terminator_appended ==> block_wf(terminator_bytes())
}

/// What the scanner knows of a pending block whose header needed no
/// recovery: its bytes, reassembled, parse back to the same pieces.
pub open spec fn pending_ok(m: Machine) -> bool {
    match m.prev {
        None => true,
        Some(sb) => !sb.corrupted ==> {
            &&& block_parseable(block_bytes(sb))
            &&& bs_payload(block_bytes(sb)) == sb.deflated_payload
            &&& bs_crc(block_bytes(sb)) == sb.inflated_payload_crc32
            &&& block_isize(block_bytes(sb)) == sb.inflated_payload_size
        },
    }
}

/// The subfield walk reads only the extra-field bytes (with two bytes of
/// leeway), so it is the same wherever those bytes stand.
pub proof fn lemma_walk_shift(
    d1: Seq<u8>,
    o1: int,
    d2: Seq<u8>,
    o2: int,
    rem: int,
    xlen: int,
    bsize: int,
    corrupt: bool,
)
    requires
        0 <= o1,
        0 <= o2,
        0 <= rem <= xlen,
        o1 + rem + 2 <= d1.len(),
        o2 + rem + 2 <= d2.len(),
        forall|j: int| 0 <= j < rem + 2 ==> d1[o1 + j] == #[trigger] d2[o2 + j],
    ensures
        walk(d2, o2, rem, xlen, bsize, corrupt) == (match walk(d1, o1, rem, xlen, bsize, corrupt) {
            WalkRes::Trunc { pre_corrupt } => WalkRes::Trunc { pre_corrupt },
            WalkRes::Overrun { pre_corrupt } => WalkRes::Overrun { pre_corrupt },
            WalkRes::Done { off, rem: r, bsize: bz, corrupt: c } => WalkRes::Done {
                off: off - o1 + o2,
                rem: r,
                bsize: bz,
                corrupt: c,
            },
        }),
    decreases rem,
{
    if rem <= 4 {
    } else {
        assert(d1[o1 + 0] == d2[o2 + 0]);
        assert(d1[o1 + 1] == d2[o2 + 1]);
        assert(d1[o1 + 2] == d2[o2 + 2]);
        assert(d1[o1 + 3] == d2[o2 + 3]);
        assert(d1[o1 + 4] == d2[o2 + 4]);
        assert(d1[o1 + 5] == d2[o2 + 5]);
        let sublen = le16(d1[o1 + 2], d1[o1 + 3]);
        let score = subfield_score(d1[o1], d1[o1 + 1], sublen);
        if sublen > rem - 4 {
        } else if score == 4 || (score == 3 && xlen == 6) {
            let rem2 = rem - 4 - sublen;
            if rem2 <= 4 {
                // both walks return immediately after taking the block size
                let nb = (le16(d1[o1 + 4], d1[o1 + 5]) + 1) % 65536;
                let c2 = corrupt || score != 4;
                assert(walk(d1, o1 + 6, rem2, xlen, nb, c2) == (WalkRes::Done {
                    off: o1 + 6,
                    rem: rem2,
                    bsize: nb,
                    corrupt: c2,
                }));
                assert(walk(d2, o2 + 6, rem2, xlen, nb, c2) == (WalkRes::Done {
                    off: o2 + 6,
                    rem: rem2,
                    bsize: nb,
                    corrupt: c2,
                }));
            } else {
                // a full four-of-four match pins the declared length to 2;
                // with xlen == 6 the remainder cannot exceed 4
                assert(score == 4);
                assert(sublen == 2) by (nonlinear_arith)
                    requires
                        sublen % 256 == 2 && sublen / 256 == 0,
                ;
                let nb = (le16(d1[o1 + 4], d1[o1 + 5]) + 1) % 65536;
                assert forall|j2: int| 0 <= j2 < rem2 + 2 implies d1[(o1 + 6) + j2] == #[trigger] d2[(o2 + 6)
                    + j2] by {
                    assert(d1[o1 + (6 + j2)] == d2[o2 + (6 + j2)]);
                }
                lemma_walk_shift(d1, o1 + 6, d2, o2 + 6, rem2, xlen, nb, corrupt || score != 4);
            }
        } else {
            let shift = 4 + sublen;
            assert forall|j2: int| 0 <= j2 < (rem - shift) + 2 implies d1[(o1 + shift) + j2] == #[trigger] d2[(
            o2 + shift) + j2] by {
                assert(d1[o1 + (shift + j2)] == d2[o2 + (shift + j2)]);
            }
            lemma_walk_shift(
                d1,
                o1 + shift,
                d2,
                o2 + shift,
                rem - shift,
                xlen,
                bsize,
                corrupt,
            );
        }
    }
}

/// The declared extra-field length of the header at `p`.
pub open spec fn hdr_xlen(data: Seq<u8>, p: int) -> int {
    le16(data[p + 10], data[p + 11])
}

/// A finished machine is a fixed point of the step.
pub proof fn lemma_step_done(data: Seq<u8>, rc: bool, ff: bool, m: Machine)
    requires
        m.done,
    ensures
        step(data, rc, ff, m) == m,
{
    reveal(step);
}

/// The step at end of input.
pub proof fn lemma_step_eof(data: Seq<u8>, rc: bool, ff: bool, m: Machine)
    requires
        !m.done,
        m.pos >= data.len(),
    ensures
        step(data, rc, ff, m) == drain(m, rc, ff),
{
    reveal(step);
}

/// The step on a header cut short by end of input.
pub proof fn lemma_step_short_header(data: Seq<u8>, rc: bool, ff: bool, m: Machine)
    requires
        !m.done,
        0 < data.len() - m.pos < 12,
    ensures
        step(data, rc, ff, m) == ({
            let m1 = Machine { truncated_in_block: true, ..mark_prev_corrupt(m) };
            if ff {
                ff_exit(m1)
            } else {
                drain(m1, rc, ff)
            }
        }),
{
    reveal(step);
}

/// The step on an unrecoverable header: at most two of the four fixed bytes
/// match.
pub proof fn lemma_step_bad_magic(data: Seq<u8>, rc: bool, ff: bool, m: Machine)
    requires
        !m.done,
        data.len() - m.pos >= 12,
        magic_score(data, m.pos) <= 2,
    ensures
        step(data, rc, ff, m) == ({
            let m1 = mark_prev_corrupt(m);
            if ff {
                ff_exit(m1)
            } else {
                Machine { pos: sync_from(data, m.prev_start + 1), prev_start: m.pos, ..m1 }
            }
        }),
{
    reveal(step);
}

/// The fail-fast step on a header with a single corrupted fixed byte.
pub proof fn lemma_step_ff3(data: Seq<u8>, rc: bool, ff: bool, m: Machine)
    requires
        !m.done,
        data.len() - m.pos >= 12,
        magic_score(data, m.pos) == 3,
        ff,
    ensures
        step(data, rc, ff, m) == ff_exit(m),
{
    reveal(step);
}

/// The step on an extra field cut short, in rescue mode.
pub proof fn lemma_step_short_extra(data: Seq<u8>, rc: bool, ff: bool, m: Machine)
    requires
        !m.done,
        data.len() - m.pos >= 12,
        magic_score(data, m.pos) >= 3,
        !(ff && magic_score(data, m.pos) == 3),
        rc,
        data.len() - m.pos < 12 + hdr_xlen(data, m.pos),
    ensures
        step(data, rc, ff, m) == ({
            let m1 = Machine { truncated_in_block: true, ..m };
            if ff {
                ff_exit(m1)
            } else {
                drain(m1, rc, ff)
            }
        }),
{
    reveal(step);
}

/// The header parses far enough to walk the extra subfields.
pub open spec fn at_walk(data: Seq<u8>, rc: bool, ff: bool, m: Machine) -> bool {
    &&& !m.done
    &&& data.len() - m.pos >= 12
    &&& magic_score(data, m.pos) >= 3
    &&& !(ff && magic_score(data, m.pos) == 3)
    &&& !(rc && data.len() - m.pos < 12 + hdr_xlen(data, m.pos))
}

/// The walk of the current header's extra subfields.
pub open spec fn hdr_walk(data: Seq<u8>, m: Machine) -> WalkRes {
    walk(data, m.pos + 12, hdr_xlen(data, m.pos), hdr_xlen(data, m.pos), 0, magic_score(data, m.pos)
        == 3)
}

/// The step when the walk runs off the end of the input.
pub proof fn lemma_step_walk_trunc(data: Seq<u8>, rc: bool, ff: bool, m: Machine, pre: bool)
    requires
        at_walk(data, rc, ff, m),
        hdr_walk(data, m) == (WalkRes::Trunc { pre_corrupt: pre }),
    ensures
        step(data, rc, ff, m) == (if ff && pre {
            ff_exit(m)
        } else {
            let m1 = Machine { truncated_in_block: true, ..m };
            if ff {
                ff_exit(m1)
            } else {
                drain(m1, rc, ff)
            }
        }),
{
    reveal(step);
}

/// The step when a subfield overruns the extra field.
pub proof fn lemma_step_walk_overrun(data: Seq<u8>, rc: bool, ff: bool, m: Machine, pre: bool)
    requires
        at_walk(data, rc, ff, m),
        hdr_walk(data, m) == (WalkRes::Overrun { pre_corrupt: pre }),
    ensures
        step(data, rc, ff, m) == (if ff {
            ff_exit(m)
        } else {
            Machine { pos: sync_from(data, m.pos + 1), prev_start: m.pos, ..m }
        }),
{
    reveal(step);
}

/// The step when the walk ends but the extra field does not add up, or no
/// block size was found.
pub proof fn lemma_step_walk_resync(
    data: Seq<u8>,
    rc: bool,
    ff: bool,
    m: Machine,
    off: int,
    rem: int,
    bsize: int,
    corrupt: bool,
)
    requires
        at_walk(data, rc, ff, m),
        hdr_walk(data, m) == (WalkRes::Done { off, rem, bsize, corrupt }),
        !(ff && corrupt),
        rem != 0 || bsize == 0,
    ensures
        step(data, rc, ff, m) == (if ff {
            ff_exit(m)
        } else {
            Machine { pos: sync_from(data, m.pos + 1), prev_start: m.pos, ..m }
        }),
{
    reveal(step);
}

/// The fail-fast step when the walk tolerated a corrupted subfield byte.
pub proof fn lemma_step_walk_ffcorr(
    data: Seq<u8>,
    rc: bool,
    ff: bool,
    m: Machine,
    off: int,
    rem: int,
    bsize: int,
)
    requires
        at_walk(data, rc, ff, m),
        hdr_walk(data, m) == (WalkRes::Done { off, rem, bsize, corrupt: true }),
        ff,
    ensures
        step(data, rc, ff, m) == ff_exit(m),
{
    reveal(step);
}

/// The step when the previous block's failure ends a fail-fast scan.
pub proof fn lemma_step_ff_dispatch(
    data: Seq<u8>,
    rc: bool,
    ff: bool,
    m: Machine,
    off: int,
    bsize: int,
    corrupt: bool,
)
    requires
        at_walk(data, rc, ff, m),
        hdr_walk(data, m) == (WalkRes::Done { off, rem: 0, bsize, corrupt }),
        !(ff && corrupt),
        bsize != 0,
        dispatch_prev(m, rc, ff).done,
    ensures
        step(data, rc, ff, m) == dispatch_prev(m, rc, ff),
{
    reveal(step);
}

/// The step when the current block's payload or trailer is cut short.
pub proof fn lemma_step_payload_trunc(
    data: Seq<u8>,
    rc: bool,
    ff: bool,
    m: Machine,
    off: int,
    bsize: int,
    corrupt: bool,
)
    requires
        at_walk(data, rc, ff, m),
        hdr_walk(data, m) == (WalkRes::Done { off, rem: 0, bsize, corrupt }),
        !(ff && corrupt),
        bsize != 0,
        !dispatch_prev(m, rc, ff).done,
        ({
            let dsize = (bsize - 20 - hdr_xlen(data, m.pos)) % 65536;
            data.len() - off < dsize || data.len() - off - dsize < 8
        }),
    ensures
        step(data, rc, ff, m) == ({
            let m2 = Machine { truncated_in_block: true, ..dispatch_prev(m, rc, ff) };
            if ff {
                ff_exit(m2)
            } else {
                drain(m2, rc, ff)
            }
        }),
{
    reveal(step);
}

/// The step that captures the current block whole.
pub proof fn lemma_step_capture(
    data: Seq<u8>,
    rc: bool,
    ff: bool,
    m: Machine,
    off: int,
    bsize: int,
    corrupt: bool,
)
    requires
        at_walk(data, rc, ff, m),
        hdr_walk(data, m) == (WalkRes::Done { off, rem: 0, bsize, corrupt }),
        !(ff && corrupt),
        bsize != 0,
        !dispatch_prev(m, rc, ff).done,
        ({
            let dsize = (bsize - 20 - hdr_xlen(data, m.pos)) % 65536;
            data.len() - off >= dsize && data.len() - off - dsize >= 8
        }),
    ensures
        step(data, rc, ff, m) == ({
            let xlen = hdr_xlen(data, m.pos);
            let dsize = (bsize - 20 - xlen) % 65536;
            let m1 = dispatch_prev(m, rc, ff);
            let b = capture_block(data, rc, m.pos, off, dsize, corrupt);
            Machine {
                prev: Some(b),
                blocks_count: m1.blocks_count + 1,
                blocks_size: wrap_add64(m1.blocks_size, b.inflated_payload_size),
                pos: off + dsize + 8,
                prev_start: m.pos,
                ..m1
            }
        }),
{
    reveal(step);
}

/// The block the capturing step records.
pub open spec fn capture_block(
    data: Seq<u8>,
    rc: bool,
    p: int,
    off: int,
    dsize: int,
    corrupt: bool,
) -> SpecBlock {
    SpecBlock {
        header_bytes: if rc {
            data.subrange(p, p + 12 + hdr_xlen(data, p))
        } else {
            data.subrange(p, p + 12)
        },
        deflated_payload: data.subrange(off, off + dsize),
        inflated_payload_crc32: le32(
            data[off + dsize],
            data[off + dsize + 1],
            data[off + dsize + 2],
            data[off + dsize + 3],
        ),
        inflated_payload_size: le32(
            data[off + dsize + 4],
            data[off + dsize + 5],
            data[off + dsize + 6],
            data[off + dsize + 7],
        ),
        corrupted: corrupt,
    }
}

/// A block captured whole, with an undamaged header, reassembles to bytes
/// that parse back to the same pieces.
pub proof fn lemma_capture_pending(
    data: Seq<u8>,
    p: int,
    off: int,
    dsz: int,
    bsize: int,
    corr: bool,
)
    requires
        0 <= p,
        0 <= hdr_xlen(data, p) <= 65535,
        off == p + 12 + hdr_xlen(data, p),
        0 <= dsz,
        dsz == (bsize - 20 - hdr_xlen(data, p)) % 65536,
        off + dsz + 8 <= data.len(),
        bsize != 0,
        !corr ==> magic_score(data, p) == 4,
        !corr ==> walk(data, p + 12, hdr_xlen(data, p), hdr_xlen(data, p), 0, false)
            == (WalkRes::Done { off, rem: 0, bsize, corrupt: false }),
    ensures
        ({
            let sb = capture_block(data, true, p, off, dsz, corr);
            !corr ==> {
                &&& block_parseable(block_bytes(sb))
                &&& bs_payload(block_bytes(sb)) == sb.deflated_payload
                &&& bs_crc(block_bytes(sb)) == sb.inflated_payload_crc32
                &&& block_isize(block_bytes(sb)) == sb.inflated_payload_size
            }
        }),
{
    if !corr {
        reveal(block_parseable);
        let xl = hdr_xlen(data, p);
        let sb = capture_block(data, true, p, off, dsz, corr);
        let bb = block_bytes(sb);
        crate::bytes::lemma_le32_roundtrip(
            data[off + dsz],
            data[off + dsz + 1],
            data[off + dsz + 2],
            data[off + dsz + 3],
        );
        crate::bytes::lemma_le32_roundtrip(
            data[off + dsz + 4],
            data[off + dsz + 5],
            data[off + dsz + 6],
            data[off + dsz + 7],
        );
        assert(le32_bytes(sb.inflated_payload_crc32) =~= data.subrange(off + dsz, off + dsz + 4));
        assert(le32_bytes(sb.inflated_payload_size) =~= data.subrange(off + dsz + 4, off + dsz
            + 8));
        assert(bb =~= data.subrange(p, off + dsz + 8));
        assert(bs_xlen(bb) == xl);
        assert(magic_score(bb, 0) == 4);
        assert forall|j: int| 0 <= j < xl + 2 implies data[(p + 12) + j] == #[trigger] bb[12
            + j] by {
            assert(bb[12 + j] == data.subrange(p, off + dsz + 8)[12 + j]);
        }
        lemma_walk_shift(data, p + 12, bb, 12, xl, xl, 0, false);
        assert(walk(bb, 12, xl, xl, 0, false) == (WalkRes::Done {
            off: 12 + xl,
            rem: 0,
            bsize,
            corrupt: false,
        }));
        assert(block_parseable(bb));
        assert(bs_payload(bb) =~= sb.deflated_payload);
        assert(bs_crc(bb) == sb.inflated_payload_crc32);
        assert(block_isize(bb) == sb.inflated_payload_size);
    }
}

/// How the wrapping 64-bit addition of the accumulators reads as modular
/// arithmetic.
pub proof fn lemma_wrap_u64(a: u64, b: u64)
    ensures
        a + b <= u64::MAX ==> wrap_add64(a as int, b as int) == a + b,
        a + b > u64::MAX ==> wrap_add64(a as int, b as int) == a + b - 0x1_0000_0000_0000_0000,
{
    let s = a as int + b as int;
    let md = 0x1_0000_0000_0000_0000;
    if s <= u64::MAX {
        vstd::arithmetic::div_mod::lemma_small_mod(s as nat, md as nat);
    } else {
        vstd::arithmetic::div_mod::lemma_mod_multiples_vanish(-1, s, md);
        assert(md * -1 + s == s - md);
        vstd::arithmetic::div_mod::lemma_small_mod((s - md) as nat, md as nat);
    }
}

/// The machine after `k` passes.
pub open spec fn run(data: Seq<u8>, rc: bool, ff: bool, k: nat) -> Machine
    decreases k,
{
    if k == 0 {
        scan_init()
    } else {
        step(data, rc, ff, run(data, rc, ff, (k - 1) as nat))
    }
}

/// The machine once the scan is over: the state after any number of passes
/// that suffices to finish.
pub open spec fn scan(data: Seq<u8>, rc: bool, ff: bool) -> Machine {
    let k = choose|k: nat| (#[trigger] run(data, rc, ff, k)).done;
    run(data, rc, ff, k)
}

/// A finished machine does not change any more.
pub proof fn lemma_run_stutter(data: Seq<u8>, rc: bool, ff: bool, k1: nat, k2: nat)
    requires
        k1 <= k2,
        run(data, rc, ff, k1).done,
    ensures
        run(data, rc, ff, k2) == run(data, rc, ff, k1),
    decreases k2,
{
    if k1 < k2 {
        lemma_run_stutter(data, rc, ff, k1, (k2 - 1) as nat);
        lemma_step_done(data, rc, ff, run(data, rc, ff, (k2 - 1) as nat));
    }
}

/// Once some number of passes finishes the machine, `scan` is that state.
pub proof fn lemma_scan_is(data: Seq<u8>, rc: bool, ff: bool, k: nat)
    requires
        run(data, rc, ff, k).done,
    ensures
        scan(data, rc, ff) == run(data, rc, ff, k),
{
    let k0 = choose|k0: nat| (#[trigger] run(data, rc, ff, k0)).done;
    assert(run(data, rc, ff, k).done);
    assert(run(data, rc, ff, k0).done);
    if k0 <= k {
        lemma_run_stutter(data, rc, ff, k0, k);
    } else {
        lemma_run_stutter(data, rc, ff, k, k0);
    }
}

} // verus!
