//! The executable scanner: the block loop that the machine in `model`
//! specifies, together with its helpers — the resynchronisation scan, the
//! payload check, and the emitter.

use vstd::prelude::*;

use crate::bytes::{append_bytes, append_u32_le, byte_at, le16, read_u16_le, read_u32_le};
use crate::codec::{crc32_sum, inflate_payload};
use crate::model::{
    at_walk, block_bytes, block_isize, block_parseable, block_wf, bs_crc, bs_payload, bs_xlen,
    capture_block, dispatch_prev, drain, emitted_ok, ff_exit, hdr_walk, hdr_xlen,
    lemma_capture_pending, lemma_cat_push, lemma_scan_is, lemma_step_bad_magic,
    lemma_step_capture, lemma_step_eof, lemma_step_ff3, lemma_step_ff_dispatch,
    lemma_step_payload_trunc, lemma_step_short_extra, lemma_step_short_header,
    lemma_step_walk_ffcorr, lemma_step_walk_overrun, lemma_step_walk_resync,
    lemma_step_walk_trunc, lemma_sync_from, lemma_wrap_u64, magic_score, mark_prev_corrupt,
    pending_ok, run, scan, scan_init, status_corrupt, step, subfield_score, sync_from,
    terminator_bytes, walk, wrap_add64, Machine, SpecBlock, WalkRes,
};
use crate::ListenProgress;
use crate::Results;

verus! {

/// A captured block, owned by the loop until its payload is checked.
pub struct Block {
    pub header_bytes: Vec<u8>,
    pub deflated_payload: Vec<u8>,
    pub inflated_payload_crc32: u32,
    pub inflated_payload_size: u32,
    pub corrupted: bool,
    pub end_position: u64,
}

/// The model's view of a captured block.
pub open spec fn blk(b: Block) -> SpecBlock {
    SpecBlock {
        header_bytes: b.header_bytes@,
        deflated_payload: b.deflated_payload@,
        inflated_payload_crc32: b.inflated_payload_crc32 as int,
        inflated_payload_size: b.inflated_payload_size as int,
        corrupted: b.corrupted,
    }
}

/// The model's view of an optional block.
pub open spec fn opt_blk(o: Option<Block>) -> Option<SpecBlock> {
    match o {
        None => None,
        Some(b) => Some(blk(b)),
    }
}

/// The outcome of checking one block's payload.
pub struct Status {
    pub corrupted: bool,
    pub inflated_payload_size: u32,
    pub block: Option<Block>,
}

/// Checks a retired block's payload: inflates it, and verifies the checksum
/// and the inflated length against the trailer.  The block is carried in the
/// result, for re-emission, exactly when it is intact.
pub fn process_payload(block: Option<Block>) -> (st: Status)
    ensures
        st.corrupted == (match opt_blk(block) {
            None => false,
            Some(sb) => status_corrupt(sb),
        }),
        st.inflated_payload_size as int == (match opt_blk(block) {
            None => 0int,
            Some(sb) => sb.inflated_payload_size,
        }),
        opt_blk(st.block) == (match opt_blk(block) {
            None => Option::<SpecBlock>::None,
            Some(sb) => if status_corrupt(sb) {
                Option::<SpecBlock>::None
            } else {
                Some(sb)
            },
        }),
{
    match block {
        None => Status { corrupted: false, inflated_payload_size: 0, block: None },
        Some(b) => {
            let inflated = inflate_payload(b.deflated_payload.as_slice());
            match inflated {
                None => Status {
                    corrupted: true,
                    inflated_payload_size: b.inflated_payload_size,
                    block: None,
                },
                Some(p) => {
                    let crc = crc32_sum(p.as_slice());
                    if crc != b.inflated_payload_crc32 {
                        Status {
                            corrupted: true,
                            inflated_payload_size: b.inflated_payload_size,
                            block: None,
                        }
                    } else if p.len() != b.inflated_payload_size as usize {
                        Status {
                            corrupted: true,
                            inflated_payload_size: b.inflated_payload_size,
                            block: None,
                        }
                    } else {
                        let size = b.inflated_payload_size;
                        let corrupted = b.corrupted;
                        Status {
                            corrupted,
                            inflated_payload_size: size,
                            block: if corrupted {
                                None
                            } else {
                                Some(b)
                            },
                        }
                    }
                },
            }
        },
    }
}

/// In rescue mode, writes an intact block back out: header, compressed
/// payload, then the two trailer fields little-endian.
pub fn write_block(out: &mut Vec<u8>, rc: bool, block: &Option<Block>)
    ensures
        final(out)@ == old(out)@ + (if rc {
            match block {
                Some(b) => block_bytes(blk(*b)),
                None => Seq::<u8>::empty(),
            }
        } else {
            Seq::<u8>::empty()
        }),
{
    if rc {
        match block {
            Some(b) => {
                append_bytes(out, &b.header_bytes);
                append_bytes(out, &b.deflated_payload);
                append_u32_le(out, b.inflated_payload_crc32);
                append_u32_le(out, b.inflated_payload_size);
                assert(out@ =~= old(out)@ + block_bytes(blk(*b)));
            },
            None => {
                assert(out@ =~= old(out)@ + Seq::<u8>::empty());
            },
        }
    } else {
        assert(out@ =~= old(out)@ + Seq::<u8>::empty());
    }
}

/// A copy of `data[a..b]`.
pub fn copy_range(data: &[u8], a: usize, b: usize) -> (v: Vec<u8>)
    requires
        a <= b <= data@.len(),
        data@.len() <= usize::MAX,
    ensures
        v@ == data@.subrange(a as int, b as int),
{
    let mut v: Vec<u8> = Vec::new();
    let mut i: usize = a;
    while i < b
        invariant
            a <= i <= b <= data@.len(),
            data@.len() <= usize::MAX,
            v@ == data@.subrange(a as int, i as int),
        decreases b - i,
    {
        v.push(byte_at(data, i));
        i = i + 1;
        assert(v@ =~= data@.subrange(a as int, i as int));
    }
    v
}

/// How many of the four fixed header bytes at `p` hold their expected value.
pub fn magic_score_at(data: &[u8], p: usize) -> (r: u32)
    requires
        p + 4 <= data@.len(),
        data@.len() <= usize::MAX,
    ensures
        r == magic_score(data@, p as int),
{
    let mut score: u32 = 0;
    if byte_at(data, p) == 0x1f {
        score = score + 1;
    }
    if byte_at(data, p + 1) == 0x8b {
        score = score + 1;
    }
    if byte_at(data, p + 2) == 0x08 {
        score = score + 1;
    }
    if byte_at(data, p + 3) == 0x04 {
        score = score + 1;
    }
    score
}

/// The result fields agree with the machine's.
pub open spec fn results_match(r: Results, m: Machine) -> bool {
    &&& r.blocks_count == m.blocks_count
    &&& r.blocks_size == m.blocks_size
    &&& r.bad_blocks_count == m.bad_blocks_count
    &&& r.bad_blocks_size == m.bad_blocks_size
    &&& r.truncated_in_block == m.truncated_in_block
    &&& r.truncated_between_blocks == m.truncated_between_blocks
}

/// Appends the canonical 28-byte empty block, after checking that its
/// fixed payload and checksum round-trip through the codec.
fn append_terminator(out: &mut Vec<u8>)
    ensures
        final(out)@ == old(out)@ + terminator_bytes(),
        block_wf(terminator_bytes()),
{
    let mut p: Vec<u8> = Vec::new();
    p.push(0x03);
    p.push(0x00);
    assert(p@ =~= seq![0x03u8, 0x00u8]);
    let inflated = inflate_payload(p.as_slice());
    match inflated {
        Some(iv) => {
            let c = crc32_sum(iv.as_slice());
            assert(c == 0);
            proof {
                let t = terminator_bytes();
                reveal(block_parseable);
                reveal(block_wf);
                reveal_with_fuel(walk, 4);
                assert(iv@ =~= Seq::<u8>::empty());
                assert(bs_xlen(t) == 6);
                assert(magic_score(t, 0) == 4);
                assert(walk(t, 12, 6, 6, 0, false) == (WalkRes::Done {
                    off: 18,
                    rem: 0,
                    bsize: 28,
                    corrupt: false,
                }));
                assert(block_parseable(t));
                assert(bs_payload(t) =~= seq![0x03u8, 0x00u8]);
                assert(bs_crc(t) == 0);
                assert(block_isize(t) == 0);
                assert(block_wf(t));
            }
        },
        None => {
            proof {
                assert(false);
            }
        },
    }
    out.push(0x1f);
    out.push(0x8b);
    out.push(0x08);
    out.push(0x04);
    out.push(0x00);
    out.push(0x00);
    out.push(0x00);
    out.push(0x00);
    out.push(0x00);
    out.push(0xff);
    out.push(0x06);
    out.push(0x00);
    out.push(0x42);
    out.push(0x43);
    out.push(0x02);
    out.push(0x00);
    out.push(0x1b);
    out.push(0x00);
    out.push(0x03);
    out.push(0x00);
    out.push(0x00);
    out.push(0x00);
    out.push(0x00);
    out.push(0x00);
    out.push(0x00);
    out.push(0x00);
    out.push(0x00);
    out.push(0x00);
    assert(out@ =~= old(out)@ + terminator_bytes());
}

/// End of input: retires the pending block, marks the file truncated between
/// blocks when the last retired block was non-empty, and in rescue appends
/// the canonical empty block in that case.
fn finish<L: ListenProgress>(
    rc: bool,
    ff: bool,
    out: &mut Vec<u8>,
    listener: &mut L,
    results: Results,
    prev: Option<Block>,
    Ghost(m): Ghost<Machine>,
    Ghost(pre): Ghost<Seq<u8>>,
) -> (r: Results)
    requires
        !m.done,
        results_match(results, m),
        opt_blk(prev) == m.prev,
        old(out)@ == pre + m.out,
        m.bad_blocks_count + 2 <= u64::MAX,
        !m.truncated_between_blocks,
        rc ==> emitted_ok(m) && pending_ok(m) && !m.terminator_appended,
    ensures
        results_match(r, drain(m, rc, ff)),
        final(out)@ == pre + drain(m, rc, ff).out,
        drain(m, rc, ff).done,
        rc ==> emitted_ok(drain(m, rc, ff)),
        rc && !ff ==> drain(m, rc, ff).terminator_appended == drain(
            m,
            rc,
            ff,
        ).truncated_between_blocks,
{
    let ghost dm = drain(m, rc, ff);
    let st = process_payload(prev);
    let mut res = results;
    if st.corrupted {
        res.bad_blocks_count = res.bad_blocks_count + 1;
        proof {
            lemma_wrap_u64(res.bad_blocks_size, st.inflated_payload_size as u64);
        }
        res.bad_blocks_size = res.bad_blocks_size.wrapping_add(st.inflated_payload_size as u64);
        listener.on_bad_block();
        if ff {
            res.bad_blocks_count = res.bad_blocks_count + 1;
            return res;
        }
    } else {
        proof {
            if rc && m.prev is Some {
                let sb = m.prev->Some_0;
                if !status_corrupt(sb) {
                    assert(block_wf(block_bytes(sb))) by {
                        reveal(block_wf);
                    }
                    lemma_cat_push(m.emitted, block_bytes(sb));
                }
            }
        }
        write_block(out, rc, &st.block);
    }
    match &st.block {
        Some(b) => listener.on_progress(b.end_position),
        None => {},
    }
    if st.inflated_payload_size != 0 {
        res.truncated_between_blocks = true;
        if rc {
            append_terminator(out);
        }
        if ff {
            return res;
        }
    }
    listener.on_finished();
    res
}

/// Scans forward from `start` for the first offset whose four bytes match at
/// least three of the four expected header bytes; the input length when no
/// window matches.
pub fn find_sync(data: &[u8], start: usize) -> (r: usize)
    requires
        start <= data@.len(),
        data@.len() + 70000 <= usize::MAX,
    ensures
        r == sync_from(data@, start as int),
        start <= r <= data@.len(),
{
    let n = data.len();
    let mut q = start;
    while q + 4 <= n
        invariant
            start <= q <= n,
            n == data@.len(),
            n + 70000 <= usize::MAX,
            sync_from(data@, start as int) == sync_from(data@, q as int),
        decreases n - q,
    {
        let score = magic_score_at(data, q);
        if score >= 3 {
            proof {
                lemma_sync_from(data@, start as int);
            }
            return q;
        }
        q = q + 1;
    }
    proof {
        lemma_sync_from(data@, start as int);
    }
    n
}

/// Marks the pending block corrupted, as when the bytes after it turn out
/// not to be a header.
fn mark_corrupt(prev: Option<Block>) -> (r: Option<Block>)
    ensures
        opt_blk(r) == (match opt_blk(prev) {
            None => Option::<SpecBlock>::None,
            Some(sb) => Some(SpecBlock { corrupted: true, ..sb }),
        }),
{
    match prev {
        None => None,
        Some(b) => Some(
            Block {
                header_bytes: b.header_bytes,
                deflated_payload: b.deflated_payload,
                inflated_payload_crc32: b.inflated_payload_crc32,
                inflated_payload_size: b.inflated_payload_size,
                corrupted: true,
                end_position: b.end_position,
            },
        ),
    }
}

/// How the subfield walk of the current header ended.
enum WalkOut {
    Finished,
    TruncStop,
    OverrunStop,
}

/// One full scan: the block loop.  Returns the results the machine's final
/// state carries; in rescue mode (`rc`) the intact blocks and, after a file
/// truncated between blocks, the canonical empty block are appended to
/// `out`.
#[verifier::rlimit(100)]
pub fn process<L: ListenProgress>(
    data: &[u8],
    rc: bool,
    ff: bool,
    out: &mut Vec<u8>,
    listener: &mut L,
) -> (r: Results)
    requires
        data@.len() + 70000 <= usize::MAX,
    ensures
        results_match(r, scan(data@, rc, ff)),
        final(out)@ == old(out)@ + scan(data@, rc, ff).out,
        rc ==> emitted_ok(scan(data@, rc, ff)),
        rc && !ff ==> scan(data@, rc, ff).terminator_appended == scan(
            data@,
            rc,
            ff,
        ).truncated_between_blocks,
{
    let ghost dseq = data@;
    let ghost pre = old(out)@;
    let n = data.len();
    listener.on_new_target(n as u64);
    let mut results = Results {
        blocks_count: 0,
        blocks_size: 0,
        bad_blocks_count: 0,
        bad_blocks_size: 0,
        truncated_in_block: false,
        truncated_between_blocks: false,
    };
    let mut pos: usize = 0;
    let mut prev_start: usize = 0;
    let mut prev: Option<Block> = None;
    let ghost mut m = scan_init();
    let ghost mut steps: nat = 0;
    let ghost mut jr = false;
    let ghost mut rfloor: int = 0;
    let ghost mut gfloor: int = 0;
    loop
        invariant
            dseq == data@,
            n == dseq.len(),
            n + 70000 <= usize::MAX,
            m == run(dseq, rc, ff, steps),
            !m.done,
            m.pos == pos as int,
            m.prev_start == prev_start as int,
            opt_blk(prev) == m.prev,
            results_match(results, m),
            pre == old(out)@,
            out@ == pre + m.out,
            rc ==> emitted_ok(m) && pending_ok(m) && !m.terminator_appended,
            !m.truncated_between_blocks,
            pos <= n,
            prev_start == 0 || prev_start + 12 <= n,
            0 <= rfloor <= pos as int,
            prev_start as int >= rfloor - 1,
            !jr ==> pos >= prev_start && prev_start as int >= rfloor,
            jr ==> (pos == n || (pos + 4 <= n && magic_score(dseq, pos as int) >= 3)),
            m.blocks_count <= gfloor,
            gfloor <= pos as int,
            gfloor <= prev_start as int + 1,
            0 <= gfloor,
            m.bad_blocks_count + (if m.prev is Some {
                1int
            } else {
                0int
            }) <= m.blocks_count,
            0 <= m.bad_blocks_count,
        decreases n - rfloor, n + 1 - pos,
    {
        let ghost m0 = m;
        if pos >= n {
            proof {
                lemma_step_eof(dseq, rc, ff, m);
            }
            let res = finish(rc, ff, out, listener, results, prev, Ghost(m), Ghost(pre));
            proof {
                assert(run(dseq, rc, ff, steps + 1) == drain(m, rc, ff));
                lemma_scan_is(dseq, rc, ff, steps + 1);
            }
            return res;
        }
        if n - pos < 12 {
            let mut res2 = results;
            res2.truncated_in_block = true;
            prev = mark_corrupt(prev);
            let ghost m1 = Machine { truncated_in_block: true, ..mark_prev_corrupt(m) };
            proof {
                assert(opt_blk(prev) == m1.prev);
            }
            if ff {
                res2.bad_blocks_count = res2.bad_blocks_count + 1;
                proof {
                    lemma_step_short_header(dseq, rc, ff, m);
                    assert(run(dseq, rc, ff, steps + 1) == ff_exit(m1));
                    lemma_scan_is(dseq, rc, ff, steps + 1);
                }
                return res2;
            }
            proof {
                lemma_step_short_header(dseq, rc, ff, m);
            }
            let res = finish(rc, ff, out, listener, res2, prev, Ghost(m1), Ghost(pre));
            proof {
                assert(run(dseq, rc, ff, steps + 1) == drain(m1, rc, ff));
                lemma_scan_is(dseq, rc, ff, steps + 1);
            }
            return res;
        }
        let score = magic_score_at(data, pos);
        if score <= 2 {
            prev = mark_corrupt(prev);
            let ghost m1 = mark_prev_corrupt(m);
            proof {
                assert(opt_blk(prev) == m1.prev);
            }
            if ff {
                results = Results { bad_blocks_count: results.bad_blocks_count + 1, ..results };
                proof {
                    lemma_step_bad_magic(dseq, rc, ff, m);
                    assert(run(dseq, rc, ff, steps + 1) == ff_exit(m1));
                    lemma_scan_is(dseq, rc, ff, steps + 1);
                }
                return results;
            }
            proof {
                assert(!jr);
            }
            let newpos = find_sync(data, prev_start + 1);
            proof {
                lemma_sync_from(dseq, prev_start as int + 1);
                let m2 = Machine {
                    pos: sync_from(dseq, m.prev_start + 1),
                    prev_start: pos as int,
                    ..m1
                };
                lemma_step_bad_magic(dseq, rc, ff, m);
                assert(run(dseq, rc, ff, steps + 1) == m2);
                m = m2;
                steps = steps + 1;
                rfloor = prev_start as int + 1;
                jr = true;
            }
            prev_start = pos;
            pos = newpos;
        } else {
            if ff && score == 3 {
                results = Results { bad_blocks_count: results.bad_blocks_count + 1, ..results };
                proof {
                    lemma_step_ff3(dseq, rc, ff, m);
                    assert(run(dseq, rc, ff, steps + 1) == ff_exit(m));
                    lemma_scan_is(dseq, rc, ff, steps + 1);
                }
                return results;
            }
            let xlen = read_u16_le(data, pos + 10);
            let ghost xl = xlen as int;
            proof {
                assert(xl == le16(dseq[pos as int + 10], dseq[pos as int + 11]));
                assert(0 <= xl <= 65535);
            }
            if rc && n - pos < 12 + xlen as usize {
                let mut res2 = results;
                res2.truncated_in_block = true;
                let ghost m1 = Machine { truncated_in_block: true, ..m };
                if ff {
                    res2.bad_blocks_count = res2.bad_blocks_count + 1;
                    proof {
                        assert(hdr_xlen(dseq, pos as int) == xl);
                        lemma_step_short_extra(dseq, rc, ff, m);
                        assert(run(dseq, rc, ff, steps + 1) == ff_exit(m1));
                        lemma_scan_is(dseq, rc, ff, steps + 1);
                    }
                    return res2;
                }
                proof {
                    assert(hdr_xlen(dseq, pos as int) == xl);
                    lemma_step_short_extra(dseq, rc, ff, m);
                }
                let res = finish(rc, ff, out, listener, res2, prev, Ghost(m1), Ghost(pre));
                proof {
                    assert(run(dseq, rc, ff, steps + 1) == drain(m1, rc, ff));
                    lemma_scan_is(dseq, rc, ff, steps + 1);
                }
                return res;
            }
            let mut off: usize = pos + 12;
            let mut rem: u32 = xlen as u32;
            let mut bsize: u32 = 0;
            let mut corr: bool = score == 3;
            let ghost w0 = walk(dseq, pos as int + 12, xl, xl, 0, score == 3);
            let mut wout = WalkOut::Finished;
            loop
                invariant
                    dseq == data@,
                    n == dseq.len(),
                    n + 70000 <= usize::MAX,
                    pos + 12 <= n,
                    xl == xlen as int,
                    0 <= xl <= 65535,
                    w0 == walk(dseq, off as int, rem as int, xl, bsize as int, corr),
                    bsize <= 65535,
                    score == 3 ==> corr,
                    rem <= xl,
                    xl == 6 ==> rem == 6 || rem <= 2,
                    off + rem == pos + 12 + xlen as usize || (xl == 6 && 1 <= rem && rem <= 2
                        && off <= pos + 14 + xlen as usize),
                    off >= pos + 12,
                ensures
                    off >= pos + 12,
                    off <= pos + 14 + xlen as usize,
                    match wout {
                        WalkOut::Finished => rem <= 4 && w0 == (WalkRes::Done {
                            off: off as int,
                            rem: rem as int,
                            bsize: bsize as int,
                            corrupt: corr,
                        }) && (rem == 0 ==> off == pos + 12 + xlen as usize),
                        WalkOut::TruncStop => w0 == (WalkRes::Trunc { pre_corrupt: corr }),
                        WalkOut::OverrunStop => w0 == (WalkRes::Overrun { pre_corrupt: corr }),
                    },
                decreases rem,
            {
                if rem <= 4 {
                    wout = WalkOut::Finished;
                    break ;
                }
                if off + 4 > n {
                    wout = WalkOut::TruncStop;
                    break ;
                }
                let id0 = byte_at(data, off);
                let id1 = byte_at(data, off + 1);
                let sublen = read_u16_le(data, off + 2);
                let mut sscore: u32 = 0;
                if id0 == 0x42 {
                    sscore = sscore + 1;
                }
                if id1 == 0x43 {
                    sscore = sscore + 1;
                }
                if sublen % 256 == 2 {
                    sscore = sscore + 1;
                }
                if sublen / 256 == 0 {
                    sscore = sscore + 1;
                }
                proof {
                    assert(sscore == subfield_score(id0, id1, sublen as int));
                }
                if sublen as u32 > rem - 4 {
                    wout = WalkOut::OverrunStop;
                    break ;
                }
                if sscore == 4 || (sscore == 3 && xlen == 6) {
                    corr = corr || sscore != 4;
                    if off + 6 > n {
                        wout = WalkOut::TruncStop;
                        break ;
                    }
                    let stored = read_u16_le(data, off + 4);
                    let nb: u32 = stored as u32 + 1;
                    let newbsize: u32 = if nb == 65536 {
                        0
                    } else {
                        nb
                    };
                    proof {
                        if nb < 65536 {
                            vstd::arithmetic::div_mod::lemma_small_mod(nb as nat, 65536nat);
                        }
                        assert(newbsize as int == (le16(dseq[off as int + 4], dseq[off as int + 5])
                            + 1) % 65536);
                    }
                    bsize = newbsize;
                    rem = rem - 4 - sublen as u32;
                    off = off + 6;
                } else {
                    off = off + 4 + sublen as usize;
                    rem = rem - 4 - sublen as u32;
                }
            }
            proof {
                assert(hdr_xlen(dseq, pos as int) == xl);
                assert(hdr_walk(dseq, m) == w0);
                assert(at_walk(dseq, rc, ff, m));
            }
            match wout {
                WalkOut::TruncStop => {
                    proof {
                        lemma_step_walk_trunc(dseq, rc, ff, m, corr);
                    }
                    if ff && corr {
                        results = Results {
                            bad_blocks_count: results.bad_blocks_count + 1,
                            ..results
                        };
                        proof {
                            assert(run(dseq, rc, ff, steps + 1) == ff_exit(m));
                            lemma_scan_is(dseq, rc, ff, steps + 1);
                        }
                        return results;
                    }
                    let mut res2 = results;
                    res2.truncated_in_block = true;
                    let ghost m1 = Machine { truncated_in_block: true, ..m };
                    if ff {
                        res2.bad_blocks_count = res2.bad_blocks_count + 1;
                        proof {
                            assert(run(dseq, rc, ff, steps + 1) == ff_exit(m1));
                            lemma_scan_is(dseq, rc, ff, steps + 1);
                        }
                        return res2;
                    }
                    let res = finish(rc, ff, out, listener, res2, prev, Ghost(m1), Ghost(pre));
                    proof {
                        assert(run(dseq, rc, ff, steps + 1) == drain(m1, rc, ff));
                        lemma_scan_is(dseq, rc, ff, steps + 1);
                    }
                    return res;
                },
                WalkOut::OverrunStop => {
                    proof {
                        lemma_step_walk_overrun(dseq, rc, ff, m, corr);
                    }
                    if ff {
                        results = Results {
                            bad_blocks_count: results.bad_blocks_count + 1,
                            ..results
                        };
                        proof {
                            assert(run(dseq, rc, ff, steps + 1) == ff_exit(m));
                            lemma_scan_is(dseq, rc, ff, steps + 1);
                        }
                        return results;
                    }
                    let newpos = find_sync(data, pos + 1);
                    proof {
                        lemma_sync_from(dseq, pos as int + 1);
                        let m2 = Machine {
                            pos: sync_from(dseq, pos as int + 1),
                            prev_start: pos as int,
                            ..m
                        };
                        assert(run(dseq, rc, ff, steps + 1) == m2);
                        m = m2;
                        steps = steps + 1;
                        rfloor = pos as int + 1;
                        jr = true;
                    }
                    prev_start = pos;
                    pos = newpos;
                },
                WalkOut::Finished => {
                    if ff && corr {
                        results = Results {
                            bad_blocks_count: results.bad_blocks_count + 1,
                            ..results
                        };
                        proof {
                            lemma_step_walk_ffcorr(dseq, rc, ff, m, off as int, rem as int,
                                bsize as int);
                            assert(run(dseq, rc, ff, steps + 1) == ff_exit(m));
                            lemma_scan_is(dseq, rc, ff, steps + 1);
                        }
                        return results;
                    }
                    if rem != 0 || bsize == 0 {
                        if ff {
                            results = Results {
                                bad_blocks_count: results.bad_blocks_count + 1,
                                ..results
                            };
                            proof {
                                lemma_step_walk_resync(dseq, rc, ff, m, off as int, rem as int,
                                    bsize as int, corr);
                                assert(run(dseq, rc, ff, steps + 1) == ff_exit(m));
                                lemma_scan_is(dseq, rc, ff, steps + 1);
                            }
                            return results;
                        }
                        let newpos = find_sync(data, pos + 1);
                        proof {
                            lemma_sync_from(dseq, pos as int + 1);
                            let m2 = Machine {
                                pos: sync_from(dseq, pos as int + 1),
                                prev_start: pos as int,
                                ..m
                            };
                            lemma_step_walk_resync(dseq, rc, ff, m, off as int, rem as int,
                                bsize as int, corr);
                            assert(run(dseq, rc, ff, steps + 1) == m2);
                            m = m2;
                            steps = steps + 1;
                            rfloor = pos as int + 1;
                            jr = true;
                        }
                        prev_start = pos;
                        pos = newpos;
                    } else {
                        let r = capture_pass(
                            data,
                            rc,
                            ff,
                            out,
                            listener,
                            results,
                            prev,
                            pos,
                            off,
                            bsize,
                            corr,
                            xlen,
                            Ghost(m),
                            Ghost(steps),
                            Ghost(pre),
                        );
                        match r {
                            PassOut::Stop(res) => {
                                return res;
                            },
                            PassOut::Next(res, newprev, endp) => {
                                results = res;
                                prev = newprev;
                                proof {
                                    m = run(dseq, rc, ff, steps + 1);
                                    steps = steps + 1;
                                    jr = false;
                                    gfloor = pos as int + 1;
                                }
                                prev_start = pos;
                                pos = endp;
                            },
                        }
                    }
                },
            }
        }
    }
}


/// What one pass of the block loop decided, once a header parsed whole.
enum PassOut {
    /// The scan is over: the final results.
    Stop(Results),
    /// The scan goes on: the results so far, the captured block, and the
    /// position just after it.
    Next(Results, Option<Block>, usize),
}

/// Retires the pending block against the payload check: counts it bad and
/// drops it, or re-emits it.
fn retire_prev<L: ListenProgress>(
    rc: bool,
    ff: bool,
    out: &mut Vec<u8>,
    listener: &mut L,
    results: Results,
    prev: Option<Block>,
    Ghost(m): Ghost<Machine>,
    Ghost(pre): Ghost<Seq<u8>>,
) -> (r: (Results, bool))
    requires
        !m.done,
        opt_blk(prev) == m.prev,
        results_match(results, m),
        old(out)@ == pre + m.out,
        rc ==> emitted_ok(m) && pending_ok(m) && !m.terminator_appended,
        m.bad_blocks_count + (if m.prev is Some {
            1int
        } else {
            0int
        }) <= m.blocks_count,
        m.blocks_count + 2 <= u64::MAX,
    ensures
        ({
            let m1 = dispatch_prev(m, rc, ff);
            &&& results_match(r.0, m1)
            &&& final(out)@ == pre + m1.out
            &&& (rc ==> emitted_ok(m1) && !m1.terminator_appended)
            &&& m1.prev is None
            &&& r.1 == m1.done
        }),
{
    let st = process_payload(prev);
    let mut res = results;
    let mut fdone = false;
    if st.corrupted {
        res.bad_blocks_count = res.bad_blocks_count + 1;
        proof {
            lemma_wrap_u64(res.bad_blocks_size, st.inflated_payload_size as u64);
        }
        res.bad_blocks_size = res.bad_blocks_size.wrapping_add(st.inflated_payload_size as u64);
        listener.on_bad_block();
        if ff {
            res.bad_blocks_count = res.bad_blocks_count + 1;
            fdone = true;
        }
    } else {
        proof {
            if rc && m.prev is Some {
                let sb = m.prev->Some_0;
                assert(block_wf(block_bytes(sb))) by {
                    reveal(block_wf);
                }
                lemma_cat_push(m.emitted, block_bytes(sb));
            }
        }
        write_block(out, rc, &st.block);
    }
    match &st.block {
        Some(b) => listener.on_progress(b.end_position),
        None => {},
    }
    (res, fdone)
}

/// Copies one whole block out of the input.
fn capture_read(
    data: &[u8],
    rc: bool,
    pos: usize,
    off: usize,
    dsize: u32,
    corr: bool,
    xlen: u16,
) -> (b: Block)
    requires
        data@.len() + 70000 <= usize::MAX,
        pos + 12 <= data@.len(),
        off == pos + 12 + xlen as usize,
        hdr_xlen(data@, pos as int) == xlen,
        off + dsize as usize + 8 <= data@.len(),
    ensures
        blk(b) == capture_block(data@, rc, pos as int, off as int, dsize as int, corr),
        b.end_position == off + dsize as usize + 8,
{
    let hb = if rc {
        copy_range(data, pos, pos + 12 + xlen as usize)
    } else {
        copy_range(data, pos, pos + 12)
    };
    let payload = copy_range(data, off, off + dsize as usize);
    let crc = read_u32_le(data, off + dsize as usize);
    let isz = read_u32_le(data, off + dsize as usize + 4);
    Block {
        header_bytes: hb,
        deflated_payload: payload,
        inflated_payload_crc32: crc,
        inflated_payload_size: isz,
        corrupted: corr,
        end_position: (off + dsize as usize + 8) as u64,
    }
}

/// The tail of a pass whose header parsed whole: retires the previous block
/// and captures the current one.
#[verifier::rlimit(100)]
fn capture_pass<L: ListenProgress>(
    data: &[u8],
    rc: bool,
    ff: bool,
    out: &mut Vec<u8>,
    listener: &mut L,
    results: Results,
    prev: Option<Block>,
    pos: usize,
    off: usize,
    bsize: u32,
    corr: bool,
    xlen: u16,
    Ghost(m): Ghost<Machine>,
    Ghost(steps): Ghost<nat>,
    Ghost(pre): Ghost<Seq<u8>>,
) -> (r: PassOut)
    requires
        data@.len() + 70000 <= usize::MAX,
        m == run(data@, rc, ff, steps),
        !m.done,
        m.pos == pos as int,
        pos + 12 <= data@.len(),
        opt_blk(prev) == m.prev,
        results_match(results, m),
        old(out)@ == pre + m.out,
        !m.truncated_between_blocks,
        rc ==> emitted_ok(m) && pending_ok(m) && !m.terminator_appended,
        at_walk(data@, rc, ff, m),
        hdr_xlen(data@, pos as int) == xlen,
        hdr_walk(data@, m) == (WalkRes::Done {
            off: off as int,
            rem: 0,
            bsize: bsize as int,
            corrupt: corr,
        }),
        !(ff && corr),
        bsize != 0,
        bsize <= 65535,
        off == pos + 12 + xlen as usize,
        magic_score(data@, pos as int) == 3 ==> corr,
        m.blocks_count <= pos as int,
        m.bad_blocks_count + (if m.prev is Some {
            1int
        } else {
            0int
        }) <= m.blocks_count,
        0 <= m.bad_blocks_count,
    ensures
        r is Stop ==> {
            let sm = scan(data@, rc, ff);
            &&& results_match(r->Stop_0, sm)
            &&& final(out)@ == pre + sm.out
            &&& (rc ==> emitted_ok(sm))
            &&& (rc && !ff ==> sm.terminator_appended == sm.truncated_between_blocks)
        },
        r matches PassOut::Next(res, newprev, endp) ==> {
            let m2 = run(data@, rc, ff, steps + 1);
            &&& m2 == step(data@, rc, ff, m)
            &&& !m2.done
            &&& m2.pos == endp as int
            &&& m2.prev_start == pos as int
            &&& opt_blk(newprev) == m2.prev
            &&& results_match(res, m2)
            &&& final(out)@ == pre + m2.out
            &&& (rc ==> emitted_ok(m2) && pending_ok(m2) && !m2.terminator_appended)
            &&& !m2.truncated_between_blocks
            &&& pos < endp <= data@.len()
            &&& m2.blocks_count <= pos as int + 1
            &&& m2.bad_blocks_count + (if m2.prev is Some {
                1int
            } else {
                0int
            }) <= m2.blocks_count
            &&& 0 <= m2.bad_blocks_count
        },
{
    let ghost dseq = data@;
    let ghost xl = xlen as int;
    let n = data.len();
    let (res0, fdone) = retire_prev(rc, ff, out, listener, results, prev, Ghost(m), Ghost(pre));
    let ghost m1 = dispatch_prev(m, rc, ff);
    if fdone {
        proof {
            lemma_step_ff_dispatch(dseq, rc, ff, m, off as int, bsize as int, corr);
            assert(run(dseq, rc, ff, steps + 1) == m1);
            lemma_scan_is(dseq, rc, ff, steps + 1);
        }
        return PassOut::Stop(res0);
    }
    let mut results = res0;
    let dsize: u32 = (bsize + 131072 - 20 - xlen as u32) % 65536;
    let ghost dsz = (bsize as int - 20 - xl) % 65536;
    proof {
        vstd::arithmetic::div_mod::lemma_mod_multiples_vanish(2, bsize as int - 20 - xl, 65536);
        assert(65536 * 2 + (bsize as int - 20 - xl) == bsize as int + 131072 - 20 - xl);
        assert(dsize as int == dsz);
    }
    if off > n || (n - off) < (dsize as usize) || (n - off) - (dsize as usize) < 8 {
        let mut res2 = results;
        res2.truncated_in_block = true;
        let ghost m2 = Machine { truncated_in_block: true, ..m1 };
        proof {
            assert(!m1.done);
            lemma_step_payload_trunc(dseq, rc, ff, m, off as int, bsize as int, corr);
        }
        if ff {
            res2.bad_blocks_count = res2.bad_blocks_count + 1;
            proof {
                assert(run(dseq, rc, ff, steps + 1) == ff_exit(m2));
                lemma_scan_is(dseq, rc, ff, steps + 1);
            }
            return PassOut::Stop(res2);
        }
        let res = finish(rc, ff, out, listener, res2, None, Ghost(m2), Ghost(pre));
        proof {
            assert(run(dseq, rc, ff, steps + 1) == drain(m2, rc, ff));
            lemma_scan_is(dseq, rc, ff, steps + 1);
        }
        return PassOut::Stop(res);
    }
    let newb = capture_read(data, rc, pos, off, dsize, corr, xlen);
    let isz = newb.inflated_payload_size;
    results = Results { blocks_count: results.blocks_count + 1, ..results };
    proof {
        lemma_wrap_u64(results.blocks_size, isz as u64);
    }
    results = Results { blocks_size: results.blocks_size.wrapping_add(isz as u64), ..results };
    let endp = off + dsize as usize + 8;
    proof {
        let p = pos as int;
        let offi = off as int;
        let sb = blk(newb);
        let m2 = Machine {
            prev: Some(sb),
            blocks_count: m1.blocks_count + 1,
            blocks_size: wrap_add64(m1.blocks_size, sb.inflated_payload_size),
            pos: offi + dsz + 8,
            prev_start: p,
            ..m1
        };
        assert(!m1.done);
        lemma_step_capture(dseq, rc, ff, m, offi, bsize as int, corr);
        assert(sb == capture_block(dseq, rc, p, offi, dsz, corr));
        assert(step(dseq, rc, ff, m) == m2);
        assert(run(dseq, rc, ff, steps + 1) == m2);
        if rc {
            if !corr {
                assert(walk(dseq, p + 12, xl, xl, 0, false) == (WalkRes::Done {
                    off: offi,
                    rem: 0,
                    bsize: bsize as int,
                    corrupt: false,
                }));
            }
            lemma_capture_pending(dseq, p, offi, dsz, bsize as int, corr);
            assert(pending_ok(m2));
        }
    }
    PassOut::Next(results, Some(newb), endp)
}

} // verus!
