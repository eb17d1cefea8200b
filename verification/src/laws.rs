//! The scanner's laws: what a scan returns on a file that is a
//! concatenation of parseable blocks, and what follows for rescue — a clean
//! re-check of its output, idempotence on clean files, and the dropping of a
//! single bad block.

use vstd::prelude::*;

use crate::bytes::{le16, le32_bytes, lemma_le32_roundtrip};
use crate::model::{
    at_walk, block_bytes, block_isize, block_parseable, block_wf, bs_crc, bs_payload, bs_xlen,
    capture_block, cat, dispatch_prev, drain, hdr_walk, hdr_xlen, lemma_cat_push, lemma_scan_is,
    lemma_step_capture, lemma_step_eof, lemma_walk_shift, magic_score, payload_ok, run, scan,
    scan_init, status_corrupt, step, terminator_bytes, walk, wrap_add64, Machine, SpecBlock,
    WalkRes,
};

verus! {

/// The concatenation of the first `i` blocks.
pub open spec fn catp(bss: Seq<Seq<u8>>, i: int) -> Seq<u8> {
    cat(bss.subrange(0, i))
}

/// One more block extends the concatenation at its end.
pub proof fn lemma_catp_step(bss: Seq<Seq<u8>>, i: int)
    requires
        0 <= i < bss.len(),
    ensures
        catp(bss, i + 1) == catp(bss, i) + bss[i],
{
    assert(bss.subrange(0, i + 1).drop_last() =~= bss.subrange(0, i));
    assert(bss.subrange(0, i + 1).last() == bss[i]);
}

/// Each prefix concatenation is a prefix of the longer ones.
pub proof fn lemma_catp_prefix(bss: Seq<Seq<u8>>, i: int, j: int)
    requires
        0 <= i <= j <= bss.len(),
    ensures
        catp(bss, i).len() <= catp(bss, j).len(),
        catp(bss, j).subrange(0, catp(bss, i).len() as int) == catp(bss, i),
    decreases j - i,
{
    if i < j {
        lemma_catp_prefix(bss, i, j - 1);
        lemma_catp_step(bss, j - 1);
        assert(catp(bss, j).subrange(0, catp(bss, i).len() as int) =~= catp(bss, i));
    } else {
        assert(catp(bss, j).subrange(0, catp(bss, i).len() as int) =~= catp(bss, i));
    }
}

/// The whole input is the concatenation of all blocks.
pub proof fn lemma_catp_all(bss: Seq<Seq<u8>>)
    ensures
        catp(bss, bss.len() as int) == cat(bss),
{
    assert(bss.subrange(0, bss.len() as int) =~= bss);
}

/// Block `i` stands verbatim in the concatenation, just after the first `i`
/// blocks.
pub proof fn lemma_cat_block_at(bss: Seq<Seq<u8>>, i: int)
    requires
        0 <= i < bss.len(),
    ensures
        catp(bss, i).len() + bss[i].len() == catp(bss, i + 1).len(),
        cat(bss).subrange(
            catp(bss, i).len() as int,
            catp(bss, i).len() + bss[i].len() as int,
        ) == bss[i],
        catp(bss, i + 1).len() <= cat(bss).len(),
    decreases bss.len() - i,
{
    lemma_catp_step(bss, i);
    lemma_catp_prefix(bss, i + 1, bss.len() as int);
    lemma_catp_all(bss);
    let li = catp(bss, i).len() as int;
    let lj = catp(bss, i + 1).len() as int;
    assert(cat(bss).subrange(0, lj) == catp(bss, i + 1));
    assert forall|j: int| 0 <= j < bss[i].len() implies cat(bss).subrange(
        li,
        li + bss[i].len() as int,
    )[j] == bss[i][j] by {
        assert(cat(bss).subrange(0, lj)[li + j] == cat(bss)[li + j]);
        assert(catp(bss, i + 1)[li + j] == bss[i][j]);
    }
    assert(cat(bss).subrange(li, li + bss[i].len() as int) =~= bss[i]);
}

/// The number of blocks among the first `i` that fail the payload check.
pub open spec fn nbad(bss: Seq<Seq<u8>>, i: int) -> int
    decreases i,
{
    if i <= 0 {
        0
    } else {
        nbad(bss, i - 1) + if block_wf(bss[i - 1]) {
            0int
        } else {
            1int
        }
    }
}

/// The declared inflated sizes of the first `i` blocks, accumulated as the
/// scanner accumulates them.
pub open spec fn sum_isize(bss: Seq<Seq<u8>>, i: int) -> int
    decreases i,
{
    if i <= 0 {
        0
    } else {
        wrap_add64(sum_isize(bss, i - 1), block_isize(bss[i - 1]))
    }
}

/// The declared inflated sizes of the bad blocks among the first `i`.
pub open spec fn sum_bad_size(bss: Seq<Seq<u8>>, i: int) -> int
    decreases i,
{
    if i <= 0 {
        0
    } else if block_wf(bss[i - 1]) {
        sum_bad_size(bss, i - 1)
    } else {
        wrap_add64(sum_bad_size(bss, i - 1), block_isize(bss[i - 1]))
    }
}

/// The well-formed blocks among the first `i`, in order.
pub open spec fn good(bss: Seq<Seq<u8>>, i: int) -> Seq<Seq<u8>>
    decreases i,
{
    if i <= 0 {
        Seq::empty()
    } else if block_wf(bss[i - 1]) {
        good(bss, i - 1).push(bss[i - 1])
    } else {
        good(bss, i - 1)
    }
}

/// The block record the scanner captures from a parseable block's bytes.
pub open spec fn sb_of(bs: Seq<u8>, rc: bool) -> SpecBlock {
    SpecBlock {
        header_bytes: if rc {
            bs.subrange(0, 12 + bs_xlen(bs))
        } else {
            bs.subrange(0, 12)
        },
        deflated_payload: bs_payload(bs),
        inflated_payload_crc32: bs_crc(bs),
        inflated_payload_size: block_isize(bs),
        corrupted: false,
    }
}

/// Reassembling the record captured from a parseable block, extra field
/// included, gives the block's bytes back.
pub proof fn lemma_sb_roundtrip(bs: Seq<u8>)
    requires
        block_parseable(bs),
    ensures
        block_bytes(sb_of(bs, true)) == bs,
        payload_ok(sb_of(bs, true)) == block_wf(bs),
        payload_ok(sb_of(bs, false)) == block_wf(bs),
        status_corrupt(sb_of(bs, true)) == !block_wf(bs),
        status_corrupt(sb_of(bs, false)) == !block_wf(bs),
{
    reveal(block_parseable);
    reveal(block_wf);
    let nn = bs.len() as int;
    lemma_le32_roundtrip(bs[nn - 8], bs[nn - 7], bs[nn - 6], bs[nn - 5]);
    lemma_le32_roundtrip(bs[nn - 4], bs[nn - 3], bs[nn - 2], bs[nn - 1]);
    assert(le32_bytes(bs_crc(bs)) =~= bs.subrange(nn - 8, nn - 4));
    assert(le32_bytes(block_isize(bs)) =~= bs.subrange(nn - 4, nn));
    assert(block_bytes(sb_of(bs, true)) =~= bs);
}

/// The block size a parseable block's BGZF subfield declares.
pub open spec fn bs_bsize(bs: Seq<u8>) -> int {
    match walk(bs, 12, bs_xlen(bs), bs_xlen(bs), 0, false) {
        WalkRes::Done { off: _, rem: _, bsize, corrupt: _ } => bsize,
        _ => 0,
    }
}

/// How the scanner reads block `i` where it stands in the concatenation.
pub proof fn lemma_block_at(data: Seq<u8>, rc: bool, bss: Seq<Seq<u8>>, i: int)
    requires
        data == cat(bss),
        0 <= i < bss.len(),
        block_parseable(bss[i]),
    ensures
        ({
            let p = catp(bss, i).len() as int;
            let bs = bss[i];
            let xl = bs_xlen(bs);
            let dsz = bs.len() - 20 - xl;
            &&& p + bs.len() <= data.len()
            &&& p + bs.len() == catp(bss, i + 1).len()
            &&& bs.len() >= 20 + xl
            &&& 0 <= dsz
            &&& magic_score(data, p) == 4
            &&& hdr_xlen(data, p) == xl
            &&& 0 <= xl <= 65535
            &&& walk(data, p + 12, xl, xl, 0, false) == (WalkRes::Done {
                off: p + 12 + xl,
                rem: 0,
                bsize: bs_bsize(bs),
                corrupt: false,
            })
            &&& bs_bsize(bs) != 0
            &&& (bs_bsize(bs) - 20 - xl) % 65536 == dsz
            &&& capture_block(data, rc, p, p + 12 + xl, dsz, false) == sb_of(bs, rc)
        }),
{
    reveal(block_parseable);
    lemma_cat_block_at(bss, i);
    let p = catp(bss, i).len() as int;
    let bs = bss[i];
    let xl = bs_xlen(bs);
    let dsz = bs.len() - 20 - xl;
    assert forall|j: int| 0 <= j < bs.len() implies data[p + j] == #[trigger] bs[j] by {
        assert(data.subrange(p, p + bs.len() as int)[j] == bs[j]);
    }
    assert(hdr_xlen(data, p) == xl);
    assert(magic_score(data, p) == 4);
    assert(0 <= xl <= 65535) by {
        assert(xl == le16(bs[10], bs[11]));
    }
    lemma_walk_shift(bs, 12, data, p + 12, xl, xl, 0, false);
    let cb = capture_block(data, rc, p, p + 12 + xl, dsz, false);
    assert(cb.header_bytes =~= sb_of(bs, rc).header_bytes);
    assert(cb.deflated_payload =~= sb_of(bs, rc).deflated_payload);
    assert(cb.inflated_payload_crc32 == sb_of(bs, rc).inflated_payload_crc32);
    assert(cb.inflated_payload_size == sb_of(bs, rc).inflated_payload_size);
}

/// The machine at the boundary after the first `i` blocks of a
/// concatenation were read, the last of them still pending.
pub open spec fn boundary(data: Seq<u8>, rc: bool, bss: Seq<Seq<u8>>, i: int) -> Machine {
    if i <= 0 {
        scan_init()
    } else {
        Machine {
            pos: catp(bss, i).len() as int,
            prev_start: catp(bss, i - 1).len() as int,
            prev: Some(sb_of(bss[i - 1], rc)),
            blocks_count: i,
            blocks_size: sum_isize(bss, i),
            bad_blocks_count: nbad(bss, i - 1),
            bad_blocks_size: sum_bad_size(bss, i - 1),
            truncated_in_block: false,
            truncated_between_blocks: false,
            emitted: if rc {
                good(bss, i - 1)
            } else {
                Seq::empty()
            },
            out: if rc {
                cat(good(bss, i - 1))
            } else {
                Seq::empty()
            },
            terminator_appended: false,
            done: false,
        }
    }
}

/// One pass from a boundary reads exactly the next block and retires the
/// previous one.
pub proof fn lemma_boundary_step(data: Seq<u8>, rc: bool, ff: bool, bss: Seq<Seq<u8>>, i: int)
    requires
        data == cat(bss),
        forall|j: int| 0 <= j < bss.len() ==> block_parseable(#[trigger] bss[j]),
        ff ==> forall|j: int| 0 <= j < bss.len() ==> block_wf(#[trigger] bss[j]),
        0 <= i < bss.len(),
    ensures
        step(data, rc, ff, boundary(data, rc, bss, i)) == boundary(data, rc, bss, i + 1),
{
    let m = boundary(data, rc, bss, i);
    let bs = bss[i];
    let p = catp(bss, i).len() as int;
    let xl = bs_xlen(bs);
    let dsz = bs.len() - 20 - xl;
    let off = p + 12 + xl;
    lemma_block_at(data, rc, bss, i);
    lemma_catp_prefix(bss, 0, i);
    if i > 0 {
        lemma_catp_prefix(bss, i - 1, i);
    }
    assert(m.pos == p);
    assert(at_walk(data, rc, ff, m));
    assert(hdr_walk(data, m) == (WalkRes::Done {
        off,
        rem: 0,
        bsize: bs_bsize(bs),
        corrupt: false,
    }));
    let m1 = dispatch_prev(m, rc, ff);
    if i > 0 {
        lemma_sb_roundtrip(bss[i - 1]);
        if ff {
            assert(block_wf(bss[i - 1]));
        }
    }
    assert(!m1.done);
    lemma_step_capture(data, rc, ff, m, off, bs_bsize(bs), false);
    let b2 = boundary(data, rc, bss, i + 1);
    lemma_catp_step(bss, i);
    if i > 0 && rc && block_wf(bss[i - 1]) {
        lemma_cat_push(good(bss, i - 1), bss[i - 1]);
    }
    assert(step(data, rc, ff, m).prev == b2.prev);
    assert(step(data, rc, ff, m).out == b2.out);
    assert(step(data, rc, ff, m).emitted == b2.emitted);
    assert(step(data, rc, ff, m) == b2);
}

/// After `i` passes on a concatenation of parseable blocks the machine is
/// at the `i`-th boundary.
pub proof fn lemma_run_boundary(data: Seq<u8>, rc: bool, ff: bool, bss: Seq<Seq<u8>>, i: int)
    requires
        data == cat(bss),
        forall|j: int| 0 <= j < bss.len() ==> block_parseable(#[trigger] bss[j]),
        ff ==> forall|j: int| 0 <= j < bss.len() ==> block_wf(#[trigger] bss[j]),
        0 <= i <= bss.len(),
    ensures
        run(data, rc, ff, i as nat) == boundary(data, rc, bss, i),
    decreases i,
{
    if i > 0 {
        lemma_run_boundary(data, rc, ff, bss, i - 1);
        lemma_boundary_step(data, rc, ff, bss, i - 1);
    }
}

/// What a whole scan returns on a concatenation of parseable blocks: every
/// block is counted, exactly the payload-invalid ones are bad, the
/// well-formed ones are re-emitted verbatim and in order, and the file is
/// truncated between blocks exactly when the last block is non-empty.
pub proof fn lemma_scan_concat(data: Seq<u8>, rc: bool, ff: bool, bss: Seq<Seq<u8>>)
    requires
        data == cat(bss),
        forall|j: int| 0 <= j < bss.len() ==> block_parseable(#[trigger] bss[j]),
        ff ==> forall|j: int| 0 <= j < bss.len() ==> block_wf(#[trigger] bss[j]),
    ensures
        ({
            let sm = scan(data, rc, ff);
            let nn = bss.len() as int;
            let tb = nn > 0 && block_isize(bss.last()) != 0;
            &&& sm.blocks_count == nn
            &&& sm.blocks_size == sum_isize(bss, nn)
            &&& sm.bad_blocks_count == nbad(bss, nn)
            &&& sm.bad_blocks_size == sum_bad_size(bss, nn)
            &&& !sm.truncated_in_block
            &&& sm.truncated_between_blocks == tb
            &&& sm.emitted == (if rc {
                good(bss, nn)
            } else {
                Seq::<Seq<u8>>::empty()
            })
            &&& sm.terminator_appended == (rc && tb)
            &&& sm.out == (if rc {
                cat(good(bss, nn)) + (if tb {
                    terminator_bytes()
                } else {
                    Seq::<u8>::empty()
                })
            } else {
                Seq::<u8>::empty()
            })
        }),
{
    let nn = bss.len() as int;
    lemma_run_boundary(data, rc, ff, bss, nn);
    let m = boundary(data, rc, bss, nn);
    lemma_catp_all(bss);
    lemma_step_eof(data, rc, ff, m);
    if nn > 0 {
        lemma_sb_roundtrip(bss[nn - 1]);
        if ff {
            assert(block_wf(bss[nn - 1]));
        }
        if rc && block_wf(bss[nn - 1]) {
            lemma_cat_push(good(bss, nn - 1), bss[nn - 1]);
        }
    }
    let dm = drain(m, rc, ff);
    assert(run(data, rc, ff, (nn + 1) as nat) == dm);
    lemma_scan_is(data, rc, ff, (nn + 1) as nat);
}

/// In a list of well-formed blocks nothing is bad and everything is kept.
pub proof fn lemma_all_wf(bss: Seq<Seq<u8>>, i: int)
    requires
        forall|j: int| 0 <= j < bss.len() ==> block_wf(#[trigger] bss[j]),
        0 <= i <= bss.len(),
    ensures
        nbad(bss, i) == 0,
        sum_bad_size(bss, i) == 0,
        good(bss, i) == bss.subrange(0, i),
    decreases i,
{
    if i > 0 {
        lemma_all_wf(bss, i - 1);
        assert(good(bss, i) =~= bss.subrange(0, i));
    } else {
        assert(good(bss, i) =~= bss.subrange(0, i));
    }
}

/// With a single bad block, exactly one block is dropped.
pub proof fn lemma_single_bad(bss: Seq<Seq<u8>>, k: int, i: int)
    requires
        forall|j: int| 0 <= j < bss.len() && j != k ==> block_wf(#[trigger] bss[j]),
        0 <= k < bss.len(),
        !block_wf(bss[k]),
        0 <= i <= bss.len(),
    ensures
        nbad(bss, i) == (if i > k {
            1int
        } else {
            0int
        }),
        good(bss, i) == (if i > k {
            bss.subrange(0, i).remove(k)
        } else {
            bss.subrange(0, i)
        }),
    decreases i,
{
    if i > 0 {
        lemma_single_bad(bss, k, i - 1);
        if i - 1 > k {
            assert(good(bss, i) =~= bss.subrange(0, i).remove(k));
        } else if i - 1 == k {
            assert(good(bss, i) =~= bss.subrange(0, i).remove(k));
        } else {
            assert(good(bss, i) =~= bss.subrange(0, i));
        }
    } else {
        assert(good(bss, i) =~= bss.subrange(0, i));
    }
}

/// A well-formed BGZF file — a concatenation of well-formed blocks whose
/// last block is empty — checks clean: every gzip member is counted, none
/// is bad, and neither truncation flag is set.  This holds with or without
/// fail-fast.
pub proof fn lemma_check_well_formed(data: Seq<u8>, bss: Seq<Seq<u8>>, ff: bool)
    requires
        data == cat(bss),
        forall|j: int| 0 <= j < bss.len() ==> block_wf(#[trigger] bss[j]),
        bss.len() > 0 ==> block_isize(bss.last()) == 0,
    ensures
        scan(data, false, ff).blocks_count == bss.len(),
        scan(data, false, ff).bad_blocks_count == 0,
        !scan(data, false, ff).truncated_in_block,
        !scan(data, false, ff).truncated_between_blocks,
{
    assert forall|j: int| 0 <= j < bss.len() implies block_parseable(#[trigger] bss[j]) by {
        reveal(block_wf);
    }
    lemma_scan_concat(data, false, ff, bss);
    lemma_all_wf(bss, bss.len() as int);
}

/// Rescue re-emits a clean file unchanged: on a concatenation of
/// well-formed blocks ending with an empty block (or on an empty input),
/// the output is the input itself, with nothing appended.  Applied to the
/// output of a rescue, this is the idempotence of rescue.
pub proof fn lemma_rescue_verbatim(data: Seq<u8>, bss: Seq<Seq<u8>>)
    requires
        data == cat(bss),
        forall|j: int| 0 <= j < bss.len() ==> block_wf(#[trigger] bss[j]),
        bss.len() > 0 ==> block_isize(bss.last()) == 0,
    ensures
        scan(data, true, false).out == data,
        scan(data, true, false).bad_blocks_count == 0,
        !scan(data, true, false).terminator_appended,
{
    assert forall|j: int| 0 <= j < bss.len() implies block_parseable(#[trigger] bss[j]) by {
        reveal(block_wf);
    }
    lemma_scan_concat(data, true, false, bss);
    lemma_all_wf(bss, bss.len() as int);
    assert(bss.subrange(0, bss.len() as int) =~= bss);
    assert(scan(data, true, false).out =~= data);
}

/// When block `k` is the only corrupt block of a parseable concatenation,
/// the rescue output is the other blocks verbatim and in order, plus the
/// canonical empty block exactly when the last block was non-empty.
pub proof fn lemma_rescue_single_bad(data: Seq<u8>, bss: Seq<Seq<u8>>, k: int)
    requires
        data == cat(bss),
        forall|j: int| 0 <= j < bss.len() ==> block_parseable(#[trigger] bss[j]),
        forall|j: int| 0 <= j < bss.len() && j != k ==> block_wf(#[trigger] bss[j]),
        0 <= k < bss.len(),
        !block_wf(bss[k]),
    ensures
        scan(data, true, false).out == cat(bss.remove(k)) + (if block_isize(bss.last()) != 0 {
            terminator_bytes()
        } else {
            Seq::<u8>::empty()
        }),
        scan(data, true, false).blocks_count == bss.len(),
        scan(data, true, false).bad_blocks_count == 1,
        !scan(data, true, false).truncated_in_block,
{
    lemma_scan_concat(data, true, false, bss);
    lemma_single_bad(bss, k, bss.len() as int);
    assert(bss.subrange(0, bss.len() as int) =~= bss);
}

/// The declared inflated size of the canonical empty block is zero.
pub proof fn lemma_terminator_empty()
    ensures
        block_isize(terminator_bytes()) == 0,
{
}

/// A rescue output — well-formed blocks, the canonical empty block possibly
/// after them — re-checks clean: no bad block, no truncation inside a
/// block, and truncation between blocks only when nothing terminated a
/// trailing non-empty block.
pub proof fn lemma_recheck_clean(g: Seq<u8>, bss: Seq<Seq<u8>>, term: bool, ff: bool)
    requires
        g == cat(bss) + (if term {
            terminator_bytes()
        } else {
            Seq::<u8>::empty()
        }),
        forall|j: int| 0 <= j < bss.len() ==> block_wf(#[trigger] bss[j]),
        term ==> block_wf(terminator_bytes()),
    ensures
        ({
            let cm = scan(g, false, ff);
            &&& cm.bad_blocks_count == 0
            &&& !cm.truncated_in_block
            &&& cm.blocks_count == bss.len() + (if term {
                1int
            } else {
                0int
            })
            &&& cm.truncated_between_blocks == (!term && bss.len() > 0 && block_isize(bss.last())
                != 0)
        }),
{
    let bss2 = if term {
        bss.push(terminator_bytes())
    } else {
        bss
    };
    if term {
        lemma_cat_push(bss, terminator_bytes());
        assert(g =~= cat(bss2));
        lemma_terminator_empty();
    } else {
        assert(g =~= cat(bss));
    }
    assert forall|j: int| 0 <= j < bss2.len() implies block_wf(#[trigger] bss2[j]) by {
        if j < bss.len() {
            assert(block_wf(bss[j]));
        }
    }
    assert forall|j: int| 0 <= j < bss2.len() implies block_parseable(#[trigger] bss2[j]) by {
        assert(block_wf(bss2[j]));
        reveal(block_wf);
    }
    lemma_scan_concat(g, false, ff, bss2);
    lemma_all_wf(bss2, bss2.len() as int);
}

} // verus!
