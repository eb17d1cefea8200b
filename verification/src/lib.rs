//! Checker and rescuer for BGZF-framed files (the container format of BAM).
//!
//! A BGZF file is a concatenation of gzip members, each carrying an extra
//! subfield that declares the member's total size.  The scanner walks the
//! file, validates each block's header and payload (inflate, CRC32, length),
//! resynchronises after unrecoverable header damage, and reports how many
//! blocks are corrupted and how the file is truncated.  In rescue mode the
//! intact blocks are re-emitted verbatim, followed by the canonical empty
//! block when the input lacked one.

use vstd::prelude::*;

pub mod bytes;
pub mod codec;
pub mod laws;
pub mod model;
pub mod scan;

verus! {

/// Totals accumulated over one scan of a file.
pub struct Results {
    /// Number of blocks whose framing could be parsed.
    pub blocks_count: u64,
    /// Sum of the declared inflated sizes of those blocks (modulo 2^64).
    pub blocks_size: u64,
    /// Number of blocks found corrupted.
    pub bad_blocks_count: u64,
    /// Sum of the declared inflated sizes of the corrupted blocks (modulo 2^64).
    pub bad_blocks_size: u64,
    /// The input ended in the middle of a block.
    pub truncated_in_block: bool,
    /// The input ended after a non-empty block instead of the empty terminator.
    pub truncated_between_blocks: bool,
}

/// Callbacks through which a caller observes the progress of a scan.
///
/// The scanner calls `on_new_target` once at the start with the input length,
/// `on_progress` after each block is retired, `on_bad_block` for each
/// corruption counted, and `on_finished` when a scan runs to completion.
pub trait ListenProgress {
    fn on_new_target(&mut self, target: u64);
    fn on_progress(&mut self, progress: u64);
    fn on_bad_block(&mut self);
    fn on_finished(&mut self);
}

/// A progress listener that ignores every callback.
pub struct NoProgress;

impl ListenProgress for NoProgress {
    fn on_new_target(&mut self, _target: u64) {
    }

    fn on_progress(&mut self, _progress: u64) {
    }

    fn on_bad_block(&mut self) {
    }

    fn on_finished(&mut self) {
    }
}

/// The crate's version string.
pub fn version() -> (r: &'static str) {
    "0.1.0"
}

/// Scans a BGZF file held in `data` and reports how many blocks it holds,
/// how many are corrupted, and whether it is truncated inside a block or
/// between blocks.  With `fail_fast` the scan stops at the first corruption.
/// Blocks are validated in discovery order whatever the thread budget, so
/// the results depend on the bytes and `fail_fast` alone.  The input must
/// leave a little address-space headroom, for offset arithmetic inside
/// damaged extra fields.
pub fn check<L: ListenProgress>(
    data: &[u8],
    fail_fast: bool,
    _threads: usize,
    progress: &mut L,
) -> (r: Results)
    requires
        data@.len() + 70000 <= usize::MAX,
    ensures
        ({
            let m = model::scan(data@, false, fail_fast);
            &&& r.blocks_count == m.blocks_count
            &&& r.blocks_size == m.blocks_size
            &&& r.bad_blocks_count == m.bad_blocks_count
            &&& r.bad_blocks_size == m.bad_blocks_size
            &&& r.truncated_in_block == m.truncated_in_block
            &&& r.truncated_between_blocks == m.truncated_between_blocks
        }),
{
    let mut sink: Vec<u8> = Vec::new();
    scan::process(data, false, fail_fast, &mut sink, progress)
}

/// Scans a BGZF file held in `data`, appends every intact block verbatim to
/// `writer`, and appends the canonical empty block when the input ended
/// after a non-empty block.  Reports the same results as `check` without
/// fail-fast, and guarantees that what was written re-checks clean: every
/// block written is well formed, and the stream ends with an empty block
/// whenever a terminator was owed.
pub fn rescue<L: ListenProgress>(
    data: &[u8],
    writer: &mut Vec<u8>,
    _threads: usize,
    progress: &mut L,
) -> (r: Results)
    requires
        data@.len() + 70000 <= usize::MAX,
    ensures
        ({
            let m = model::scan(data@, true, false);
            &&& r.blocks_count == m.blocks_count
            &&& r.blocks_size == m.blocks_size
            &&& r.bad_blocks_count == m.bad_blocks_count
            &&& r.bad_blocks_size == m.bad_blocks_size
            &&& r.truncated_in_block == m.truncated_in_block
            &&& r.truncated_between_blocks == m.truncated_between_blocks
            &&& final(writer)@ == old(writer)@ + m.out
            &&& model::emitted_ok(m)
            &&& m.terminator_appended == m.truncated_between_blocks
        }),
        ({
            let m = model::scan(data@, true, false);
            forall|ffx: bool|
                {
                    &&& (#[trigger] model::scan(m.out, false, ffx)).bad_blocks_count == 0
                    &&& !model::scan(m.out, false, ffx).truncated_in_block
                    &&& model::scan(m.out, false, ffx).blocks_count == m.emitted.len() + (
                    if m.terminator_appended {
                        1int
                    } else {
                        0int
                    })
                    &&& model::scan(m.out, false, ffx).truncated_between_blocks == (
                    !m.terminator_appended && m.emitted.len() > 0 && model::block_isize(
                        m.emitted.last(),
                    ) != 0)
                }
        }),
        ({
            let m = model::scan(data@, true, false);
            (m.terminator_appended || m.emitted.len() == 0 || model::block_isize(m.emitted.last())
                == 0) ==> model::scan(m.out, true, false).out == m.out
        }),
{
    let r = scan::process(data, true, false, writer, progress);
    proof {
        let m = model::scan(data@, true, false);
        assert forall|ffx: bool|
            {
                &&& (#[trigger] model::scan(m.out, false, ffx)).bad_blocks_count == 0
                &&& !model::scan(m.out, false, ffx).truncated_in_block
                &&& model::scan(m.out, false, ffx).blocks_count == m.emitted.len() + (
                if m.terminator_appended {
                    1int
                } else {
                    0int
                })
                &&& model::scan(m.out, false, ffx).truncated_between_blocks == (
                !m.terminator_appended && m.emitted.len() > 0 && model::block_isize(
                    m.emitted.last(),
                ) != 0)
            } by {
            laws::lemma_recheck_clean(m.out, m.emitted, m.terminator_appended, ffx);
        }
        if m.terminator_appended || m.emitted.len() == 0 || model::block_isize(m.emitted.last())
            == 0 {
            if m.terminator_appended {
                let bss2 = m.emitted.push(model::terminator_bytes());
                model::lemma_cat_push(m.emitted, model::terminator_bytes());
                laws::lemma_terminator_empty();
                assert(m.out =~= model::cat(bss2));
                assert forall|j: int| 0 <= j < bss2.len() implies model::block_wf(
                    #[trigger] bss2[j],
                ) by {
                    if j < m.emitted.len() {
                        assert(model::block_wf(m.emitted[j]));
                    }
                }
                laws::lemma_rescue_verbatim(m.out, bss2);
            } else {
                assert(m.out =~= model::cat(m.emitted));
                laws::lemma_rescue_verbatim(m.out, m.emitted);
            }
        }
    }
    r
}

} // verus!
