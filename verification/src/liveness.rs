//! Liveness of a whole function, block by block, and the register pressure
//! that follows from it.

use crate::block_liveness::BlockLiveness;
use crate::ir::Function;
use crate::ir::Op;
use crate::ir::PerRegFile;
use crate::ir::RegFile;
use crate::ir::SSAValue;
use crate::ir::max_u32;
use crate::live_set::LiveSet;
use crate::live_set::after_instr;
use crate::live_set::dead_dsts_tracked;
use crate::live_set::live_after_ip;
use crate::live_set::peak_at_instr;
use crate::value_set::count_in_file;
use vstd::prelude::*;

verus! {

/// The values that the pressure walk holds live before instruction `ip` of
/// block `b`, where `bls` is the liveness of each block.
///
/// The walk takes the blocks in order.  It enters a block with the values
/// that it held at the end of the first predecessor of the block and that
/// are live at the start of the block, and with nothing if the block has
/// no predecessor.  This follows the first predecessor only: it is exact
/// for the values that are live along that edge, and no dataflow fixed
/// point.
pub open spec fn live_before<B: BlockLiveness>(bls: Seq<B>, f: Function, b: int, ip: int) -> Set<
    SSAValue,
>
    decreases b, ip,
{
    if b < 0 || b >= f.blocks.len() {
        Set::empty()
    } else if ip <= 0 {
        if f.blocks[b].preds.len() > 0 && f.blocks[b].preds[0] < b {
            let pred = f.blocks[b].preds[0] as int;
            live_before(bls, f, pred, f.blocks[pred].instrs.len() as int).filter(
                |v: SSAValue| bls[b].live_in(v),
            )
        } else {
            Set::empty()
        }
    } else {
        after_instr(
            live_before(bls, f, b, ip - 1),
            live_after_ip(&bls[b], ip - 1),
            f.blocks[b].instrs[ip - 1],
        )
    }
}

/// The number of values of `file` that are needed at instruction `ip` of
/// block `b`: the peak of the live values while it runs and, for general
/// purpose registers at an instruction that hands registers out, the
/// number of registers that it hands out.
pub open spec fn pressure_at<B: BlockLiveness>(
    bls: Seq<B>,
    f: Function,
    b: int,
    ip: int,
    file: RegFile,
) -> nat {
    let instr = f.blocks[b].instrs[ip];
    let peak = peak_at_instr(live_before(bls, f, b, ip), live_after_ip(&bls[b], ip), instr, file);
    if instr.op == Op::RegOut && file == RegFile::GPR && instr.srcs.len() > peak {
        instr.srcs.len() as nat
    } else {
        peak
    }
}

/// The highest pressure in `file` at any instruction before instruction
/// `ip` of block `b`, in the order of the walk.
pub open spec fn max_pressure_before<B: BlockLiveness>(
    bls: Seq<B>,
    f: Function,
    b: int,
    ip: int,
    file: RegFile,
) -> nat
    decreases b, ip,
{
    if b < 0 {
        0
    } else if ip > 0 {
        let before = max_pressure_before(bls, f, b, ip - 1, file);
        let here = pressure_at(bls, f, b, ip - 1, file);
        if before >= here {
            before
        } else {
            here
        }
    } else if b > 0 {
        max_pressure_before(bls, f, b - 1, f.blocks[b - 1].instrs.len() as int, file)
    } else {
        0
    }
}

/// What the pressure walk needs of the function and its liveness: the
/// first predecessor of a block comes before the block; where a
/// destination is dead at once, no dying source has taken it out of the
/// live set; and where an instruction hands registers out, no general
/// purpose register is live after it and the number of registers it hands
/// out fits the count.
pub open spec fn walk_ok<B: BlockLiveness>(bls: Seq<B>, f: Function) -> bool {
    &&& forall|b: int|
        0 <= b < f.blocks.len() && f.blocks[b].preds.len() > 0 ==> (
        #[trigger] f.blocks[b]).preds[0] < b
    &&& forall|b: int, ip: int|
        0 <= b < f.blocks.len() && 0 <= ip < f.blocks[b].instrs.len() ==> {
            &&& dead_dsts_tracked(
                #[trigger] live_before(bls, f, b, ip),
                live_after_ip(&bls[b], ip),
                f.blocks[b].instrs[ip],
            )
            &&& f.blocks[b].instrs[ip].op == Op::RegOut ==> {
                &&& count_in_file(live_before(bls, f, b, ip + 1), RegFile::GPR) == 0
                &&& f.blocks[b].instrs[ip].srcs.len() <= u32::MAX
            }
        }
}

/// A length as a count of registers.
fn count_of_len(len: usize) -> (n: u32)
    requires
        len <= u32::MAX,
    ensures
        n == len,
{
    len as u32
}

/// The result of a liveness analysis of a function: the liveness of each of
/// its blocks.
pub trait Liveness {
    /// What the analysis says of one block.
    type PerBlock: BlockLiveness;

    /// What the implementation needs of its own data to answer.
    spec fn wf(&self) -> bool;

    /// The number of blocks that the analysis covers.
    spec fn num_blocks(&self) -> nat;

    /// The liveness of block `idx`.
    spec fn block(&self, idx: int) -> Self::PerBlock;

    /// The liveness of block `idx`.
    fn block_live(&self, idx: usize) -> (bl: &Self::PerBlock)
        requires
            self.wf(),
            idx < self.num_blocks(),
        ensures
            *bl == self.block(idx as int),
            bl.wf(),
    ;

    /// The highest number of values of each register file that are live
    /// together anywhere in `f`, found in one walk over its blocks.
    fn calc_max_live(&self, f: &Function) -> (max_live: PerRegFile<u32>)
        requires
            self.wf(),
            f.blocks.len() <= self.num_blocks(),
            walk_ok(Seq::new(self.num_blocks(), |b: int| self.block(b)), *f),
        ensures
            forall|file: RegFile|
                #[trigger] max_live.at(file) == max_pressure_before(
                    Seq::new(self.num_blocks(), |b: int| self.block(b)),
                    *f,
                    f.blocks.len() as int,
                    0,
                    file,
                ),
    {
        let ghost bls = Seq::new(self.num_blocks(), |b: int| self.block(b));
        let mut max_live: PerRegFile<u32> = PerRegFile::zero();
        let mut block_live_out: Vec<LiveSet> = Vec::new();

        let mut bb_idx: usize = 0;
        while bb_idx < f.blocks.len()
            invariant
                bb_idx <= f.blocks.len(),
                self.wf(),
                f.blocks.len() <= self.num_blocks(),
                bls == Seq::new(self.num_blocks(), |b: int| self.block(b)),
                walk_ok(bls, *f),
                block_live_out.len() == bb_idx,
                forall|j: int|
                    0 <= j < bb_idx ==> (#[trigger] block_live_out[j]).wf() && block_live_out[j]@
                        == live_before(bls, *f, j, f.blocks[j].instrs.len() as int),
                forall|file: RegFile|
                    #[trigger] max_live.at(file) == max_pressure_before(
                        bls,
                        *f,
                        bb_idx as int,
                        0,
                        file,
                    ),
            decreases f.blocks.len() - bb_idx,
        {
            let bb = &f.blocks[bb_idx];
            let bl = self.block_live(bb_idx);
            assert(*bl == bls[bb_idx as int]);

            let mut live = LiveSet::new();

            // Predecessors are added in block order, so the first one, if
            // there is any, is a block that has been walked.
            if bb.preds.len() > 0 {
                let pred_idx = bb.preds[0];
                assert(f.blocks[bb_idx as int].preds[0] < bb_idx);
                let pred_out = &block_live_out[pred_idx];
                let values = pred_out.iter();
                let mut i: usize = 0;
                assert(values@.take(0).to_set() =~= Set::<SSAValue>::empty());
                assert(live@ =~= values@.take(0).to_set().filter(|v: SSAValue| bl.live_in(v)));
                while i < values.len()
                    invariant
                        i <= values.len(),
                        bl.wf(),
                        live.wf(),
                        live@ == values@.take(i as int).to_set().filter(
                            |v: SSAValue| bl.live_in(v),
                        ),
                    decreases values.len() - i,
                {
                    let ssa = values[i];
                    proof {
                        assert(values@.take(i + 1) =~= values@.take(i as int).push(ssa));
                        values@.take(i as int).lemma_push_to_set_commute(ssa);
                    }
                    if bl.is_live_in(&ssa) {
                        live.insert(ssa);
                    }
                    assert(live@ =~= values@.take(i + 1).to_set().filter(
                        |v: SSAValue| bl.live_in(v),
                    ));
                    i += 1;
                }
                assert(values@.take(i as int) =~= values@);
                assert(live@ =~= live_before(bls, *f, bb_idx as int, 0));
            }
            assert(live@ == live_before(bls, *f, bb_idx as int, 0));

            let mut ip: usize = 0;
            while ip < bb.instrs.len()
                invariant
                    ip <= bb.instrs.len(),
                    bb_idx < f.blocks.len(),
                    *bb == f.blocks[bb_idx as int],
                    *bl == bls[bb_idx as int],
                    bl.wf(),
                    walk_ok(bls, *f),
                    live.wf(),
                    live@ == live_before(bls, *f, bb_idx as int, ip as int),
                    forall|file: RegFile|
                        #[trigger] max_live.at(file) == max_pressure_before(
                            bls,
                            *f,
                            bb_idx as int,
                            ip as int,
                            file,
                        ),
                decreases bb.instrs.len() - ip,
            {
                let instr = &bb.instrs[ip];
                let ghost before = live@;
                assert(before == live_before(bls, *f, bb_idx as int, ip as int));
                let live_at_instr = live.insert_instr_top_down(ip, instr, bl);
                let ghost seen = max_live;
                max_live = max_live.max(&live_at_instr);

                match instr.op {
                    Op::RegOut => {
                        // This should be the last instruction.  Everything
                        // should be dead once it has been walked.
                        assert(live@ == live_before(bls, *f, bb_idx as int, ip + 1));
                        assert(count_in_file(live@, RegFile::GPR) == 0);
                        let num_gprs_out = count_of_len(instr.srcs.len());
                        let gprs = max_u32(*max_live.get(RegFile::GPR), num_gprs_out);
                        max_live.set(RegFile::GPR, gprs);
                    },
                    Op::Other => {},
                }
                proof {
                    assert forall|file: RegFile|
                        #[trigger] max_live.at(file) == max_pressure_before(
                            bls,
                            *f,
                            bb_idx as int,
                            ip + 1,
                            file,
                        ) by {
                        assert(seen.at(file) == max_pressure_before(
                            bls,
                            *f,
                            bb_idx as int,
                            ip as int,
                            file,
                        ));
                        assert(live_at_instr.at(file) == peak_at_instr(
                            before,
                            live_after_ip(bl, ip as int),
                            *instr,
                            file,
                        ));
                    }
                }
                ip += 1;
            }

            block_live_out.push(live);
            bb_idx += 1;
        }

        max_live
    }
}

} // verus!
