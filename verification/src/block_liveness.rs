//! What liveness says about one basic block, and the register pressure of
//! one instruction that follows from it.

use crate::ir::DstKind;
use crate::ir::Instr;
use crate::ir::PerRegFile;
use crate::ir::RegFile;
use crate::ir::SSAValue;
use crate::value_set::ValueSet;
use crate::value_set::count_in_file;
use crate::value_set::in_file;
use crate::value_set::lemma_count_insert;
use crate::value_set::lemma_in_file_finite;
use vstd::prelude::*;
use vstd::set_lib::lemma_len_subset;

verus! {

/// How many entries of `s` live in `file`, repeated entries counted each
/// time.
pub open spec fn occurrences_in_file(s: Seq<SSAValue>, file: RegFile) -> nat
    decreases s.len(),
{
    if s.len() == 0 {
        0
    } else {
        occurrences_in_file(s.drop_last(), file) + if s.last().file() == file {
            1nat
        } else {
            0nat
        }
    }
}

/// A prefix has no more occurrences than the whole sequence.
pub proof fn lemma_occurrences_prefix(s: Seq<SSAValue>, i: int, file: RegFile)
    requires
        0 <= i <= s.len(),
    ensures
        occurrences_in_file(s.take(i), file) <= occurrences_in_file(s, file),
    decreases s.len() - i,
{
    if i < s.len() {
        lemma_occurrences_prefix(s, i + 1, file);
        assert(s.take(i + 1).drop_last() =~= s.take(i));
    } else {
        assert(s.take(i) =~= s);
    }
}

/// The members of `vals` that `live` does not hold of: those that are dead
/// where `live` says which values are live.
pub open spec fn dead_among(live: spec_fn(SSAValue) -> bool, vals: Set<SSAValue>) -> Set<
    SSAValue,
> {
    vals.filter(|v: SSAValue| !live(v))
}

/// The sources of `instr` that die at it, each counted once however often
/// the instruction reads it.  `live` says which values are live after the
/// instruction.
pub open spec fn killed_by(live: spec_fn(SSAValue) -> bool, instr: Instr) -> Set<SSAValue> {
    dead_among(live, instr.uses().to_set())
}

/// The pressure in `file` once the vector destinations of `instr` are live
/// and before any of its sources has died.
pub open spec fn pressure_with_vectors(instr: Instr, file: RegFile) -> int {
    occurrences_in_file(instr.vector_defs(), file) as int
}

/// The pressure in `file` once the dying sources of `instr` are gone.
pub open spec fn pressure_after_kills(
    live: spec_fn(SSAValue) -> bool,
    instr: Instr,
    file: RegFile,
) -> int {
    pressure_with_vectors(instr, file) - count_in_file(killed_by(live, instr), file)
}

/// The pressure in `file` once the scalar destinations of `instr` are live
/// too.
pub open spec fn pressure_with_scalars(
    live: spec_fn(SSAValue) -> bool,
    instr: Instr,
    file: RegFile,
) -> int {
    pressure_after_kills(live, instr, file) + occurrences_in_file(instr.scalar_defs(), file)
}

/// The pressure that `instr` adds in `file`, where `live` says which
/// values are live after it: the higher of the two points at which it
/// peaks.  It is never negative.
pub open spec fn instr_pressure(
    live: spec_fn(SSAValue) -> bool,
    instr: Instr,
    file: RegFile,
) -> int {
    if pressure_with_vectors(instr, file) >= pressure_with_scalars(live, instr, file) {
        pressure_with_vectors(instr, file)
    } else {
        pressure_with_scalars(live, instr, file)
    }
}

/// Two entries of `file` make two occurrences at least.
pub proof fn lemma_two_occurrences(s: Seq<SSAValue>, file: RegFile, i: int, j: int)
    requires
        0 <= i < j < s.len(),
        s[i].file() == file,
        s[j].file() == file,
    ensures
        occurrences_in_file(s, file) >= 2,
{
    let upto_i = s.take(i + 1);
    let upto_j = s.take(j + 1);
    assert(upto_i.drop_last() =~= s.take(i));
    assert(upto_j.drop_last() =~= s.take(j));
    assert(s.take(j).take(i + 1) =~= upto_i);
    lemma_occurrences_prefix(s.take(j), i + 1, file);
    lemma_occurrences_prefix(s, j + 1, file);
}

/// The pressure of an instruction counts its vector destinations together
/// with the sources that it is about to kill: where two components of its
/// vector destinations are in `file`, the pressure in `file` is two at
/// least, however many sources of `file` die at the instruction.
pub proof fn lemma_pressure_counts_vector_before_kills(
    live: spec_fn(SSAValue) -> bool,
    instr: Instr,
    file: RegFile,
    i: int,
    j: int,
)
    requires
        0 <= i < j < instr.vector_defs().len(),
        instr.vector_defs()[i].file() == file,
        instr.vector_defs()[j].file() == file,
    ensures
        instr_pressure(live, instr, file) >= pressure_with_vectors(instr, file),
        instr_pressure(live, instr, file) >= 2,
{
    lemma_two_occurrences(instr.vector_defs(), file, i, j);
}

/// Every count that the pressure of `instr` passes through fits in a
/// signed byte.
pub open spec fn pressure_fits(live: spec_fn(SSAValue) -> bool, instr: Instr) -> bool {
    forall|file: RegFile|
        {
            &&& #[trigger] pressure_with_vectors(instr, file) <= i8::MAX
            &&& pressure_after_kills(live, instr, file) >= i8::MIN
            &&& pressure_with_scalars(live, instr, file) <= i8::MAX
        }
}

/// Adds `delta` to the slot of `file`.
fn bump(live: &mut PerRegFile<i8>, file: RegFile, delta: i8)
    requires
        i8::MIN <= old(live).at(file) + delta <= i8::MAX,
    ensures
        final(live).at(file) == old(live).at(file) + delta,
        forall|other: RegFile| other != file ==> final(live).at(other) == old(live).at(other),
{
    let cur = *live.get(file);
    live.set(file, cur + delta);
}

/// Counts, file by file, the entries of `vals` on top of `live`.
fn add_occurrences(live: &mut PerRegFile<i8>, vals: &Vec<SSAValue>)
    requires
        forall|file: RegFile|
            i8::MIN <= #[trigger] old(live).at(file) && old(live).at(file) + occurrences_in_file(
                vals@,
                file,
            ) <= i8::MAX,
    ensures
        forall|file: RegFile|
            #[trigger] final(live).at(file) == old(live).at(file) + occurrences_in_file(
                vals@,
                file,
            ),
{
    let mut i: usize = 0;
    while i < vals.len()
        invariant
            i <= vals.len(),
            forall|file: RegFile|
                i8::MIN <= #[trigger] old(live).at(file) && old(live).at(file)
                    + occurrences_in_file(vals@, file) <= i8::MAX,
            forall|file: RegFile|
                #[trigger] live.at(file) == old(live).at(file) + occurrences_in_file(
                    vals@.take(i as int),
                    file,
                ),
        decreases vals.len() - i,
    {
        let file = vals[i].file();
        proof {
            assert(vals@.take(i + 1).drop_last() =~= vals@.take(i as int));
            lemma_occurrences_prefix(vals@, i + 1, file);
            assert(live.at(file) == old(live).at(file) + occurrences_in_file(
                vals@.take(i as int),
                file,
            ));
        }
        bump(live, file, 1);
        i += 1;
    }
    assert(vals@.take(i as int) =~= vals@);
}

/// Liveness within one basic block.
pub trait BlockLiveness: Sized {
    /// What the implementation needs of its own data to answer.
    spec fn wf(&self) -> bool;

    /// Whether `val` is still live after instruction `ip`.
    spec fn live_after(&self, val: SSAValue, ip: int) -> bool;

    /// Whether `val` is live at the start of the block.
    spec fn live_in(&self, val: SSAValue) -> bool;

    /// Whether `val` is live at the end of the block.
    spec fn live_out(&self, val: SSAValue) -> bool;

    /// Returns true if `val` is still live after `ip`.
    fn is_live_after_ip(&self, val: &SSAValue, ip: usize) -> (live: bool)
        requires
            self.wf(),
        ensures
            live == self.live_after(*val, ip as int),
    ;

    /// Returns true if `val` is live-in to this block.
    fn is_live_in(&self, val: &SSAValue) -> (live: bool)
        requires
            self.wf(),
        ensures
            live == self.live_in(*val),
    ;

    /// Returns true if `val` is live-out of this block.
    fn is_live_out(&self, val: &SSAValue) -> (live: bool)
        requires
            self.wf(),
        ensures
            live == self.live_out(*val),
    ;

    /// The register pressure that `instr`, at position `ip`, adds in each
    /// file.  Vector destinations go live before sources are killed; scalar
    /// destinations are allocated last.
    fn get_instr_pressure(&self, ip: usize, instr: &Instr) -> (pressure: PerRegFile<u8>)
        requires
            self.wf(),
            pressure_fits(|v: SSAValue| self.live_after(v, ip as int), *instr),
        ensures
            forall|file: RegFile|
                #[trigger] pressure.at(file) == instr_pressure(
                    |v: SSAValue| self.live_after(v, ip as int),
                    *instr,
                    file,
                ),
    {
        let ghost alive = |v: SSAValue| self.live_after(v, ip as int);
        let mut live: PerRegFile<i8> = PerRegFile {
            gpr: 0,
            ugpr: 0,
            pred: 0,
            upred: 0,
            carry: 0,
            bar: 0,
            mem: 0,
        };
        let ghost total = killed_by(alive, *instr);
        proof {
            vstd::seq_lib::seq_to_set_is_finite(instr.uses());
            instr.uses().to_set().lemma_len_filter(|v: SSAValue| !alive(v));
            assert forall|file: RegFile|
                i8::MIN <= #[trigger] live.at(file) && live.at(file) + occurrences_in_file(
                    instr.vector_defs(),
                    file,
                ) <= i8::MAX by {
                assert(pressure_with_vectors(*instr, file) <= i8::MAX);
            }
        }

        let vector_dsts = instr.ssa_defs_of(DstKind::Vector);
        add_occurrences(&mut live, &vector_dsts);

        // This is the first high point.
        let vec_dst_live = live;

        // Sources may occur more than once: each dies once.
        let uses = instr.ssa_uses();
        let mut killed = ValueSet::new();
        proof {
            assert(uses@.take(0).to_set() =~= Set::<SSAValue>::empty());
            assert(killed@ =~= dead_among(alive, uses@.take(0).to_set()));
            assert forall|file: RegFile| count_in_file(killed@, file) == 0 by {
                assert(in_file(killed@, file) =~= Set::<SSAValue>::empty());
            }
        }
        let mut i: usize = 0;
        while i < uses.len()
            invariant
                i <= uses.len(),
                self.wf(),
                uses@ == instr.uses(),
                alive == (|v: SSAValue| self.live_after(v, ip as int)),
                total == killed_by(alive, *instr),
                total.finite(),
                pressure_fits(alive, *instr),
                killed.wf(),
                killed@ == dead_among(alive, uses@.take(i as int).to_set()),
                forall|file: RegFile|
                    #[trigger] live.at(file) == pressure_with_vectors(*instr, file)
                        - count_in_file(killed@, file),
            decreases uses.len() - i,
        {
            let ssa = uses[i];
            let ghost before = killed@;
            proof {
                killed.lemma_wf();
                assert(uses@.take(i + 1) =~= uses@.take(i as int).push(ssa));
                uses@.take(i as int).lemma_push_to_set_commute(ssa);
            }
            if !self.is_live_after_ip(&ssa, ip) {
                let fresh = killed.insert(ssa);
                proof {
                    assert(killed@ =~= dead_among(alive, uses@.take(i + 1).to_set()));
                    assert(uses@.to_set().contains(uses@[i as int]));
                    assert forall|file: RegFile|
                        #[trigger] count_in_file(killed@, file) == count_in_file(before, file) + (
                        if fresh && ssa.file() == file {
                            1nat
                        } else {
                            0nat
                        }) && count_in_file(killed@, file) <= count_in_file(total, file) by {
                        lemma_count_insert(before, ssa, file);
                        lemma_in_file_finite(total, file);
                        assert(in_file(killed@, file).subset_of(in_file(total, file)));
                        lemma_len_subset(in_file(killed@, file), in_file(total, file));
                    }
                    assert(pressure_after_kills(alive, *instr, ssa.file()) >= i8::MIN);
                    assert(count_in_file(killed@, ssa.file()) <= count_in_file(total, ssa.file()));
                    assert(live.at(ssa.file()) == pressure_with_vectors(*instr, ssa.file())
                        - count_in_file(before, ssa.file()));
                }
                if fresh {
                    bump(&mut live, ssa.file(), -1);
                }
            } else {
                assert(killed@ =~= dead_among(alive, uses@.take(i + 1).to_set()));
            }
            i += 1;
        }
        proof {
            assert(uses@.take(i as int) =~= uses@);
            assert forall|file: RegFile|
                i8::MIN <= #[trigger] live.at(file) && live.at(file) + occurrences_in_file(
                    instr.scalar_defs(),
                    file,
                ) <= i8::MAX by {
                assert(pressure_after_kills(alive, *instr, file) >= i8::MIN);
                assert(pressure_with_scalars(alive, *instr, file) <= i8::MAX);
            }
        }

        // Scalar destinations are allocated last.
        let scalar_dsts = instr.ssa_defs_of(DstKind::Scalar);
        add_occurrences(&mut live, &scalar_dsts);

        let pressure = PerRegFile {
            gpr: peak_of(vec_dst_live.gpr, live.gpr),
            ugpr: peak_of(vec_dst_live.ugpr, live.ugpr),
            pred: peak_of(vec_dst_live.pred, live.pred),
            upred: peak_of(vec_dst_live.upred, live.upred),
            carry: peak_of(vec_dst_live.carry, live.carry),
            bar: peak_of(vec_dst_live.bar, live.bar),
            mem: peak_of(vec_dst_live.mem, live.mem),
        };
        proof {
            assert forall|file: RegFile|
                #[trigger] pressure.at(file) == instr_pressure(alive, *instr, file) by {
                assert(vec_dst_live.at(file) == pressure_with_vectors(*instr, file));
                assert(live.at(file) == pressure_with_scalars(alive, *instr, file));
            }
        }
        pressure
    }
}

/// The higher of two counts, and zero if both are negative.
fn peak_of(first: i8, last: i8) -> (peak: u8)
    ensures
        peak == (if first >= last && first >= 0 {
            first as int
        } else if last >= 0 {
            last as int
        } else {
            0
        }),
{
    let high = if first >= last {
        first
    } else {
        last
    };
    if high >= 0 {
        high as u8
    } else {
        0
    }
}

} // verus!
