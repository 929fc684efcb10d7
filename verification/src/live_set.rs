//! The set of values that are live at one point of a walk through a block,
//! with the number of live values of each register file kept beside it.

use crate::block_liveness::BlockLiveness;
use crate::block_liveness::dead_among;
use crate::ir::DstKind;
use crate::ir::Instr;
use crate::ir::PerRegFile;
use crate::ir::RegFile;
use crate::ir::SSAValue;
use crate::value_set::ValueSet;
use crate::value_set::count_in_file;
use crate::value_set::in_file;
use crate::value_set::lemma_count_bounded;
use crate::value_set::lemma_count_insert;
use crate::value_set::lemma_count_remove;
use crate::value_set::lemma_in_file_finite;
use vstd::prelude::*;

verus! {

/// Which values are live after instruction `ip` of the block that `bl`
/// describes.
pub open spec fn live_after_ip<L: BlockLiveness>(bl: &L, ip: int) -> spec_fn(SSAValue) -> bool {
    |v: SSAValue| bl.live_after(v, ip)
}

/// The live set once the vector destinations of `instr` have gone live.
pub open spec fn with_vector_dsts(live: Set<SSAValue>, instr: Instr) -> Set<SSAValue> {
    live.union(instr.vector_defs().to_set())
}

/// The live set once, after that, the sources that are dead after `instr`
/// have been taken out.
pub open spec fn with_sources_killed(
    live: Set<SSAValue>,
    alive: spec_fn(SSAValue) -> bool,
    instr: Instr,
) -> Set<SSAValue> {
    with_vector_dsts(live, instr).difference(dead_among(alive, instr.uses().to_set()))
}

/// The live set once, after that, the scalar destinations of `instr` have
/// gone live.
pub open spec fn with_scalar_dsts(
    live: Set<SSAValue>,
    alive: spec_fn(SSAValue) -> bool,
    instr: Instr,
) -> Set<SSAValue> {
    with_sources_killed(live, alive, instr).union(instr.scalar_defs().to_set())
}

/// The live set after `instr`: as above, without the destinations that are
/// dead at once.
pub open spec fn after_instr(
    live: Set<SSAValue>,
    alive: spec_fn(SSAValue) -> bool,
    instr: Instr,
) -> Set<SSAValue> {
    with_scalar_dsts(live, alive, instr).difference(dead_among(alive, instr.defs().to_set()))
}

/// The highest number of values of `file` that are live together while
/// `instr` runs: with its vector destinations live and its sources not yet
/// dead, or with all its destinations live and its dead sources gone.
pub open spec fn peak_at_instr(
    live: Set<SSAValue>,
    alive: spec_fn(SSAValue) -> bool,
    instr: Instr,
    file: RegFile,
) -> nat {
    let first = count_in_file(with_vector_dsts(live, instr), file);
    let last = count_in_file(with_scalar_dsts(live, alive, instr), file);
    if first >= last {
        first
    } else {
        last
    }
}

/// Every destination of `instr` that is dead at once is in the live set
/// when the destinations have gone live: no source that died took it out.
pub open spec fn dead_dsts_tracked(
    live: Set<SSAValue>,
    alive: spec_fn(SSAValue) -> bool,
    instr: Instr,
) -> bool {
    forall|d: SSAValue|
        instr.defs().contains(d) && !alive(d) ==> with_scalar_dsts(live, alive, instr).contains(d)
}

/// A set of live SSA values that knows how many of them are in each
/// register file.
pub struct LiveSet {
    live: PerRegFile<u32>,
    set: ValueSet,
}

impl View for LiveSet {
    type V = Set<SSAValue>;

    closed spec fn view(&self) -> Set<SSAValue> {
        self.set@
    }
}

impl Clone for LiveSet {
    /// A set of the same live values, with the same counts.
    fn clone(&self) -> (copy: LiveSet)
        ensures
            copy@ == self@,
            forall|file: RegFile| copy.kept_count(file) == self.kept_count(file),
            self.wf() ==> copy.wf(),
    {
        let copy = LiveSet { live: self.live, set: self.set.clone() };
        proof {
            if self.wf() {
                assert forall|file: RegFile| #[trigger]
                    copy.kept_count(file) == count_in_file(copy@, file) by {
                    assert(self.kept_count(file) == count_in_file(self@, file));
                }
            }
        }
        copy
    }
}

impl LiveSet {
    /// The number that the set keeps for `file`.
    pub closed spec fn kept_count(&self, file: RegFile) -> u32 {
        self.live.at(file)
    }

    /// The set is finite, its values are valid, and the number kept for
    /// each file is the number of members in that file.
    pub open spec fn wf(&self) -> bool {
        &&& self.values_wf()
        &&& self@.finite()
        &&& forall|file: RegFile| #[trigger] self.kept_count(file) == count_in_file(self@, file)
    }

    /// The underlying set of values is well-formed.
    pub closed spec fn values_wf(&self) -> bool {
        self.set.wf()
    }

    /// The empty set.
    pub fn new() -> (s: LiveSet)
        ensures
            s.wf(),
            s@ == Set::<SSAValue>::empty(),
    {
        let s = LiveSet { live: PerRegFile::zero(), set: ValueSet::new() };
        proof {
            assert forall|file: RegFile| count_in_file(s@, file) == 0 by {
                assert(in_file(s@, file) =~= Set::<SSAValue>::empty());
            }
        }
        s
    }

    /// Whether `ssa` is live.
    pub fn contains(&self, ssa: &SSAValue) -> (present: bool)
        ensures
            present == self@.contains(*ssa),
    {
        self.set.contains(ssa)
    }

    /// How many live values are in `file`.
    pub fn count(&self, file: RegFile) -> (n: u32)
        requires
            self.wf(),
        ensures
            n == count_in_file(self@, file),
    {
        assert(self.kept_count(file) == count_in_file(self@, file));
        *self.live.get(file)
    }

    /// Makes `ssa` live, and says whether it was not live before.
    pub fn insert(&mut self, ssa: SSAValue) -> (fresh: bool)
        requires
            old(self).wf(),
        ensures
            final(self).wf(),
            final(self)@ == old(self)@.insert(ssa),
            fresh == !old(self)@.contains(ssa),
    {
        if self.set.insert(ssa) {
            proof {
                self.set.lemma_wf();
                lemma_count_bounded(self@, ssa.file());
                lemma_count_insert(old(self)@, ssa, ssa.file());
                assert(old(self).kept_count(ssa.file()) == count_in_file(old(self)@, ssa.file()));
            }
            let n = *self.live.get(ssa.file());
            self.live.set(ssa.file(), n + 1);
            proof {
                assert forall|file: RegFile| #[trigger]
                    self.kept_count(file) == count_in_file(self@, file) by {
                    lemma_count_insert(old(self)@, ssa, file);
                    assert(old(self).kept_count(file) == count_in_file(old(self)@, file));
                }
            }
            true
        } else {
            proof {
                assert(self@ =~= old(self)@);
                assert forall|file: RegFile| #[trigger]
                    self.kept_count(file) == count_in_file(self@, file) by {
                    assert(old(self).kept_count(file) == count_in_file(old(self)@, file));
                }
            }
            false
        }
    }

    /// The live values, each once, in no particular order.
    pub fn iter(&self) -> (values: Vec<SSAValue>)
        requires
            self.wf(),
        ensures
            values@.no_duplicates(),
            values@.to_set() == self@,
    {
        self.set.to_vec()
    }

    /// Makes `ssa` dead, and says whether it was live before.
    pub fn remove(&mut self, ssa: &SSAValue) -> (present: bool)
        requires
            old(self).wf(),
        ensures
            final(self).wf(),
            final(self)@ == old(self)@.remove(*ssa),
            present == old(self)@.contains(*ssa),
    {
        if self.set.remove(ssa) {
            proof {
                lemma_count_remove(old(self)@, *ssa, ssa.file());
                lemma_in_file_finite(old(self)@, ssa.file());
                assert(in_file(old(self)@, ssa.file()).contains(*ssa));
                assert(old(self).kept_count(ssa.file()) == count_in_file(old(self)@, ssa.file()));
            }
            let n = *self.live.get(ssa.file());
            self.live.set(ssa.file(), n - 1);
            proof {
                assert forall|file: RegFile| #[trigger]
                    self.kept_count(file) == count_in_file(self@, file) by {
                    lemma_count_remove(old(self)@, *ssa, file);
                    assert(old(self).kept_count(file) == count_in_file(old(self)@, file));
                }
            }
            true
        } else {
            proof {
                assert(self@ =~= old(self)@);
                assert forall|file: RegFile| #[trigger]
                    self.kept_count(file) == count_in_file(self@, file) by {
                    assert(old(self).kept_count(file) == count_in_file(old(self)@, file));
                }
            }
            false
        }
    }

    /// Makes every value of `values` live.
    pub fn extend(&mut self, values: &Vec<SSAValue>)
        requires
            old(self).wf(),
        ensures
            final(self).wf(),
            final(self)@ == old(self)@.union(values@.to_set()),
    {
        let mut i: usize = 0;
        assert(values@.take(0).to_set() =~= Set::<SSAValue>::empty());
        assert(self@ =~= old(self)@.union(values@.take(0).to_set()));
        while i < values.len()
            invariant
                i <= values.len(),
                self.wf(),
                self@ == old(self)@.union(values@.take(i as int).to_set()),
            decreases values.len() - i,
        {
            self.insert(values[i]);
            proof {
                assert(values@.take(i + 1) =~= values@.take(i as int).push(values@[i as int]));
                values@.take(i as int).lemma_push_to_set_commute(values@[i as int]);
                assert(self@ =~= old(self)@.union(values@.take(i + 1).to_set()));
            }
            i += 1;
        }
        assert(values@.take(i as int) =~= values@);
    }

    /// The set of the values of `values`.
    pub fn from_iter(values: &Vec<SSAValue>) -> (s: LiveSet)
        ensures
            s.wf(),
            s@ == values@.to_set(),
    {
        let mut set = LiveSet::new();
        set.extend(values);
        assert(set@ =~= values@.to_set());
        set
    }

    /// Makes dead every value of `values` that is not live after
    /// instruction `ip`.
    fn remove_dead<L: BlockLiveness>(&mut self, values: &Vec<SSAValue>, ip: usize, bl: &L)
        requires
            old(self).wf(),
            bl.wf(),
        ensures
            final(self).wf(),
            final(self)@ == old(self)@.difference(
                dead_among(live_after_ip(bl, ip as int), values@.to_set()),
            ),
    {
        let ghost alive = live_after_ip(bl, ip as int);
        let mut i: usize = 0;
        assert(values@.take(0).to_set() =~= Set::<SSAValue>::empty());
        assert(self@ =~= old(self)@.difference(dead_among(alive, values@.take(0).to_set())));
        while i < values.len()
            invariant
                i <= values.len(),
                self.wf(),
                bl.wf(),
                alive == live_after_ip(bl, ip as int),
                self@ == old(self)@.difference(
                    dead_among(alive, values@.take(i as int).to_set()),
                ),
            decreases values.len() - i,
        {
            let ssa = values[i];
            if !bl.is_live_after_ip(&ssa, ip) {
                self.remove(&ssa);
            }
            proof {
                assert(values@.take(i + 1) =~= values@.take(i as int).push(ssa));
                values@.take(i as int).lemma_push_to_set_commute(ssa);
                assert(self@ =~= old(self)@.difference(
                    dead_among(alive, values@.take(i + 1).to_set()),
                ));
            }
            i += 1;
        }
        assert(values@.take(i as int) =~= values@);
    }

    /// Moves the set from just before instruction `ip` to just after it, and
    /// returns the highest number of live values of each file on the way.
    ///
    /// Vector destinations go live before sources are killed: even where
    /// such a destination is dead at once, it adds to the pressure for a
    /// moment.  Scalar destinations go live after the sources are killed.
    pub fn insert_instr_top_down<L: BlockLiveness>(
        &mut self,
        ip: usize,
        instr: &Instr,
        bl: &L,
    ) -> (max_live: PerRegFile<u32>)
        requires
            old(self).wf(),
            bl.wf(),
            dead_dsts_tracked(old(self)@, live_after_ip(bl, ip as int), *instr),
        ensures
            final(self).wf(),
            final(self)@ == after_instr(old(self)@, live_after_ip(bl, ip as int), *instr),
            forall|file: RegFile|
                #[trigger] max_live.at(file) == peak_at_instr(
                    old(self)@,
                    live_after_ip(bl, ip as int),
                    *instr,
                    file,
                ),
    {
        let ghost alive = live_after_ip(bl, ip as int);

        let vector_dsts = instr.ssa_defs_of(DstKind::Vector);
        self.extend(&vector_dsts);

        let after_dsts_live = self.live;
        assert forall|file: RegFile| #[trigger]
            after_dsts_live.at(file) == count_in_file(
                with_vector_dsts(old(self)@, *instr),
                file,
            ) by {
            assert(self.kept_count(file) == count_in_file(self@, file));
        }

        let uses = instr.ssa_uses();
        self.remove_dead(&uses, ip, bl);

        let scalar_dsts = instr.ssa_defs_of(DstKind::Scalar);
        self.extend(&scalar_dsts);

        let max_live = self.live.max(&after_dsts_live);
        assert forall|file: RegFile| #[trigger]
            max_live.at(file) == peak_at_instr(old(self)@, alive, *instr, file) by {
            assert(self.kept_count(file) == count_in_file(self@, file));
            assert(after_dsts_live.at(file) == count_in_file(
                with_vector_dsts(old(self)@, *instr),
                file,
            ));
        }

        let defs = instr.ssa_defs();
        self.remove_dead(&defs, ip, bl);

        max_live
    }
}

/// The pressure that an instruction reports counts its vector destinations
/// together with the sources that it is about to kill.
///
/// Where an instruction has a destination of two distinct components in
/// `file`, neither of them live before it, the peak in `file` is at least
/// two above the number of values of `file` that were live before: whether
/// or not a source in `file` dies at the instruction, and however low the
/// count is once the instruction is over.
pub proof fn lemma_vector_dst_counts_before_kills(
    live: Set<SSAValue>,
    alive: spec_fn(SSAValue) -> bool,
    instr: Instr,
    file: RegFile,
    a: SSAValue,
    b: SSAValue,
)
    requires
        live.finite(),
        instr.vector_defs().contains(a),
        instr.vector_defs().contains(b),
        a != b,
        a.file() == file,
        b.file() == file,
        !live.contains(a),
        !live.contains(b),
    ensures
        peak_at_instr(live, alive, instr, file) >= count_in_file(live, file) + 2,
{
    let s1 = with_vector_dsts(live, instr);
    vstd::seq_lib::seq_to_set_is_finite(instr.vector_defs());
    let base = live.insert(a).insert(b);
    lemma_count_insert(live, a, file);
    lemma_count_insert(live.insert(a), b, file);
    lemma_in_file_finite(s1, file);
    assert(in_file(base, file).subset_of(in_file(s1, file)));
    vstd::set_lib::lemma_len_subset(in_file(base, file), in_file(s1, file));
}

} // verus!
