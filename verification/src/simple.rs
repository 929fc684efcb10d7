//! The classic liveness analysis: for every block the set of values that
//! are live at its start and the set of those that are live at its end.

use crate::block_liveness::BlockLiveness;
use crate::dataflow::BackwardProblem;
use crate::dataflow::in_views;
use crate::dataflow::is_fixpoint;
use crate::dataflow::out_views;
use crate::dataflow::after_sweeps;
use crate::dataflow::lemma_sweeps_go_up;
use crate::dataflow::lemma_sweeps_stay_below_fixpoint;
use crate::dataflow::reached_by_sweeps;
use crate::dataflow::solve;
use crate::dataflow::stable_at;
use crate::ir::BasicBlock;
use crate::ir::Function;
use crate::ir::SSAValue;
use crate::ir::position_before;
use crate::liveness::Liveness;
use crate::seq_facts::lemma_push_contains;
use crate::value_map::ValueMap;
use crate::value_set::ValueSet;
use vstd::prelude::*;

verus! {

/// What the analysis knows of one block.
pub struct SimpleBlockLiveness {
    defs: ValueSet,
    uses: ValueSet,
    last_use: ValueMap<usize>,
    live_in: ValueSet,
    live_out: ValueSet,
}

impl SimpleBlockLiveness {
    /// The values that the block defines.
    pub closed spec fn defs(&self) -> Set<SSAValue> {
        self.defs@
    }

    /// The values that the block reads.
    pub closed spec fn uses(&self) -> Set<SSAValue> {
        self.uses@
    }

    /// For each value that the block reads, the last instruction that reads
    /// it.
    pub closed spec fn last_use(&self) -> Map<SSAValue, usize> {
        self.last_use@
    }

    /// The values that are live at the start of the block.
    pub closed spec fn live_in_set(&self) -> Set<SSAValue> {
        self.live_in@
    }

    /// The values that are live at the end of the block.
    pub closed spec fn live_out_set(&self) -> Set<SSAValue> {
        self.live_out@
    }

    /// The sets and the map are well-formed.
    pub closed spec fn sets_wf(&self) -> bool {
        &&& self.defs.wf()
        &&& self.uses.wf()
        &&& self.last_use.wf()
        &&& self.live_in.wf()
        &&& self.live_out.wf()
    }

    /// The block's own facts are those of the first `n` instructions of
    /// `block`.
    pub open spec fn scanned(&self, block: BasicBlock, n: int) -> bool {
        &&& self.defs() == block.defs_before(n)
        &&& self.uses() == block.uses_before(n)
        &&& self.last_use().dom() == block.uses_before(n)
        &&& forall|v: SSAValue| #[trigger]
            self.last_use().contains_key(v) ==> block.last_use_before(
                v,
                self.last_use()[v] as int,
                n,
            )
    }

    /// The block's own facts are those of `block`.
    pub open spec fn describes(&self, block: BasicBlock) -> bool {
        self.scanned(block, block.instrs.len() as int)
    }

    /// The sets of a well-formed block are finite.
    pub proof fn lemma_sets_finite(&self)
        requires
            self.sets_wf(),
        ensures
            self.defs().finite(),
            self.uses().finite(),
            self.live_in_set().finite(),
            self.live_out_set().finite(),
    {
        self.defs.lemma_wf();
        self.uses.lemma_wf();
        self.live_in.lemma_wf();
        self.live_out.lemma_wf();
    }

    /// Stores the result of the analysis for this block.
    fn set_live(&mut self, live_in: ValueSet, live_out: ValueSet)
        requires
            old(self).sets_wf(),
            live_in.wf(),
            live_out.wf(),
        ensures
            final(self).sets_wf(),
            final(self).defs() == old(self).defs(),
            final(self).uses() == old(self).uses(),
            final(self).last_use() == old(self).last_use(),
            final(self).live_in_set() == live_in@,
            final(self).live_out_set() == live_out@,
    {
        self.live_in = live_in;
        self.live_out = live_out;
    }

    fn new() -> (bl: SimpleBlockLiveness)
        ensures
            bl.sets_wf(),
            bl.defs() == Set::<SSAValue>::empty(),
            bl.uses() == Set::<SSAValue>::empty(),
            bl.last_use() == Map::<SSAValue, usize>::empty(),
            bl.live_in_set() == Set::<SSAValue>::empty(),
            bl.live_out_set() == Set::<SSAValue>::empty(),
    {
        SimpleBlockLiveness {
            defs: ValueSet::new(),
            uses: ValueSet::new(),
            last_use: ValueMap::new(),
            live_in: ValueSet::new(),
            live_out: ValueSet::new(),
        }
    }

    fn add_def(&mut self, ssa: SSAValue)
        requires
            old(self).sets_wf(),
        ensures
            final(self).sets_wf(),
            final(self).defs() == old(self).defs().insert(ssa),
            final(self).uses() == old(self).uses(),
            final(self).last_use() == old(self).last_use(),
            final(self).live_in_set() == old(self).live_in_set(),
            final(self).live_out_set() == old(self).live_out_set(),
    {
        self.defs.insert(ssa);
    }

    fn add_use(&mut self, ssa: SSAValue, ip: usize)
        requires
            old(self).sets_wf(),
        ensures
            final(self).sets_wf(),
            final(self).defs() == old(self).defs(),
            final(self).uses() == old(self).uses().insert(ssa),
            final(self).last_use() == old(self).last_use().insert(ssa, ip),
            final(self).live_in_set() == old(self).live_in_set(),
            final(self).live_out_set() == old(self).live_out_set(),
    {
        self.uses.insert(ssa);
        self.last_use.insert(ssa, ip);
    }

    /// Records that instruction `ip` reads the values of `values`.
    fn add_uses(&mut self, values: &Vec<SSAValue>, ip: usize, Ghost(block): Ghost<BasicBlock>)
        requires
            old(self).sets_wf(),
            old(self).scanned(block, ip as int),
            ip < block.instrs.len(),
            values@ == block.instrs[ip as int].uses(),
        ensures
            final(self).sets_wf(),
            final(self).defs() == old(self).defs(),
            final(self).uses() == block.uses_before(ip + 1),
            final(self).last_use().dom() == block.uses_before(ip + 1),
            forall|v: SSAValue| #[trigger]
                final(self).last_use().contains_key(v) ==> block.last_use_before(
                    v,
                    final(self).last_use()[v] as int,
                    ip + 1,
                ),
            final(self).live_in_set() == old(self).live_in_set(),
            final(self).live_out_set() == old(self).live_out_set(),
    {
        let mut j: usize = 0;
        assert(values@.take(0).to_set() =~= Set::<SSAValue>::empty());
        assert(self.uses() =~= block.uses_before(ip as int).union(values@.take(0).to_set()));
        while j < values.len()
            invariant
                j <= values.len(),
                self.sets_wf(),
                ip < block.instrs.len(),
                values@ == block.instrs[ip as int].uses(),
                self.defs() == old(self).defs(),
                self.live_in_set() == old(self).live_in_set(),
                self.live_out_set() == old(self).live_out_set(),
                self.uses() == block.uses_before(ip as int).union(
                    values@.take(j as int).to_set(),
                ),
                self.last_use().dom() == self.uses(),
                forall|v: SSAValue| #[trigger]
                    self.last_use().contains_key(v) ==> if values@.take(j as int).contains(v) {
                        self.last_use()[v] == ip
                    } else {
                        block.last_use_before(v, self.last_use()[v] as int, ip as int)
                    },
            decreases values.len() - j,
        {
            let ghost before = self.last_use();
            self.add_use(values[j], ip);
            proof {
                let ssa = values@[j as int];
                assert(values@.take(j + 1) =~= values@.take(j as int).push(ssa));
                values@.take(j as int).lemma_push_to_set_commute(ssa);
                assert(self.uses() =~= block.uses_before(ip as int).union(
                    values@.take(j + 1).to_set(),
                ));
                assert(self.last_use().dom() =~= self.uses());
                assert forall|v: SSAValue| #[trigger]
                    self.last_use().contains_key(v) implies if values@.take(j + 1).contains(v) {
                    self.last_use()[v] == ip
                } else {
                    block.last_use_before(v, self.last_use()[v] as int, ip as int)
                } by {
                    let s0 = values@.take(j as int);
                    let s1 = values@.take(j + 1);
                    if v == ssa {
                        assert(s1[j as int] == ssa);
                    } else {
                        assert(before.contains_key(v));
                        if s1.contains(v) {
                            let i = choose|i: int| 0 <= i < s1.len() && s1[i] == v;
                            assert(s0[i] == v);
                        } else {
                            if s0.contains(v) {
                                let i = choose|i: int| 0 <= i < s0.len() && s0[i] == v;
                                assert(s1[i] == v);
                            }
                        }
                    }
                }
            }
            j += 1;
        }
        proof {
            assert(values@.take(j as int) =~= values@);
            assert(self.uses() =~= block.uses_before(ip + 1)) by {
                assert forall|v: SSAValue| self.uses().contains(v) implies block.uses_before(
                    ip + 1,
                ).contains(v) by {
                    if values@.to_set().contains(v) {
                        assert(block.uses_at(v, ip as int));
                    } else {
                        let q = choose|q: int| 0 <= q < ip && block.uses_at(v, q);
                        assert(block.uses_at(v, q));
                    }
                }
                assert forall|v: SSAValue| block.uses_before(ip + 1).contains(v) implies self.uses(
                ).contains(v) by {
                    let q = choose|q: int| 0 <= q < ip + 1 && block.uses_at(v, q);
                    if q == ip {
                        assert(values@.to_set().contains(v));
                    } else {
                        assert(block.uses_before(ip as int).contains(v));
                    }
                }
            }
            assert forall|v: SSAValue| #[trigger]
                self.last_use().contains_key(v) implies block.last_use_before(
                v,
                self.last_use()[v] as int,
                ip + 1,
            ) by {
                if values@.contains(v) {
                } else {
                    assert(!block.uses_at(v, ip as int));
                }
            }
        }
    }

    /// Records that the block defines the values of `values`, which are
    /// those that instruction `ip` defines.
    fn add_defs(&mut self, values: &Vec<SSAValue>, ip: usize, Ghost(block): Ghost<BasicBlock>)
        requires
            old(self).sets_wf(),
            old(self).defs() == block.defs_before(ip as int),
            ip < block.instrs.len(),
            values@ == block.instrs[ip as int].defs(),
        ensures
            final(self).sets_wf(),
            final(self).defs() == block.defs_before(ip + 1),
            final(self).uses() == old(self).uses(),
            final(self).last_use() == old(self).last_use(),
            final(self).live_in_set() == old(self).live_in_set(),
            final(self).live_out_set() == old(self).live_out_set(),
    {
        let mut j: usize = 0;
        assert(values@.take(0).to_set() =~= Set::<SSAValue>::empty());
        assert(self.defs() =~= block.defs_before(ip as int).union(values@.take(0).to_set()));
        while j < values.len()
            invariant
                j <= values.len(),
                self.sets_wf(),
                self.uses() == old(self).uses(),
                self.last_use() == old(self).last_use(),
                self.live_in_set() == old(self).live_in_set(),
                self.live_out_set() == old(self).live_out_set(),
                self.defs() == block.defs_before(ip as int).union(
                    values@.take(j as int).to_set(),
                ),
            decreases values.len() - j,
        {
            self.add_def(values[j]);
            proof {
                let ssa = values@[j as int];
                assert(values@.take(j + 1) =~= values@.take(j as int).push(ssa));
                values@.take(j as int).lemma_push_to_set_commute(ssa);
                assert(self.defs() =~= block.defs_before(ip as int).union(
                    values@.take(j + 1).to_set(),
                ));
            }
            j += 1;
        }
        proof {
            assert(values@.take(j as int) =~= values@);
            assert(self.defs() =~= block.defs_before(ip + 1)) by {
                assert forall|v: SSAValue| self.defs().contains(v) implies block.defs_before(
                    ip + 1,
                ).contains(v) by {
                    if values@.to_set().contains(v) {
                        assert(block.defs_at(v, ip as int));
                    } else {
                        let q = choose|q: int| 0 <= q < ip && block.defs_at(v, q);
                        assert(block.defs_at(v, q));
                    }
                }
                assert forall|v: SSAValue| block.defs_before(ip + 1).contains(v) implies self.defs(
                ).contains(v) by {
                    let q = choose|q: int| 0 <= q < ip + 1 && block.defs_at(v, q);
                    if q == ip {
                        assert(values@.to_set().contains(v));
                    } else {
                        assert(block.defs_before(ip as int).contains(v));
                    }
                }
            }
        }
    }
}

impl BlockLiveness for SimpleBlockLiveness {
    open spec fn wf(&self) -> bool {
        self.sets_wf()
    }

    /// A value is live after `ip` if it is live at the end of the block, or
    /// if an instruction after `ip` reads it.
    open spec fn live_after(&self, val: SSAValue, ip: int) -> bool {
        self.live_out_set().contains(val) || (self.last_use().contains_key(val)
            && self.last_use()[val] > ip)
    }

    open spec fn live_in(&self, val: SSAValue) -> bool {
        self.live_in_set().contains(val)
    }

    open spec fn live_out(&self, val: SSAValue) -> bool {
        self.live_out_set().contains(val)
    }

    fn is_live_after_ip(&self, val: &SSAValue, ip: usize) -> (live: bool) {
        if self.live_out.contains(val) {
            true
        } else {
            match self.last_use.get(val) {
                Some(last_use_ip) => *last_use_ip > ip,
                None => false,
            }
        }
    }

    fn is_live_in(&self, val: &SSAValue) -> (live: bool) {
        self.live_in.contains(val)
    }

    fn is_live_out(&self, val: &SSAValue) -> (live: bool) {
        self.live_out.contains(val)
    }
}

/// The values that are live at the start of some successor of block `b`,
/// where `live_in` holds the values that are live at the start of each
/// block.
pub open spec fn live_into_successors(
    func: Function,
    live_in: Seq<Set<SSAValue>>,
    b: int,
) -> Set<SSAValue> {
    Set::new(
        |v: SSAValue|
            exists|k: int|
                0 <= k < func.blocks[b].succs.len() && (
                #[trigger] live_in[func.blocks[b].succs[k] as int]).contains(v),
    )
}

/// The liveness equations of `func`: a value is live at the end of a block
/// if it is live at the start of a successor, and live at the start of a
/// block if it is live at its end or read in it, and not defined in it.
pub open spec fn solves_liveness(
    func: Function,
    live_in: Seq<Set<SSAValue>>,
    live_out: Seq<Set<SSAValue>>,
) -> bool {
    &&& live_in.len() == func.blocks.len()
    &&& live_out.len() == func.blocks.len()
    &&& forall|b: int|
        0 <= b < func.blocks.len() ==> {
            &&& #[trigger] live_out[b] == live_into_successors(func, live_in, b)
            &&& live_in[b] == live_out[b].union(func.blocks[b].uses()).difference(
                func.blocks[b].defs(),
            )
        }
}

/// The values that one of the first `n` blocks of `func` reads.
pub open spec fn uses_in_blocks(func: Function, n: int) -> Set<SSAValue> {
    Set::new(|v: SSAValue| exists|b: int| 0 <= b < n && (#[trigger] func.blocks[b]).uses().contains(v))
}

/// Every value that `func` reads.
pub open spec fn all_uses(func: Function) -> Set<SSAValue> {
    uses_in_blocks(func, func.blocks.len() as int)
}

/// `m` sends each value that `func` defines before position `ip_end` of
/// block `b_end` to the last such position that defines it.
pub open spec fn is_def_index_before(
    func: Function,
    m: Map<SSAValue, (usize, usize)>,
    b_end: int,
    ip_end: int,
) -> bool {
    &&& forall|v: SSAValue, b: int, ip: int|
        #[trigger] func.defines_at(v, b, ip) && position_before(b, ip, b_end, ip_end)
            ==> m.contains_key(v) && !position_before(m[v].0 as int, m[v].1 as int, b, ip)
    &&& forall|v: SSAValue| #[trigger]
        m.contains_key(v) ==> func.defines_at(v, m[v].0 as int, m[v].1 as int)
            && position_before(m[v].0 as int, m[v].1 as int, b_end, ip_end)
}

/// `m` sends each value that `func` defines to the block and the
/// instruction that define it: the last ones, should there be several.
pub open spec fn is_def_index(func: Function, m: Map<SSAValue, (usize, usize)>) -> bool {
    is_def_index_before(func, m, func.blocks.len() as int, 0)
}

/// Records that instruction `ip` of block `bi` defines the values of
/// `values`.
fn record_defs(
    index: &mut ValueMap<(usize, usize)>,
    values: &Vec<SSAValue>,
    bi: usize,
    ip: usize,
    Ghost(func): Ghost<Function>,
)
    requires
        old(index).wf(),
        is_def_index_before(func, old(index)@, bi as int, ip as int),
        bi < func.blocks.len(),
        ip < func.blocks[bi as int].instrs.len(),
        values@ == func.blocks[bi as int].instrs[ip as int].defs(),
    ensures
        final(index).wf(),
        is_def_index_before(func, final(index)@, bi as int, ip + 1),
{
    let mut j: usize = 0;
    while j < values.len()
        invariant
            j <= values.len(),
            index.wf(),
            forall|v: SSAValue|
                index@.contains_key(v) <==> old(index)@.contains_key(v) || values@.take(
                    j as int,
                ).contains(v),
            forall|v: SSAValue| #[trigger]
                index@.contains_key(v) ==> index@[v] == if values@.take(j as int).contains(v) {
                    (bi, ip)
                } else {
                    old(index)@[v]
                },
        decreases values.len() - j,
    {
        index.insert(values[j], (bi, ip));
        proof {
            assert(values@.take(j + 1) =~= values@.take(j as int).push(values@[j as int]));
            lemma_push_contains(values@.take(j as int), values@[j as int]);
        }
        j += 1;
    }
    proof {
        assert(values@.take(j as int) =~= values@);
        let m = index@;
        assert forall|v: SSAValue, b: int, q: int|
            #[trigger] func.defines_at(v, b, q) && position_before(
                b,
                q,
                bi as int,
                ip + 1,
            ) implies m.contains_key(v) && !position_before(
            m[v].0 as int,
            m[v].1 as int,
            b,
            q,
        ) by {
            if position_before(b, q, bi as int, ip as int) {
                assert(old(index)@.contains_key(v));
            } else {
                assert(b == bi && q == ip);
                assert(values@.contains(v));
            }
        }
        assert forall|v: SSAValue| #[trigger] m.contains_key(v) implies func.defines_at(
            v,
            m[v].0 as int,
            m[v].1 as int,
        ) && position_before(m[v].0 as int, m[v].1 as int, bi as int, ip + 1) by {
            if values@.contains(v) {
                assert(func.defines_at(v, bi as int, ip as int));
            } else {
                assert(old(index)@.contains_key(v));
            }
        }
    }
}

/// Collects what liveness needs of block `bi` of `func`, and records where
/// each value that the block defines is defined.
fn scan_block(func: &Function, bi: usize, index: &mut ValueMap<(usize, usize)>) -> (bl:
    SimpleBlockLiveness)
    requires
        bi < func.blocks.len(),
        old(index).wf(),
        is_def_index_before(*func, old(index)@, bi as int, 0),
    ensures
        final(index).wf(),
        is_def_index_before(*func, final(index)@, bi + 1, 0),
        bl.sets_wf(),
        bl.describes(func.blocks[bi as int]),
        bl.live_in_set() == Set::<SSAValue>::empty(),
        bl.live_out_set() == Set::<SSAValue>::empty(),
{
    let block = &func.blocks[bi];
    let mut bl = SimpleBlockLiveness::new();
    proof {
        assert(bl.defs() =~= block.defs_before(0));
        assert(bl.uses() =~= block.uses_before(0));
        assert(bl.last_use().dom() =~= block.uses_before(0));
    }
    let mut ip: usize = 0;
    while ip < block.instrs.len()
        invariant
            ip <= block.instrs.len(),
            bi < func.blocks.len(),
            *block == func.blocks[bi as int],
            index.wf(),
            is_def_index_before(*func, index@, bi as int, ip as int),
            bl.sets_wf(),
            bl.scanned(*block, ip as int),
            bl.live_in_set() == Set::<SSAValue>::empty(),
            bl.live_out_set() == Set::<SSAValue>::empty(),
        decreases block.instrs.len() - ip,
    {
        let instr = &block.instrs[ip];
        let uses = instr.ssa_uses();
        bl.add_uses(&uses, ip, Ghost(*block));
        let defs = instr.ssa_defs();
        record_defs(index, &defs, bi, ip, Ghost(*func));
        bl.add_defs(&defs, ip, Ghost(*block));
        ip += 1;
    }
    proof {
        let m = index@;
        assert forall|v: SSAValue, b: int, q: int|
            #[trigger] func.defines_at(v, b, q) && position_before(
                b,
                q,
                bi + 1,
                0,
            ) implies m.contains_key(v) && !position_before(
            m[v].0 as int,
            m[v].1 as int,
            b,
            q,
        ) by {
            assert(position_before(b, q, bi as int, ip as int));
        }
    }
    bl
}

/// The liveness problem of one function, for the solver.
pub struct SimpleProblem<'a> {
    func: &'a Function,
    blocks: &'a Vec<SimpleBlockLiveness>,
}

impl<'a> SimpleProblem<'a> {
    /// The states hold only values that the function reads, the in-state of
    /// a block holds nothing that its out-state does not account for, the
    /// out-state of a block holds nothing that no successor accounts for,
    /// and no solution of the liveness equations holds less.
    pub open spec fn within_solutions(
        func: Function,
        ins: Seq<Set<SSAValue>>,
        outs: Seq<Set<SSAValue>>,
    ) -> bool {
        &&& ins.len() == func.blocks.len()
        &&& outs.len() == func.blocks.len()
        &&& forall|b: int|
            0 <= b < func.blocks.len() ==> (#[trigger] outs[b]).subset_of(all_uses(func))
        &&& forall|b: int|
            0 <= b < func.blocks.len() ==> (#[trigger] ins[b]).subset_of(
                outs[b].union(func.blocks[b].uses()).difference(func.blocks[b].defs()),
            )
        &&& forall|b: int|
            0 <= b < func.blocks.len() ==> (#[trigger] outs[b]).subset_of(
                live_into_successors(func, ins, b),
            )
        &&& forall|live_in: Seq<Set<SSAValue>>, live_out: Seq<Set<SSAValue>>|
            #[trigger] solves_liveness(func, live_in, live_out) ==> below(ins, live_in) && below(
                outs,
                live_out,
            )
    }
}

/// As many empty sets as `func` has blocks: the live sets that the analysis
/// starts from.
pub open spec fn no_values(func: Function) -> Seq<Set<SSAValue>> {
    Seq::new(func.blocks.len() as nat, |b: int| Set::<SSAValue>::empty())
}

/// `problem` is the liveness problem of `func`, and some number of sweeps
/// of the solver takes it from empty live sets to `live_in` and `live_out`.
pub open spec fn swept_to(
    problem: SimpleProblem,
    func: Function,
    live_in: Seq<Set<SSAValue>>,
    live_out: Seq<Set<SSAValue>>,
) -> bool {
    &&& problem.func() == func
    &&& reached_by_sweeps(&problem, no_values(func), no_values(func), live_in, live_out)
}

/// Each set of `small` is within the set of `large` at the same place.
pub open spec fn below(small: Seq<Set<SSAValue>>, large: Seq<Set<SSAValue>>) -> bool {
    &&& small.len() == large.len()
    &&& forall|b: int| 0 <= b < small.len() ==> (#[trigger] small[b]).subset_of(large[b])
}

/// A live set that holds all that another holds is no smaller: as live
/// sets only grow from step to step of the analysis, so does their size.
pub proof fn lemma_grown_set_is_no_smaller(earlier: Set<SSAValue>, later: Set<SSAValue>)
    requires
        later.finite(),
        earlier.subset_of(later),
    ensures
        earlier.finite(),
        earlier.len() <= later.len(),
{
    vstd::set_lib::lemma_len_subset(earlier, later);
}

/// The values that the first `n` blocks read are finitely many, if the
/// values that each block reads are.
proof fn lemma_uses_in_blocks_finite(func: Function, n: int)
    requires
        0 <= n <= func.blocks.len(),
        forall|b: int| 0 <= b < func.blocks.len() ==> (#[trigger] func.blocks[b]).uses().finite(),
    ensures
        uses_in_blocks(func, n).finite(),
    decreases n,
{
    if n == 0 {
        assert(uses_in_blocks(func, n) =~= Set::<SSAValue>::empty());
    } else {
        lemma_uses_in_blocks_finite(func, n - 1);
        assert(uses_in_blocks(func, n) =~= uses_in_blocks(func, n - 1).union(
            func.blocks[n - 1].uses(),
        )) by {
            assert forall|v: SSAValue| uses_in_blocks(func, n).contains(v) implies uses_in_blocks(
                func,
                n - 1,
            ).union(func.blocks[n - 1].uses()).contains(v) by {
                let b = choose|b: int| 0 <= b < n && (#[trigger] func.blocks[b]).uses().contains(v);
                if b < n - 1 {
                    assert(uses_in_blocks(func, n - 1).contains(v));
                }
            }
            assert forall|v: SSAValue|
                uses_in_blocks(func, n - 1).union(func.blocks[n - 1].uses()).contains(
                    v,
                ) implies uses_in_blocks(func, n).contains(v) by {
                if func.blocks[n - 1].uses().contains(v) {
                } else {
                    let b = choose|b: int|
                        0 <= b < n - 1 && (#[trigger] func.blocks[b]).uses().contains(v);
                    assert(func.blocks[b].uses().contains(v));
                }
            }
        }
    }
}

/// Puts into `x` every member of `from` that is not in `except`, and says
/// whether `x` grew.
fn add_except(x: &mut ValueSet, from: &ValueSet, except: &ValueSet) -> (changed: bool)
    requires
        old(x).wf(),
        from.wf(),
    ensures
        final(x).wf(),
        final(x)@ == old(x)@.union(from@.difference(except@)),
        changed == (final(x)@ != old(x)@),
{
    let vs = from.to_vec();
    let mut changed = false;
    let mut i: usize = 0;
    assert(vs@.take(0).to_set() =~= Set::<SSAValue>::empty());
    assert(x@ =~= old(x)@.union(vs@.take(0).to_set().difference(except@)));
    while i < vs.len()
        invariant
            i <= vs.len(),
            x.wf(),
            x@ == old(x)@.union(vs@.take(i as int).to_set().difference(except@)),
            changed == (x@ != old(x)@),
        decreases vs.len() - i,
    {
        let ghost before = x@;
        let v = vs[i];
        proof {
            assert(vs@.take(i + 1) =~= vs@.take(i as int).push(v));
            vs@.take(i as int).lemma_push_to_set_commute(v);
        }
        if !except.contains(&v) {
            let fresh = x.insert(v);
            proof {
                assert(x@ =~= old(x)@.union(vs@.take(i + 1).to_set().difference(except@)));
                if fresh {
                    assert(x@.contains(v) && !old(x)@.contains(v));
                } else {
                    assert(x@ =~= before);
                }
            }
            changed = changed || fresh;
        } else {
            assert(x@ =~= old(x)@.union(vs@.take(i + 1).to_set().difference(except@)));
        }
        i += 1;
    }
    assert(vs@.take(i as int) =~= vs@);
    changed
}

impl<'a> BackwardProblem for SimpleProblem<'a> {
    type In = ValueSet;

    type Out = ValueSet;

    closed spec fn func(&self) -> Function {
        *self.func
    }

    closed spec fn wf(&self) -> bool {
        &&& self.func.wf()
        &&& self.blocks.len() == self.func.blocks.len()
        &&& forall|b: int|
            0 <= b < self.blocks.len() ==> (#[trigger] self.blocks[b]).sets_wf()
                && self.blocks[b].describes(self.func.blocks[b])
    }

    open spec fn in_wf(&self, x: &ValueSet) -> bool {
        x.wf()
    }

    open spec fn out_wf(&self, y: &ValueSet) -> bool {
        y.wf()
    }

    /// What is live at the end of the block or read in it, and not defined
    /// in it, joins what was live at its start.
    open spec fn transfer_spec(&self, b: int, x: Set<SSAValue>, y: Set<SSAValue>) -> Set<
        SSAValue,
    > {
        x.union(y.union(self.func().blocks[b].uses()).difference(self.func().blocks[b].defs()))
    }

    /// What is live at the start of the successor joins what was live at
    /// the end of the block.
    open spec fn join_spec(&self, y: Set<SSAValue>, x: Set<SSAValue>) -> Set<SSAValue> {
        y.union(x)
    }

    open spec fn transfer_ok(&self, b: int, x: Set<SSAValue>, y: Set<SSAValue>) -> bool {
        true
    }

    open spec fn inv(&self, ins: Seq<Set<SSAValue>>, outs: Seq<Set<SSAValue>>) -> bool {
        SimpleProblem::within_solutions(self.func(), ins, outs)
    }

    /// The number of values that the function reads and that are not yet
    /// live at the start of the block.
    open spec fn rank(&self, b: int, x: Set<SSAValue>) -> nat {
        all_uses(self.func()).difference(x).len()
    }

    /// Live sets only grow.
    open spec fn in_le(&self, earlier: Set<SSAValue>, later: Set<SSAValue>) -> bool {
        earlier.subset_of(later)
    }

    /// Live sets only grow.
    open spec fn out_le(&self, earlier: Set<SSAValue>, later: Set<SSAValue>) -> bool {
        earlier.subset_of(later)
    }

    fn transfer(&self, b: usize, block: &BasicBlock, x: &mut ValueSet, y: &ValueSet) -> (changed:
        bool) {
        let bl = &self.blocks[b];
        let ghost x0 = x@;
        let from_out = add_except(x, y, &bl.defs);
        let ghost x1 = x@;
        let from_uses = add_except(x, &bl.uses, &bl.defs);
        proof {
            assert(self.blocks[b as int].describes(self.func.blocks[b as int]));
            assert(x@ =~= self.transfer_spec(b as int, x0, y@));
            if x1 != x0 {
                assert(!(x1 =~= x0));
                let v = choose|v: SSAValue| x1.contains(v) != x0.contains(v);
                assert(x@.contains(v) && !x0.contains(v));
            }
        }
        from_out || from_uses
    }

    fn join(&self, y: &mut ValueSet, x: &ValueSet) {
        y.union_with(x);
    }

    proof fn lemma_transfer_ok(&self, ins: Seq<Set<SSAValue>>, outs: Seq<Set<SSAValue>>, b: int) {
    }

    proof fn lemma_transfer_step(&self, ins: Seq<Set<SSAValue>>, outs: Seq<Set<SSAValue>>, b: int) {
        let func = self.func();
        let x = self.transfer_spec(b, ins[b], outs[b]);
        let ins2 = ins.update(b, x);
        assert forall|c: int| 0 <= c < func.blocks.len() implies (#[trigger] ins2[c]).subset_of(
            outs[c].union(func.blocks[c].uses()).difference(func.blocks[c].defs()),
        ) by {
            assert(ins[c].subset_of(
                outs[c].union(func.blocks[c].uses()).difference(func.blocks[c].defs()),
            ));
        }
        assert forall|c: int| 0 <= c < func.blocks.len() implies (#[trigger] outs[c]).subset_of(
            live_into_successors(func, ins2, c),
        ) by {
            assert(outs[c].subset_of(live_into_successors(func, ins, c)));
            assert forall|v: SSAValue| outs[c].contains(v) implies live_into_successors(
                func,
                ins2,
                c,
            ).contains(v) by {
                assert(live_into_successors(func, ins, c).contains(v));
                let k = choose|k: int|
                    0 <= k < func.blocks[c].succs.len() && (
                    #[trigger] ins[func.blocks[c].succs[k] as int]).contains(v);
                assert(ins2[func.blocks[c].succs[k] as int].contains(v));
            }
        }
        assert forall|live_in: Seq<Set<SSAValue>>, live_out: Seq<Set<SSAValue>>|
            #[trigger] solves_liveness(func, live_in, live_out) implies below(ins2, live_in)
            && below(outs, live_out) by {
            assert(below(ins, live_in) && below(outs, live_out));
            assert forall|c: int| 0 <= c < ins2.len() implies (#[trigger] ins2[c]).subset_of(
                live_in[c],
            ) by {
                assert(ins[c].subset_of(live_in[c]));
                assert(outs[c].subset_of(live_out[c]));
                assert(live_in[c] == live_out[c].union(func.blocks[c].uses()).difference(
                    func.blocks[c].defs(),
                ));
            }
        }
        if x != ins[b] {
            assert(!(x =~= ins[b]));
            let v = choose|v: SSAValue| x.contains(v) != ins[b].contains(v);
            assert(x.contains(v) && !ins[b].contains(v));
            assert(outs[b].subset_of(all_uses(func)));
            assert(all_uses(func).contains(v)) by {
                if !outs[b].contains(v) {
                    assert(func.blocks[b].uses().contains(v));
                }
            }
            assert forall|c: int| 0 <= c < func.blocks.len() implies (
            #[trigger] func.blocks[c]).uses().finite() by {
                assert(self.blocks[c].describes(func.blocks[c]));
                self.blocks[c].lemma_sets_finite();
            }
            lemma_uses_in_blocks_finite(func, func.blocks.len() as int);
            let u = all_uses(func);
            assert(u.difference(x).subset_of(u.difference(ins[b]).remove(v)));
            vstd::set_lib::lemma_len_subset(u.difference(x), u.difference(ins[b]).remove(v));
        }
    }

    proof fn lemma_join_step(
        &self,
        ins: Seq<Set<SSAValue>>,
        outs: Seq<Set<SSAValue>>,
        b: int,
        k: int,
    ) {
        let func = self.func();
        let s = func.blocks[b].succs[k] as int;
        let y = self.join_spec(outs[b], ins[s]);
        let outs2 = outs.update(b, y);
        assert(0 <= s < func.blocks.len());
        assert(ins[s].subset_of(
            outs[s].union(func.blocks[s].uses()).difference(func.blocks[s].defs()),
        ));
        assert(outs[s].subset_of(all_uses(func)));
        assert forall|c: int| 0 <= c < func.blocks.len() implies (#[trigger] outs2[c]).subset_of(
            all_uses(func),
        ) by {
            assert(outs[c].subset_of(all_uses(func)));
            if c == b {
                assert forall|v: SSAValue| ins[s].contains(v) implies all_uses(func).contains(
                    v,
                ) by {
                    if !outs[s].contains(v) {
                        assert(func.blocks[s].uses().contains(v));
                    }
                }
            }
        }
        assert forall|c: int| 0 <= c < func.blocks.len() implies (#[trigger] ins[c]).subset_of(
            outs2[c].union(func.blocks[c].uses()).difference(func.blocks[c].defs()),
        ) by {
            assert(ins[c].subset_of(
                outs[c].union(func.blocks[c].uses()).difference(func.blocks[c].defs()),
            ));
        }
        assert forall|c: int| 0 <= c < func.blocks.len() implies (#[trigger] outs2[c]).subset_of(
            live_into_successors(func, ins, c),
        ) by {
            assert(outs[c].subset_of(live_into_successors(func, ins, c)));
            if c == b {
                assert forall|v: SSAValue| ins[s].contains(v) implies live_into_successors(
                    func,
                    ins,
                    b,
                ).contains(v) by {
                    assert(ins[func.blocks[b].succs[k] as int].contains(v));
                }
            }
        }
        assert forall|live_in: Seq<Set<SSAValue>>, live_out: Seq<Set<SSAValue>>|
            #[trigger] solves_liveness(func, live_in, live_out) implies below(ins, live_in)
            && below(outs2, live_out) by {
            assert(below(ins, live_in) && below(outs, live_out));
            assert forall|c: int| 0 <= c < outs2.len() implies (#[trigger] outs2[c]).subset_of(
                live_out[c],
            ) by {
                assert(outs[c].subset_of(live_out[c]));
                if c == b {
                    assert(ins[s].subset_of(live_in[s]));
                    assert(live_out[b] == live_into_successors(func, live_in, b));
                    assert forall|v: SSAValue| ins[s].contains(v) implies live_out[b].contains(
                        v,
                    ) by {
                        assert(live_in[func.blocks[b].succs[k] as int].contains(v));
                    }
                }
            }
        }
    }

    proof fn lemma_steps_go_up(&self, b: int, x: Set<SSAValue>, y: Set<SSAValue>) {
    }

    proof fn lemma_le_transitive(
        &self,
        x1: Set<SSAValue>,
        x2: Set<SSAValue>,
        x3: Set<SSAValue>,
        y1: Set<SSAValue>,
        y2: Set<SSAValue>,
        y3: Set<SSAValue>,
    ) {
    }

    proof fn lemma_join_absorbs(&self, y: Set<SSAValue>, x: Set<SSAValue>, other: Set<SSAValue>) {
        assert(y.union(x).union(x) =~= y.union(x));
        if y.union(other) == y {
            assert(y.union(x).union(other) =~= y.union(other).union(x));
        }
    }
}

/// At a fixed point that lies within the solutions, the liveness
/// equations hold.
proof fn lemma_fixpoint_solves(
    problem: &SimpleProblem,
    ins: Seq<Set<SSAValue>>,
    outs: Seq<Set<SSAValue>>,
)
    requires
        problem.wf(),
        problem.inv(ins, outs),
        is_fixpoint(problem, ins, outs),
    ensures
        solves_liveness(problem.func(), ins, outs),
{
    let func = problem.func();
    assert forall|b: int| 0 <= b < func.blocks.len() implies {
        &&& #[trigger] outs[b] == live_into_successors(func, ins, b)
        &&& ins[b] == outs[b].union(func.blocks[b].uses()).difference(func.blocks[b].defs())
    } by {
        assert(stable_at(problem, ins, outs, b));
        let x = outs[b].union(func.blocks[b].uses()).difference(func.blocks[b].defs());
        assert(ins[b].subset_of(x));
        assert(ins[b].union(x) == ins[b]);
        assert(ins[b] =~= x);
        assert(outs[b].subset_of(live_into_successors(func, ins, b)));
        assert forall|v: SSAValue| live_into_successors(func, ins, b).contains(
            v,
        ) implies outs[b].contains(v) by {
            let k = choose|k: int|
                0 <= k < func.blocks[b].succs.len() && (
                #[trigger] ins[func.blocks[b].succs[k] as int]).contains(v);
            let x = ins[func.blocks[b].succs[k] as int];
            assert(problem.join_spec(outs[b], x) == outs[b]);
            assert(outs[b].union(x).contains(v));
        }
        assert(outs[b] =~= live_into_successors(func, ins, b));
    }
}

/// As many empty sets as `n`.
fn empty_sets(n: usize) -> (sets: Vec<ValueSet>)
    ensures
        sets.len() == n,
        forall|i: int| 0 <= i < n ==> (#[trigger] sets[i]).wf() && sets[i]@ == Set::<
            SSAValue,
        >::empty(),
{
    let mut sets: Vec<ValueSet> = Vec::new();
    let mut i: usize = 0;
    while i < n
        invariant
            i <= n,
            sets.len() == i,
            forall|j: int| 0 <= j < i ==> (#[trigger] sets[j]).wf() && sets[j]@ == Set::<
                SSAValue,
            >::empty(),
        decreases n - i,
    {
        sets.push(ValueSet::new());
        i += 1;
    }
    sets
}

/// From sweep to sweep of the analysis the live sets only grow, and they
/// stay within the result: the sets after `k` sweeps are within those
/// after `k + 1` sweeps, and within the sets that the analysis ends with.
pub proof fn lemma_live_sets_grow_from_sweep_to_sweep(
    problem: SimpleProblem,
    func: Function,
    live_in: Seq<Set<SSAValue>>,
    live_out: Seq<Set<SSAValue>>,
    k: nat,
)
    requires
        func.wf(),
        swept_to(problem, func, live_in, live_out),
        solves_liveness(func, live_in, live_out),
    ensures
        below(
            after_sweeps(&problem, no_values(func), no_values(func), k).0,
            after_sweeps(&problem, no_values(func), no_values(func), k + 1).0,
        ),
        below(
            after_sweeps(&problem, no_values(func), no_values(func), k).1,
            after_sweeps(&problem, no_values(func), no_values(func), k + 1).1,
        ),
        below(after_sweeps(&problem, no_values(func), no_values(func), k).0, live_in),
        below(after_sweeps(&problem, no_values(func), no_values(func), k).1, live_out),
{
    let start = no_values(func);
    let at = choose|at: nat| #[trigger] after_sweeps(&problem, start, start, at) == (live_in, live_out);
    assert(is_fixpoint(&problem, live_in, live_out)) by {
        assert forall|b: int| 0 <= b < live_in.len() implies stable_at(
            &problem,
            live_in,
            live_out,
            b,
        ) by {
            assert(live_out[b] == live_into_successors(func, live_in, b));
            assert(problem.transfer_spec(b, live_in[b], live_out[b]) =~= live_in[b]);
            assert forall|j: int| 0 <= j < func.blocks[b].succs.len() implies problem.join_spec(
                live_out[b],
                #[trigger] live_in[func.blocks[b].succs[j] as int],
            ) == live_out[b] by {
                let x = live_in[func.blocks[b].succs[j] as int];
                assert forall|v: SSAValue| x.contains(v) implies live_out[b].contains(v) by {
                    assert(live_into_successors(func, live_in, b).contains(v));
                }
                assert(live_out[b].union(x) =~= live_out[b]);
            }
        }
    }
    lemma_sweeps_go_up(&problem, start, start, k, k + 1);
    lemma_sweeps_stay_below_fixpoint(&problem, start, start, at, k);
    let now = after_sweeps(&problem, start, start, k);
    let next = after_sweeps(&problem, start, start, k + 1);
    assert forall|b: int| 0 <= b < now.0.len() implies (#[trigger] now.0[b]).subset_of(
        next.0[b],
    ) && now.0[b].subset_of(live_in[b]) by {
        assert(problem.in_le(now.0[b], next.0[b]));
        assert(problem.in_le(now.0[b], live_in[b]));
    }
    assert forall|b: int| 0 <= b < now.1.len() implies (#[trigger] now.1[b]).subset_of(
        next.1[b],
    ) && now.1[b].subset_of(live_out[b]) by {
        assert(problem.out_le(now.1[b], next.1[b]));
        assert(problem.out_le(now.1[b], live_out[b]));
    }
}

/// The liveness of a function: for every block the values that are live
/// at its start and at its end, and for every value the place of its
/// definition.
pub struct SimpleLiveness {
    ssa_block_ip: ValueMap<(usize, usize)>,
    blocks: Vec<SimpleBlockLiveness>,
}

impl SimpleLiveness {
    /// For each value that the function defines, the block and the
    /// instruction that define it.
    pub closed spec fn def_positions(&self) -> Map<SSAValue, (usize, usize)> {
        self.ssa_block_ip@
    }

    /// What the analysis knows of each block.
    pub closed spec fn blocks(&self) -> Seq<SimpleBlockLiveness> {
        self.blocks@
    }

    /// The values that are live at the start of each block.
    pub open spec fn live_ins(&self) -> Seq<Set<SSAValue>> {
        Seq::new(self.blocks().len(), |b: int| self.blocks()[b].live_in_set())
    }

    /// The values that are live at the end of each block.
    pub open spec fn live_outs(&self) -> Seq<Set<SSAValue>> {
        Seq::new(self.blocks().len(), |b: int| self.blocks()[b].live_out_set())
    }

    /// The blocks are well-formed, and every recorded definition lies in a
    /// block of the analysis.
    pub closed spec fn index_wf(&self) -> bool {
        &&& self.ssa_block_ip.wf()
        &&& forall|b: int| 0 <= b < self.blocks.len() ==> (#[trigger] self.blocks[b]).sets_wf()
        &&& forall|v: SSAValue| #[trigger]
            self.ssa_block_ip@.contains_key(v) ==> self.ssa_block_ip@[v].0 < self.blocks.len()
    }

    /// This is the liveness of `func`: the facts of each block are read off
    /// its instructions, every definition is recorded, and the live sets
    /// are the least solution of the liveness equations.
    pub open spec fn analyses(&self, func: Function) -> bool {
        &&& self.blocks().len() == func.blocks.len()
        &&& forall|b: int|
            0 <= b < func.blocks.len() ==> (#[trigger] self.blocks()[b]).describes(func.blocks[b])
        &&& is_def_index(func, self.def_positions())
        &&& exists|problem: SimpleProblem| #[trigger]
            swept_to(problem, func, self.live_ins(), self.live_outs())
        &&& solves_liveness(func, self.live_ins(), self.live_outs())
        &&& forall|live_in: Seq<Set<SSAValue>>, live_out: Seq<Set<SSAValue>>|
            #[trigger] solves_liveness(func, live_in, live_out) ==> below(
                self.live_ins(),
                live_in,
            ) && below(self.live_outs(), live_out)
    }

    /// Whether `a` interferes with `b`.  Two values defined at one place
    /// always do.  Otherwise they do exactly if the one that is defined
    /// later is live right after the place where the other is defined.
    pub open spec fn interferes_spec(&self, a: SSAValue, b: SSAValue) -> bool {
        let (ab, ai) = self.def_positions()[a];
        let (bb, bi) = self.def_positions()[b];
        if ab == bb && ai == bi {
            true
        } else if position_before(ab as int, ai as int, bb as int, bi as int) {
            self.blocks()[ab as int].live_after(b, ai as int)
        } else {
            self.blocks()[bb as int].live_after(a, bi as int)
        }
    }

    /// Analyses `func`.
    pub fn for_function(func: &Function) -> (l: SimpleLiveness)
        requires
            func.wf(),
        ensures
            l.wf(),
            l.analyses(*func),
    {
        let n = func.blocks.len();
        let mut index: ValueMap<(usize, usize)> = ValueMap::new();
        let mut blocks: Vec<SimpleBlockLiveness> = Vec::new();
        let mut bi: usize = 0;
        while bi < n
            invariant
                bi <= n,
                n == func.blocks.len(),
                blocks.len() == bi,
                index.wf(),
                is_def_index_before(*func, index@, bi as int, 0),
                forall|b: int|
                    0 <= b < bi ==> {
                        &&& (#[trigger] blocks[b]).sets_wf()
                        &&& blocks[b].describes(func.blocks[b])
                    },
            decreases n - bi,
        {
            let bl = scan_block(func, bi, &mut index);
            blocks.push(bl);
            bi += 1;
        }
        assert(blocks.len() == func.blocks.len());

        let mut live_in = empty_sets(n);
        let mut live_out = empty_sets(n);
        let problem = SimpleProblem { func, blocks: &blocks };
        proof {
            let ins = in_views::<SimpleProblem>(live_in@);
            let outs = out_views::<SimpleProblem>(live_out@);
            assert forall|live_in: Seq<Set<SSAValue>>, live_out: Seq<Set<SSAValue>>|
                #[trigger] solves_liveness(*func, live_in, live_out) implies below(ins, live_in)
                && below(outs, live_out) by {
            }
            assert(problem.inv(ins, outs));
        }
        let ghost ins0 = in_views::<SimpleProblem>(live_in@);
        let ghost outs0 = out_views::<SimpleProblem>(live_out@);
        solve(&problem, func, &mut live_in, &mut live_out);
        let ghost ins = in_views::<SimpleProblem>(live_in@);
        let ghost outs = out_views::<SimpleProblem>(live_out@);
        proof {
            lemma_fixpoint_solves(&problem, ins, outs);
            assert(ins0 =~= no_values(*func));
            assert(outs0 =~= no_values(*func));
            assert(swept_to(problem, *func, ins, outs));
        }

        let mut i: usize = n;
        while i > 0
            invariant
                i <= n,
                n == func.blocks.len(),
                blocks.len() == n,
                live_in.len() == i,
                live_out.len() == i,
                ins.len() == n,
                outs.len() == n,
                forall|b: int|
                    0 <= b < i ==> (#[trigger] live_in[b]).wf() && live_in[b]@ == ins[b],
                forall|b: int|
                    0 <= b < i ==> (#[trigger] live_out[b]).wf() && live_out[b]@ == outs[b],
                forall|b: int|
                    0 <= b < n ==> {
                        &&& (#[trigger] blocks[b]).sets_wf()
                        &&& blocks[b].describes(func.blocks[b])
                    },
                forall|b: int|
                    i <= b < n ==> {
                        &&& (#[trigger] blocks[b]).live_in_set() == ins[b]
                        &&& blocks[b].live_out_set() == outs[b]
                    },
            decreases i,
        {
            i -= 1;
            let ghost before = blocks@;
            let b_live_in = live_in.pop().unwrap();
            let b_live_out = live_out.pop().unwrap();
            let bl = &mut blocks[i];
            bl.set_live(b_live_in, b_live_out);
            proof {
                assert forall|b: int| 0 <= b < n implies {
                    &&& (#[trigger] blocks[b]).sets_wf()
                    &&& blocks[b].describes(func.blocks[b])
                } by {
                    if b != i {
                        assert(blocks[b] == before[b]);
                    } else {
                        assert(before[b].describes(func.blocks[b]));
                    }
                }
                assert forall|b: int| i <= b < n implies {
                    &&& (#[trigger] blocks[b]).live_in_set() == ins[b]
                    &&& blocks[b].live_out_set() == outs[b]
                } by {
                    if b != i {
                        assert(blocks[b] == before[b]);
                    }
                }
            }
        }

        let l = SimpleLiveness { ssa_block_ip: index, blocks };
        proof {
            assert(l.live_ins() =~= ins);
            assert(l.live_outs() =~= outs);
            assert forall|v: SSAValue| #[trigger]
                l.ssa_block_ip@.contains_key(v) implies l.ssa_block_ip@[v].0
                < l.blocks.len() by {
                assert(func.defines_at(v, l.ssa_block_ip@[v].0 as int, l.ssa_block_ip@[v].1 as int));
            }
        }
        l
    }

    /// The block and the instruction that define `ssa`.
    pub fn def_block_ip(&self, ssa: &SSAValue) -> (place: (usize, usize))
        requires
            self.wf(),
            self.def_positions().contains_key(*ssa),
        ensures
            place == self.def_positions()[*ssa],
            place.0 < self.blocks().len(),
    {
        *self.ssa_block_ip.get(ssa).unwrap()
    }

    /// Whether `a` and `b` interfere.
    pub fn interferes(&self, a: &SSAValue, b: &SSAValue) -> (yes: bool)
        requires
            self.wf(),
            self.def_positions().contains_key(*a),
            self.def_positions().contains_key(*b),
        ensures
            yes == self.interferes_spec(*a, *b),
    {
        let (ab, ai) = self.def_block_ip(a);
        let (bb, bi) = self.def_block_ip(b);
        if ab == bb && ai == bi {
            true
        } else if ab < bb || (ab == bb && ai < bi) {
            self.block_live(ab).is_live_after_ip(b, ai)
        } else {
            self.block_live(bb).is_live_after_ip(a, bi)
        }
    }
}

impl Liveness for SimpleLiveness {
    type PerBlock = SimpleBlockLiveness;

    open spec fn wf(&self) -> bool {
        self.index_wf()
    }

    open spec fn num_blocks(&self) -> nat {
        self.blocks().len()
    }

    open spec fn block(&self, idx: int) -> SimpleBlockLiveness {
        self.blocks()[idx]
    }

    fn block_live(&self, idx: usize) -> (bl: &SimpleBlockLiveness) {
        &self.blocks[idx]
    }
}

} // verus!
