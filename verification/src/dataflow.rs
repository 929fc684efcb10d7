//! A solver for backward dataflow problems over the control-flow graph of a
//! function.
//!
//! Every block has an in-state and an out-state.  A problem says how to
//! fold the in-state of a successor into the out-state of a block (`join`)
//! and how to recompute the in-state of a block from its out-state
//! (`transfer`).  The solver sweeps over the blocks, last block first, until
//! a whole sweep changes no in-state.

use crate::ir::BasicBlock;
use crate::ir::Function;
use vstd::prelude::*;

verus! {

/// A backward dataflow problem.
///
/// Contracts speak of the states by their views.  Besides the two functions
/// that the solver calls, a problem names an invariant over all states that
/// every step keeps, an order in which the states only move up, and a rank
/// of each in-state that every step that changes the in-state lowers: that
/// is why the solver terminates.
pub trait BackwardProblem {
    /// The state at the start of a block.
    type In: View;

    /// The state at the end of a block.
    type Out: View;

    /// The function that the problem is about.
    spec fn func(&self) -> Function;

    /// What the problem needs of its own data.
    spec fn wf(&self) -> bool;

    /// What `transfer` and `join` need of an in-state, and keep.
    spec fn in_wf(&self, x: &Self::In) -> bool;

    /// What `transfer` and `join` need of an out-state, and keep.
    spec fn out_wf(&self, y: &Self::Out) -> bool;

    /// The in-state of block `b` after a transfer, from its in-state `x`
    /// before and its out-state `y`.
    spec fn transfer_spec(
        &self,
        b: int,
        x: <Self::In as View>::V,
        y: <Self::Out as View>::V,
    ) -> <Self::In as View>::V;

    /// The out-state of a block after the in-state `x` of one successor has
    /// been folded into its out-state `y`.
    spec fn join_spec(&self, y: <Self::Out as View>::V, x: <Self::In as View>::V) -> <
        Self::Out as View
    >::V;

    /// What `transfer` needs of the in-state `x` and the out-state `y` of
    /// block `b`.  The invariant grants it.
    spec fn transfer_ok(
        &self,
        b: int,
        x: <Self::In as View>::V,
        y: <Self::Out as View>::V,
    ) -> bool;

    /// What holds of the states of all blocks together, before and after
    /// every step.
    spec fn inv(
        &self,
        ins: Seq<<Self::In as View>::V>,
        outs: Seq<<Self::Out as View>::V>,
    ) -> bool;

    /// How far the in-state `x` of block `b` is from the last state it can
    /// reach.
    spec fn rank(&self, b: int, x: <Self::In as View>::V) -> nat;

    /// The order in which in-states move: `later` holds all that `earlier`
    /// holds.
    spec fn in_le(&self, earlier: <Self::In as View>::V, later: <Self::In as View>::V) -> bool;

    /// The order in which out-states move: `later` holds all that `earlier`
    /// holds.
    spec fn out_le(&self, earlier: <Self::Out as View>::V, later: <Self::Out as View>::V) -> bool;

    /// Recomputes the in-state of block `b` from its out-state, and says
    /// whether the in-state changed.
    fn transfer(&self, b: usize, block: &BasicBlock, x: &mut Self::In, y: &Self::Out) -> (changed:
        bool)
        requires
            self.wf(),
            b < self.func().blocks.len(),
            *block == self.func().blocks[b as int],
            self.in_wf(old(x)),
            self.out_wf(y),
            self.transfer_ok(b as int, old(x)@, y@),
        ensures
            self.in_wf(final(x)),
            final(x)@ == self.transfer_spec(b as int, old(x)@, y@),
            changed == (final(x)@ != old(x)@),
    ;

    /// Folds the in-state of a successor into the out-state of a block.
    fn join(&self, y: &mut Self::Out, x: &Self::In)
        requires
            self.wf(),
            self.out_wf(old(y)),
            self.in_wf(x),
        ensures
            self.out_wf(final(y)),
            final(y)@ == self.join_spec(old(y)@, x@),
    ;

    /// Where the invariant holds, a transfer has what it needs.
    proof fn lemma_transfer_ok(
        &self,
        ins: Seq<<Self::In as View>::V>,
        outs: Seq<<Self::Out as View>::V>,
        b: int,
    )
        requires
            self.wf(),
            self.inv(ins, outs),
            ins.len() == self.func().blocks.len(),
            outs.len() == self.func().blocks.len(),
            0 <= b < ins.len(),
        ensures
            self.transfer_ok(b, ins[b], outs[b]),
    ;

    /// A transfer keeps the invariant, and lowers the rank of the in-state
    /// if it changes it.
    proof fn lemma_transfer_step(
        &self,
        ins: Seq<<Self::In as View>::V>,
        outs: Seq<<Self::Out as View>::V>,
        b: int,
    )
        requires
            self.wf(),
            self.inv(ins, outs),
            ins.len() == self.func().blocks.len(),
            outs.len() == self.func().blocks.len(),
            0 <= b < ins.len(),
        ensures
            self.inv(ins.update(b, self.transfer_spec(b, ins[b], outs[b])), outs),
            self.transfer_spec(b, ins[b], outs[b]) != ins[b] ==> self.rank(
                b,
                self.transfer_spec(b, ins[b], outs[b]),
            ) < self.rank(b, ins[b]),
    ;

    /// A join with the in-state of a successor keeps the invariant.
    proof fn lemma_join_step(
        &self,
        ins: Seq<<Self::In as View>::V>,
        outs: Seq<<Self::Out as View>::V>,
        b: int,
        k: int,
    )
        requires
            self.wf(),
            self.func().wf(),
            self.inv(ins, outs),
            ins.len() == self.func().blocks.len(),
            outs.len() == self.func().blocks.len(),
            0 <= b < ins.len(),
            0 <= k < self.func().blocks[b].succs.len(),
        ensures
            self.inv(
                ins,
                outs.update(
                    b,
                    self.join_spec(outs[b], ins[self.func().blocks[b].succs[k] as int]),
                ),
            ),
    ;

    /// States only move up: a transfer takes an in-state to one that is
    /// above it, and a join takes an out-state to one that is above it.
    proof fn lemma_steps_go_up(
        &self,
        b: int,
        x: <Self::In as View>::V,
        y: <Self::Out as View>::V,
    )
        ensures
            self.in_le(x, x),
            self.out_le(y, y),
            self.in_le(x, self.transfer_spec(b, x, y)),
            self.out_le(y, self.join_spec(y, x)),
    ;

    /// What is above a state that is above another is above that other.
    proof fn lemma_le_transitive(
        &self,
        x1: <Self::In as View>::V,
        x2: <Self::In as View>::V,
        x3: <Self::In as View>::V,
        y1: <Self::Out as View>::V,
        y2: <Self::Out as View>::V,
        y3: <Self::Out as View>::V,
    )
        ensures
            self.in_le(x1, x2) && self.in_le(x2, x3) ==> self.in_le(x1, x3),
            self.out_le(y1, y2) && self.out_le(y2, y3) ==> self.out_le(y1, y3),
    ;

    /// A second join with the same in-state changes nothing, and a join
    /// with another in-state does not undo it.
    proof fn lemma_join_absorbs(
        &self,
        y: <Self::Out as View>::V,
        x: <Self::In as View>::V,
        other: <Self::In as View>::V,
    )
        ensures
            self.join_spec(self.join_spec(y, x), x) == self.join_spec(y, x),
            self.join_spec(y, other) == y ==> self.join_spec(self.join_spec(y, x), other)
                == self.join_spec(y, x),
    ;
}

/// The views of the in-states.
pub open spec fn in_views<P: BackwardProblem>(ins: Seq<P::In>) -> Seq<<P::In as View>::V> {
    ins.map_values(|x: P::In| x@)
}

/// The views of the out-states.
pub open spec fn out_views<P: BackwardProblem>(outs: Seq<P::Out>) -> Seq<<P::Out as View>::V> {
    outs.map_values(|y: P::Out| y@)
}

/// Neither a transfer nor a join with any successor would change the
/// states of block `b`.
pub open spec fn stable_at<P: BackwardProblem>(
    problem: &P,
    ins: Seq<<P::In as View>::V>,
    outs: Seq<<P::Out as View>::V>,
    b: int,
) -> bool {
    &&& problem.transfer_spec(b, ins[b], outs[b]) == ins[b]
    &&& forall|k: int|
        0 <= k < problem.func().blocks[b].succs.len() ==> problem.join_spec(
            outs[b],
            #[trigger] ins[problem.func().blocks[b].succs[k] as int],
        ) == outs[b]
}

/// The states are a fixed point: no transfer and no join would change any
/// of them.
pub open spec fn is_fixpoint<P: BackwardProblem>(
    problem: &P,
    ins: Seq<<P::In as View>::V>,
    outs: Seq<<P::Out as View>::V>,
) -> bool {
    forall|b: int| 0 <= b < ins.len() ==> stable_at(problem, ins, outs, b)
}

/// Every in-state of `later` is above the in-state of `earlier` at its
/// place.
pub open spec fn ins_above<P: BackwardProblem>(
    problem: &P,
    earlier: Seq<<P::In as View>::V>,
    later: Seq<<P::In as View>::V>,
) -> bool {
    &&& earlier.len() == later.len()
    &&& forall|i: int| 0 <= i < earlier.len() ==> problem.in_le(earlier[i], #[trigger] later[i])
}

/// Every out-state of `later` is above the out-state of `earlier` at its
/// place.
pub open spec fn outs_above<P: BackwardProblem>(
    problem: &P,
    earlier: Seq<<P::Out as View>::V>,
    later: Seq<<P::Out as View>::V>,
) -> bool {
    &&& earlier.len() == later.len()
    &&& forall|i: int| 0 <= i < earlier.len() ==> problem.out_le(earlier[i], #[trigger] later[i])
}

/// The out-state `y` of block `b` after the in-states of its first `k`
/// successors have been folded into it.
pub open spec fn joined<P: BackwardProblem>(
    problem: &P,
    ins: Seq<<P::In as View>::V>,
    y: <P::Out as View>::V,
    b: int,
    k: int,
) -> <P::Out as View>::V
    decreases k,
{
    if k <= 0 {
        y
    } else {
        problem.join_spec(
            joined(problem, ins, y, b, k - 1),
            ins[problem.func().blocks[b].succs[k - 1] as int],
        )
    }
}

/// The states after a visit to block `b`: the in-states of its successors
/// are folded into its out-state, and then its in-state is recomputed.
pub open spec fn visited<P: BackwardProblem>(
    problem: &P,
    ins: Seq<<P::In as View>::V>,
    outs: Seq<<P::Out as View>::V>,
    b: int,
) -> (Seq<<P::In as View>::V>, Seq<<P::Out as View>::V>) {
    let y = joined(problem, ins, outs[b], b, problem.func().blocks[b].succs.len() as int);
    (ins.update(b, problem.transfer_spec(b, ins[b], y)), outs.update(b, y))
}

/// The states after the blocks from the last one down to block `b` have
/// been visited.
pub open spec fn swept_down_to<P: BackwardProblem>(
    problem: &P,
    ins: Seq<<P::In as View>::V>,
    outs: Seq<<P::Out as View>::V>,
    b: int,
) -> (Seq<<P::In as View>::V>, Seq<<P::Out as View>::V>)
    decreases ins.len() - b,
{
    if b >= ins.len() {
        (ins, outs)
    } else {
        let later = swept_down_to(problem, ins, outs, b + 1);
        visited(problem, later.0, later.1, b)
    }
}

/// The states after one sweep: a visit to every block, last block first.
pub open spec fn swept<P: BackwardProblem>(
    problem: &P,
    ins: Seq<<P::In as View>::V>,
    outs: Seq<<P::Out as View>::V>,
) -> (Seq<<P::In as View>::V>, Seq<<P::Out as View>::V>) {
    swept_down_to(problem, ins, outs, 0)
}

/// The states after `k` sweeps.
pub open spec fn after_sweeps<P: BackwardProblem>(
    problem: &P,
    ins: Seq<<P::In as View>::V>,
    outs: Seq<<P::Out as View>::V>,
    k: nat,
) -> (Seq<<P::In as View>::V>, Seq<<P::Out as View>::V>)
    decreases k,
{
    if k == 0 {
        (ins, outs)
    } else {
        let before = after_sweeps(problem, ins, outs, (k - 1) as nat);
        swept(problem, before.0, before.1)
    }
}

/// Some number of sweeps takes the states `ins0` and `outs0` to the states
/// `ins` and `outs`.
pub open spec fn reached_by_sweeps<P: BackwardProblem>(
    problem: &P,
    ins0: Seq<<P::In as View>::V>,
    outs0: Seq<<P::Out as View>::V>,
    ins: Seq<<P::In as View>::V>,
    outs: Seq<<P::Out as View>::V>,
) -> bool {
    exists|k: nat| #[trigger] after_sweeps(problem, ins0, outs0, k) == (ins, outs)
}

/// Every state is above itself.
pub proof fn lemma_above_reflexive<P: BackwardProblem>(
    problem: &P,
    ins: Seq<<P::In as View>::V>,
    outs: Seq<<P::Out as View>::V>,
)
    requires
        ins.len() == outs.len(),
    ensures
        ins_above(problem, ins, ins),
        outs_above(problem, outs, outs),
{
    assert forall|i: int| 0 <= i < ins.len() implies problem.in_le(ins[i], #[trigger] ins[i]) by {
        problem.lemma_steps_go_up(i, ins[i], outs[i]);
    }
    assert forall|i: int| 0 <= i < outs.len() implies problem.out_le(
        outs[i],
        #[trigger] outs[i],
    ) by {
        problem.lemma_steps_go_up(i, ins[i], outs[i]);
    }
}

/// Folding in-states into an out-state moves it up.
pub proof fn lemma_joined_goes_up<P: BackwardProblem>(
    problem: &P,
    ins: Seq<<P::In as View>::V>,
    y: <P::Out as View>::V,
    b: int,
    k: int,
)
    ensures
        problem.out_le(y, joined(problem, ins, y, b, k)),
    decreases k,
{
    if k <= 0 {
        problem.lemma_steps_go_up(b, ins[b], y);
    } else {
        let before = joined(problem, ins, y, b, k - 1);
        let x = ins[problem.func().blocks[b].succs[k - 1] as int];
        lemma_joined_goes_up(problem, ins, y, b, k - 1);
        problem.lemma_steps_go_up(b, x, before);
        problem.lemma_le_transitive(x, x, x, y, before, problem.join_spec(before, x));
    }
}

/// A visit to a block moves every state up.
pub proof fn lemma_visited_goes_up<P: BackwardProblem>(
    problem: &P,
    ins: Seq<<P::In as View>::V>,
    outs: Seq<<P::Out as View>::V>,
    b: int,
)
    requires
        ins.len() == outs.len(),
        0 <= b < ins.len(),
    ensures
        ins_above(problem, ins, visited(problem, ins, outs, b).0),
        outs_above(problem, outs, visited(problem, ins, outs, b).1),
{
    let y = joined(problem, ins, outs[b], b, problem.func().blocks[b].succs.len() as int);
    let after = visited(problem, ins, outs, b);
    lemma_joined_goes_up(problem, ins, outs[b], b, problem.func().blocks[b].succs.len() as int);
    problem.lemma_steps_go_up(b, ins[b], y);
    assert forall|i: int| 0 <= i < ins.len() implies problem.in_le(
        ins[i],
        #[trigger] after.0[i],
    ) by {
        problem.lemma_steps_go_up(i, ins[i], outs[i]);
    }
    assert forall|i: int| 0 <= i < outs.len() implies problem.out_le(
        outs[i],
        #[trigger] after.1[i],
    ) by {
        problem.lemma_steps_go_up(i, ins[i], outs[i]);
    }
}

/// What is above states that are above others is above those others.
pub proof fn lemma_above_transitive<P: BackwardProblem>(
    problem: &P,
    ins1: Seq<<P::In as View>::V>,
    ins2: Seq<<P::In as View>::V>,
    ins3: Seq<<P::In as View>::V>,
    outs1: Seq<<P::Out as View>::V>,
    outs2: Seq<<P::Out as View>::V>,
    outs3: Seq<<P::Out as View>::V>,
)
    requires
        ins_above(problem, ins1, ins2),
        ins_above(problem, ins2, ins3),
        outs_above(problem, outs1, outs2),
        outs_above(problem, outs2, outs3),
        ins1.len() == outs1.len(),
    ensures
        ins_above(problem, ins1, ins3),
        outs_above(problem, outs1, outs3),
{
    assert forall|i: int| 0 <= i < ins1.len() implies problem.in_le(
        ins1[i],
        #[trigger] ins3[i],
    ) by {
        assert(problem.in_le(ins1[i], ins2[i]));
        assert(problem.in_le(ins2[i], ins3[i]));
        problem.lemma_le_transitive(ins1[i], ins2[i], ins3[i], outs1[i], outs1[i], outs1[i]);
    }
    assert forall|i: int| 0 <= i < outs1.len() implies problem.out_le(
        outs1[i],
        #[trigger] outs3[i],
    ) by {
        assert(problem.out_le(outs1[i], outs2[i]));
        assert(problem.out_le(outs2[i], outs3[i]));
        problem.lemma_le_transitive(ins1[i], ins1[i], ins1[i], outs1[i], outs2[i], outs3[i]);
    }
}

/// The visits of a sweep move every state up.
pub proof fn lemma_swept_down_to_goes_up<P: BackwardProblem>(
    problem: &P,
    ins: Seq<<P::In as View>::V>,
    outs: Seq<<P::Out as View>::V>,
    b: int,
)
    requires
        ins.len() == outs.len(),
        0 <= b,
    ensures
        ins_above(problem, ins, swept_down_to(problem, ins, outs, b).0),
        outs_above(problem, outs, swept_down_to(problem, ins, outs, b).1),
    decreases ins.len() - b,
{
    if b >= ins.len() {
        lemma_above_reflexive(problem, ins, outs);
    } else {
        let later = swept_down_to(problem, ins, outs, b + 1);
        lemma_swept_down_to_goes_up(problem, ins, outs, b + 1);
        lemma_visited_goes_up(problem, later.0, later.1, b);
        let after = visited(problem, later.0, later.1, b);
        lemma_above_transitive(problem, ins, later.0, after.0, outs, later.1, after.1);
    }
}

/// From sweep to sweep the states only move up: after more sweeps every
/// state is above what it was after fewer.
pub proof fn lemma_sweeps_go_up<P: BackwardProblem>(
    problem: &P,
    ins: Seq<<P::In as View>::V>,
    outs: Seq<<P::Out as View>::V>,
    fewer: nat,
    more: nat,
)
    requires
        ins.len() == outs.len(),
        fewer <= more,
    ensures
        ins_above(
            problem,
            after_sweeps(problem, ins, outs, fewer).0,
            after_sweeps(problem, ins, outs, more).0,
        ),
        outs_above(
            problem,
            after_sweeps(problem, ins, outs, fewer).1,
            after_sweeps(problem, ins, outs, more).1,
        ),
        after_sweeps(problem, ins, outs, more).0.len() == ins.len(),
        after_sweeps(problem, ins, outs, more).1.len() == ins.len(),
    decreases more,
{
    if more == 0 {
        lemma_above_reflexive(problem, ins, outs);
    } else {
        let before = after_sweeps(problem, ins, outs, (more - 1) as nat);
        let after = after_sweeps(problem, ins, outs, more);
        lemma_sweeps_go_up(problem, ins, outs, 0, (more - 1) as nat);
        lemma_swept_down_to_goes_up(problem, before.0, before.1, 0);
        if fewer == more {
            lemma_above_reflexive(problem, after.0, after.1);
        } else {
            lemma_sweeps_go_up(problem, ins, outs, fewer, (more - 1) as nat);
            let start = after_sweeps(problem, ins, outs, fewer);
            lemma_above_transitive(
                problem,
                start.0,
                before.0,
                after.0,
                start.1,
                before.1,
                after.1,
            );
        }
    }
}

/// At a fixed point a visit to a block changes nothing.
pub proof fn lemma_fixpoint_visited<P: BackwardProblem>(
    problem: &P,
    ins: Seq<<P::In as View>::V>,
    outs: Seq<<P::Out as View>::V>,
    b: int,
)
    requires
        ins.len() == outs.len(),
        0 <= b < ins.len(),
        is_fixpoint(problem, ins, outs),
    ensures
        visited(problem, ins, outs, b) == (ins, outs),
{
    assert(stable_at(problem, ins, outs, b));
    lemma_fixpoint_joined(problem, ins, outs, b, problem.func().blocks[b].succs.len() as int);
    let after = visited(problem, ins, outs, b);
    assert(after.0 =~= ins);
    assert(after.1 =~= outs);
}

/// At a fixed point folding the in-states of the successors of a block
/// into its out-state changes nothing.
pub proof fn lemma_fixpoint_joined<P: BackwardProblem>(
    problem: &P,
    ins: Seq<<P::In as View>::V>,
    outs: Seq<<P::Out as View>::V>,
    b: int,
    k: int,
)
    requires
        stable_at(problem, ins, outs, b),
        k <= problem.func().blocks[b].succs.len(),
    ensures
        joined(problem, ins, outs[b], b, k) == outs[b],
    decreases k,
{
    if k > 0 {
        lemma_fixpoint_joined(problem, ins, outs, b, k - 1);
        let x = ins[problem.func().blocks[b].succs[k - 1] as int];
        assert(problem.join_spec(outs[b], x) == outs[b]);
    }
}

/// At a fixed point the visits of a sweep change nothing.
pub proof fn lemma_fixpoint_swept_down_to<P: BackwardProblem>(
    problem: &P,
    ins: Seq<<P::In as View>::V>,
    outs: Seq<<P::Out as View>::V>,
    b: int,
)
    requires
        ins.len() == outs.len(),
        0 <= b,
        is_fixpoint(problem, ins, outs),
    ensures
        swept_down_to(problem, ins, outs, b) == (ins, outs),
    decreases ins.len() - b,
{
    if b < ins.len() {
        lemma_fixpoint_swept_down_to(problem, ins, outs, b + 1);
        lemma_fixpoint_visited(problem, ins, outs, b);
    }
}

/// Once the sweeps have reached a fixed point, further sweeps change
/// nothing: the states after any number of sweeps are below the fixed
/// point.
pub proof fn lemma_sweeps_stay_below_fixpoint<P: BackwardProblem>(
    problem: &P,
    ins: Seq<<P::In as View>::V>,
    outs: Seq<<P::Out as View>::V>,
    at: nat,
    k: nat,
)
    requires
        ins.len() == outs.len(),
        is_fixpoint(
            problem,
            after_sweeps(problem, ins, outs, at).0,
            after_sweeps(problem, ins, outs, at).1,
        ),
    ensures
        k >= at ==> after_sweeps(problem, ins, outs, k) == after_sweeps(problem, ins, outs, at),
        ins_above(
            problem,
            after_sweeps(problem, ins, outs, k).0,
            after_sweeps(problem, ins, outs, at).0,
        ),
        outs_above(
            problem,
            after_sweeps(problem, ins, outs, k).1,
            after_sweeps(problem, ins, outs, at).1,
        ),
    decreases k,
{
    let end = after_sweeps(problem, ins, outs, at);
    lemma_sweeps_go_up(problem, ins, outs, 0, at);
    if k <= at {
        lemma_sweeps_go_up(problem, ins, outs, k, at);
    } else {
        lemma_sweeps_stay_below_fixpoint(problem, ins, outs, at, (k - 1) as nat);
        lemma_fixpoint_swept_down_to(problem, end.0, end.1, 0);
        lemma_above_reflexive(problem, end.0, end.1);
    }
}

/// The ranks of the first `n` in-states, added up.
pub open spec fn total_rank<P: BackwardProblem>(
    problem: &P,
    ins: Seq<<P::In as View>::V>,
    n: int,
) -> nat
    decreases n,
{
    if n <= 0 {
        0
    } else {
        total_rank(problem, ins, n - 1) + problem.rank(n - 1, ins[n - 1])
    }
}

/// Replacing one in-state changes the total rank by the difference of the
/// two ranks.
pub proof fn lemma_total_rank_update<P: BackwardProblem>(
    problem: &P,
    ins: Seq<<P::In as View>::V>,
    b: int,
    x: <P::In as View>::V,
    n: int,
)
    requires
        0 <= b < ins.len(),
        0 <= n <= ins.len(),
    ensures
        total_rank(problem, ins.update(b, x), n) + (if b < n {
            problem.rank(b, ins[b])
        } else {
            0
        }) == total_rank(problem, ins, n) + (if b < n {
            problem.rank(b, x)
        } else {
            0
        }),
    decreases n,
{
    if n > 0 {
        lemma_total_rank_update(problem, ins, b, x, n - 1);
    }
}

/// Every in-state and every out-state is well-formed.
pub open spec fn states_wf<P: BackwardProblem>(
    problem: &P,
    ins: Seq<P::In>,
    outs: Seq<P::Out>,
) -> bool {
    &&& forall|i: int| 0 <= i < ins.len() ==> problem.in_wf(#[trigger] &ins[i])
    &&& forall|i: int| 0 <= i < outs.len() ==> problem.out_wf(#[trigger] &outs[i])
}

/// Folds the in-states of the successors of block `b` into its out-state.
fn join_successors<P: BackwardProblem>(
    problem: &P,
    func: &Function,
    b: usize,
    block_in: &Vec<P::In>,
    block_out: &mut Vec<P::Out>,
)
    requires
        problem.wf(),
        func.wf(),
        problem.func() == *func,
        b < func.blocks.len(),
        block_in.len() == func.blocks.len(),
        old(block_out).len() == func.blocks.len(),
        states_wf(problem, block_in@, old(block_out)@),
        problem.inv(in_views::<P>(block_in@), out_views::<P>(old(block_out)@)),
    ensures
        final(block_out).len() == func.blocks.len(),
        states_wf(problem, block_in@, final(block_out)@),
        problem.inv(in_views::<P>(block_in@), out_views::<P>(final(block_out)@)),
        forall|j: int|
            0 <= j < func.blocks.len() && j != b ==> final(block_out)@[j] == old(block_out)@[j],
        problem.out_le(old(block_out)@[b as int]@, final(block_out)@[b as int]@),
        final(block_out)@[b as int]@ == joined(
            problem,
            in_views::<P>(block_in@),
            old(block_out)@[b as int]@,
            b as int,
            func.blocks[b as int].succs.len() as int,
        ),
        forall|k: int|
            0 <= k < func.blocks[b as int].succs.len() ==> problem.join_spec(
                final(block_out)@[b as int]@,
                #[trigger] in_views::<P>(block_in@)[func.blocks[b as int].succs[k] as int],
            ) == final(block_out)@[b as int]@,
{
    let ghost ins = in_views::<P>(block_in@);
    let n_succs = func.blocks[b].succs.len();
    let mut k: usize = 0;
    proof {
        problem.lemma_steps_go_up(b as int, ins[b as int], block_out@[b as int]@);
    }
    while k < n_succs
        invariant
            k <= n_succs,
            problem.out_le(old(block_out)@[b as int]@, block_out@[b as int]@),
            block_out@[b as int]@ == joined(
                problem,
                ins,
                old(block_out)@[b as int]@,
                b as int,
                k as int,
            ),
            n_succs == func.blocks[b as int].succs.len(),
            problem.wf(),
            func.wf(),
            problem.func() == *func,
            b < func.blocks.len(),
            block_in.len() == func.blocks.len(),
            block_out.len() == func.blocks.len(),
            ins == in_views::<P>(block_in@),
            states_wf(problem, block_in@, block_out@),
            problem.inv(ins, out_views::<P>(block_out@)),
            forall|j: int|
                0 <= j < func.blocks.len() && j != b ==> block_out@[j] == old(block_out)@[j],
            forall|j: int|
                0 <= j < k ==> problem.join_spec(
                    block_out@[b as int]@,
                    #[trigger] ins[func.blocks[b as int].succs[j] as int],
                ) == block_out@[b as int]@,
        decreases n_succs - k,
    {
        let s = func.blocks[b].succs[k];
        assert(s < func.blocks.len());
        let ghost outs = out_views::<P>(block_out@);
        let ghost before = block_out@;
        assert(problem.in_wf(&block_in@[s as int]));
        assert(problem.out_wf(&block_out@[b as int]));
        problem.join(&mut block_out[b], &block_in[s]);
        proof {
            let y = outs[b as int];
            let x = ins[s as int];
            problem.lemma_join_step(ins, outs, b as int, k as int);
            assert(out_views::<P>(block_out@) =~= outs.update(b as int, problem.join_spec(y, x)));
            problem.lemma_steps_go_up(b as int, x, y);
            problem.lemma_le_transitive(
                x,
                x,
                x,
                old(block_out)@[b as int]@,
                y,
                problem.join_spec(y, x),
            );
            assert forall|j: int| 0 <= j < k + 1 implies problem.join_spec(
                block_out@[b as int]@,
                #[trigger] ins[func.blocks[b as int].succs[j] as int],
            ) == block_out@[b as int]@ by {
                let other = ins[func.blocks[b as int].succs[j] as int];
                problem.lemma_join_absorbs(y, x, other);
                if j < k {
                    assert(problem.join_spec(y, other) == y);
                }
            }
            assert forall|i: int| 0 <= i < block_out.len() implies problem.out_wf(
                #[trigger] &block_out@[i],
            ) by {
                if i != b {
                    assert(block_out@[i] == before[i]);
                }
            }
        }
        k += 1;
    }
}

/// Runs the analysis to a fixed point.
///
/// The solver sweeps over the blocks until a sweep changes no in-state.
/// On return the states are those after some number of sweeps, no transfer
/// and no join would change a state any more, the invariant of the problem
/// holds of the states, and every state is above the state that it started
/// from: states only move up from sweep to sweep.
pub fn solve<P: BackwardProblem>(
    problem: &P,
    func: &Function,
    block_in: &mut Vec<P::In>,
    block_out: &mut Vec<P::Out>,
)
    requires
        problem.wf(),
        func.wf(),
        problem.func() == *func,
        old(block_in).len() == func.blocks.len(),
        old(block_out).len() == func.blocks.len(),
        states_wf(problem, old(block_in)@, old(block_out)@),
        problem.inv(in_views::<P>(old(block_in)@), out_views::<P>(old(block_out)@)),
    ensures
        final(block_in).len() == func.blocks.len(),
        final(block_out).len() == func.blocks.len(),
        states_wf(problem, final(block_in)@, final(block_out)@),
        problem.inv(in_views::<P>(final(block_in)@), out_views::<P>(final(block_out)@)),
        is_fixpoint(problem, in_views::<P>(final(block_in)@), out_views::<P>(final(block_out)@)),
        ins_above(problem, in_views::<P>(old(block_in)@), in_views::<P>(final(block_in)@)),
        outs_above(problem, out_views::<P>(old(block_out)@), out_views::<P>(final(block_out)@)),
        reached_by_sweeps(
            problem,
            in_views::<P>(old(block_in)@),
            out_views::<P>(old(block_out)@),
            in_views::<P>(final(block_in)@),
            out_views::<P>(final(block_out)@),
        ),
{
    let n = func.blocks.len();
    let ghost first_ins = in_views::<P>(block_in@);
    let ghost first_outs = out_views::<P>(block_out@);
    let ghost mut sweeps: nat = 0;
    proof {
        assert forall|i: int| 0 <= i < n implies problem.in_le(
            first_ins[i],
            #[trigger] first_ins[i],
        ) by {
            problem.lemma_steps_go_up(i, first_ins[i], first_outs[i]);
        }
        assert forall|i: int| 0 <= i < n implies problem.out_le(
            first_outs[i],
            #[trigger] first_outs[i],
        ) by {
            problem.lemma_steps_go_up(i, first_ins[i], first_outs[i]);
        }
    }
    let mut to_do = true;
    while to_do
        invariant
            ins_above(problem, first_ins, in_views::<P>(block_in@)),
            outs_above(problem, first_outs, out_views::<P>(block_out@)),
            after_sweeps(problem, first_ins, first_outs, sweeps) == (
                in_views::<P>(block_in@),
                out_views::<P>(block_out@),
            ),
            problem.wf(),
            func.wf(),
            problem.func() == *func,
            n == func.blocks.len(),
            block_in.len() == n,
            block_out.len() == n,
            states_wf(problem, block_in@, block_out@),
            problem.inv(in_views::<P>(block_in@), out_views::<P>(block_out@)),
            !to_do ==> is_fixpoint(problem, in_views::<P>(block_in@), out_views::<P>(block_out@)),
        decreases total_rank(problem, in_views::<P>(block_in@), n as int), (if to_do { 1int } else { 0 }),
    {
        to_do = false;
        let ghost start = in_views::<P>(block_in@);
        let ghost start_outs = out_views::<P>(block_out@);
        let mut b: usize = n;
        while b > 0
            invariant
                ins_above(problem, first_ins, in_views::<P>(block_in@)),
                outs_above(problem, first_outs, out_views::<P>(block_out@)),
                start_outs.len() == n,
                swept_down_to(problem, start, start_outs, b as int) == (
                    in_views::<P>(block_in@),
                    out_views::<P>(block_out@),
                ),
                problem.wf(),
                func.wf(),
                problem.func() == *func,
                n == func.blocks.len(),
                b <= n,
                block_in.len() == n,
                block_out.len() == n,
                start.len() == n,
                states_wf(problem, block_in@, block_out@),
                problem.inv(in_views::<P>(block_in@), out_views::<P>(block_out@)),
                total_rank(problem, in_views::<P>(block_in@), n as int) <= total_rank(
                    problem,
                    start,
                    n as int,
                ),
                to_do ==> total_rank(problem, in_views::<P>(block_in@), n as int) < total_rank(
                    problem,
                    start,
                    n as int,
                ),
                !to_do ==> in_views::<P>(block_in@) == start,
                !to_do ==> forall|j: int|
                    b <= j < n ==> stable_at(
                        problem,
                        in_views::<P>(block_in@),
                        out_views::<P>(block_out@),
                        j,
                    ),
            decreases b,
        {
            b -= 1;
            let ghost outs_before = out_views::<P>(block_out@);
            join_successors(problem, func, b, block_in, block_out);
            proof {
                let outs_now = out_views::<P>(block_out@);
                assert forall|i: int| 0 <= i < n implies problem.out_le(
                    first_outs[i],
                    #[trigger] outs_now[i],
                ) by {
                    assert(problem.out_le(first_outs[i], outs_before[i]));
                    if i == b {
                        problem.lemma_le_transitive(
                            in_views::<P>(block_in@)[i],
                            in_views::<P>(block_in@)[i],
                            in_views::<P>(block_in@)[i],
                            first_outs[i],
                            outs_before[i],
                            outs_now[i],
                        );
                    } else {
                        assert(outs_now[i] == outs_before[i]);
                    }
                }
            }

            let ghost ins = in_views::<P>(block_in@);
            let ghost outs = out_views::<P>(block_out@);
            let ghost in_before = block_in@;
            assert(problem.in_wf(&block_in@[b as int]));
            assert(problem.out_wf(&block_out@[b as int]));
            proof {
                problem.lemma_transfer_ok(ins, outs, b as int);
            }
            let changed = problem.transfer(b, &func.blocks[b], &mut block_in[b], &block_out[b]);
            proof {
                let x = problem.transfer_spec(b as int, ins[b as int], outs[b as int]);
                assert(outs =~= outs_before.update(b as int, outs[b as int]));
                assert(swept_down_to(problem, start, start_outs, b + 1) == (ins, outs_before));
                assert(visited(problem, ins, outs_before, b as int) == (
                    ins.update(b as int, x),
                    outs,
                ));
                problem.lemma_transfer_step(ins, outs, b as int);
                problem.lemma_steps_go_up(b as int, ins[b as int], outs[b as int]);
                problem.lemma_le_transitive(
                    first_ins[b as int],
                    ins[b as int],
                    x,
                    outs[b as int],
                    outs[b as int],
                    outs[b as int],
                );
                assert forall|i: int| 0 <= i < n implies problem.in_le(
                    first_ins[i],
                    #[trigger] ins.update(b as int, x)[i],
                ) by {
                    assert(problem.in_le(first_ins[i], ins[i]));
                }
                lemma_total_rank_update(problem, ins, b as int, x, n as int);
                assert(in_views::<P>(block_in@) =~= ins.update(b as int, x));
                assert forall|i: int| 0 <= i < block_in.len() implies problem.in_wf(
                    #[trigger] &block_in@[i],
                ) by {
                    if i != b {
                        assert(block_in@[i] == in_before[i]);
                    }
                }
                if !changed && !to_do {
                    assert(in_views::<P>(block_in@) =~= start);
                    assert forall|j: int| b <= j < n implies stable_at(
                        problem,
                        in_views::<P>(block_in@),
                        out_views::<P>(block_out@),
                        j,
                    ) by {
                        if j != b {
                            assert(outs[j] == outs_before[j]);
                            assert(stable_at(problem, start, outs_before, j));
                        }
                    }
                }
            }
            to_do = to_do || changed;
        }
        proof {
            sweeps = sweeps + 1;
        }
    }
}

} // verus!
