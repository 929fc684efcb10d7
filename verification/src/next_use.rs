//! Liveness with next-use points: for every block and every value, the
//! instructions that read the value from the start of the block on, in the
//! block itself and, nearest first, in the blocks that run after it.
//!
//! Every point counts instructions from the start of the block that it is
//! recorded for: a point below the number of instructions of that block is
//! a use in the block, and a point at or above it is a use in a later
//! block.

use crate::block_liveness::BlockLiveness;
use crate::dataflow::BackwardProblem;
use crate::dataflow::in_views;
use crate::dataflow::is_fixpoint;
use crate::dataflow::after_sweeps;
use crate::dataflow::lemma_sweeps_go_up;
use crate::dataflow::lemma_sweeps_stay_below_fixpoint;
use crate::dataflow::out_views;
use crate::dataflow::reached_by_sweeps;
use crate::dataflow::solve;
use crate::dataflow::stable_at;
use crate::ir::BasicBlock;
use crate::ir::Function;
use crate::ir::RegFileSet;
use crate::ir::SSAValue;
use crate::liveness::Liveness;
use crate::seq_facts::lemma_push_contains;
use crate::set_sum::lemma_set_sum_lt;
use crate::set_sum::set_sum;
use crate::value_map::ValueMap;
use vstd::prelude::*;

verus! {

/// What a block records of one value, as a mathematical value.
pub struct UseDefView {
    /// Whether the block defines the value.
    pub defined: bool,
    /// The points at which the value is read.
    pub uses: Seq<usize>,
}

/// The point, counted from the start of a block of `num_block_instrs`
/// instructions, of a use at `use_ip` in a block that runs right after it:
/// their sum.  Where the sum is beyond the largest number, which no point
/// of an analysis ever is, the largest number stands for it.
pub open spec fn successor_point(num_block_instrs: usize, use_ip: usize) -> usize {
    if num_block_instrs + use_ip <= usize::MAX {
        (num_block_instrs + use_ip) as usize
    } else {
        usize::MAX
    }
}

/// The points of `uses` do not go down.
pub open spec fn ascending(uses: Seq<usize>) -> bool {
    forall|i: int, j: int| 0 <= i <= j < uses.len() ==> uses[i] <= uses[j]
}

impl UseDefView {
    /// What is recorded of a value that has not been seen.
    pub open spec fn unseen() -> UseDefView {
        UseDefView { defined: false, uses: Seq::empty() }
    }

    /// The use points do not go down.
    pub open spec fn ascending(self) -> bool {
        ascending(self.uses)
    }

    /// The use points do not go down, and all but the last are uses in the
    /// block itself, which has `num_block_instrs` instructions.
    pub open spec fn wf(self, num_block_instrs: usize) -> bool {
        &&& self.ascending()
        &&& forall|i: int| 0 <= i < self.uses.len() - 1 ==> self.uses[i] < num_block_instrs
    }

    /// The last point is a use in a later block, where the block has
    /// `num_block_instrs` instructions.
    pub open spec fn has_successor_use(self, num_block_instrs: usize) -> bool {
        self.uses.len() > 0 && self.uses.last() >= num_block_instrs
    }

    /// The value is read before it is defined, if it is defined at all in
    /// the block: it is live at the start of the block.
    pub open spec fn live_in(self) -> bool {
        !self.defined && self.uses.len() > 0
    }

    /// The record after a use at `use_ip` in a successor has been merged
    /// in: it becomes the last point if there was no use in a later block
    /// yet, and replaces the last point if it is nearer.
    pub open spec fn add_successor_use(self, num_block_instrs: usize, use_ip: usize) -> UseDefView {
        let at = successor_point(num_block_instrs, use_ip);
        if !self.has_successor_use(num_block_instrs) {
            UseDefView { defined: self.defined, uses: self.uses.push(at) }
        } else if self.uses.last() > at {
            UseDefView { defined: self.defined, uses: self.uses.update(self.uses.len() - 1, at) }
        } else {
            self
        }
    }

    /// `found` is the first point at or after `ip`, or nothing if every
    /// point is before `ip`.
    pub open spec fn is_next_use(self, ip: usize, found: Option<usize>) -> bool {
        match found {
            Some(at) => exists|i: int|
                0 <= i < self.uses.len() && #[trigger] self.uses[i] == at && at >= ip && forall|
                    j: int,
                |
                    0 <= j < i ==> self.uses[j] < ip,
            None => forall|j: int| 0 <= j < self.uses.len() ==> self.uses[j] < ip,
        }
    }

    /// A merged successor use keeps the record well-formed.
    pub proof fn lemma_add_successor_use_wf(self, num_block_instrs: usize, use_ip: usize)
        requires
            self.wf(num_block_instrs),
        ensures
            self.add_successor_use(num_block_instrs, use_ip).wf(num_block_instrs),
            self.add_successor_use(num_block_instrs, use_ip).has_successor_use(num_block_instrs),
    {
        let at = successor_point(num_block_instrs, use_ip);
        let r = self.add_successor_use(num_block_instrs, use_ip);
        assert forall|i: int, j: int| 0 <= i <= j < r.uses.len() implies r.uses[i]
            <= r.uses[j] by {
            if !self.has_successor_use(num_block_instrs) {
                if j == self.uses.len() && i < j {
                    assert(self.uses[i] <= self.uses.last());
                }
            } else if self.uses.last() > at {
                if j == self.uses.len() - 1 && i < j {
                    assert(self.uses[i] < num_block_instrs);
                }
            }
        }
    }
}

/// What a block records of one value: whether it defines the value, and
/// where the value is read.
pub struct SSAUseDef {
    pub defined: bool,
    pub uses: Vec<usize>,
}

impl View for SSAUseDef {
    type V = UseDefView;

    open spec fn view(&self) -> UseDefView {
        UseDefView { defined: self.defined, uses: self.uses@ }
    }
}

impl SSAUseDef {
    /// The record of a value that has not been seen.
    pub fn new() -> (r: SSAUseDef)
        ensures
            r@ == UseDefView::unseen(),
    {
        SSAUseDef { defined: false, uses: Vec::new() }
    }

    /// Records that the block defines the value.
    pub fn add_def(&mut self)
        ensures
            final(self)@ == (UseDefView { defined: true, uses: old(self)@.uses }),
    {
        self.defined = true;
    }

    /// Records that instruction `use_ip` of the block reads the value.
    pub fn add_in_block_use(&mut self, use_ip: usize)
        ensures
            final(self)@ == (UseDefView {
                defined: old(self)@.defined,
                uses: old(self)@.uses.push(use_ip),
            }),
            old(self)@.ascending() && (old(self)@.uses.len() > 0 ==> old(self)@.uses.last()
                <= use_ip) ==> final(self)@.ascending(),
    {
        self.uses.push(use_ip);
        proof {
            if old(self)@.ascending() && (old(self)@.uses.len() > 0 ==> old(self)@.uses.last()
                <= use_ip) {
                assert forall|i: int, j: int| 0 <= i <= j < self@.uses.len() implies self@.uses[i]
                    <= self@.uses[j] by {
                    if j < old(self)@.uses.len() {
                        assert(old(self)@.uses[i] <= old(self)@.uses[j]);
                    } else if i < j {
                        assert(old(self)@.uses[i] <= old(self)@.uses.last());
                    }
                }
            }
        }
    }

    /// Merges in that a block that runs right after this one reads the
    /// value at `use_ip`, where this block has `num_block_instrs`
    /// instructions.  Says whether the record changed.
    pub fn add_successor_use(&mut self, num_block_instrs: usize, use_ip: usize) -> (changed: bool)
        requires
            num_block_instrs + use_ip <= usize::MAX,
        ensures
            final(self)@ == old(self)@.add_successor_use(num_block_instrs, use_ip),
            changed == (final(self)@ != old(self)@),
            old(self)@.wf(num_block_instrs) ==> final(self)@.wf(num_block_instrs),
    {
        proof {
            if self@.wf(num_block_instrs) {
                self@.lemma_add_successor_use_wf(num_block_instrs, use_ip);
            }
        }
        // Points are relative to the start of their block.
        let use_ip = num_block_instrs + use_ip;
        let n = self.uses.len();
        if n > 0 {
            let last_use_ip = self.uses[n - 1];
            if last_use_ip < num_block_instrs {
                // There was no use in a later block yet.
                self.uses.push(use_ip);
                assert(self@.uses.len() != old(self)@.uses.len());
                true
            } else if last_use_ip > use_ip {
                // Otherwise, the nearest next use wins.
                self.uses[n - 1] = use_ip;
                assert(self@.uses[n - 1] != old(self)@.uses[n - 1]);
                true
            } else {
                assert(self@.uses =~= old(self)@.uses);
                false
            }
        } else {
            self.uses.push(use_ip);
            assert(self@.uses.len() != old(self)@.uses.len());
            true
        }
    }

    /// The first point at which the value is read.
    pub fn first_use(&self) -> (first: Option<usize>)
        ensures
            first == (if self@.uses.len() > 0 {
                Some(self@.uses[0])
            } else {
                None
            }),
    {
        if self.uses.len() > 0 {
            Some(self.uses[0])
        } else {
            None
        }
    }

    /// The last point at which the value is read.
    pub fn last_use(&self) -> (last: Option<usize>)
        ensures
            last == (if self@.uses.len() > 0 {
                Some(self@.uses.last())
            } else {
                None
            }),
    {
        let n = self.uses.len();
        if n > 0 {
            Some(self.uses[n - 1])
        } else {
            None
        }
    }

    /// The first point at or after `ip` at which the value is read, found
    /// by bisection.
    pub fn next_use_after_or_at_ip(&self, ip: usize) -> (found: Option<usize>)
        requires
            self@.ascending(),
        ensures
            self@.is_next_use(ip, found),
    {
        let mut lo: usize = 0;
        let mut hi: usize = self.uses.len();
        while lo < hi
            invariant
                lo <= hi <= self.uses.len(),
                self@.ascending(),
                forall|j: int| 0 <= j < lo ==> self.uses@[j] < ip,
                forall|j: int| hi <= j < self.uses.len() ==> self.uses@[j] >= ip,
            decreases hi - lo,
        {
            let mid = lo + (hi - lo) / 2;
            if self.uses[mid] < ip {
                assert forall|j: int| 0 <= j < mid + 1 implies self.uses@[j] < ip by {
                    assert(self@.uses[j] <= self@.uses[mid as int]);
                }
                lo = mid + 1;
            } else {
                assert forall|j: int| mid <= j < self.uses.len() implies self.uses@[j] >= ip by {
                    assert(self@.uses[mid as int] <= self@.uses[j]);
                }
                hi = mid;
            }
        }
        if lo < self.uses.len() {
            assert(self@.uses[lo as int] >= ip);
            Some(self.uses[lo])
        } else {
            None
        }
    }
}

/// What a block records of all values, as a mathematical value.
pub struct NextUseView {
    /// The number of instructions of the block.
    pub num_instrs: usize,
    /// What is recorded of each value that has been seen.
    pub records: Map<SSAValue, UseDefView>,
}

impl NextUseView {
    /// What is recorded of `val`: nothing seen, if there is no record.
    pub open spec fn record(self, val: SSAValue) -> UseDefView {
        if self.records.contains_key(val) {
            self.records[val]
        } else {
            UseDefView::unseen()
        }
    }

    /// The first point at which `val` is read, if it is read again.
    pub open spec fn first_use(self, val: SSAValue) -> Option<usize> {
        if self.record(val).uses.len() > 0 {
            Some(self.record(val).uses[0])
        } else {
            None
        }
    }

    /// `val` is live at the start of the block.
    pub open spec fn live_in(self, val: SSAValue) -> bool {
        self.record(val).live_in()
    }

    /// `val` is live at the end of the block.
    pub open spec fn live_out(self, val: SSAValue) -> bool {
        self.record(val).has_successor_use(self.num_instrs)
    }

    /// `val` is read after instruction `ip`.
    pub open spec fn live_after(self, val: SSAValue, ip: int) -> bool {
        self.record(val).uses.len() > 0 && self.record(val).uses.last() > ip
    }

    /// Every record is well-formed.
    pub open spec fn wf(self) -> bool {
        forall|v: SSAValue| #[trigger]
            self.records.contains_key(v) ==> self.records[v].wf(self.num_instrs)
    }
}

/// The next-use liveness of one block.
pub struct NextUseBlockLiveness {
    num_instrs: usize,
    ssa_map: ValueMap<SSAUseDef>,
}

impl View for NextUseBlockLiveness {
    type V = NextUseView;

    closed spec fn view(&self) -> NextUseView {
        NextUseView {
            num_instrs: self.num_instrs,
            records: self.ssa_map@.map_values(|r: SSAUseDef| r@),
        }
    }
}

impl NextUseBlockLiveness {
    /// The map of records is well-formed.
    pub closed spec fn map_wf(&self) -> bool {
        self.ssa_map.wf()
    }

    /// Finitely many values have a record.
    pub proof fn lemma_finite(&self)
        requires
            self.map_wf(),
        ensures
            self@.records.dom().finite(),
    {
        self.ssa_map.lemma_wf();
        assert(self@.records.dom() =~= self.ssa_map@.dom());
    }

    /// The liveness of a block of `num_instrs` instructions of which
    /// nothing has been recorded yet.
    pub(crate) fn new(num_instrs: usize) -> (bl: NextUseBlockLiveness)
        ensures
            bl.map_wf(),
            bl@ == (NextUseView { num_instrs, records: Map::empty() }),
    {
        let bl = NextUseBlockLiveness { num_instrs, ssa_map: ValueMap::new() };
        assert(bl@.records =~= Map::<SSAValue, UseDefView>::empty());
        bl
    }

    /// Takes the record of `ssa` out of the map, or makes a new one.
    fn take_entry(&mut self, ssa: &SSAValue) -> (entry: SSAUseDef)
        requires
            old(self).map_wf(),
        ensures
            final(self).map_wf(),
            entry@ == old(self)@.record(*ssa),
            final(self)@ == (NextUseView {
                num_instrs: old(self)@.num_instrs,
                records: old(self)@.records.remove(*ssa),
            }),
    {
        let entry = match self.ssa_map.remove(ssa) {
            Some(entry) => entry,
            None => SSAUseDef::new(),
        };
        assert(self@.records =~= old(self)@.records.remove(*ssa));
        entry
    }

    /// Puts the record of `ssa` into the map.
    fn put_entry(&mut self, ssa: SSAValue, entry: SSAUseDef)
        requires
            old(self).map_wf(),
        ensures
            final(self).map_wf(),
            final(self)@ == (NextUseView {
                num_instrs: old(self)@.num_instrs,
                records: old(self)@.records.insert(ssa, entry@),
            }),
    {
        self.ssa_map.insert(ssa, entry);
        assert(self@.records =~= old(self)@.records.insert(ssa, entry@));
    }

    /// Records that the block defines `ssa`.
    pub(crate) fn add_def(&mut self, ssa: SSAValue)
        requires
            old(self).map_wf(),
        ensures
            final(self).map_wf(),
            final(self)@ == (NextUseView {
                num_instrs: old(self)@.num_instrs,
                records: old(self)@.records.insert(
                    ssa,
                    UseDefView { defined: true, uses: old(self)@.record(ssa).uses },
                ),
            }),
    {
        let mut entry = self.take_entry(&ssa);
        entry.add_def();
        self.put_entry(ssa, entry);
        assert(self@.records =~= old(self)@.records.insert(
            ssa,
            UseDefView { defined: true, uses: old(self)@.record(ssa).uses },
        ));
    }

    /// Records that instruction `ip` of the block reads `ssa`, unless that
    /// is recorded already.
    pub(crate) fn add_use(&mut self, ssa: SSAValue, ip: usize)
        requires
            old(self).map_wf(),
        ensures
            final(self).map_wf(),
            final(self)@ == (NextUseView {
                num_instrs: old(self)@.num_instrs,
                records: old(self)@.records.insert(
                    ssa,
                    UseDefView {
                        defined: old(self)@.record(ssa).defined,
                        uses: with_use(old(self)@.record(ssa).uses, ip),
                    },
                ),
            }),
    {
        let mut entry = self.take_entry(&ssa);
        if entry.last_use() != Some(ip) {
            entry.add_in_block_use(ip);
        }
        self.put_entry(ssa, entry);
        assert(self@.records =~= old(self)@.records.insert(
            ssa,
            UseDefView {
                defined: old(self)@.record(ssa).defined,
                uses: with_use(old(self)@.record(ssa).uses, ip),
            },
        ));
    }

    /// Merges in that a block that runs right after this one reads `ssa`
    /// at `use_ip`, and says whether that changed the record of `ssa`.
    pub(crate) fn add_successor_use(&mut self, ssa: SSAValue, use_ip: usize) -> (changed: bool)
        requires
            old(self).map_wf(),
            old(self)@.num_instrs + use_ip <= usize::MAX,
        ensures
            final(self).map_wf(),
            final(self)@ == (NextUseView {
                num_instrs: old(self)@.num_instrs,
                records: old(self)@.records.insert(
                    ssa,
                    old(self)@.record(ssa).add_successor_use(old(self)@.num_instrs, use_ip),
                ),
            }),
            changed == (final(self)@ != old(self)@),
            changed == (old(self)@.record(ssa).add_successor_use(old(self)@.num_instrs, use_ip)
                != old(self)@.record(ssa)),
    {
        let num_instrs = self.num_instrs;
        let mut entry = self.take_entry(&ssa);
        let ghost before = entry@;
        let changed = entry.add_successor_use(num_instrs, use_ip);
        self.put_entry(ssa, entry);
        proof {
            assert(self@.records =~= old(self)@.records.insert(
                ssa,
                old(self)@.record(ssa).add_successor_use(old(self)@.num_instrs, use_ip),
            ));
            if changed {
                if old(self)@.records.contains_key(ssa) {
                    assert(self@.records[ssa] != old(self)@.records[ssa]);
                } else {
                    assert(self@.records.contains_key(ssa));
                }
            } else {
                assert(before.uses.len() > 0);
                assert(old(self)@.records.contains_key(ssa));
                assert(self@.records =~= old(self)@.records);
            }
        }
        changed
    }

    /// The values that are live at the start of the block, each once, in
    /// no particular order.
    pub fn iter_live_in(&self) -> (values: Vec<SSAValue>)
        requires
            self.map_wf(),
        ensures
            values@.no_duplicates(),
            values@.to_set() == Set::new(|v: SSAValue| self@.live_in(v)),
    {
        let keys = self.ssa_map.keys();
        let mut values: Vec<SSAValue> = Vec::new();
        let mut i: usize = 0;
        while i < keys.len()
            invariant
                i <= keys.len(),
                keys@.no_duplicates(),
                keys@.to_set() == self.ssa_map@.dom(),
                values@.no_duplicates(),
                forall|v: SSAValue|
                    values@.contains(v) <==> keys@.take(i as int).contains(v) && self@.live_in(v),
            decreases keys.len() - i,
        {
            let ssa = keys[i];
            let ghost before = values@;
            let ghost s0 = keys@.take(i as int);
            let ghost s1 = keys@.take(i + 1);
            proof {
                assert(keys@.to_set().contains(keys@[i as int]));
                assert(s1 =~= s0.push(ssa));
                lemma_push_contains(s0, ssa);
                if s0.contains(ssa) {
                    let k = choose|k: int| 0 <= k < s0.len() && s0[k] == ssa;
                    assert(keys@[k] == keys@[i as int]);
                }
            }
            let entry = self.ssa_map.get(&ssa).unwrap();
            assert(self@.records.contains_key(ssa) && self@.records[ssa] == entry@);
            if !(entry.defined || entry.uses.len() == 0) {
                values.push(ssa);
                proof {
                    assert(self@.live_in(ssa));
                    assert(!before.contains(ssa));
                    lemma_push_contains(before, ssa);
                    assert forall|a: int, b: int|
                        0 <= a < values@.len() && 0 <= b < values@.len() && a != b implies values@[a]
                        != values@[b] by {
                        if a < before.len() {
                            assert(before.contains(before[a]));
                        }
                        if b < before.len() {
                            assert(before.contains(before[b]));
                        }
                    }
                }
            } else {
                assert(!self@.live_in(ssa));
            }
            assert forall|v: SSAValue| values@.contains(v) <==> s1.contains(v) && self@.live_in(
                v,
            ) by {
                assert(s1.contains(v) <==> s0.contains(v) || v == ssa);
                assert(before.contains(v) <==> s0.contains(v) && self@.live_in(v));
            }
            i += 1;
        }
        proof {
            assert(keys@.take(i as int) =~= keys@);
            assert(values@.to_set() =~= Set::new(|v: SSAValue| self@.live_in(v))) by {
                assert forall|v: SSAValue| self@.live_in(v) implies values@.contains(v) by {
                    assert(self@.records.contains_key(v));
                    assert(keys@.to_set().contains(v));
                }
            }
        }
        values
    }

    /// Returns the point of the first use of `val`.
    ///
    /// The point is relative to the start of this block, also where the
    /// use is in a later block.  If `val` is not read in this block and is
    /// not live at its end, nothing is returned.
    pub fn first_use(&self, val: &SSAValue) -> (first: Option<usize>)
        ensures
            first == self@.first_use(*val),
    {
        match self.ssa_map.get(val) {
            Some(entry) => entry.first_use(),
            None => None,
        }
    }

    /// Returns the point of the first use of `val` at or after `ip`.
    ///
    /// The point is relative to the start of this block, also where the
    /// use is in a later block.
    pub fn next_use_after_or_at_ip(&self, val: &SSAValue, ip: usize) -> (found: Option<usize>)
        requires
            self.wf(),
        ensures
            self@.record(*val).is_next_use(ip, found),
    {
        match self.ssa_map.get(val) {
            Some(entry) => {
                assert(self@.records.contains_key(*val));
                entry.next_use_after_or_at_ip(ip)
            },
            None => None,
        }
    }
}

/// The use points `uses` with `ip` as their last, once.
pub open spec fn with_use(uses: Seq<usize>, ip: usize) -> Seq<usize> {
    if uses.len() > 0 && uses.last() == ip {
        uses
    } else {
        uses.push(ip)
    }
}

impl BlockLiveness for NextUseBlockLiveness {
    open spec fn wf(&self) -> bool {
        self.map_wf() && self@.wf()
    }

    open spec fn live_after(&self, val: SSAValue, ip: int) -> bool {
        self@.live_after(val, ip)
    }

    open spec fn live_in(&self, val: SSAValue) -> bool {
        self@.live_in(val)
    }

    open spec fn live_out(&self, val: SSAValue) -> bool {
        self@.live_out(val)
    }

    fn is_live_after_ip(&self, val: &SSAValue, ip: usize) -> (live: bool) {
        match self.ssa_map.get(val) {
            Some(entry) => match entry.last_use() {
                Some(last_use_ip) => last_use_ip > ip,
                None => false,
            },
            None => false,
        }
    }

    fn is_live_in(&self, val: &SSAValue) -> (live: bool) {
        match self.ssa_map.get(val) {
            Some(entry) => !entry.defined && entry.uses.len() > 0,
            None => false,
        }
    }

    fn is_live_out(&self, val: &SSAValue) -> (live: bool) {
        match self.ssa_map.get(val) {
            Some(entry) => match entry.last_use() {
                Some(last_use_ip) => last_use_ip >= self.num_instrs,
                None => false,
            },
            None => false,
        }
    }
}

/// The instructions among the first `n` of `block` that read `v`, in
/// order.
pub open spec fn local_uses(block: BasicBlock, v: SSAValue, n: int) -> Seq<usize>
    decreases n,
{
    if n <= 0 {
        Seq::empty()
    } else if block.uses_at(v, n - 1) {
        local_uses(block, v, n - 1).push((n - 1) as usize)
    } else {
        local_uses(block, v, n - 1)
    }
}

/// The local uses of a value are below the bound and ascending, and there
/// are some exactly if an instruction below the bound reads the value.
pub proof fn lemma_local_uses(block: BasicBlock, v: SSAValue, n: int)
    requires
        0 <= n <= block.instrs.len(),
    ensures
        forall|i: int| 0 <= i < local_uses(block, v, n).len() ==> local_uses(block, v, n)[i] < n,
        ascending(local_uses(block, v, n)),
        local_uses(block, v, n).len() > 0 <==> block.uses_before(n).contains(v),
        local_uses(block, v, n).len() <= n,
    decreases n,
{
    if n > 0 {
        lemma_local_uses(block, v, n - 1);
        if block.uses_at(v, n - 1) {
            assert(block.uses_before(n).contains(v));
            let prev = local_uses(block, v, n - 1);
            let now = local_uses(block, v, n);
            assert forall|i: int, j: int| 0 <= i <= j < now.len() implies now[i] <= now[j] by {
                if j < prev.len() {
                    assert(prev[i] <= prev[j]);
                } else if i < prev.len() {
                    assert(prev[i] < n - 1);
                }
            }
        } else {
            if block.uses_before(n).contains(v) {
                let ip = choose|ip: int| 0 <= ip < n && block.uses_at(v, ip);
                assert(block.uses_before(n - 1).contains(v));
            }
            if block.uses_before(n - 1).contains(v) {
                let ip = choose|ip: int| 0 <= ip < n - 1 && block.uses_at(v, ip);
                assert(block.uses_at(v, ip));
            }
        }
    } else {
        assert(!block.uses_before(n).contains(v));
    }
}

/// The analysis follows `v`, and one of the first `nu` instructions of
/// `block` reads it or one of the first `nd` defines it.
pub open spec fn seen_in(files: RegFileSet, block: BasicBlock, v: SSAValue, nu: int, nd: int) -> bool {
    files.has(v.file()) && (block.uses_before(nu).contains(v) || block.defs_before(nd).contains(v))
}

/// `view` records the uses of the first `nu` instructions of `block` and
/// the definitions of the first `nd`, of the values that the analysis
/// follows.
pub open spec fn scanned(
    view: NextUseView,
    files: RegFileSet,
    block: BasicBlock,
    nu: int,
    nd: int,
) -> bool {
    &&& view.num_instrs == block.instrs.len()
    &&& forall|v: SSAValue| #[trigger]
        view.records.contains_key(v) <==> seen_in(files, block, v, nu, nd)
    &&& forall|v: SSAValue| #[trigger]
        view.records.contains_key(v) ==> view.records[v] == (UseDefView {
            defined: block.defs_before(nd).contains(v),
            uses: local_uses(block, v, nu),
        })
}

/// Records the values that instruction `ip` reads.
fn scan_uses(
    bl: &mut NextUseBlockLiveness,
    values: &Vec<SSAValue>,
    ip: usize,
    files: &RegFileSet,
    Ghost(block): Ghost<BasicBlock>,
)
    requires
        old(bl).map_wf(),
        scanned(old(bl)@, *files, block, ip as int, ip as int),
        ip < block.instrs.len(),
        values@ == block.instrs[ip as int].uses(),
    ensures
        final(bl).map_wf(),
        scanned(final(bl)@, *files, block, ip + 1, ip as int),
{
    let mut j: usize = 0;
    while j < values.len()
        invariant
            j <= values.len(),
            bl.map_wf(),
            ip < block.instrs.len(),
            values@ == block.instrs[ip as int].uses(),
            bl@.num_instrs == block.instrs.len(),
            forall|v: SSAValue| #[trigger]
                bl@.records.contains_key(v) <==> seen_in(*files, block, v, ip as int, ip as int)
                    || (files.has(v.file()) && values@.take(j as int).contains(v)),
            forall|v: SSAValue| #[trigger]
                bl@.records.contains_key(v) ==> bl@.records[v] == (UseDefView {
                    defined: block.defs_before(ip as int).contains(v),
                    uses: if files.has(v.file()) && values@.take(j as int).contains(v) {
                        local_uses(block, v, ip as int).push(ip)
                    } else {
                        local_uses(block, v, ip as int)
                    },
                }),
        decreases values.len() - j,
    {
        let ssa = values[j];
        proof {
            assert(values@.take(j + 1) =~= values@.take(j as int).push(ssa));
            lemma_push_contains(values@.take(j as int), ssa);
            lemma_local_uses(block, ssa, ip as int);
        }
        if files.contains(ssa.file()) {
            let ghost before = bl@;
            bl.add_use(ssa, ip);
            proof {
                let local = local_uses(block, ssa, ip as int);
                if !before.records.contains_key(ssa) {
                    assert(!block.uses_before(ip as int).contains(ssa));
                    assert(!block.defs_before(ip as int).contains(ssa));
                    assert(local.len() == 0);
                    assert(before.record(ssa).uses =~= local);
                } else if !values@.take(j as int).contains(ssa) {
                    if local.len() > 0 {
                        assert(local.last() < ip);
                    }
                }
                assert(bl@.records[ssa].uses =~= local.push(ip));
            }
        }
        j += 1;
    }
    proof {
        assert(values@.take(j as int) =~= values@);
        assert forall|v: SSAValue| #[trigger]
            bl@.records.contains_key(v) <==> seen_in(*files, block, v, ip + 1, ip as int) by {
            lemma_uses_before_step(block, v, ip as int);
        }
        assert forall|v: SSAValue| #[trigger] bl@.records.contains_key(v) implies bl@.records[v]
            == (UseDefView {
            defined: block.defs_before(ip as int).contains(v),
            uses: local_uses(block, v, ip + 1),
        }) by {
            lemma_uses_before_step(block, v, ip as int);
        }
    }
}

/// A value is read by one of the first `ip + 1` instructions if it is read
/// by one of the first `ip` or by instruction `ip`; likewise for being
/// defined.
pub proof fn lemma_uses_before_step(block: BasicBlock, v: SSAValue, ip: int)
    requires
        0 <= ip < block.instrs.len(),
    ensures
        block.uses_before(ip + 1).contains(v) <==> block.uses_before(ip).contains(v)
            || block.instrs[ip].uses().contains(v),
        block.defs_before(ip + 1).contains(v) <==> block.defs_before(ip).contains(v)
            || block.instrs[ip].defs().contains(v),
{
    if block.uses_before(ip + 1).contains(v) {
        let q = choose|q: int| 0 <= q < ip + 1 && block.uses_at(v, q);
        if q < ip {
            assert(block.uses_before(ip).contains(v));
        }
    }
    if block.uses_before(ip).contains(v) {
        let q = choose|q: int| 0 <= q < ip && block.uses_at(v, q);
        assert(block.uses_at(v, q));
    }
    if block.instrs[ip].uses().contains(v) {
        assert(block.uses_at(v, ip));
    }
    if block.defs_before(ip + 1).contains(v) {
        let q = choose|q: int| 0 <= q < ip + 1 && block.defs_at(v, q);
        if q < ip {
            assert(block.defs_before(ip).contains(v));
        }
    }
    if block.defs_before(ip).contains(v) {
        let q = choose|q: int| 0 <= q < ip && block.defs_at(v, q);
        assert(block.defs_at(v, q));
    }
    if block.instrs[ip].defs().contains(v) {
        assert(block.defs_at(v, ip));
    }
}

/// Records the values that instruction `ip` defines.
fn scan_defs(
    bl: &mut NextUseBlockLiveness,
    values: &Vec<SSAValue>,
    ip: usize,
    files: &RegFileSet,
    Ghost(block): Ghost<BasicBlock>,
)
    requires
        old(bl).map_wf(),
        scanned(old(bl)@, *files, block, ip + 1, ip as int),
        ip < block.instrs.len(),
        values@ == block.instrs[ip as int].defs(),
    ensures
        final(bl).map_wf(),
        scanned(final(bl)@, *files, block, ip + 1, ip + 1),
{
    let mut j: usize = 0;
    while j < values.len()
        invariant
            j <= values.len(),
            bl.map_wf(),
            ip < block.instrs.len(),
            values@ == block.instrs[ip as int].defs(),
            bl@.num_instrs == block.instrs.len(),
            forall|v: SSAValue| #[trigger]
                bl@.records.contains_key(v) <==> seen_in(*files, block, v, ip + 1, ip as int)
                    || (files.has(v.file()) && values@.take(j as int).contains(v)),
            forall|v: SSAValue| #[trigger]
                bl@.records.contains_key(v) ==> bl@.records[v] == (UseDefView {
                    defined: block.defs_before(ip as int).contains(v) || (files.has(v.file())
                        && values@.take(j as int).contains(v)),
                    uses: local_uses(block, v, ip + 1),
                }),
        decreases values.len() - j,
    {
        let ssa = values[j];
        proof {
            assert(values@.take(j + 1) =~= values@.take(j as int).push(ssa));
            lemma_push_contains(values@.take(j as int), ssa);
            lemma_local_uses(block, ssa, ip + 1);
        }
        if files.contains(ssa.file()) {
            let ghost before = bl@;
            bl.add_def(ssa);
            proof {
                if !before.records.contains_key(ssa) {
                    assert(!block.uses_before(ip + 1).contains(ssa));
                    assert(before.record(ssa).uses =~= local_uses(block, ssa, ip + 1));
                }
            }
        }
        j += 1;
    }
    proof {
        assert(values@.take(j as int) =~= values@);
        assert forall|v: SSAValue| #[trigger]
            bl@.records.contains_key(v) <==> seen_in(*files, block, v, ip + 1, ip + 1) by {
            lemma_uses_before_step(block, v, ip as int);
        }
        assert forall|v: SSAValue| #[trigger] bl@.records.contains_key(v) implies bl@.records[v]
            == (UseDefView {
            defined: block.defs_before(ip + 1).contains(v),
            uses: local_uses(block, v, ip + 1),
        }) by {
            lemma_uses_before_step(block, v, ip as int);
        }
    }
}

/// Collects the uses and definitions in `block` of the values that the
/// analysis follows.
fn scan_block(block: &BasicBlock, files: &RegFileSet) -> (bl: NextUseBlockLiveness)
    ensures
        bl.map_wf(),
        scanned(bl@, *files, *block, block.instrs.len() as int, block.instrs.len() as int),
{
    let mut bl = NextUseBlockLiveness::new(block.instrs.len());
    proof {
        assert forall|v: SSAValue| !seen_in(*files, *block, v, 0, 0) by {
            assert(!block.uses_before(0).contains(v));
            assert(!block.defs_before(0).contains(v));
        }
    }
    let mut ip: usize = 0;
    while ip < block.instrs.len()
        invariant
            ip <= block.instrs.len(),
            bl.map_wf(),
            scanned(bl@, *files, *block, ip as int, ip as int),
        decreases block.instrs.len() - ip,
    {
        let instr = &block.instrs[ip];
        let uses = instr.ssa_uses();
        scan_uses(&mut bl, &uses, ip, files, Ghost(*block));
        let defs = instr.ssa_defs();
        scan_defs(&mut bl, &defs, ip, files, Ghost(*block));
        ip += 1;
    }
    bl
}

impl UseDefView {
    /// How far the record is from its last state: the point of its use in
    /// a later block, or more than any point if it has none.
    pub open spec fn rank(self, num_block_instrs: usize) -> nat {
        if self.has_successor_use(num_block_instrs) {
            self.uses.last() as nat
        } else {
            (usize::MAX + 1) as nat
        }
    }

    /// A merged successor use does not raise the rank of a record, and
    /// lowers it if it changes the record.
    pub proof fn lemma_add_successor_use_rank(self, num_block_instrs: usize, use_ip: usize)
        ensures
            self.add_successor_use(num_block_instrs, use_ip).rank(num_block_instrs) <= self.rank(
                num_block_instrs,
            ),
            self.add_successor_use(num_block_instrs, use_ip) != self ==> self.add_successor_use(
                num_block_instrs,
                use_ip,
            ).rank(num_block_instrs) < self.rank(num_block_instrs),
    {
    }

    /// After a successor use has been merged in, the record has a use in a
    /// later block.
    pub proof fn lemma_add_successor_use_has(self, num_block_instrs: usize, use_ip: usize)
        ensures
            self.add_successor_use(num_block_instrs, use_ip).has_successor_use(num_block_instrs),
    {
    }

    /// A merged successor use keeps a value live at the start of the
    /// block, and does not move its first use away.
    pub proof fn lemma_add_successor_use_first(self, num_block_instrs: usize, use_ip: usize)
        requires
            self.live_in(),
        ensures
            self.add_successor_use(num_block_instrs, use_ip).live_in(),
            self.add_successor_use(num_block_instrs, use_ip).uses[0] <= self.uses[0],
    {
    }
}

/// The analysis follows `v`, and block `b` of `func` reads or defines it.
pub open spec fn seen_in_block(func: Function, files: RegFileSet, b: int, v: SSAValue) -> bool {
    seen_in(
        files,
        func.blocks[b],
        v,
        func.blocks[b].instrs.len() as int,
        func.blocks[b].instrs.len() as int,
    )
}

/// The values that the analysis follows and that block `b` of `func` reads
/// or defines.
pub open spec fn seen_only_in(func: Function, files: RegFileSet, b: int) -> Set<SSAValue> {
    Set::new(|v: SSAValue| seen_in_block(func, files, b, v))
}

/// The values that the analysis follows and that one of the first `n`
/// blocks of `func` reads or defines.
pub open spec fn seen_in_blocks(func: Function, files: RegFileSet, n: int) -> Set<SSAValue> {
    Set::new(|v: SSAValue| exists|b: int| 0 <= b < n && #[trigger] seen_in_block(func, files, b, v))
}

/// Every value that the analysis follows and that `func` reads or defines.
pub open spec fn universe(func: Function, files: RegFileSet) -> Set<SSAValue> {
    seen_in_blocks(func, files, func.blocks.len() as int)
}

/// The values seen in the first `n` blocks are finitely many, if those
/// seen in each block are.
proof fn lemma_seen_in_blocks_finite(func: Function, files: RegFileSet, n: int)
    requires
        0 <= n <= func.blocks.len(),
        forall|b: int|
            0 <= b < func.blocks.len() ==> #[trigger] seen_only_in(func, files, b).finite(),
    ensures
        seen_in_blocks(func, files, n).finite(),
    decreases n,
{
    if n == 0 {
        assert(seen_in_blocks(func, files, n) =~= Set::<SSAValue>::empty());
    } else {
        lemma_seen_in_blocks_finite(func, files, n - 1);
        let last = seen_only_in(func, files, n - 1);
        assert(last.finite());
        assert(seen_in_blocks(func, files, n) =~= seen_in_blocks(func, files, n - 1).union(last))
            by {
            assert forall|v: SSAValue| seen_in_blocks(func, files, n).contains(
                v,
            ) implies seen_in_blocks(func, files, n - 1).union(last).contains(v) by {
                let b = choose|b: int| 0 <= b < n && #[trigger] seen_in_block(func, files, b, v);
                if b < n - 1 {
                    assert(seen_in_blocks(func, files, n - 1).contains(v));
                }
            }
            assert forall|v: SSAValue|
                seen_in_blocks(func, files, n - 1).union(last).contains(
                    v,
                ) implies seen_in_blocks(func, files, n).contains(v) by {
                if last.contains(v) {
                    assert(seen_in_block(func, files, n - 1, v));
                } else {
                    let b = choose|b: int|
                        0 <= b < n - 1 && #[trigger] seen_in_block(func, files, b, v);
                    assert(seen_in_block(func, files, b, v));
                }
            }
        }
    }
}

/// Successor `k` of block `b` has `v` live at its start, with its first
/// use at `d` or nearer.
pub open spec fn reaches_via(
    func: Function,
    ins: Seq<NextUseView>,
    b: int,
    k: int,
    v: SSAValue,
    d: usize,
) -> bool {
    &&& 0 <= k < func.blocks[b].succs.len()
    &&& func.blocks[b].succs[k] < ins.len()
    &&& ins[func.blocks[b].succs[k] as int].live_in(v)
    &&& ins[func.blocks[b].succs[k] as int].record(v).uses[0] <= d
}

/// What is recorded of `v` is what the block itself says of it, with at
/// most one use in a later block behind, which the out-state accounts for.
pub open spec fn record_ok(
    x: NextUseView,
    y: Map<SSAValue, usize>,
    files: RegFileSet,
    block: BasicBlock,
    v: SSAValue,
) -> bool {
    let r = x.records[v];
    let n = block.instrs.len() as int;
    let local = local_uses(block, v, n);
    &&& files.has(v.file())
    &&& r.defined == block.defs().contains(v)
    &&& {
        ||| r.uses == local && seen_in(files, block, v, n, n)
        ||| {
            &&& r.uses.len() == local.len() + 1
            &&& r.uses.drop_last() == local
            &&& r.uses.last() >= x.num_instrs
            &&& y.contains_key(v)
            &&& r.uses.last() >= successor_point(x.num_instrs, y[v])
        }
    }
}

/// What holds of the states of block `b` throughout the analysis.
pub open spec fn block_ok(
    func: Function,
    files: RegFileSet,
    ins: Seq<NextUseView>,
    outs: Seq<Map<SSAValue, usize>>,
    b: int,
) -> bool {
    let x = ins[b];
    let y = outs[b];
    let block = func.blocks[b];
    &&& x.num_instrs == block.instrs.len()
    &&& forall|v: SSAValue| #[trigger] y.contains_key(v) ==> universe(func, files).contains(v)
    &&& forall|v: SSAValue| #[trigger]
        seen_in_block(func, files, b, v) ==> x.records.contains_key(v)
    &&& forall|v: SSAValue| #[trigger]
        x.records.contains_key(v) ==> record_ok(x, y, files, block, v)
    &&& forall|v: SSAValue| #[trigger]
        y.contains_key(v) ==> exists|k: int| #[trigger] reaches_via(func, ins, b, k, v, y[v])
}

/// The number of instructions of the first `n` blocks of `func`.
pub open spec fn instrs_in_blocks(func: Function, n: int) -> nat
    decreases n,
{
    if n <= 0 {
        0
    } else {
        instrs_in_blocks(func, n - 1) + func.blocks[n - 1].instrs.len() as nat
    }
}

/// The number of instructions of `func`.
pub open spec fn total_instrs(func: Function) -> nat {
    instrs_in_blocks(func, func.blocks.len() as int)
}

/// A block has no more instructions than the blocks up to it and beyond
/// it together.
pub proof fn lemma_block_within_total(func: Function, c: int, n: int)
    requires
        0 <= c < n <= func.blocks.len(),
    ensures
        func.blocks[c].instrs.len() <= instrs_in_blocks(func, n),
    decreases n,
{
    if c < n - 1 {
        lemma_block_within_total(func, c, n - 1);
    }
}

/// The number of instructions of those among the first `n` blocks that
/// record a use of `v` in a later block.
pub open spec fn reached_instrs(func: Function, ins: Seq<NextUseView>, v: SSAValue, n: int) -> nat
    decreases n,
{
    if n <= 0 {
        0
    } else {
        reached_instrs(func, ins, v, n - 1) + if ins[n - 1].record(v).has_successor_use(
            ins[n - 1].num_instrs,
        ) {
            func.blocks[n - 1].instrs.len() as nat
        } else {
            0nat
        }
    }
}

/// The blocks that record a use in a later block have no more instructions
/// than all blocks.
pub proof fn lemma_reached_within_total(func: Function, ins: Seq<NextUseView>, v: SSAValue, n: int)
    ensures
        reached_instrs(func, ins, v, n) <= instrs_in_blocks(func, n),
    decreases n,
{
    if n > 0 {
        lemma_reached_within_total(func, ins, v, n - 1);
    }
}

/// Where block `b` gets a new in-state that records a use of `v` in a
/// later block if the old one did, the count of reached instructions does
/// not go down, and goes up by the instructions of the block if the
/// record of such a use is new.
pub proof fn lemma_reached_update(
    func: Function,
    ins: Seq<NextUseView>,
    b: int,
    x2: NextUseView,
    v: SSAValue,
    n: int,
)
    requires
        0 <= b < ins.len(),
        0 <= n <= ins.len(),
        ins[b].record(v).has_successor_use(ins[b].num_instrs) ==> x2.record(v).has_successor_use(
            x2.num_instrs,
        ),
    ensures
        reached_instrs(func, ins.update(b, x2), v, n) >= reached_instrs(func, ins, v, n),
        b < n && !ins[b].record(v).has_successor_use(ins[b].num_instrs) && x2.record(
            v,
        ).has_successor_use(x2.num_instrs) ==> reached_instrs(func, ins.update(b, x2), v, n)
            == reached_instrs(func, ins, v, n) + func.blocks[b].instrs.len(),
        b < n && (ins[b].record(v).has_successor_use(ins[b].num_instrs) <==> x2.record(
            v,
        ).has_successor_use(x2.num_instrs)) ==> reached_instrs(func, ins.update(b, x2), v, n)
            == reached_instrs(func, ins, v, n),
        b >= n ==> reached_instrs(func, ins.update(b, x2), v, n) == reached_instrs(func, ins, v, n),
    decreases n,
{
    if n > 0 {
        lemma_reached_update(func, ins, b, x2, v, n - 1);
    }
}

/// No point that records a use of `v` in a later block is beyond this:
/// the instructions of the blocks that record such a use, and the
/// instructions of the function once more.
pub open spec fn far_bound(func: Function, ins: Seq<NextUseView>, v: SSAValue) -> nat {
    reached_instrs(func, ins, v, func.blocks.len() as int) + total_instrs(func)
}

/// No recorded use in a later block and no first use of an out-state is
/// beyond its bound.
pub open spec fn points_bounded(
    func: Function,
    ins: Seq<NextUseView>,
    outs: Seq<Map<SSAValue, usize>>,
) -> bool {
    &&& 3 * total_instrs(func) <= usize::MAX
    &&& forall|b: int, v: SSAValue|
        0 <= b < func.blocks.len() && #[trigger] ins[b].records.contains_key(v)
            && ins[b].records[v].has_successor_use(ins[b].num_instrs)
            ==> ins[b].records[v].uses.last() <= far_bound(func, ins, v)
    &&& forall|b: int, v: SSAValue|
        0 <= b < func.blocks.len() && #[trigger] outs[b].contains_key(v) ==> outs[b][v]
            <= far_bound(func, ins, v)
}

/// Within the bounds, the point of a use that the out-state of a block
/// holds can be counted from the start of the block.
pub open spec fn points_fit(x: NextUseView, y: Map<SSAValue, usize>) -> bool {
    forall|v: SSAValue| #[trigger] y.contains_key(v) ==> x.num_instrs + y[v] <= usize::MAX
}

/// Where the points are bounded, the points of the out-state of block `b`
/// fit.
pub proof fn lemma_bounded_points_fit(
    func: Function,
    files: RegFileSet,
    ins: Seq<NextUseView>,
    outs: Seq<Map<SSAValue, usize>>,
    b: int,
)
    requires
        0 <= b < func.blocks.len(),
        ins.len() == func.blocks.len(),
        outs.len() == func.blocks.len(),
        ins[b].num_instrs == func.blocks[b].instrs.len(),
        points_bounded(func, ins, outs),
    ensures
        points_fit(ins[b], outs[b]),
        forall|v: SSAValue| #[trigger]
            outs[b].contains_key(v) ==> outs[b][v] <= 2 * total_instrs(func),
{
    let n = func.blocks.len() as int;
    lemma_block_within_total(func, b, n);
    assert forall|v: SSAValue| #[trigger] outs[b].contains_key(v) implies ins[b].num_instrs
        + outs[b][v] <= usize::MAX && outs[b][v] <= 2 * total_instrs(func) by {
        lemma_reached_within_total(func, ins, v, n);
    }
}

/// What holds of all states throughout the analysis.
pub open spec fn states_ok(
    func: Function,
    files: RegFileSet,
    ins: Seq<NextUseView>,
    outs: Seq<Map<SSAValue, usize>>,
) -> bool {
    &&& ins.len() == func.blocks.len()
    &&& outs.len() == func.blocks.len()
    &&& forall|b: int| 0 <= b < func.blocks.len() ==> #[trigger] block_ok(func, files, ins, outs, b)
    &&& points_bounded(func, ins, outs)
    &&& forall|sol: Seq<NextUseView>| #[trigger]
        solves_next_use(func, files, sol) ==> within_solution(func, ins, outs, sol)
}

/// Some successor of block `b` has `v` live at its start.
pub open spec fn live_into_successor(
    func: Function,
    ins: Seq<NextUseView>,
    b: int,
    v: SSAValue,
) -> bool {
    exists|k: int| #[trigger] reaches_via(func, ins, b, k, v, usize::MAX)
}

/// `d` is the nearest first use of `v` in a successor of block `b`, counted
/// from the start of that successor.
pub open spec fn nearest_successor_use(
    func: Function,
    ins: Seq<NextUseView>,
    b: int,
    v: SSAValue,
    d: usize,
) -> bool {
    &&& exists|k: int| #[trigger] reaches_via(func, ins, b, k, v, d)
    &&& forall|k: int| #[trigger]
        reaches_via(func, ins, b, k, v, usize::MAX) ==> ins[func.blocks[b].succs[k] as int].record(
            v,
        ).uses[0] >= d
}

/// There is one nearest first use in a successor at most.
pub proof fn lemma_nearest_successor_use_unique(
    func: Function,
    ins: Seq<NextUseView>,
    b: int,
    v: SSAValue,
    d1: usize,
    d2: usize,
)
    requires
        nearest_successor_use(func, ins, b, v, d1),
        nearest_successor_use(func, ins, b, v, d2),
    ensures
        d1 == d2,
{
    let k1 = choose|k: int| #[trigger] reaches_via(func, ins, b, k, v, d1);
    let k2 = choose|k: int| #[trigger] reaches_via(func, ins, b, k, v, d2);
    assert(reaches_via(func, ins, b, k1, v, usize::MAX));
    assert(reaches_via(func, ins, b, k2, v, usize::MAX));
}

/// The records of block `b` are those of the analysis: a value has a
/// record if the analysis follows it and the block reads or defines it or
/// a successor has it live at its start; the record says whether the block
/// defines the value, and holds the uses in the block and then, if a
/// successor has the value live at its start, the nearest first use in a
/// successor.
pub open spec fn block_solved(
    func: Function,
    files: RegFileSet,
    ins: Seq<NextUseView>,
    b: int,
) -> bool {
    let x = ins[b];
    let block = func.blocks[b];
    let n = block.instrs.len() as int;
    &&& x.num_instrs == n
    &&& x.wf()
    &&& forall|v: SSAValue| #[trigger]
        x.records.contains_key(v) <==> seen_in_block(func, files, b, v) || live_into_successor(
            func,
            ins,
            b,
            v,
        )
    &&& forall|v: SSAValue| #[trigger]
        x.records.contains_key(v) ==> {
            &&& x.records[v].defined == block.defs().contains(v)
            &&& if live_into_successor(func, ins, b, v) {
                exists|d: usize| #[trigger]
                    nearest_successor_use(func, ins, b, v, d) && x.records[v].uses == local_uses(
                        block,
                        v,
                        n,
                    ).push(successor_point(x.num_instrs, d))
            } else {
                x.records[v].uses == local_uses(block, v, n)
            }
        }
}

/// The next-use equations of `func` hold of `sol`: the records of every
/// block are those of the analysis.
pub open spec fn solves_next_use(func: Function, files: RegFileSet, sol: Seq<NextUseView>) -> bool {
    &&& sol.len() == func.blocks.len()
    &&& forall|b: int| 0 <= b < func.blocks.len() ==> #[trigger] block_solved(func, files, sol, b)
}

/// `later` records every value that `earlier` records, with the same word
/// on whether the block defines it and with uses that are no farther.
pub open spec fn within(earlier: NextUseView, later: NextUseView) -> bool {
    &&& no_farther(earlier, later)
    &&& forall|v: SSAValue| #[trigger]
        earlier.records.contains_key(v) ==> earlier.records[v].defined == later.records[v].defined
}

/// The states of block `b` hold nothing that `sol` does not hold, and no
/// use that is nearer than in `sol`.
pub open spec fn block_within_solution(
    func: Function,
    ins: Seq<NextUseView>,
    outs: Seq<Map<SSAValue, usize>>,
    sol: Seq<NextUseView>,
    b: int,
) -> bool {
    &&& within(ins[b], sol[b])
    &&& forall|v: SSAValue| #[trigger]
        outs[b].contains_key(v) ==> exists|d: usize| #[trigger]
            nearest_successor_use(func, sol, b, v, d) && d <= outs[b][v]
}

/// The states hold nothing that `sol` does not hold, and no use that is
/// nearer than in `sol`.
pub open spec fn within_solution(
    func: Function,
    ins: Seq<NextUseView>,
    outs: Seq<Map<SSAValue, usize>>,
    sol: Seq<NextUseView>,
) -> bool {
    forall|b: int|
        0 <= b < func.blocks.len() ==> #[trigger] block_within_solution(func, ins, outs, sol, b)
}

/// A record that is as the analysis keeps it is well-formed.
pub proof fn lemma_record_ok_wf(
    x: NextUseView,
    y: Map<SSAValue, usize>,
    files: RegFileSet,
    block: BasicBlock,
    v: SSAValue,
)
    requires
        x.num_instrs == block.instrs.len(),
        x.records.contains_key(v),
        record_ok(x, y, files, block, v),
    ensures
        x.records[v].wf(x.num_instrs),
        x.records[v].has_successor_use(x.num_instrs) <==> x.records[v].uses.len() == local_uses(
            block,
            v,
            block.instrs.len() as int,
        ).len() + 1,
        x.records[v].uses.len() > 0 && !x.records[v].has_successor_use(x.num_instrs)
            ==> block.uses().contains(v),
{
    let r = x.records[v];
    let n = block.instrs.len() as int;
    let local = local_uses(block, v, n);
    lemma_local_uses(block, v, n);
    if r.uses == local {
    } else {
        assert forall|i: int| 0 <= i < r.uses.len() - 1 implies r.uses[i] < x.num_instrs by {
            assert(r.uses.drop_last()[i] == local[i]);
        }
        assert forall|i: int, j: int| 0 <= i <= j < r.uses.len() implies r.uses[i]
            <= r.uses[j] by {
            if j < r.uses.len() - 1 {
                assert(r.uses.drop_last()[i] == local[i]);
                assert(r.uses.drop_last()[j] == local[j]);
                assert(local[i] <= local[j]);
            } else if i < j {
                assert(r.uses.drop_last()[i] == local[i]);
            }
        }
    }
}

impl UseDefView {
    /// `later` reads the value wherever this record reads it, or nearer:
    /// if this record has a use, `later` has one and its first use is no
    /// farther, and if this record has a use in a later block, `later` has
    /// one and it is no farther.
    pub open spec fn nearer_or_same(self, later: UseDefView, num_block_instrs: usize) -> bool {
        &&& self.uses.len() > 0 ==> later.uses.len() > 0 && later.uses[0] <= self.uses[0]
        &&& self.has_successor_use(num_block_instrs) ==> later.has_successor_use(num_block_instrs)
            && later.uses.last() <= self.uses.last()
    }
}

/// `later` records every value that `earlier` records, with uses that are
/// no farther.
pub open spec fn no_farther(earlier: NextUseView, later: NextUseView) -> bool {
    &&& earlier.num_instrs == later.num_instrs
    &&& forall|v: SSAValue| #[trigger]
        earlier.records.contains_key(v) ==> {
            &&& later.records.contains_key(v)
            &&& earlier.records[v].nearer_or_same(later.records[v], earlier.num_instrs)
        }
}

/// `later` holds every value that `earlier` holds, with a first use that
/// is no farther.
pub open spec fn no_farther_out(earlier: Map<SSAValue, usize>, later: Map<SSAValue, usize>) -> bool {
    forall|v: SSAValue| #[trigger]
        earlier.contains_key(v) ==> later.contains_key(v) && later[v] <= earlier[v]
}

/// The liveness problem of one function, for the solver.
pub struct NextUseProblem<'a> {
    func: &'a Function,
    files: &'a RegFileSet,
}

impl<'a> NextUseProblem<'a> {
    /// The register files that the analysis follows.
    pub closed spec fn files(&self) -> RegFileSet {
        *self.files
    }
}

/// The rank of what `x` records of `v`.
pub open spec fn value_rank(x: NextUseView, v: SSAValue) -> nat {
    x.record(v).rank(x.num_instrs)
}

/// The in-state after the uses that `y` holds have been merged into `x`.
pub open spec fn merge_successor_uses(x: NextUseView, y: Map<SSAValue, usize>) -> NextUseView {
    NextUseView {
        num_instrs: x.num_instrs,
        records: Map::new(
            |v: SSAValue| x.records.contains_key(v) || y.contains_key(v),
            |v: SSAValue|
                if y.contains_key(v) {
                    x.record(v).add_successor_use(x.num_instrs, y[v])
                } else {
                    x.records[v]
                },
        ),
    }
}

/// The out-state after the first uses of the values that are live at the
/// start of `x` have been folded into `y`: for each value the nearest use
/// is kept.
pub open spec fn fold_first_uses(y: Map<SSAValue, usize>, x: NextUseView) -> Map<SSAValue, usize> {
    Map::new(
        |v: SSAValue| y.contains_key(v) || x.live_in(v),
        |v: SSAValue|
            if x.live_in(v) {
                if y.contains_key(v) && y[v] <= x.record(v).uses[0] {
                    y[v]
                } else {
                    x.record(v).uses[0]
                }
            } else {
                y[v]
            },
    )
}

impl<'a> BackwardProblem for NextUseProblem<'a> {
    type In = NextUseBlockLiveness;

    type Out = ValueMap<usize>;

    closed spec fn func(&self) -> Function {
        *self.func
    }

    closed spec fn wf(&self) -> bool {
        &&& self.func.wf()
        &&& universe(*self.func, *self.files).finite()
    }

    open spec fn in_wf(&self, x: &NextUseBlockLiveness) -> bool {
        x.map_wf()
    }

    open spec fn out_wf(&self, y: &ValueMap<usize>) -> bool {
        y.wf()
    }

    open spec fn transfer_spec(&self, b: int, x: NextUseView, y: Map<SSAValue, usize>) -> NextUseView {
        merge_successor_uses(x, y)
    }

    open spec fn join_spec(&self, y: Map<SSAValue, usize>, x: NextUseView) -> Map<SSAValue, usize> {
        fold_first_uses(y, x)
    }

    open spec fn transfer_ok(&self, b: int, x: NextUseView, y: Map<SSAValue, usize>) -> bool {
        points_fit(x, y)
    }

    open spec fn inv(&self, ins: Seq<NextUseView>, outs: Seq<Map<SSAValue, usize>>) -> bool {
        states_ok(self.func(), self.files(), ins, outs)
    }

    open spec fn rank(&self, b: int, x: NextUseView) -> nat {
        set_sum(universe(self.func(), self.files()), |v: SSAValue| value_rank(x, v))
    }

    open spec fn in_le(&self, earlier: NextUseView, later: NextUseView) -> bool {
        no_farther(earlier, later)
    }

    open spec fn out_le(&self, earlier: Map<SSAValue, usize>, later: Map<SSAValue, usize>) -> bool {
        no_farther_out(earlier, later)
    }

    fn transfer(
        &self,
        b: usize,
        block: &BasicBlock,
        x: &mut NextUseBlockLiveness,
        y: &ValueMap<usize>,
    ) -> (changed: bool) {
        let keys = y.keys();
        let ghost x0 = x@;
        let ghost n = x0.num_instrs;
        let mut changed = false;
        let mut i: usize = 0;
        while i < keys.len()
            invariant
                i <= keys.len(),
                x.map_wf(),
                points_fit(x0, y@),
                keys@.no_duplicates(),
                keys@.to_set() == y@.dom(),
                x@.num_instrs == n,
                x0.num_instrs == n,
                forall|v: SSAValue| #[trigger]
                    x@.records.contains_key(v) <==> x0.records.contains_key(v) || keys@.take(
                        i as int,
                    ).contains(v),
                forall|v: SSAValue| #[trigger]
                    x@.records.contains_key(v) ==> x@.records[v] == if keys@.take(
                        i as int,
                    ).contains(v) {
                        x0.record(v).add_successor_use(n, y@[v])
                    } else {
                        x0.records[v]
                    },
                changed == exists|v: SSAValue|
                    keys@.take(i as int).contains(v) && #[trigger] x0.record(
                        v,
                    ).add_successor_use(n, y@[v]) != x0.record(v),
            decreases keys.len() - i,
        {
            let ssa = keys[i];
            let ghost s0 = keys@.take(i as int);
            let ghost s1 = keys@.take(i + 1);
            proof {
                assert(keys@.to_set().contains(keys@[i as int]));
                assert(s1 =~= s0.push(ssa));
                lemma_push_contains(s0, ssa);
                if s0.contains(ssa) {
                    let k = choose|k: int| 0 <= k < s0.len() && s0[k] == ssa;
                    assert(keys@[k] == keys@[i as int]);
                }
                assert(x@.record(ssa) == x0.record(ssa));
            }
            let first_use_ip = *y.get(&ssa).unwrap();
            assert(y@.contains_key(ssa));
            let moved = x.add_successor_use(ssa, first_use_ip);
            proof {
                if changed || moved {
                    if moved {
                        assert(s1.contains(ssa));
                        assert(x0.record(ssa).add_successor_use(n, y@[ssa]) != x0.record(ssa));
                    } else {
                        let w = choose|w: SSAValue|
                            s0.contains(w) && #[trigger] x0.record(w).add_successor_use(n, y@[w])
                                != x0.record(w);
                        assert(s1.contains(w));
                    }
                } else {
                    assert forall|w: SSAValue|
                        !(s1.contains(w) && #[trigger] x0.record(w).add_successor_use(n, y@[w])
                            != x0.record(w)) by {
                        if s1.contains(w) && w != ssa {
                            assert(s0.contains(w));
                        }
                    }
                }
            }
            changed = changed || moved;
            i += 1;
        }
        proof {
            assert(keys@.take(i as int) =~= keys@);
            assert forall|v: SSAValue| keys@.contains(v) <==> y@.contains_key(v) by {
                assert(keys@.to_set().contains(v) <==> y@.dom().contains(v));
            }
            let want = merge_successor_uses(x0, y@);
            assert(x@.records =~= want.records);
            if changed {
                let w = choose|w: SSAValue|
                    keys@.contains(w) && #[trigger] x0.record(w).add_successor_use(n, y@[w])
                        != x0.record(w);
                assert(x@.records.contains_key(w));
                if x0.records.contains_key(w) {
                    assert(x@.records[w] != x0.records[w]);
                }
            } else {
                assert forall|v: SSAValue| x@.records.contains_key(v) implies #[trigger]
                    x0.records.contains_key(v) && x@.records[v] == x0.records[v] by {
                    if keys@.contains(v) {
                        assert(x0.record(v).add_successor_use(n, y@[v]) == x0.record(v));
                    }
                }
                assert(x@.records =~= x0.records);
            }
        }
        changed
    }

    fn join(&self, y: &mut ValueMap<usize>, x: &NextUseBlockLiveness) {
        let vals = x.iter_live_in();
        let ghost y0 = y@;
        let mut i: usize = 0;
        while i < vals.len()
            invariant
                i <= vals.len(),
                y.wf(),
                vals@.to_set() == Set::new(|v: SSAValue| x@.live_in(v)),
                forall|v: SSAValue| #[trigger]
                    y@.contains_key(v) <==> y0.contains_key(v) || vals@.take(i as int).contains(v),
                forall|v: SSAValue| #[trigger]
                    y@.contains_key(v) ==> y@[v] == if vals@.take(i as int).contains(v) {
                        fold_first_uses(y0, x@)[v]
                    } else {
                        y0[v]
                    },
            decreases vals.len() - i,
        {
            let ssa = vals[i];
            let ghost s0 = vals@.take(i as int);
            proof {
                assert(vals@.to_set().contains(vals@[i as int]));
                assert(x@.live_in(ssa));
                assert(vals@.take(i + 1) =~= s0.push(ssa));
                lemma_push_contains(s0, ssa);
            }
            let first_use_ip = x.first_use(&ssa).unwrap();
            let nearer = match y.get(&ssa) {
                Some(val) => first_use_ip < *val,
                None => true,
            };
            if nearer {
                y.insert(ssa, first_use_ip);
            }
            i += 1;
        }
        proof {
            assert(vals@.take(i as int) =~= vals@);
            assert forall|v: SSAValue| vals@.contains(v) <==> x@.live_in(v) by {
                assert(vals@.to_set().contains(v) <==> x@.live_in(v));
            }
            assert(y@ =~= fold_first_uses(y0, x@));
        }
    }

    proof fn lemma_transfer_ok(
        &self,
        ins: Seq<NextUseView>,
        outs: Seq<Map<SSAValue, usize>>,
        b: int,
    ) {
        assert(block_ok(self.func(), self.files(), ins, outs, b));
        lemma_bounded_points_fit(self.func(), self.files(), ins, outs, b);
    }

    proof fn lemma_transfer_step(
        &self,
        ins: Seq<NextUseView>,
        outs: Seq<Map<SSAValue, usize>>,
        b: int,
    ) {
        let func = self.func();
        let files = self.files();
        let x = ins[b];
        let y = outs[b];
        let x2 = merge_successor_uses(x, y);
        let ins2 = ins.update(b, x2);
        assert(block_ok(func, files, ins, outs, b));
        lemma_merge_keeps_bounds(func, files, ins, outs, b);
        lemma_merge_keeps_first_uses(func, files, ins, outs, b);
        assert forall|c: int| 0 <= c < func.blocks.len() implies #[trigger] block_ok(
            func,
            files,
            ins2,
            outs,
            c,
        ) by {
            assert(block_ok(func, files, ins, outs, c));
            let yc = outs[c];
            assert forall|v: SSAValue| #[trigger] yc.contains_key(v) implies exists|k: int| #[trigger]
                reaches_via(func, ins2, c, k, v, yc[v]) by {
                let k = choose|k: int| #[trigger] reaches_via(func, ins, c, k, v, yc[v]);
                assert(reaches_via(func, ins2, c, k, v, yc[v]));
            }
            if c == b {
                lemma_merge_keeps_records_ok(func, files, ins, outs, b);
            }
        }
        assert forall|sol: Seq<NextUseView>| #[trigger]
            solves_next_use(func, files, sol) implies within_solution(func, ins2, outs, sol) by {
            assert(within_solution(func, ins, outs, sol));
            lemma_merge_keeps_records_ok(func, files, ins, outs, b);
            assert forall|c: int| 0 <= c < func.blocks.len() implies #[trigger]
                block_within_solution(func, ins2, outs, sol, c) by {
                assert(block_within_solution(func, ins, outs, sol, c));
                if c == b {
                    lemma_merge_stays_within(func, files, ins, outs, sol, b);
                }
            }
        }
        if x2 != x {
            lemma_merge_lowers_rank(func, files, ins, outs, b);
        }
    }

    proof fn lemma_join_step(
        &self,
        ins: Seq<NextUseView>,
        outs: Seq<Map<SSAValue, usize>>,
        b: int,
        k: int,
    ) {
        let func = self.func();
        let files = self.files();
        let s = func.blocks[b].succs[k] as int;
        let y = outs[b];
        let y2 = fold_first_uses(y, ins[s]);
        let outs2 = outs.update(b, y2);
        let x = ins[b];
        let block = func.blocks[b];
        assert(0 <= s < func.blocks.len());
        assert(block_ok(func, files, ins, outs, s));
        assert(block_ok(func, files, ins, outs, b));
        lemma_fold_keeps_bounds(func, files, ins, outs, b, s);
        assert forall|c: int| 0 <= c < func.blocks.len() implies #[trigger] block_ok(
            func,
            files,
            ins,
            outs2,
            c,
        ) by {
            assert(block_ok(func, files, ins, outs, c));
            if c == b {
                assert forall|v: SSAValue| #[trigger] y2.contains_key(v) implies universe(
                    func,
                    files,
                ).contains(v) by {
                    if !y.contains_key(v) {
                        assert(ins[s].records.contains_key(v));
                        assert(record_ok(ins[s], outs[s], files, func.blocks[s], v));
                        if !outs[s].contains_key(v) {
                            assert(seen_in_block(func, files, s, v));
                        }
                    }
                }
                assert forall|v: SSAValue| #[trigger] x.records.contains_key(v) implies record_ok(
                    x,
                    y2,
                    files,
                    block,
                    v,
                ) by {
                    assert(record_ok(x, y, files, block, v));
                }
                assert forall|v: SSAValue| #[trigger] y2.contains_key(v) implies exists|j: int| #[trigger]
                    reaches_via(func, ins, b, j, v, y2[v]) by {
                    if ins[s].live_in(v) && !(y.contains_key(v) && y[v] <= ins[s].record(
                        v,
                    ).uses[0]) {
                        assert(reaches_via(func, ins, b, k, v, y2[v]));
                    } else {
                        let j = choose|j: int| #[trigger] reaches_via(func, ins, b, j, v, y[v]);
                        assert(reaches_via(func, ins, b, j, v, y2[v]));
                    }
                }
            }
        }
        assert forall|sol: Seq<NextUseView>| #[trigger]
            solves_next_use(func, files, sol) implies within_solution(func, ins, outs2, sol) by {
            assert(within_solution(func, ins, outs, sol));
            assert forall|c: int| 0 <= c < func.blocks.len() implies #[trigger]
                block_within_solution(func, ins, outs2, sol, c) by {
                assert(block_within_solution(func, ins, outs, sol, c));
                if c == b {
                    assert(block_within_solution(func, ins, outs, sol, s));
                    assert(block_solved(func, files, sol, b));
                    assert forall|v: SSAValue| #[trigger] y2.contains_key(v) implies exists|
                        d: usize,
                    | #[trigger]
                        nearest_successor_use(func, sol, b, v, d) && d <= y2[v] by {
                        if ins[s].live_in(v) && !(y.contains_key(v) && y[v] <= ins[s].record(
                            v,
                        ).uses[0]) {
                            assert(ins[s].records.contains_key(v));
                            assert(sol[s].records.contains_key(v));
                            assert(ins[s].records[v].nearer_or_same(
                                sol[s].records[v],
                                ins[s].num_instrs,
                            ));
                            assert(sol[s].live_in(v));
                            assert(reaches_via(func, sol, b, k, v, usize::MAX));
                            assert(live_into_successor(func, sol, b, v));
                            assert(sol[b].records.contains_key(v));
                            let d = choose|d: usize| #[trigger]
                                nearest_successor_use(func, sol, b, v, d) && sol[b].records[v].uses
                                    == local_uses(
                                    func.blocks[b],
                                    v,
                                    func.blocks[b].instrs.len() as int,
                                ).push(successor_point(sol[b].num_instrs, d));
                            assert(nearest_successor_use(func, sol, b, v, d) && d <= y2[v]);
                        } else {
                            let d = choose|d: usize| #[trigger]
                                nearest_successor_use(func, sol, b, v, d) && d <= y[v];
                            assert(nearest_successor_use(func, sol, b, v, d) && d <= y2[v]);
                        }
                    }
                }
            }
        }
    }

    proof fn lemma_steps_go_up(&self, b: int, x: NextUseView, y: Map<SSAValue, usize>) {
        let x2 = merge_successor_uses(x, y);
        assert forall|v: SSAValue| #[trigger] x.records.contains_key(v) implies {
            &&& x2.records.contains_key(v)
            &&& x.records[v].nearer_or_same(x2.records[v], x.num_instrs)
        } by {
        }
    }

    proof fn lemma_le_transitive(
        &self,
        x1: NextUseView,
        x2: NextUseView,
        x3: NextUseView,
        y1: Map<SSAValue, usize>,
        y2: Map<SSAValue, usize>,
        y3: Map<SSAValue, usize>,
    ) {
        if no_farther(x1, x2) && no_farther(x2, x3) {
            assert forall|v: SSAValue| #[trigger] x1.records.contains_key(v) implies {
                &&& x3.records.contains_key(v)
                &&& x1.records[v].nearer_or_same(x3.records[v], x1.num_instrs)
            } by {
                assert(x2.records.contains_key(v));
            }
        }
        if no_farther_out(y1, y2) && no_farther_out(y2, y3) {
            assert forall|v: SSAValue| #[trigger] y1.contains_key(v) implies y3.contains_key(v)
                && y3[v] <= y1[v] by {
                assert(y2.contains_key(v));
            }
        }
    }

    proof fn lemma_join_absorbs(&self, y: Map<SSAValue, usize>, x: NextUseView, other: NextUseView) {
        let y1 = fold_first_uses(y, x);
        assert(fold_first_uses(y1, x) =~= y1);
        if fold_first_uses(y, other) == y {
            assert forall|v: SSAValue| other.live_in(v) implies y.contains_key(v) && y[v]
                <= other.record(v).uses[0] by {
                assert(fold_first_uses(y, other).contains_key(v));
                assert(fold_first_uses(y, other)[v] == y[v]);
            }
            assert(fold_first_uses(y1, other) =~= y1);
        }
    }
}

/// Merging the out-state into the in-state of block `b` keeps live what
/// was live at its start, with a first use that is no farther.
proof fn lemma_merge_keeps_first_uses(
    func: Function,
    files: RegFileSet,
    ins: Seq<NextUseView>,
    outs: Seq<Map<SSAValue, usize>>,
    b: int,
)
    requires
        0 <= b < ins.len(),
    ensures
        forall|c: int, k: int, v: SSAValue, d: usize|
            #[trigger] reaches_via(func, ins, c, k, v, d) ==> reaches_via(
                func,
                ins.update(b, merge_successor_uses(ins[b], outs[b])),
                c,
                k,
                v,
                d,
            ),
{
    let x = ins[b];
    let y = outs[b];
    let x2 = merge_successor_uses(x, y);
    let ins2 = ins.update(b, x2);
    assert forall|c: int, k: int, v: SSAValue, d: usize| #[trigger]
        reaches_via(func, ins, c, k, v, d) implies reaches_via(func, ins2, c, k, v, d) by {
        let s = func.blocks[c].succs[k] as int;
        if s == b {
            assert(x.live_in(v));
            assert(x.records.contains_key(v));
            if y.contains_key(v) {
                x.record(v).lemma_add_successor_use_first(x.num_instrs, y[v]);
            }
            assert(x2.records.contains_key(v));
        } else {
            assert(ins2[s] == ins[s]);
        }
    }
}

/// Merging the out-state into the in-state of block `b` keeps every
/// record of the block as the analysis keeps it.
proof fn lemma_merge_keeps_records_ok(
    func: Function,
    files: RegFileSet,
    ins: Seq<NextUseView>,
    outs: Seq<Map<SSAValue, usize>>,
    b: int,
)
    requires
        0 <= b < func.blocks.len(),
        ins.len() == func.blocks.len(),
        outs.len() == func.blocks.len(),
        block_ok(func, files, ins, outs, b),
    ensures
        ({
            let x2 = merge_successor_uses(ins[b], outs[b]);
            &&& x2.num_instrs == func.blocks[b].instrs.len()
            &&& forall|v: SSAValue| #[trigger]
                seen_in_block(func, files, b, v) ==> x2.records.contains_key(v)
            &&& forall|v: SSAValue| #[trigger]
                x2.records.contains_key(v) ==> record_ok(x2, outs[b], files, func.blocks[b], v)
        }),
{
    let x = ins[b];
    let y = outs[b];
    let block = func.blocks[b];
    let n = block.instrs.len() as int;
    let x2 = merge_successor_uses(x, y);
    assert forall|v: SSAValue| #[trigger] seen_in_block(func, files, b, v) implies x2.records.contains_key(
        v,
    ) by {
        assert(x.records.contains_key(v));
    }
    assert forall|v: SSAValue| #[trigger] x2.records.contains_key(v) implies record_ok(
        x2,
        y,
        files,
        block,
        v,
    ) by {
        let local = local_uses(block, v, n);
        lemma_local_uses(block, v, n);
        if y.contains_key(v) {
            let r = x.record(v);
            let r2 = x2.records[v];
            let at = successor_point(x.num_instrs, y[v]);
            assert(r2 == r.add_successor_use(x.num_instrs, y[v]));
            assert(universe(func, files).contains(v));
            if x.records.contains_key(v) {
                assert(record_ok(x, y, files, block, v));
                lemma_record_ok_wf(x, y, files, block, v);
                if !r.has_successor_use(x.num_instrs) {
                    assert(r.uses == local);
                    assert(r2.uses.drop_last() =~= local);
                } else if r.uses.last() > at {
                    assert(r2.uses.drop_last() =~= r.uses.drop_last());
                }
            } else {
                assert(!seen_in_block(func, files, b, v));
                assert(!block.uses().contains(v));
                assert(!block.defs().contains(v));
                assert(local.len() == 0);
                assert(r2.uses.drop_last() =~= local);
            }
        } else {
            assert(x.records.contains_key(v));
            assert(record_ok(x, y, files, block, v));
        }
    }
}

/// Merging the out-state into the in-state of block `b` keeps the in-state
/// within every solution of the next-use equations.
proof fn lemma_merge_stays_within(
    func: Function,
    files: RegFileSet,
    ins: Seq<NextUseView>,
    outs: Seq<Map<SSAValue, usize>>,
    sol: Seq<NextUseView>,
    b: int,
)
    requires
        0 <= b < func.blocks.len(),
        ins.len() == func.blocks.len(),
        outs.len() == func.blocks.len(),
        block_ok(func, files, ins, outs, b),
        solves_next_use(func, files, sol),
        block_within_solution(func, ins, outs, sol, b),
    ensures
        within(merge_successor_uses(ins[b], outs[b]), sol[b]),
{
    let x = ins[b];
    let y = outs[b];
    let z = sol[b];
    let block = func.blocks[b];
    let n = block.instrs.len() as int;
    let x2 = merge_successor_uses(x, y);
    lemma_merge_keeps_records_ok(func, files, ins, outs, b);
    assert(block_solved(func, files, sol, b));
    assert forall|v: SSAValue| #[trigger] x2.records.contains_key(v) implies {
        &&& z.records.contains_key(v)
        &&& x2.records[v].nearer_or_same(z.records[v], x2.num_instrs)
        &&& x2.records[v].defined == z.records[v].defined
    } by {
        if y.contains_key(v) {
            let local = local_uses(block, v, n);
            lemma_local_uses(block, v, n);
            let d = choose|d: usize| #[trigger]
                nearest_successor_use(func, sol, b, v, d) && d <= y[v];
            let k = choose|k: int| #[trigger] reaches_via(func, sol, b, k, v, d);
            assert(reaches_via(func, sol, b, k, v, usize::MAX));
            assert(live_into_successor(func, sol, b, v));
            assert(z.records.contains_key(v));
            let e = choose|e: usize| #[trigger]
                nearest_successor_use(func, sol, b, v, e) && z.records[v].uses == local.push(
                    successor_point(z.num_instrs, e),
                );
            lemma_nearest_successor_use_unique(func, sol, b, v, d, e);
            let r2 = x2.records[v];
            assert(record_ok(x2, y, files, block, v));
            let r = x.record(v);
            if x.records.contains_key(v) {
                assert(record_ok(x, y, files, block, v));
                lemma_record_ok_wf(x, y, files, block, v);
            }
            r.lemma_add_successor_use_wf(x.num_instrs, y[v]);
            assert(r2 == r.add_successor_use(x.num_instrs, y[v]));
            assert(r2.has_successor_use(x.num_instrs));
            assert(r2.uses.len() == local.len() + 1);
            if local.len() > 0 {
                assert(r2.uses.drop_last()[0] == local[0]);
            }
        } else {
            assert(x.records.contains_key(v));
            assert(x2.records[v] == x.records[v]);
        }
    }
}

/// Merging the out-state into the in-state of block `b` keeps the points
/// within their bounds.
proof fn lemma_merge_keeps_bounds(
    func: Function,
    files: RegFileSet,
    ins: Seq<NextUseView>,
    outs: Seq<Map<SSAValue, usize>>,
    b: int,
)
    requires
        0 <= b < func.blocks.len(),
        ins.len() == func.blocks.len(),
        outs.len() == func.blocks.len(),
        block_ok(func, files, ins, outs, b),
        points_bounded(func, ins, outs),
    ensures
        points_bounded(func, ins.update(b, merge_successor_uses(ins[b], outs[b])), outs),
{
    let n = func.blocks.len() as int;
    let x = ins[b];
    let y = outs[b];
    let x2 = merge_successor_uses(x, y);
    let ins2 = ins.update(b, x2);
    lemma_bounded_points_fit(func, files, ins, outs, b);
    assert forall|v: SSAValue|
        far_bound(func, ins2, v) >= far_bound(func, ins, v) && (!x.record(v).has_successor_use(
            x.num_instrs,
        ) && x2.record(v).has_successor_use(x2.num_instrs) ==> far_bound(func, ins2, v)
            == far_bound(func, ins, v) + func.blocks[b].instrs.len()) by {
        if y.contains_key(v) {
            x.record(v).lemma_add_successor_use_has(x.num_instrs, y[v]);
            assert(x2.record(v) == x.record(v).add_successor_use(x.num_instrs, y[v]));
        } else {
            assert(x2.record(v) == x.record(v));
        }
        lemma_reached_update(func, ins, b, x2, v, n);
    }
    assert forall|c: int, v: SSAValue|
        0 <= c < func.blocks.len() && #[trigger] ins2[c].records.contains_key(v)
            && ins2[c].records[v].has_successor_use(
            ins2[c].num_instrs,
        ) implies ins2[c].records[v].uses.last() <= far_bound(func, ins2, v) by {
        if c == b {
            if y.contains_key(v) {
                let r = x.record(v);
                assert(x2.records[v] == r.add_successor_use(x.num_instrs, y[v]));
                assert(y[v] <= far_bound(func, ins, v));
                if r.has_successor_use(x.num_instrs) {
                    assert(x.records.contains_key(v));
                    assert(r.uses.last() <= far_bound(func, ins, v));
                }
            } else {
                assert(x.records.contains_key(v));
                assert(x2.records[v] == x.records[v]);
            }
        } else {
            assert(ins[c].records.contains_key(v));
        }
    }
    assert forall|c: int, v: SSAValue|
        0 <= c < func.blocks.len() && #[trigger] outs[c].contains_key(v) implies outs[c][v]
        <= far_bound(func, ins2, v) by {
        assert(outs[c][v] <= far_bound(func, ins, v));
    }
}

/// Folding the first uses of successor `s` into the out-state of block `b`
/// keeps the points within their bounds.
proof fn lemma_fold_keeps_bounds(
    func: Function,
    files: RegFileSet,
    ins: Seq<NextUseView>,
    outs: Seq<Map<SSAValue, usize>>,
    b: int,
    s: int,
)
    requires
        0 <= b < func.blocks.len(),
        0 <= s < func.blocks.len(),
        ins.len() == func.blocks.len(),
        outs.len() == func.blocks.len(),
        block_ok(func, files, ins, outs, s),
        points_bounded(func, ins, outs),
    ensures
        points_bounded(func, ins, outs.update(b, fold_first_uses(outs[b], ins[s]))),
{
    let n = func.blocks.len() as int;
    let y = outs[b];
    let y2 = fold_first_uses(y, ins[s]);
    let outs2 = outs.update(b, y2);
    let succ = func.blocks[s];
    assert forall|c: int, v: SSAValue|
        0 <= c < func.blocks.len() && #[trigger] outs2[c].contains_key(v) implies outs2[c][v]
        <= far_bound(func, ins, v) by {
        if c == b {
            if ins[s].live_in(v) && !(y.contains_key(v) && y[v] <= ins[s].record(v).uses[0]) {
                let r = ins[s].records[v];
                let local = local_uses(succ, v, succ.instrs.len() as int);
                assert(record_ok(ins[s], outs[s], files, succ, v));
                lemma_local_uses(succ, v, succ.instrs.len() as int);
                lemma_block_within_total(func, s, n);
                if local.len() > 0 {
                    if r.uses != local {
                        assert(r.uses.drop_last()[0] == local[0]);
                    }
                    assert(r.uses[0] == local[0]);
                } else {
                    assert(r.uses.len() == 1);
                    assert(r.has_successor_use(ins[s].num_instrs));
                    assert(r.uses.last() <= far_bound(func, ins, v));
                }
            } else {
                assert(outs[b].contains_key(v));
            }
        } else {
            assert(outs[c].contains_key(v));
        }
    }
}

/// Merging the out-state into the in-state of block `b` lowers the rank
/// of the in-state if it changes it.
proof fn lemma_merge_lowers_rank(
    func: Function,
    files: RegFileSet,
    ins: Seq<NextUseView>,
    outs: Seq<Map<SSAValue, usize>>,
    b: int,
)
    requires
        0 <= b < func.blocks.len(),
        ins.len() == func.blocks.len(),
        outs.len() == func.blocks.len(),
        block_ok(func, files, ins, outs, b),
        universe(func, files).finite(),
        merge_successor_uses(ins[b], outs[b]) != ins[b],
    ensures
        set_sum(
            universe(func, files),
            |v: SSAValue| value_rank(merge_successor_uses(ins[b], outs[b]), v),
        ) < set_sum(universe(func, files), |v: SSAValue| value_rank(ins[b], v)),
{
    let x = ins[b];
    let y = outs[b];
    let x2 = merge_successor_uses(x, y);
    let u = universe(func, files);
    let f = |v: SSAValue| value_rank(x2, v);
    let g = |v: SSAValue| value_rank(x, v);
    assert forall|v: SSAValue| u.contains(v) implies f(v) <= g(v) by {
        if y.contains_key(v) {
            x.record(v).lemma_add_successor_use_rank(x.num_instrs, y[v]);
            assert(x2.record(v) == x.record(v).add_successor_use(x.num_instrs, y[v]));
        } else {
            assert(x2.record(v) == x.record(v));
        }
    }
    assert(!(x2.records =~= x.records));
    let w = choose|w: SSAValue|
        !(x2.records.contains_key(w) == x.records.contains_key(w) && (x2.records.contains_key(w)
            ==> x2.records[w] == x.records[w]));
    assert(y.contains_key(w));
    assert(u.contains(w));
    x.record(w).lemma_add_successor_use_rank(x.num_instrs, y[w]);
    assert(x2.record(w) == x.record(w).add_successor_use(x.num_instrs, y[w]));
    assert(x2.record(w) != x.record(w));
    assert(f(w) < g(w));
    lemma_set_sum_lt(u, f, g, w);
}

/// At a fixed point the records of every block are those of the analysis.
proof fn lemma_fixpoint_solved(
    problem: &NextUseProblem,
    ins: Seq<NextUseView>,
    outs: Seq<Map<SSAValue, usize>>,
    b: int,
)
    requires
        problem.wf(),
        problem.inv(ins, outs),
        is_fixpoint(problem, ins, outs),
        0 <= b < problem.func().blocks.len(),
    ensures
        block_solved(problem.func(), problem.files(), ins, b),
        forall|v: SSAValue, d: usize| #[trigger]
            nearest_successor_use(problem.func(), ins, b, v, d) ==> ins[b].num_instrs + d
                <= usize::MAX,
{
    let func = problem.func();
    let files = problem.files();
    let x = ins[b];
    let y = outs[b];
    let block = func.blocks[b];
    let n = block.instrs.len() as int;
    assert(block_ok(func, files, ins, outs, b));
    assert(stable_at(problem, ins, outs, b));
    assert(merge_successor_uses(x, y) == x);
    lemma_bounded_points_fit(func, files, ins, outs, b);

    // The out-state holds exactly the values that a successor has live.
    assert forall|v: SSAValue| y.contains_key(v) <==> live_into_successor(func, ins, b, v) by {
        if y.contains_key(v) {
            let k = choose|k: int| #[trigger] reaches_via(func, ins, b, k, v, y[v]);
            assert(reaches_via(func, ins, b, k, v, usize::MAX));
        }
        if live_into_successor(func, ins, b, v) {
            let k = choose|k: int| #[trigger] reaches_via(func, ins, b, k, v, usize::MAX);
            let other = ins[func.blocks[b].succs[k] as int];
            assert(fold_first_uses(y, other) == y);
            assert(fold_first_uses(y, other).contains_key(v));
        }
    }
    // And for each of them the nearest first use.
    assert forall|v: SSAValue| y.contains_key(v) implies nearest_successor_use(
        func,
        ins,
        b,
        v,
        y[v],
    ) by {
        assert forall|k: int| #[trigger]
            reaches_via(func, ins, b, k, v, usize::MAX) implies ins[func.blocks[b].succs[k] as int].record(
            v,
        ).uses[0] >= y[v] by {
            let other = ins[func.blocks[b].succs[k] as int];
            assert(fold_first_uses(y, other) == y);
            assert(fold_first_uses(y, other)[v] == y[v]);
        }
    }
    assert forall|v: SSAValue, d: usize| #[trigger]
        nearest_successor_use(func, ins, b, v, d) implies x.num_instrs + d <= usize::MAX by {
        let k = choose|k: int| #[trigger] reaches_via(func, ins, b, k, v, d);
        assert(reaches_via(func, ins, b, k, v, usize::MAX));
        assert(live_into_successor(func, ins, b, v));
        assert(y.contains_key(v));
        lemma_nearest_successor_use_unique(func, ins, b, v, d, y[v]);
    }
    assert forall|v: SSAValue| #[trigger] x.records.contains_key(v) implies {
        &&& x.records[v].wf(x.num_instrs)
        &&& x.records[v].defined == block.defs().contains(v)
        &&& if live_into_successor(func, ins, b, v) {
            exists|d: usize| #[trigger]
                nearest_successor_use(func, ins, b, v, d) && x.records[v].uses == local_uses(
                    block,
                    v,
                    n,
                ).push(successor_point(x.num_instrs, d))
        } else {
            x.records[v].uses == local_uses(block, v, n)
        }
    } by {
        let r = x.records[v];
        assert(record_ok(x, y, files, block, v));
        lemma_record_ok_wf(x, y, files, block, v);
        if y.contains_key(v) {
            let at = successor_point(x.num_instrs, y[v]);
            assert(merge_successor_uses(x, y).records[v] == r);
            assert(r.add_successor_use(x.num_instrs, y[v]) == r);
            assert(r.has_successor_use(x.num_instrs));
            assert(r.uses.last() == at);
            assert(r.uses =~= r.uses.drop_last().push(r.uses.last()));
            assert(nearest_successor_use(func, ins, b, v, y[v]));
        }
    }
    assert forall|v: SSAValue| #[trigger]
        x.records.contains_key(v) <==> seen_in_block(func, files, b, v) || live_into_successor(
            func,
            ins,
            b,
            v,
        ) by {
        if x.records.contains_key(v) {
            assert(record_ok(x, y, files, block, v));
        }
        if live_into_successor(func, ins, b, v) {
            assert(y.contains_key(v));
            assert(merge_successor_uses(x, y).records.contains_key(v));
        }
    }
}

/// What a block records before the analysis has run is within every
/// solution of the next-use equations.
proof fn lemma_scanned_within(
    func: Function,
    files: RegFileSet,
    x: NextUseView,
    sol: Seq<NextUseView>,
    b: int,
)
    requires
        0 <= b < func.blocks.len(),
        sol.len() == func.blocks.len(),
        scanned(
            x,
            files,
            func.blocks[b],
            func.blocks[b].instrs.len() as int,
            func.blocks[b].instrs.len() as int,
        ),
        block_solved(func, files, sol, b),
    ensures
        within(x, sol[b]),
{
    let block = func.blocks[b];
    let n = block.instrs.len() as int;
    let z = sol[b];
    assert forall|v: SSAValue| #[trigger] x.records.contains_key(v) implies {
        &&& z.records.contains_key(v)
        &&& x.records[v].nearer_or_same(z.records[v], x.num_instrs)
        &&& x.records[v].defined == z.records[v].defined
    } by {
        assert(seen_in_block(func, files, b, v));
        assert(z.records.contains_key(v));
        lemma_local_uses(block, v, n);
        let local = local_uses(block, v, n);
        assert(x.records[v].uses == local);
        if local.len() > 0 {
            assert(local[local.len() - 1] < n);
        }
        if live_into_successor(func, sol, b, v) {
            let d = choose|d: usize| #[trigger]
                nearest_successor_use(func, sol, b, v, d) && z.records[v].uses == local.push(
                    successor_point(z.num_instrs, d),
                );
            if local.len() > 0 {
                assert(z.records[v].uses[0] == local[0]);
            }
        } else {
            assert(z.records[v].uses == local);
        }
    }
}

/// What block `block` records before the analysis has run: of every value
/// that the analysis follows and that the block reads or defines, whether
/// the block defines it and where the block reads it.
pub open spec fn block_scan(files: RegFileSet, block: BasicBlock) -> NextUseView {
    let n = block.instrs.len() as int;
    NextUseView {
        num_instrs: block.instrs.len(),
        records: Map::new(
            |v: SSAValue| seen_in(files, block, v, n, n),
            |v: SSAValue|
                UseDefView { defined: block.defs().contains(v), uses: local_uses(block, v, n) },
        ),
    }
}

/// What the blocks of `func` record before the analysis has run: the
/// in-states that the analysis starts from.
pub open spec fn scans(func: Function, files: RegFileSet) -> Seq<NextUseView> {
    Seq::new(func.blocks.len() as nat, |b: int| block_scan(files, func.blocks[b]))
}

/// As many empty maps as `func` has blocks: the out-states that the
/// analysis starts from.
pub open spec fn no_uses(func: Function) -> Seq<Map<SSAValue, usize>> {
    Seq::new(func.blocks.len() as nat, |b: int| Map::<SSAValue, usize>::empty())
}

/// `problem` is the next-use problem of `func` for the files `files`, some
/// number of sweeps of the solver takes it from what the blocks record of
/// themselves to the states `ins` and `outs`, and further sweeps change
/// nothing.
pub open spec fn swept_to(
    problem: NextUseProblem,
    func: Function,
    files: RegFileSet,
    ins: Seq<NextUseView>,
    outs: Seq<Map<SSAValue, usize>>,
) -> bool {
    &&& problem.func() == func
    &&& problem.files() == files
    &&& outs.len() == func.blocks.len()
    &&& reached_by_sweeps(&problem, scans(func, files), no_uses(func), ins, outs)
    &&& is_fixpoint(&problem, ins, outs)
}

/// From sweep to sweep of the analysis uses only come nearer, and they
/// stay no nearer than the result: what a block records after `k` sweeps
/// is recorded after `k + 1` sweeps and at the end of the analysis too,
/// with uses that are no farther.
pub proof fn lemma_uses_come_nearer_from_sweep_to_sweep(
    problem: NextUseProblem,
    func: Function,
    files: RegFileSet,
    ins: Seq<NextUseView>,
    outs: Seq<Map<SSAValue, usize>>,
    k: nat,
    b: int,
)
    requires
        swept_to(problem, func, files, ins, outs),
        0 <= b < func.blocks.len(),
    ensures
        no_farther(
            after_sweeps(&problem, scans(func, files), no_uses(func), k).0[b],
            after_sweeps(&problem, scans(func, files), no_uses(func), k + 1).0[b],
        ),
        no_farther_out(
            after_sweeps(&problem, scans(func, files), no_uses(func), k).1[b],
            after_sweeps(&problem, scans(func, files), no_uses(func), k + 1).1[b],
        ),
        no_farther(after_sweeps(&problem, scans(func, files), no_uses(func), k).0[b], ins[b]),
        no_farther_out(after_sweeps(&problem, scans(func, files), no_uses(func), k).1[b], outs[b]),
{
    let ins0 = scans(func, files);
    let outs0 = no_uses(func);
    let at = choose|at: nat| #[trigger] after_sweeps(&problem, ins0, outs0, at) == (ins, outs);
    lemma_sweeps_go_up(&problem, ins0, outs0, k, k + 1);
    lemma_sweeps_stay_below_fixpoint(&problem, ins0, outs0, at, k);
    let now = after_sweeps(&problem, ins0, outs0, k);
    let next = after_sweeps(&problem, ins0, outs0, k + 1);
    assert(problem.in_le(now.0[b], next.0[b]));
    assert(problem.in_le(now.0[b], ins[b]));
    assert(problem.out_le(now.1[b], next.1[b]));
    assert(problem.out_le(now.1[b], outs[b]));
}

/// In the result of the analysis a value is live at the end of a block
/// exactly if it is live at the start of a successor of the block, and
/// then the last point that the block records of it is the nearest first
/// use of a successor, counted from the start of the block.
pub proof fn lemma_live_out_is_live_into_successor(
    func: Function,
    files: RegFileSet,
    ins: Seq<NextUseView>,
    b: int,
    v: SSAValue,
)
    requires
        solves_next_use(func, files, ins),
        0 <= b < func.blocks.len(),
    ensures
        ins[b].live_out(v) <==> live_into_successor(func, ins, b, v),
        ins[b].live_out(v) ==> exists|d: usize| #[trigger]
            nearest_successor_use(func, ins, b, v, d) && ins[b].record(v).uses.last()
                == successor_point(ins[b].num_instrs, d),
{
    let x = ins[b];
    let block = func.blocks[b];
    let n = block.instrs.len() as int;
    let local = local_uses(block, v, n);
    assert(block_solved(func, files, ins, b));
    lemma_local_uses(block, v, n);
    if local.len() > 0 {
        assert(local[local.len() - 1] < n);
    }
    if live_into_successor(func, ins, b, v) {
        assert(x.records.contains_key(v));
        let d = choose|d: usize| #[trigger]
            nearest_successor_use(func, ins, b, v, d) && x.records[v].uses == local.push(
                successor_point(x.num_instrs, d),
            );
        assert(x.records[v].uses.last() == successor_point(x.num_instrs, d));
        assert(nearest_successor_use(func, ins, b, v, d) && x.record(v).uses.last()
            == successor_point(x.num_instrs, d));
    } else {
        if x.records.contains_key(v) {
            assert(x.records[v].uses == local);
        }
    }
}

/// As many empty maps as `n`.
fn empty_maps(n: usize) -> (maps: Vec<ValueMap<usize>>)
    ensures
        maps.len() == n,
        forall|i: int| 0 <= i < n ==> (#[trigger] maps[i]).wf() && maps[i]@ == Map::<
            SSAValue,
            usize,
        >::empty(),
{
    let mut maps: Vec<ValueMap<usize>> = Vec::new();
    let mut i: usize = 0;
    while i < n
        invariant
            i <= n,
            maps.len() == i,
            forall|j: int| 0 <= j < i ==> (#[trigger] maps[j]).wf() && maps[j]@ == Map::<
                SSAValue,
                usize,
            >::empty(),
        decreases n - i,
    {
        maps.push(ValueMap::new());
        i += 1;
    }
    maps
}

/// Liveness that knows the next use of each value.
///
/// Next-use points across blocks are those of the global next-use distance
/// algorithm of Braun and Hack, "Register Spilling and Live-Range
/// Splitting for SSA-Form Programs".
pub struct NextUseLiveness {
    blocks: Vec<NextUseBlockLiveness>,
}

impl NextUseLiveness {
    /// The liveness of each block.
    pub closed spec fn blocks(&self) -> Seq<NextUseBlockLiveness> {
        self.blocks@
    }

    /// What each block records, as mathematical values.
    pub open spec fn views(&self) -> Seq<NextUseView> {
        self.blocks().map_values(|bl: NextUseBlockLiveness| bl@)
    }

    /// This is the next-use liveness of `func` for the values of the
    /// register files `files`.
    pub open spec fn analyses(&self, func: Function, files: RegFileSet) -> bool {
        &&& solves_next_use(func, files, self.views())
        &&& exists|problem: NextUseProblem, outs: Seq<Map<SSAValue, usize>>| #[trigger]
            swept_to(problem, func, files, self.views(), outs)
        &&& forall|b: int, v: SSAValue, d: usize|
            0 <= b < func.blocks.len() && #[trigger] nearest_successor_use(
                func,
                self.views(),
                b,
                v,
                d,
            ) ==> self.views()[b].num_instrs + d <= usize::MAX
        &&& forall|sol: Seq<NextUseView>, b: int|
            #![trigger solves_next_use(func, files, sol), sol[b]]
            solves_next_use(func, files, sol) && 0 <= b < func.blocks.len() ==> within(
                self.views()[b],
                sol[b],
            )
    }

    /// Analyses `func` for the values that live in one of `files`.
    pub fn for_function(func: &Function, files: &RegFileSet) -> (l: NextUseLiveness)
        requires
            func.wf(),
            3 * total_instrs(*func) <= usize::MAX,
        ensures
            l.wf(),
            l.analyses(*func, *files),
    {
        let n = func.blocks.len();
        let mut blocks: Vec<NextUseBlockLiveness> = Vec::new();
        let mut bi: usize = 0;
        while bi < n
            invariant
                bi <= n,
                n == func.blocks.len(),
                blocks.len() == bi,
                forall|b: int|
                    0 <= b < bi ==> {
                        &&& (#[trigger] blocks[b]).map_wf()
                        &&& scanned(
                            blocks[b]@,
                            *files,
                            func.blocks[b],
                            func.blocks[b].instrs.len() as int,
                            func.blocks[b].instrs.len() as int,
                        )
                    },
            decreases n - bi,
        {
            let bl = scan_block(&func.blocks[bi], files);
            blocks.push(bl);
            bi += 1;
        }

        let mut live_out = empty_maps(n);
        let problem = NextUseProblem { func, files };
        proof {
            let ins = in_views::<NextUseProblem>(blocks@);
            let outs = out_views::<NextUseProblem>(live_out@);
            assert forall|b: int| 0 <= b < func.blocks.len() implies #[trigger] seen_only_in(
                *func,
                *files,
                b,
            ).finite() by {
                blocks[b].lemma_finite();
                assert(seen_only_in(*func, *files, b) =~= blocks[b]@.records.dom());
            }
            lemma_seen_in_blocks_finite(*func, *files, n as int);
            assert forall|b: int| 0 <= b < func.blocks.len() implies #[trigger] block_ok(
                *func,
                *files,
                ins,
                outs,
                b,
            ) by {
                assert(ins[b] == blocks[b]@);
                assert(outs[b] == live_out[b]@);
            }
            assert forall|b: int, v: SSAValue|
                0 <= b < func.blocks.len() && #[trigger] ins[b].records.contains_key(v)
                    && ins[b].records[v].has_successor_use(
                    ins[b].num_instrs,
                ) implies ins[b].records[v].uses.last() <= far_bound(*func, ins, v) by {
                assert(ins[b] == blocks[b]@);
                let local = local_uses(func.blocks[b], v, func.blocks[b].instrs.len() as int);
                lemma_local_uses(func.blocks[b], v, func.blocks[b].instrs.len() as int);
                assert(local[local.len() - 1] < func.blocks[b].instrs.len());
            }
            assert forall|b: int, v: SSAValue|
                0 <= b < func.blocks.len() && #[trigger] outs[b].contains_key(v) implies outs[b][v]
                <= far_bound(*func, ins, v) by {
                assert(outs[b] == live_out[b]@);
            }
            assert forall|sol: Seq<NextUseView>| #[trigger]
                solves_next_use(*func, *files, sol) implies within_solution(
                *func,
                ins,
                outs,
                sol,
            ) by {
                assert forall|b: int| 0 <= b < func.blocks.len() implies #[trigger]
                    block_within_solution(*func, ins, outs, sol, b) by {
                    assert(ins[b] == blocks[b]@);
                    assert(outs[b] == live_out[b]@);
                    assert(block_solved(*func, *files, sol, b));
                    lemma_scanned_within(*func, *files, ins[b], sol, b);
                }
            }
        }
        let ghost ins0 = in_views::<NextUseProblem>(blocks@);
        let ghost outs0 = out_views::<NextUseProblem>(live_out@);
        proof {
            assert(outs0 =~= no_uses(*func));
            assert forall|b: int| 0 <= b < func.blocks.len() implies ins0[b] == block_scan(
                *files,
                func.blocks[b],
            ) by {
                assert(ins0[b] == blocks[b]@);
                assert(ins0[b].records =~= block_scan(*files, func.blocks[b]).records);
            }
            assert(ins0 =~= scans(*func, *files));
        }
        solve(&problem, func, &mut blocks, &mut live_out);
        let l = NextUseLiveness { blocks };
        proof {
            let ins = in_views::<NextUseProblem>(l.blocks@);
            let outs = out_views::<NextUseProblem>(live_out@);
            assert(l.views() =~= ins);
            assert(swept_to(problem, *func, *files, l.views(), outs));
            assert forall|b: int| 0 <= b < func.blocks.len() implies #[trigger] block_solved(
                *func,
                *files,
                l.views(),
                b,
            ) by {
                lemma_fixpoint_solved(&problem, ins, outs, b);
            }
            assert forall|b: int| 0 <= b < l.blocks.len() implies (#[trigger] l.blocks[b]).wf() by {
                assert(block_solved(*func, *files, l.views(), b));
                assert(l.views()[b] == l.blocks[b]@);
            }
            assert forall|b: int, v: SSAValue, d: usize|
                0 <= b < func.blocks.len() && #[trigger] nearest_successor_use(
                    *func,
                    l.views(),
                    b,
                    v,
                    d,
                ) implies l.views()[b].num_instrs + d <= usize::MAX by {
                lemma_fixpoint_solved(&problem, ins, outs, b);
            }
            assert forall|sol: Seq<NextUseView>, b: int|
                #![trigger solves_next_use(*func, *files, sol), sol[b]]
                solves_next_use(*func, *files, sol) && 0 <= b < func.blocks.len() implies within(
                l.views()[b],
                sol[b],
            ) by {
                assert(within_solution(*func, ins, outs, sol));
                assert(block_within_solution(*func, ins, outs, sol, b));
            }
        }
        l
    }
}

impl Liveness for NextUseLiveness {
    type PerBlock = NextUseBlockLiveness;

    closed spec fn wf(&self) -> bool {
        forall|b: int| 0 <= b < self.blocks.len() ==> (#[trigger] self.blocks[b]).wf()
    }

    open spec fn num_blocks(&self) -> nat {
        self.blocks().len()
    }

    open spec fn block(&self, idx: int) -> NextUseBlockLiveness {
        self.blocks()[idx]
    }

    fn block_live(&self, idx: usize) -> (bl: &NextUseBlockLiveness) {
        &self.blocks[idx]
    }
}

} // verus!
