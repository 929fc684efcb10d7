//! The slice of the SSA intermediate representation that liveness reads:
//! register files, SSA values, instructions with their SSA definitions and
//! uses, basic blocks and the control-flow graph of a function.

use vstd::prelude::*;

verus! {

/// The register classes of the target.  Every SSA value lives in exactly one.
#[derive(Clone, Copy, Debug, PartialEq, Eq, Hash, Structural)]
pub enum RegFile {
    /// General-purpose registers.
    GPR,
    /// Uniform general-purpose registers.
    UGPR,
    /// Predicate registers.
    Pred,
    /// Uniform predicate registers.
    UPred,
    /// The carry flag.
    Carry,
    /// Barrier registers.
    Bar,
    /// The memory pseudo-file that spilled values live in.
    Mem,
}

/// How many register files there are.
pub const NUM_REG_FILES: u8 = 7;

impl RegFile {
    /// The position of this file among the register files.
    pub open spec fn index(self) -> nat {
        match self {
            RegFile::GPR => 0,
            RegFile::UGPR => 1,
            RegFile::Pred => 2,
            RegFile::UPred => 3,
            RegFile::Carry => 4,
            RegFile::Bar => 5,
            RegFile::Mem => 6,
        }
    }

    /// The file at position `i`.
    pub open spec fn at_index(i: nat) -> RegFile {
        if i == 0 {
            RegFile::GPR
        } else if i == 1 {
            RegFile::UGPR
        } else if i == 2 {
            RegFile::Pred
        } else if i == 3 {
            RegFile::UPred
        } else if i == 4 {
            RegFile::Carry
        } else if i == 5 {
            RegFile::Bar
        } else {
            RegFile::Mem
        }
    }

    /// The position of this file among the register files.
    pub fn to_index(self) -> (i: u8)
        ensures
            i == self.index(),
            i < NUM_REG_FILES,
    {
        match self {
            RegFile::GPR => 0,
            RegFile::UGPR => 1,
            RegFile::Pred => 2,
            RegFile::UPred => 3,
            RegFile::Carry => 4,
            RegFile::Bar => 5,
            RegFile::Mem => 6,
        }
    }

    /// The file at position `i`.
    pub fn from_index(i: u8) -> (file: RegFile)
        requires
            i < NUM_REG_FILES,
        ensures
            file == RegFile::at_index(i as nat),
            file.index() == i,
    {
        if i == 0 {
            RegFile::GPR
        } else if i == 1 {
            RegFile::UGPR
        } else if i == 2 {
            RegFile::Pred
        } else if i == 3 {
            RegFile::UPred
        } else if i == 4 {
            RegFile::Carry
        } else if i == 5 {
            RegFile::Bar
        } else {
            RegFile::Mem
        }
    }
}

/// One slot of type `T` for each register file.
#[derive(Clone, Copy, Debug)]
pub struct PerRegFile<T> {
    pub gpr: T,
    pub ugpr: T,
    pub pred: T,
    pub upred: T,
    pub carry: T,
    pub bar: T,
    pub mem: T,
}

impl<T> PerRegFile<T> {
    /// The slot of `file`.
    pub open spec fn at(self, file: RegFile) -> T {
        match file {
            RegFile::GPR => self.gpr,
            RegFile::UGPR => self.ugpr,
            RegFile::Pred => self.pred,
            RegFile::UPred => self.upred,
            RegFile::Carry => self.carry,
            RegFile::Bar => self.bar,
            RegFile::Mem => self.mem,
        }
    }

    /// Fills every slot with what `f` returns for its file.
    pub fn new_with<F: Fn(RegFile) -> T>(f: F) -> (r: PerRegFile<T>)
        requires
            forall|file: RegFile| call_requires(f, (file,)),
        ensures
            forall|file: RegFile| call_ensures(f, (file,), #[trigger] r.at(file)),
    {
        PerRegFile {
            gpr: f(RegFile::GPR),
            ugpr: f(RegFile::UGPR),
            pred: f(RegFile::Pred),
            upred: f(RegFile::UPred),
            carry: f(RegFile::Carry),
            bar: f(RegFile::Bar),
            mem: f(RegFile::Mem),
        }
    }

    /// The slot of `file`.
    pub fn get(&self, file: RegFile) -> (r: &T)
        ensures
            *r == self.at(file),
    {
        match file {
            RegFile::GPR => &self.gpr,
            RegFile::UGPR => &self.ugpr,
            RegFile::Pred => &self.pred,
            RegFile::UPred => &self.upred,
            RegFile::Carry => &self.carry,
            RegFile::Bar => &self.bar,
            RegFile::Mem => &self.mem,
        }
    }

    /// Puts `value` into the slot of `file`.
    pub fn set(&mut self, file: RegFile, value: T)
        ensures
            final(self).at(file) == value,
            forall|other: RegFile| other != file ==> final(self).at(other) == old(self).at(other),
    {
        match file {
            RegFile::GPR => self.gpr = value,
            RegFile::UGPR => self.ugpr = value,
            RegFile::Pred => self.pred = value,
            RegFile::UPred => self.upred = value,
            RegFile::Carry => self.carry = value,
            RegFile::Bar => self.bar = value,
            RegFile::Mem => self.mem = value,
        }
    }
}

impl PerRegFile<u32> {
    /// Zero in every slot.
    pub fn zero() -> (r: PerRegFile<u32>)
        ensures
            forall|file: RegFile| r.at(file) == 0,
    {
        PerRegFile { gpr: 0, ugpr: 0, pred: 0, upred: 0, carry: 0, bar: 0, mem: 0 }
    }

    /// The larger of the two slots, file by file.
    pub fn max(&self, other: &PerRegFile<u32>) -> (r: PerRegFile<u32>)
        ensures
            forall|file: RegFile|
                r.at(file) == if self.at(file) >= other.at(file) {
                    self.at(file)
                } else {
                    other.at(file)
                },
    {
        PerRegFile {
            gpr: max_u32(self.gpr, other.gpr),
            ugpr: max_u32(self.ugpr, other.ugpr),
            pred: max_u32(self.pred, other.pred),
            upred: max_u32(self.upred, other.upred),
            carry: max_u32(self.carry, other.carry),
            bar: max_u32(self.bar, other.bar),
            mem: max_u32(self.mem, other.mem),
        }
    }
}

/// The larger of two numbers.
pub(crate) fn max_u32(a: u32, b: u32) -> (r: u32)
    ensures
        r == if a >= b { a } else { b },
{
    if a >= b {
        a
    } else {
        b
    }
}

/// A set of register files.
#[derive(Clone, Copy, Debug)]
pub struct RegFileSet {
    pub files: PerRegFile<bool>,
}

impl RegFileSet {
    /// Whether `file` is in the set.
    pub open spec fn has(self, file: RegFile) -> bool {
        self.files.at(file)
    }

    /// The empty set.
    pub fn new() -> (r: RegFileSet)
        ensures
            forall|file: RegFile| !r.has(file),
    {
        RegFileSet {
            files: PerRegFile {
                gpr: false,
                ugpr: false,
                pred: false,
                upred: false,
                carry: false,
                bar: false,
                mem: false,
            },
        }
    }

    /// Puts `file` into the set, and says whether it was new.
    pub fn insert(&mut self, file: RegFile) -> (fresh: bool)
        ensures
            fresh == !old(self).has(file),
            final(self).has(file),
            forall|other: RegFile| other != file ==> final(self).has(other) == old(self).has(other),
    {
        let fresh = !*self.files.get(file);
        self.files.set(file, true);
        fresh
    }

    /// Whether `file` is in the set.
    pub fn contains(&self, file: RegFile) -> (r: bool)
        ensures
            r == self.has(file),
    {
        *self.files.get(file)
    }
}

/// An index is valid for an SSA value when it is below this bound.
///
/// The bound keeps the values of one register file no more than a `u32`
/// can count, which is what a live set counts them in.
pub const MAX_SSA_IDX: u32 = 0xffff_ffff;

/// An SSA value: a number that identifies it, and the register file it is
/// assigned to.
#[derive(Clone, Copy, Debug, PartialEq, Eq, Hash, Structural)]
pub struct SSAValue {
    file: RegFile,
    idx: u32,
}

impl SSAValue {
    #[verifier::type_invariant]
    spec fn inv(self) -> bool {
        self.idx < MAX_SSA_IDX
    }

    /// The register file that the value is assigned to.
    pub closed spec fn spec_file(&self) -> RegFile {
        self.file
    }

    /// The number that identifies the value within its file.
    pub closed spec fn spec_idx(&self) -> u32 {
        self.idx
    }

    /// The integer that stands for this value in hashed collections: the
    /// file's position in the upper half, the index in the lower.
    pub closed spec fn spec_key(&self) -> u64 {
        (self.file.index() * 0x1_0000_0000 + self.idx) as u64
    }

    /// Whether `k` is the key of an SSA value with a valid index.
    pub open spec fn valid_key(k: u64) -> bool {
        k / 0x1_0000_0000 < NUM_REG_FILES && k % 0x1_0000_0000 < MAX_SSA_IDX
    }

    /// The value that `k` is the key of.
    pub closed spec fn of_key(k: u64) -> SSAValue {
        SSAValue {
            file: RegFile::at_index((k / 0x1_0000_0000) as nat),
            idx: (k % 0x1_0000_0000) as u32,
        }
    }

    /// The value of `file` with the number `idx`.
    pub fn new(file: RegFile, idx: u32) -> (v: SSAValue)
        requires
            idx < MAX_SSA_IDX,
        ensures
            v.file() == file,
            v.idx() == idx,
    {
        SSAValue { file, idx }
    }

    /// The register file that the value is assigned to.
    #[verifier::when_used_as_spec(spec_file)]
    pub fn file(&self) -> (file: RegFile)
        ensures
            file == self.file(),
    {
        self.file
    }

    /// The number that identifies the value within its file.
    #[verifier::when_used_as_spec(spec_idx)]
    pub fn idx(&self) -> (idx: u32)
        ensures
            idx == self.idx(),
            idx < MAX_SSA_IDX,
    {
        proof {
            use_type_invariant(self);
        }
        self.idx
    }

    /// The integer that stands for this value in hashed collections.
    #[verifier::when_used_as_spec(spec_key)]
    pub fn key(&self) -> (k: u64)
        ensures
            k == self.key(),
            SSAValue::valid_key(k),
    {
        proof {
            use_type_invariant(self);
        }
        let hi: u64 = self.file.to_index() as u64;
        hi * 0x1_0000_0000 + self.idx as u64
    }

    /// The value that `k` is the key of.
    pub fn from_key(k: u64) -> (v: SSAValue)
        requires
            SSAValue::valid_key(k),
        ensures
            v == SSAValue::of_key(k),
            v.key() == k,
    {
        let hi: u8 = (k / 0x1_0000_0000) as u8;
        let lo: u32 = (k % 0x1_0000_0000) as u32;
        SSAValue { file: RegFile::from_index(hi), idx: lo }
    }

    /// Two values with one key are one value.
    pub broadcast proof fn lemma_key_injective(a: SSAValue, b: SSAValue)
        requires
            #[trigger] a.key() == #[trigger] b.key(),
        ensures
            a == b,
    {
        assert(a.file.index() == b.file.index());
    }

    /// The value of a key has that key, provided the key is valid.
    pub broadcast proof fn lemma_of_key(k: u64)
        requires
            SSAValue::valid_key(k),
        ensures
            (#[trigger] SSAValue::of_key(k)).key() == k,
            SSAValue::of_key(k).idx() < MAX_SSA_IDX,
    {
    }

    /// A key determines the file and the index.
    pub broadcast proof fn lemma_key_parts(v: SSAValue)
        ensures
            (#[trigger] v.key()) / 0x1_0000_0000 == v.file().index(),
            v.key() % 0x1_0000_0000 == v.idx(),
            SSAValue::of_key(v.key()) == v,
    {
        let w = SSAValue::of_key(v.key());
        assert(w.file.index() == v.file.index());
    }
}

/// One to several SSA values that an operand names together.
#[derive(Clone, Debug)]
pub struct SSARef {
    pub comps: Vec<SSAValue>,
}

impl View for SSARef {
    type V = Seq<SSAValue>;

    open spec fn view(&self) -> Seq<SSAValue> {
        self.comps@
    }
}

impl SSARef {
    /// The vector of `comps`.
    pub fn new(comps: Vec<SSAValue>) -> (r: SSARef)
        ensures
            r@ == comps@,
    {
        SSARef { comps }
    }

    /// The number of components.
    pub fn comps(&self) -> (n: usize)
        ensures
            n == self@.len(),
    {
        self.comps.len()
    }

    /// Component `i`.
    pub fn get(&self, i: usize) -> (v: SSAValue)
        requires
            i < self@.len(),
        ensures
            v == self@[i as int],
    {
        self.comps[i]
    }
}

/// A destination operand: an SSA vector, or something that is not SSA.
#[derive(Clone, Debug)]
pub enum Dst {
    NonSSA,
    SSA(SSARef),
}

/// A source operand: an SSA vector, or something that is not SSA.
#[derive(Clone, Debug)]
pub enum Src {
    NonSSA,
    SSA(SSARef),
}

/// Which destinations of an instruction to look at.
#[derive(Clone, Copy, Debug, PartialEq, Eq, Structural)]
pub enum DstKind {
    /// Every SSA destination.
    Any,
    /// The SSA destinations of two or more components.
    Vector,
    /// The SSA destinations of exactly one component.
    Scalar,
}

impl Dst {
    /// The SSA values that this destination defines, if it is of kind `kind`.
    pub open spec fn defs(self, kind: DstKind) -> Seq<SSAValue> {
        match self {
            Dst::NonSSA => Seq::empty(),
            Dst::SSA(r) => match kind {
                DstKind::Any => r@,
                DstKind::Vector => if r@.len() > 1 {
                    r@
                } else {
                    Seq::empty()
                },
                DstKind::Scalar => if r@.len() == 1 {
                    r@
                } else {
                    Seq::empty()
                },
            },
        }
    }
}

impl Src {
    /// The SSA values that this source reads.
    pub open spec fn uses(self) -> Seq<SSAValue> {
        match self {
            Src::NonSSA => Seq::empty(),
            Src::SSA(r) => r@,
        }
    }
}

/// What an instruction does, as far as liveness cares.
#[derive(Clone, Copy, Debug, PartialEq, Eq, Structural)]
pub enum Op {
    /// Hands its sources out of the shader in registers.  It ends the life
    /// of every general-purpose register.
    RegOut,
    /// Any other operation.
    Other,
}

/// An instruction: an operation with its destinations and sources.
#[derive(Clone, Debug)]
pub struct Instr {
    pub op: Op,
    pub dsts: Vec<Dst>,
    pub srcs: Vec<Src>,
}

impl Instr {
    /// The SSA values that the destinations of kind `kind` define, in operand
    /// order.
    pub open spec fn defs_of(self, kind: DstKind) -> Seq<SSAValue> {
        self.dsts@.map_values(|d: Dst| d.defs(kind)).flatten()
    }

    /// Every SSA value that this instruction defines.
    pub open spec fn defs(self) -> Seq<SSAValue> {
        self.defs_of(DstKind::Any)
    }

    /// The components of the vector destinations.
    pub open spec fn vector_defs(self) -> Seq<SSAValue> {
        self.defs_of(DstKind::Vector)
    }

    /// The scalar destinations.
    pub open spec fn scalar_defs(self) -> Seq<SSAValue> {
        self.defs_of(DstKind::Scalar)
    }

    /// Every SSA value that this instruction reads, once for each time it
    /// reads it, in operand order.
    pub open spec fn uses(self) -> Seq<SSAValue> {
        self.srcs@.map_values(|s: Src| s.uses()).flatten()
    }

    /// The instruction that does `op`, writes `dsts` and reads `srcs`.
    pub fn new(op: Op, dsts: Vec<Dst>, srcs: Vec<Src>) -> (i: Instr)
        ensures
            i.op == op,
            i.dsts@ == dsts@,
            i.srcs@ == srcs@,
    {
        Instr { op, dsts, srcs }
    }

    /// Collects the SSA values that the destinations of kind `kind` define.
    pub fn ssa_defs_of(&self, kind: DstKind) -> (out: Vec<SSAValue>)
        ensures
            out@ == self.defs_of(kind),
    {
        let mut out: Vec<SSAValue> = Vec::new();
        let ghost parts = self.dsts@.map_values(|d: Dst| d.defs(kind));
        assert(parts.take(0) =~= Seq::<Seq<SSAValue>>::empty());
        let mut i: usize = 0;
        while i < self.dsts.len()
            invariant
                i <= self.dsts.len(),
                parts == self.dsts@.map_values(|d: Dst| d.defs(kind)),
                out@ == parts.take(i as int).flatten(),
            decreases self.dsts.len() - i,
        {
            proof {
                parts.take(i as int).lemma_flatten_push(parts[i as int]);
                assert(parts.take(i as int).push(parts[i as int]) =~= parts.take(i + 1));
            }
            match &self.dsts[i] {
                Dst::NonSSA => {
                    assert(out@ + Seq::<SSAValue>::empty() =~= out@);
                },
                Dst::SSA(r) => {
                    let n = r.comps();
                    let take = match kind {
                        DstKind::Any => true,
                        DstKind::Vector => n > 1,
                        DstKind::Scalar => n == 1,
                    };
                    if take {
                        append_comps(&mut out, r);
                    } else {
                        assert(out@ + Seq::<SSAValue>::empty() =~= out@);
                    }
                },
            }
            i += 1;
        }
        assert(parts.take(i as int) =~= parts);
        out
    }

    /// Collects every SSA value that this instruction defines.
    pub fn ssa_defs(&self) -> (out: Vec<SSAValue>)
        ensures
            out@ == self.defs(),
    {
        self.ssa_defs_of(DstKind::Any)
    }

    /// Collects every SSA value that this instruction reads.
    pub fn ssa_uses(&self) -> (out: Vec<SSAValue>)
        ensures
            out@ == self.uses(),
    {
        let mut out: Vec<SSAValue> = Vec::new();
        let ghost parts = self.srcs@.map_values(|s: Src| s.uses());
        assert(parts.take(0) =~= Seq::<Seq<SSAValue>>::empty());
        let mut i: usize = 0;
        while i < self.srcs.len()
            invariant
                i <= self.srcs.len(),
                parts == self.srcs@.map_values(|s: Src| s.uses()),
                out@ == parts.take(i as int).flatten(),
            decreases self.srcs.len() - i,
        {
            proof {
                parts.take(i as int).lemma_flatten_push(parts[i as int]);
                assert(parts.take(i as int).push(parts[i as int]) =~= parts.take(i + 1));
            }
            match &self.srcs[i] {
                Src::NonSSA => {
                    assert(out@ + Seq::<SSAValue>::empty() =~= out@);
                },
                Src::SSA(r) => {
                    append_comps(&mut out, r);
                },
            }
            i += 1;
        }
        assert(parts.take(i as int) =~= parts);
        out
    }
}

/// Appends the components of `r` to `out`.
fn append_comps(out: &mut Vec<SSAValue>, r: &SSARef)
    ensures
        final(out)@ == old(out)@ + r@,
{
    let mut j: usize = 0;
    while j < r.comps()
        invariant
            j <= r@.len(),
            out@ == old(out)@ + r@.take(j as int),
        decreases r@.len() - j,
    {
        out.push(r.get(j));
        assert(r@.take(j + 1) =~= r@.take(j as int).push(r@[j as int]));
        j += 1;
    }
    assert(r@.take(j as int) =~= r@);
}

/// A basic block: its instructions in order, and its place in the
/// control-flow graph.
#[derive(Clone, Debug)]
pub struct BasicBlock {
    pub instrs: Vec<Instr>,
    /// The blocks that may run just before this one, by index.
    pub preds: Vec<usize>,
    /// The blocks that may run just after this one, by index.
    pub succs: Vec<usize>,
}

impl BasicBlock {
    /// The SSA values that one of the first `n` instructions reads.
    pub open spec fn uses_before(self, n: int) -> Set<SSAValue> {
        Set::new(|v: SSAValue| exists|ip: int| 0 <= ip < n && self.uses_at(v, ip))
    }

    /// The SSA values that one of the first `n` instructions defines.
    pub open spec fn defs_before(self, n: int) -> Set<SSAValue> {
        Set::new(|v: SSAValue| exists|ip: int| 0 <= ip < n && self.defs_at(v, ip))
    }

    /// Every SSA value that an instruction of the block reads.
    pub open spec fn uses(self) -> Set<SSAValue> {
        self.uses_before(self.instrs.len() as int)
    }

    /// Every SSA value that an instruction of the block defines.
    pub open spec fn defs(self) -> Set<SSAValue> {
        self.defs_before(self.instrs.len() as int)
    }

    /// Instruction `ip` reads `v`.
    pub open spec fn uses_at(self, v: SSAValue, ip: int) -> bool {
        0 <= ip < self.instrs.len() && self.instrs[ip].uses().contains(v)
    }

    /// Instruction `ip` defines `v`.
    pub open spec fn defs_at(self, v: SSAValue, ip: int) -> bool {
        0 <= ip < self.instrs.len() && self.instrs[ip].defs().contains(v)
    }

    /// Instruction `ip` is the last of the first `n` instructions that reads
    /// `v`.
    pub open spec fn last_use_before(self, v: SSAValue, ip: int, n: int) -> bool {
        &&& ip < n
        &&& self.uses_at(v, ip)
        &&& forall|later: int| ip < later < n ==> !self.uses_at(v, later)
    }

    /// The block of `instrs` that runs after `preds` and before `succs`.
    pub fn new(instrs: Vec<Instr>, preds: Vec<usize>, succs: Vec<usize>) -> (b: BasicBlock)
        ensures
            b.instrs@ == instrs@,
            b.preds@ == preds@,
            b.succs@ == succs@,
    {
        BasicBlock { instrs, preds, succs }
    }
}

/// Whether position `ip1` of block `b1` comes before position `ip2` of block
/// `b2` when the blocks are laid out in order.
pub open spec fn position_before(b1: int, ip1: int, b2: int, ip2: int) -> bool {
    b1 < b2 || (b1 == b2 && ip1 < ip2)
}

/// A function: its basic blocks, the entry block first.
#[derive(Clone, Debug)]
pub struct Function {
    pub blocks: Vec<BasicBlock>,
}

impl Function {
    /// Instruction `ip` of block `b` defines `v`.
    pub open spec fn defines_at(self, v: SSAValue, b: int, ip: int) -> bool {
        0 <= b < self.blocks.len() && self.blocks[b].defs_at(v, ip)
    }

    /// Every edge of the control-flow graph leads to a block of the function.
    pub open spec fn wf(self) -> bool {
        forall|b: int, k: int|
            #![trigger self.blocks[b].succs[k]]
            #![trigger self.blocks[b].preds[k]]
            0 <= b < self.blocks.len() ==> {
                &&& 0 <= k < self.blocks[b].succs.len() ==> self.blocks[b].succs[k]
                    < self.blocks.len()
                &&& 0 <= k < self.blocks[b].preds.len() ==> self.blocks[b].preds[k]
                    < self.blocks.len()
            }
    }

    /// The function of `blocks`.
    pub fn new(blocks: Vec<BasicBlock>) -> (f: Function)
        ensures
            f.blocks@ == blocks@,
    {
        Function { blocks }
    }
}

} // verus!
