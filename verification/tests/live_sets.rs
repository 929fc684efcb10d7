use nak_liveness::block_liveness::BlockLiveness;
use nak_liveness::ir::BasicBlock;
use nak_liveness::ir::Dst;
use nak_liveness::ir::Function;
use nak_liveness::ir::Instr;
use nak_liveness::ir::Op;
use nak_liveness::ir::RegFile;
use nak_liveness::ir::SSARef;
use nak_liveness::ir::SSAValue;
use nak_liveness::ir::Src;
use nak_liveness::live_set::LiveSet;
use nak_liveness::liveness::Liveness;
use nak_liveness::simple::SimpleLiveness;

fn gpr(idx: u32) -> SSAValue {
    SSAValue::new(RegFile::GPR, idx)
}

fn pred(idx: u32) -> SSAValue {
    SSAValue::new(RegFile::Pred, idx)
}

fn def(values: Vec<SSAValue>) -> Dst {
    Dst::SSA(SSARef::new(values))
}

fn read(values: Vec<SSAValue>) -> Src {
    Src::SSA(SSARef::new(values))
}

fn all_files() -> [RegFile; 7] {
    [
        RegFile::GPR,
        RegFile::UGPR,
        RegFile::Pred,
        RegFile::UPred,
        RegFile::Carry,
        RegFile::Bar,
        RegFile::Mem,
    ]
}

fn check_counts(set: &LiveSet) {
    let values = set.iter();
    for file in all_files() {
        let expected = values.iter().filter(|v| v.file() == file).count();
        assert_eq!(set.count(file) as usize, expected);
    }
}

#[test]
fn live_set_starts_empty() {
    let set = LiveSet::new();
    assert_eq!(set.iter(), vec![]);
    for file in all_files() {
        assert_eq!(set.count(file), 0);
    }
}

#[test]
fn live_set_insert_counts_new_values_only() {
    let mut set = LiveSet::new();
    assert!(set.insert(gpr(1)));
    assert_eq!(set.count(RegFile::GPR), 1);
    assert!(!set.insert(gpr(1)));
    assert_eq!(set.count(RegFile::GPR), 1);
    assert!(set.insert(pred(1)));
    assert_eq!(set.count(RegFile::GPR), 1);
    assert_eq!(set.count(RegFile::Pred), 1);
    assert!(set.contains(&gpr(1)));
    assert!(!set.contains(&gpr(2)));
}

#[test]
fn live_set_remove_counts_present_values_only() {
    let mut set = LiveSet::new();
    set.insert(gpr(1));
    set.insert(gpr(2));
    assert!(!set.remove(&gpr(3)));
    assert_eq!(set.count(RegFile::GPR), 2);
    assert!(set.remove(&gpr(1)));
    assert_eq!(set.count(RegFile::GPR), 1);
    assert!(!set.remove(&gpr(1)));
    assert_eq!(set.count(RegFile::GPR), 1);
    assert!(!set.contains(&gpr(1)));
    assert!(set.contains(&gpr(2)));
}

#[test]
fn live_set_count_is_the_number_of_members_after_every_step() {
    let mut set = LiveSet::new();
    let steps: Vec<(bool, SSAValue)> = vec![
        (true, gpr(1)),
        (true, gpr(2)),
        (true, pred(1)),
        (false, gpr(9)),
        (true, gpr(1)),
        (false, gpr(1)),
        (true, SSAValue::new(RegFile::Mem, 4)),
        (false, pred(1)),
        (false, pred(1)),
        (true, gpr(3)),
        (false, gpr(2)),
    ];
    for (insert, value) in steps {
        if insert {
            set.insert(value);
        } else {
            set.remove(&value);
        }
        check_counts(&set);
    }
    assert_eq!(set.count(RegFile::GPR), 1);
    assert_eq!(set.count(RegFile::Pred), 0);
    assert_eq!(set.count(RegFile::Mem), 1);
}

#[test]
fn live_set_clone_is_a_set_of_its_own() {
    let mut set = LiveSet::new();
    set.insert(gpr(1));
    set.insert(pred(1));
    let mut copy = set.clone();
    assert_eq!(copy.count(RegFile::GPR), 1);
    assert_eq!(copy.count(RegFile::Pred), 1);
    assert!(copy.contains(&gpr(1)));
    assert!(copy.contains(&pred(1)));
    check_counts(&copy);
    // What happens to the copy does not happen to the set, nor the other
    // way round.
    copy.insert(gpr(2));
    copy.remove(&pred(1));
    set.remove(&gpr(1));
    assert_eq!(copy.count(RegFile::GPR), 2);
    assert_eq!(copy.count(RegFile::Pred), 0);
    assert_eq!(set.count(RegFile::GPR), 0);
    assert_eq!(set.count(RegFile::Pred), 1);
    assert!(copy.contains(&gpr(1)));
    assert!(!set.contains(&gpr(2)));
    check_counts(&copy);
    check_counts(&set);
}

#[test]
fn live_set_from_iter_and_extend_collect_values() {
    let mut set = LiveSet::from_iter(&vec![gpr(1), gpr(2), gpr(1)]);
    assert_eq!(set.count(RegFile::GPR), 2);
    set.extend(&vec![gpr(2), gpr(3), pred(1)]);
    assert_eq!(set.count(RegFile::GPR), 3);
    assert_eq!(set.count(RegFile::Pred), 1);
    check_counts(&set);
}

// One block: v1 is defined, then an instruction reads v1 for the last time
// and defines the vector (v2, v3) and the scalar v4, then v2, v3 and v4 are
// read.
fn vector_and_scalar_block() -> Function {
    Function::new(vec![BasicBlock::new(
        vec![
            Instr::new(Op::Other, vec![def(vec![gpr(1)])], vec![]),
            Instr::new(
                Op::Other,
                vec![def(vec![gpr(2), gpr(3)]), def(vec![gpr(4)])],
                vec![read(vec![gpr(1)])],
            ),
            Instr::new(Op::Other, vec![], vec![read(vec![gpr(2), gpr(3)]), read(vec![gpr(4)])]),
        ],
        vec![],
        vec![],
    )])
}

#[test]
fn top_down_peak_counts_vector_with_dying_source() {
    let f = vector_and_scalar_block();
    let l = SimpleLiveness::for_function(&f);
    let bl = l.block_live(0);
    let mut set = LiveSet::new();
    set.insert(gpr(1));
    let old_live = set.count(RegFile::GPR);
    let peak = set.insert_instr_top_down(1, &f.blocks[0].instrs[1], bl);
    // v1, v2 and v3 are live together, although v1 dies here.
    assert_eq!(*peak.get(RegFile::GPR), old_live + 2);
    assert_eq!(*peak.get(RegFile::Pred), 0);
    // Afterwards v2, v3 and v4 are live, v1 is not.
    assert_eq!(set.count(RegFile::GPR), 3);
    assert!(!set.contains(&gpr(1)));
    assert!(set.contains(&gpr(2)));
    assert!(set.contains(&gpr(3)));
    assert!(set.contains(&gpr(4)));
}

#[test]
fn top_down_peak_is_above_final_count_when_results_die() {
    // The vector (v2, v3) is never read: it is dead at once, but counts.
    let f = Function::new(vec![BasicBlock::new(
        vec![
            Instr::new(Op::Other, vec![def(vec![gpr(1)])], vec![]),
            Instr::new(Op::Other, vec![def(vec![gpr(2), gpr(3)])], vec![read(vec![gpr(1)])]),
        ],
        vec![],
        vec![],
    )]);
    let l = SimpleLiveness::for_function(&f);
    let bl = l.block_live(0);
    let mut set = LiveSet::new();
    set.insert(gpr(1));
    let peak = set.insert_instr_top_down(1, &f.blocks[0].instrs[1], bl);
    assert_eq!(*peak.get(RegFile::GPR), 3);
    assert_eq!(set.count(RegFile::GPR), 0);
    assert_eq!(set.iter(), vec![]);
}

#[test]
fn top_down_scalar_takes_the_place_of_a_dying_source() {
    let f = Function::new(vec![BasicBlock::new(
        vec![
            Instr::new(Op::Other, vec![def(vec![gpr(1)])], vec![]),
            Instr::new(Op::Other, vec![def(vec![gpr(2)])], vec![read(vec![gpr(1)])]),
            Instr::new(Op::Other, vec![], vec![read(vec![gpr(2)])]),
        ],
        vec![],
        vec![],
    )]);
    let l = SimpleLiveness::for_function(&f);
    let bl = l.block_live(0);
    let mut set = LiveSet::new();
    set.insert(gpr(1));
    let peak = set.insert_instr_top_down(1, &f.blocks[0].instrs[1], bl);
    assert_eq!(*peak.get(RegFile::GPR), 1);
    assert!(set.contains(&gpr(2)));
    assert!(!set.contains(&gpr(1)));
}

#[test]
fn instr_pressure_counts_vector_before_kills() {
    let f = vector_and_scalar_block();
    let l = SimpleLiveness::for_function(&f);
    let bl = l.block_live(0);
    // Two for the vector; then one source dies and one scalar comes.
    let p = bl.get_instr_pressure(1, &f.blocks[0].instrs[1]);
    assert_eq!(*p.get(RegFile::GPR), 2);
    assert_eq!(*p.get(RegFile::Pred), 0);
    // The first instruction only defines a scalar.
    let p = bl.get_instr_pressure(0, &f.blocks[0].instrs[0]);
    assert_eq!(*p.get(RegFile::GPR), 1);
    // The last one only kills: the pressure is not negative.
    let p = bl.get_instr_pressure(2, &f.blocks[0].instrs[2]);
    assert_eq!(*p.get(RegFile::GPR), 0);
}

#[test]
fn instr_pressure_kills_a_repeated_source_once() {
    // v1 and v2 die at an instruction that reads v1 twice and defines the
    // vector (v3, v4, v5) and the scalar v6.
    let f = Function::new(vec![BasicBlock::new(
        vec![
            Instr::new(Op::Other, vec![def(vec![gpr(1)]), def(vec![gpr(2)])], vec![]),
            Instr::new(
                Op::Other,
                vec![def(vec![gpr(3), gpr(4), gpr(5)]), def(vec![gpr(6)])],
                vec![read(vec![gpr(1)]), read(vec![gpr(1), gpr(2)])],
            ),
        ],
        vec![],
        vec![],
    )]);
    let l = SimpleLiveness::for_function(&f);
    let bl = l.block_live(0);
    let p = bl.get_instr_pressure(1, &f.blocks[0].instrs[1]);
    // 3 for the vector, minus 2 dead sources, plus 1 scalar is 2: the peak
    // is the 3 of the vector.
    assert_eq!(*p.get(RegFile::GPR), 3);
}

#[test]
fn instr_pressure_is_per_file() {
    let f = Function::new(vec![BasicBlock::new(
        vec![
            Instr::new(Op::Other, vec![def(vec![gpr(1)]), def(vec![pred(1)])], vec![]),
            Instr::new(
                Op::Other,
                vec![def(vec![pred(2)]), def(vec![gpr(2), gpr(3)])],
                vec![read(vec![pred(1)])],
            ),
            Instr::new(Op::Other, vec![], vec![read(vec![gpr(1)])]),
        ],
        vec![],
        vec![],
    )]);
    let l = SimpleLiveness::for_function(&f);
    let bl = l.block_live(0);
    let p = bl.get_instr_pressure(1, &f.blocks[0].instrs[1]);
    assert_eq!(*p.get(RegFile::GPR), 2);
    // One predicate dies, one is defined: zero at the first point, zero at
    // the last.
    assert_eq!(*p.get(RegFile::Pred), 0);
    assert_eq!(*p.get(RegFile::UGPR), 0);
}
