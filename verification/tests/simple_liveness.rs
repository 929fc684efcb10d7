use nak_liveness::block_liveness::BlockLiveness;
use nak_liveness::ir::BasicBlock;
use nak_liveness::ir::Dst;
use nak_liveness::ir::Function;
use nak_liveness::ir::Instr;
use nak_liveness::ir::Op;
use nak_liveness::ir::RegFile;
use nak_liveness::ir::SSARef;
use nak_liveness::ir::SSAValue;
use nak_liveness::ir::Src;
use nak_liveness::liveness::Liveness;
use nak_liveness::simple::SimpleLiveness;

fn gpr(idx: u32) -> SSAValue {
    SSAValue::new(RegFile::GPR, idx)
}

fn def(values: Vec<SSAValue>) -> Dst {
    Dst::SSA(SSARef::new(values))
}

fn read(values: Vec<SSAValue>) -> Src {
    Src::SSA(SSARef::new(values))
}

fn defines(v: SSAValue) -> Instr {
    Instr::new(Op::Other, vec![def(vec![v])], vec![])
}

fn reads(v: SSAValue) -> Instr {
    Instr::new(Op::Other, vec![], vec![read(vec![v])])
}

fn reg_out(srcs: Vec<Src>) -> Instr {
    Instr::new(Op::RegOut, vec![], srcs)
}

// Block 0 defines v1 and reads it once; block 1 reads it once more and hands
// no registers out.
fn two_blocks() -> Function {
    Function::new(vec![
        BasicBlock::new(vec![defines(gpr(1)), reads(gpr(1))], vec![], vec![1]),
        BasicBlock::new(vec![reads(gpr(1)), reg_out(vec![])], vec![0], vec![]),
    ])
}

// Block 0 defines v1, block 1 reads it, and each is the successor of the
// other.
fn two_block_loop() -> Function {
    Function::new(vec![
        BasicBlock::new(vec![defines(gpr(1))], vec![1], vec![1]),
        BasicBlock::new(vec![reads(gpr(1))], vec![0], vec![0]),
    ])
}

// A diamond: block 0 defines v1 and v2 and branches to blocks 1 and 2, which
// meet in block 3.  Block 1 reads v1; block 3 reads v2.
fn diamond() -> Function {
    Function::new(vec![
        BasicBlock::new(vec![defines(gpr(1)), defines(gpr(2))], vec![], vec![1, 2]),
        BasicBlock::new(vec![reads(gpr(1))], vec![0], vec![3]),
        BasicBlock::new(vec![], vec![0], vec![3]),
        BasicBlock::new(vec![reads(gpr(2))], vec![1, 2], vec![]),
    ])
}

#[test]
fn simple_two_blocks_value_lives_across_the_edge() {
    let f = two_blocks();
    let l = SimpleLiveness::for_function(&f);
    let v1 = gpr(1);
    assert!(!l.block_live(0).is_live_in(&v1));
    assert!(l.block_live(0).is_live_out(&v1));
    assert!(l.block_live(1).is_live_in(&v1));
    assert!(!l.block_live(1).is_live_out(&v1));
}

#[test]
fn simple_two_blocks_max_live_is_one_gpr() {
    let f = two_blocks();
    let l = SimpleLiveness::for_function(&f);
    let max_live = l.calc_max_live(&f);
    assert_eq!(*max_live.get(RegFile::GPR), 1);
    assert_eq!(*max_live.get(RegFile::Pred), 0);
}

#[test]
fn simple_two_blocks_live_after_each_instruction() {
    let f = two_blocks();
    let l = SimpleLiveness::for_function(&f);
    let v1 = gpr(1);
    // Live out of block 0: live after each of its instructions.
    assert!(l.block_live(0).is_live_after_ip(&v1, 0));
    assert!(l.block_live(0).is_live_after_ip(&v1, 1));
    // In block 1 the last use is instruction 0.
    assert!(!l.block_live(1).is_live_after_ip(&v1, 0));
    assert!(!l.block_live(1).is_live_after_ip(&v1, 1));
    // A value that nothing reads or defines is never live.
    assert!(!l.block_live(0).is_live_after_ip(&gpr(9), 0));
    assert!(!l.block_live(0).is_live_in(&gpr(9)));
    assert!(!l.block_live(0).is_live_out(&gpr(9)));
}

#[test]
fn simple_loop_converges_with_value_live_out_of_its_block() {
    let f = two_block_loop();
    let l = SimpleLiveness::for_function(&f);
    let v1 = gpr(1);
    assert!(l.block_live(0).is_live_out(&v1));
    assert!(!l.block_live(0).is_live_in(&v1));
    assert!(l.block_live(1).is_live_in(&v1));
    // Block 0 defines v1, so it does not live round the loop.
    assert!(!l.block_live(1).is_live_out(&v1));
}

#[test]
fn simple_self_loop_keeps_value_live_round_the_loop() {
    // Block 0 defines v1; block 1 reads it and is its own successor.
    let f = Function::new(vec![
        BasicBlock::new(vec![defines(gpr(1))], vec![], vec![1]),
        BasicBlock::new(vec![reads(gpr(1))], vec![0, 1], vec![1]),
    ]);
    let l = SimpleLiveness::for_function(&f);
    let v1 = gpr(1);
    assert!(l.block_live(0).is_live_out(&v1));
    assert!(l.block_live(1).is_live_in(&v1));
    assert!(l.block_live(1).is_live_out(&v1));
    assert!(l.block_live(1).is_live_after_ip(&v1, 0));
}

#[test]
fn simple_diamond_joins_both_branches() {
    let f = diamond();
    let l = SimpleLiveness::for_function(&f);
    let v1 = gpr(1);
    let v2 = gpr(2);
    // Out of block 0: what either branch needs.
    assert!(l.block_live(0).is_live_out(&v1));
    assert!(l.block_live(0).is_live_out(&v2));
    assert!(!l.block_live(0).is_live_in(&v1));
    assert!(!l.block_live(0).is_live_in(&v2));
    // Block 1 reads v1 and passes v2 on.
    assert!(l.block_live(1).is_live_in(&v1));
    assert!(l.block_live(1).is_live_in(&v2));
    assert!(!l.block_live(1).is_live_out(&v1));
    assert!(l.block_live(1).is_live_out(&v2));
    // Block 2 only passes v2 on.
    assert!(!l.block_live(2).is_live_in(&v1));
    assert!(l.block_live(2).is_live_in(&v2));
    assert!(l.block_live(2).is_live_out(&v2));
    // Block 3 reads v2 and has no successor.
    assert!(l.block_live(3).is_live_in(&v2));
    assert!(!l.block_live(3).is_live_out(&v2));
}

#[test]
fn simple_fixpoint_equations_hold_on_the_diamond() {
    let f = diamond();
    let l = SimpleLiveness::for_function(&f);
    let values = [gpr(1), gpr(2), gpr(3)];
    for (b, block) in f.blocks.iter().enumerate() {
        let bl = l.block_live(b);
        for v in values {
            // Live out: live into some successor.
            let into_succ = block.succs.iter().any(|s| l.block_live(*s).is_live_in(&v));
            assert_eq!(bl.is_live_out(&v), into_succ);
            // Live in: live out or read here, and not defined here.
            let read_here = block.instrs.iter().any(|i| i.ssa_uses().contains(&v));
            let defined_here = block.instrs.iter().any(|i| i.ssa_defs().contains(&v));
            assert_eq!(bl.is_live_in(&v), (bl.is_live_out(&v) || read_here) && !defined_here);
        }
    }
}

#[test]
fn simple_live_sets_grow_along_a_chain_of_blocks() {
    // v1 is defined in block 0 and read in block 3; every block between
    // passes it on, so the live sets have grown through three sweeps' worth
    // of edges.
    let f = Function::new(vec![
        BasicBlock::new(vec![defines(gpr(1))], vec![], vec![1]),
        BasicBlock::new(vec![], vec![0], vec![2]),
        BasicBlock::new(vec![], vec![1], vec![3]),
        BasicBlock::new(vec![reads(gpr(1))], vec![2], vec![]),
    ]);
    let l = SimpleLiveness::for_function(&f);
    let v1 = gpr(1);
    assert!(l.block_live(0).is_live_out(&v1));
    assert!(!l.block_live(0).is_live_in(&v1));
    for b in 1..3 {
        assert!(l.block_live(b).is_live_in(&v1));
        assert!(l.block_live(b).is_live_out(&v1));
    }
    assert!(l.block_live(3).is_live_in(&v1));
    assert!(!l.block_live(3).is_live_out(&v1));
}

#[test]
fn simple_backward_edges_need_more_than_one_sweep() {
    // The blocks are laid out against the flow: block 0 is entered last.
    // 2 -> 1 -> 0, v1 defined in block 2 and read in block 0.
    let f = Function::new(vec![
        BasicBlock::new(vec![reads(gpr(1))], vec![1], vec![]),
        BasicBlock::new(vec![], vec![2], vec![0]),
        BasicBlock::new(vec![defines(gpr(1))], vec![], vec![1]),
    ]);
    let l = SimpleLiveness::for_function(&f);
    let v1 = gpr(1);
    assert!(l.block_live(0).is_live_in(&v1));
    assert!(l.block_live(1).is_live_in(&v1));
    assert!(l.block_live(1).is_live_out(&v1));
    assert!(l.block_live(2).is_live_out(&v1));
    assert!(!l.block_live(2).is_live_in(&v1));
}

#[test]
fn simple_last_use_is_the_highest_index() {
    // v1 is read at instructions 1 and 3 of one block.
    let f = Function::new(vec![BasicBlock::new(
        vec![defines(gpr(1)), reads(gpr(1)), defines(gpr(2)), reads(gpr(1)), reads(gpr(2))],
        vec![],
        vec![],
    )]);
    let l = SimpleLiveness::for_function(&f);
    let bl = l.block_live(0);
    assert!(bl.is_live_after_ip(&gpr(1), 0));
    assert!(bl.is_live_after_ip(&gpr(1), 1));
    assert!(bl.is_live_after_ip(&gpr(1), 2));
    assert!(!bl.is_live_after_ip(&gpr(1), 3));
    assert!(bl.is_live_after_ip(&gpr(2), 3));
    assert!(!bl.is_live_after_ip(&gpr(2), 4));
}

#[test]
fn simple_def_block_ip_finds_the_definition() {
    let f = diamond();
    let l = SimpleLiveness::for_function(&f);
    assert_eq!(l.def_block_ip(&gpr(1)), (0, 0));
    assert_eq!(l.def_block_ip(&gpr(2)), (0, 1));
    let f = Function::new(vec![
        BasicBlock::new(vec![defines(gpr(1))], vec![], vec![1]),
        BasicBlock::new(vec![reads(gpr(1)), reads(gpr(1)), defines(gpr(2))], vec![0], vec![]),
    ]);
    let l = SimpleLiveness::for_function(&f);
    assert_eq!(l.def_block_ip(&gpr(2)), (1, 2));
}

#[test]
fn simple_interferes_when_the_later_value_is_live_after_the_earlier_definition() {
    // v1 is defined, then v2, then v2 is read.
    let f = Function::new(vec![BasicBlock::new(
        vec![defines(gpr(1)), defines(gpr(2)), reads(gpr(2))],
        vec![],
        vec![],
    )]);
    let l = SimpleLiveness::for_function(&f);
    // v2, the later one, is read after the place of v1.
    assert!(l.interferes(&gpr(1), &gpr(2)));
    assert!(l.interferes(&gpr(2), &gpr(1)));
}

#[test]
fn simple_does_not_interfere_when_the_later_value_is_never_live() {
    // v1 is defined, then v2, then v1 is read: v2 is never read.
    let f = Function::new(vec![BasicBlock::new(
        vec![defines(gpr(1)), defines(gpr(2)), reads(gpr(1))],
        vec![],
        vec![],
    )]);
    let l = SimpleLiveness::for_function(&f);
    assert!(!l.interferes(&gpr(1), &gpr(2)));
    assert!(!l.interferes(&gpr(2), &gpr(1)));
}

#[test]
fn simple_interferes_goes_by_the_later_of_each_pair() {
    // v1 is defined, then v2, then v1 is read, then v3 is defined, then
    // v3 is read.  v2 is never read.
    let f = Function::new(vec![BasicBlock::new(
        vec![defines(gpr(1)), defines(gpr(2)), reads(gpr(1)), defines(gpr(3)), reads(gpr(3))],
        vec![],
        vec![],
    )]);
    let l = SimpleLiveness::for_function(&f);
    // Of v1 and v2 the later is v2, which is never live.
    assert!(!l.interferes(&gpr(1), &gpr(2)));
    assert!(!l.interferes(&gpr(2), &gpr(1)));
    // Of v1 and v3 the later is v3, which is read after the place of v1.
    assert!(l.interferes(&gpr(1), &gpr(3)));
    assert!(l.interferes(&gpr(3), &gpr(1)));
    // Of v2 and v3 the later is v3, which is read after the place of v2.
    assert!(l.interferes(&gpr(2), &gpr(3)));
    assert!(l.interferes(&gpr(3), &gpr(2)));
}

#[test]
fn simple_interferes_when_defined_at_one_place() {
    let f = Function::new(vec![BasicBlock::new(
        vec![Instr::new(Op::Other, vec![def(vec![gpr(1)]), def(vec![gpr(2)])], vec![])],
        vec![],
        vec![],
    )]);
    let l = SimpleLiveness::for_function(&f);
    // Neither is ever read, but they are defined by one instruction.
    assert!(l.interferes(&gpr(1), &gpr(2)));
    assert!(l.interferes(&gpr(1), &gpr(1)));
}

#[test]
fn simple_interferes_across_blocks() {
    // Block 0 defines v1; block 1 defines v2 and reads both.  The later
    // value, v2, is not live anywhere in block 0.
    let f = Function::new(vec![
        BasicBlock::new(vec![defines(gpr(1))], vec![], vec![1]),
        BasicBlock::new(vec![defines(gpr(2)), reads(gpr(1)), reads(gpr(2))], vec![0], vec![]),
    ]);
    let l = SimpleLiveness::for_function(&f);
    assert!(!l.interferes(&gpr(1), &gpr(2)));
    assert!(!l.interferes(&gpr(2), &gpr(1)));
    // A loop: block 0 defines v1 and then reads v2, which block 1 defines.
    // The later value, v2, is read after the place of v1.
    let f = Function::new(vec![
        BasicBlock::new(vec![defines(gpr(1)), reads(gpr(2))], vec![1], vec![1]),
        BasicBlock::new(vec![defines(gpr(2))], vec![0], vec![0]),
    ]);
    let l = SimpleLiveness::for_function(&f);
    assert_eq!(l.def_block_ip(&gpr(1)), (0, 0));
    assert_eq!(l.def_block_ip(&gpr(2)), (1, 0));
    assert!(l.interferes(&gpr(1), &gpr(2)));
    assert!(l.interferes(&gpr(2), &gpr(1)));
}

#[test]
fn max_live_counts_register_out_operands() {
    // One value is ever live, but three registers are handed out.
    let f = Function::new(vec![BasicBlock::new(
        vec![
            defines(gpr(1)),
            reg_out(vec![read(vec![gpr(1)]), Src::NonSSA, Src::NonSSA]),
        ],
        vec![],
        vec![],
    )]);
    let l = SimpleLiveness::for_function(&f);
    let max_live = l.calc_max_live(&f);
    assert_eq!(*max_live.get(RegFile::GPR), 3);
}

#[test]
fn max_live_is_the_highest_peak_of_any_block() {
    // Block 0 holds v1 and v2 together; block 1 holds v1 with the vector
    // (v3, v4, v5).
    let f = Function::new(vec![
        BasicBlock::new(
            vec![defines(gpr(1)), defines(gpr(2)), reads(gpr(2))],
            vec![],
            vec![1],
        ),
        BasicBlock::new(
            vec![
                Instr::new(
                    Op::Other,
                    vec![def(vec![gpr(3), gpr(4), gpr(5)])],
                    vec![read(vec![gpr(1)])],
                ),
                Instr::new(Op::Other, vec![], vec![read(vec![gpr(3), gpr(4), gpr(5)])]),
            ],
            vec![0],
            vec![],
        ),
    ]);
    let l = SimpleLiveness::for_function(&f);
    let max_live = l.calc_max_live(&f);
    assert_eq!(*max_live.get(RegFile::GPR), 4);
    assert_eq!(*max_live.get(RegFile::UGPR), 0);
}

#[test]
fn max_live_of_an_empty_function_is_zero() {
    let f = Function::new(vec![]);
    let l = SimpleLiveness::for_function(&f);
    let max_live = l.calc_max_live(&f);
    assert_eq!(*max_live.get(RegFile::GPR), 0);
}
