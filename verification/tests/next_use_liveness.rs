use nak_liveness::block_liveness::BlockLiveness;
use nak_liveness::ir::BasicBlock;
use nak_liveness::ir::Dst;
use nak_liveness::ir::Function;
use nak_liveness::ir::Instr;
use nak_liveness::ir::Op;
use nak_liveness::ir::RegFile;
use nak_liveness::ir::RegFileSet;
use nak_liveness::ir::SSARef;
use nak_liveness::ir::SSAValue;
use nak_liveness::ir::Src;
use nak_liveness::liveness::Liveness;
use nak_liveness::next_use::NextUseLiveness;
use nak_liveness::next_use::SSAUseDef;
use nak_liveness::simple::SimpleLiveness;

fn gpr(idx: u32) -> SSAValue {
    SSAValue::new(RegFile::GPR, idx)
}

fn pred(idx: u32) -> SSAValue {
    SSAValue::new(RegFile::Pred, idx)
}

fn def(values: Vec<SSAValue>) -> Dst {
    Dst::SSA(SSARef::new(values))
}

fn read(values: Vec<SSAValue>) -> Src {
    Src::SSA(SSARef::new(values))
}

fn defines(v: SSAValue) -> Instr {
    Instr::new(Op::Other, vec![def(vec![v])], vec![])
}

fn reads(v: SSAValue) -> Instr {
    Instr::new(Op::Other, vec![], vec![read(vec![v])])
}

fn nop() -> Instr {
    Instr::new(Op::Other, vec![], vec![])
}

fn reg_out(srcs: Vec<Src>) -> Instr {
    Instr::new(Op::RegOut, vec![], srcs)
}

fn gprs() -> RegFileSet {
    let mut files = RegFileSet::new();
    files.insert(RegFile::GPR);
    files
}

fn record(uses: Vec<usize>) -> SSAUseDef {
    SSAUseDef { defined: false, uses }
}

fn two_blocks() -> Function {
    Function::new(vec![
        BasicBlock::new(vec![defines(gpr(1)), reads(gpr(1))], vec![], vec![1]),
        BasicBlock::new(vec![reads(gpr(1)), reg_out(vec![])], vec![0], vec![]),
    ])
}

#[test]
fn use_def_add_def_sets_the_flag() {
    let mut r = SSAUseDef::new();
    assert!(!r.defined);
    assert_eq!(r.uses, vec![]);
    r.add_in_block_use(4);
    r.add_def();
    assert!(r.defined);
    assert_eq!(r.uses, vec![4]);
}

#[test]
fn use_def_add_in_block_use_appends() {
    let mut r = SSAUseDef::new();
    r.add_in_block_use(1);
    r.add_in_block_use(3);
    r.add_in_block_use(3);
    assert_eq!(r.uses, vec![1, 3, 3]);
    assert!(!r.defined);
}

#[test]
fn use_def_first_successor_use_is_appended() {
    // No use at all.
    let mut r = record(vec![]);
    assert!(r.add_successor_use(5, 2));
    assert_eq!(r.uses, vec![7]);
    // Uses in the block only.
    let mut r = record(vec![1, 4]);
    assert!(r.add_successor_use(5, 0));
    assert_eq!(r.uses, vec![1, 4, 5]);
}

#[test]
fn use_def_nearer_successor_use_replaces_the_last() {
    let mut r = record(vec![1, 4, 9]);
    assert!(r.add_successor_use(5, 3));
    assert_eq!(r.uses, vec![1, 4, 8]);
    let mut r = record(vec![9]);
    assert!(r.add_successor_use(5, 0));
    assert_eq!(r.uses, vec![5]);
}

#[test]
fn use_def_farther_successor_use_changes_nothing() {
    let mut r = record(vec![1, 4, 8]);
    assert!(!r.add_successor_use(5, 3));
    assert_eq!(r.uses, vec![1, 4, 8]);
    assert!(!r.add_successor_use(5, 30));
    assert_eq!(r.uses, vec![1, 4, 8]);
}

#[test]
fn use_def_successor_use_in_an_empty_block() {
    // A block without instructions: every point is a successor use.
    let mut r = record(vec![]);
    assert!(r.add_successor_use(0, 3));
    assert_eq!(r.uses, vec![3]);
    assert!(r.add_successor_use(0, 1));
    assert_eq!(r.uses, vec![1]);
    assert!(!r.add_successor_use(0, 1));
}

#[test]
fn use_def_successor_point_may_be_the_largest_number() {
    let mut r = record(vec![2]);
    assert!(r.add_successor_use(10, usize::MAX - 10));
    assert_eq!(r.uses, vec![2, usize::MAX]);
    assert!(!r.add_successor_use(10, usize::MAX - 10));
    assert!(r.add_successor_use(10, usize::MAX - 11));
    assert_eq!(r.uses, vec![2, usize::MAX - 1]);
}

#[test]
fn use_def_successor_use_only_comes_nearer() {
    let mut r = record(vec![1, 3]);
    let mut last = usize::MAX;
    for d in [9usize, 7, 8, 3, 5, 3, 0, 2] {
        let before = r.uses.clone();
        let changed = r.add_successor_use(4, d);
        assert_eq!(changed, r.uses != before);
        // The uses in the block stay, and one use in a later block follows.
        assert_eq!(r.uses[..2], [1, 3]);
        assert_eq!(r.uses.len(), 3);
        assert!(r.uses[2] <= last);
        assert!(r.uses[2] >= 4);
        last = r.uses[2];
    }
    assert_eq!(r.uses, vec![1, 3, 4]);
}

#[test]
fn use_def_first_and_last_use() {
    assert_eq!(record(vec![]).first_use(), None);
    assert_eq!(record(vec![]).last_use(), None);
    assert_eq!(record(vec![3, 6, 9]).first_use(), Some(3));
    assert_eq!(record(vec![3, 6, 9]).last_use(), Some(9));
}

fn first_at_or_after(uses: &[usize], ip: usize) -> Option<usize> {
    uses.iter().copied().find(|u| *u >= ip)
}

#[test]
fn next_use_search_agrees_with_a_scan_on_small_lists() {
    let lists: Vec<Vec<usize>> = vec![
        vec![],
        vec![0],
        vec![3],
        vec![0, 1],
        vec![2, 5],
        vec![2, 2],
        vec![1, 3, 5],
        vec![1, 3, 3, 7],
        vec![0, 2, 4, 6, 8],
        vec![4, 4, 4, 4],
        vec![1, 2, 3, 4, 5, 6, 7],
    ];
    for uses in lists {
        let r = record(uses.clone());
        for ip in 0..11 {
            assert_eq!(r.next_use_after_or_at_ip(ip), first_at_or_after(&uses, ip));
        }
    }
}

#[test]
fn next_use_search_before_at_and_after_each_element() {
    let r = record(vec![2, 5, 9]);
    assert_eq!(r.next_use_after_or_at_ip(0), Some(2));
    assert_eq!(r.next_use_after_or_at_ip(1), Some(2));
    assert_eq!(r.next_use_after_or_at_ip(2), Some(2));
    assert_eq!(r.next_use_after_or_at_ip(3), Some(5));
    assert_eq!(r.next_use_after_or_at_ip(5), Some(5));
    assert_eq!(r.next_use_after_or_at_ip(6), Some(9));
    assert_eq!(r.next_use_after_or_at_ip(9), Some(9));
    assert_eq!(r.next_use_after_or_at_ip(10), None);
    assert_eq!(r.next_use_after_or_at_ip(usize::MAX), None);
}

#[test]
fn next_use_two_blocks_value_lives_across_the_edge() {
    let f = two_blocks();
    let l = NextUseLiveness::for_function(&f, &gprs());
    let v1 = gpr(1);
    assert!(!l.block_live(0).is_live_in(&v1));
    assert!(l.block_live(0).is_live_out(&v1));
    assert!(l.block_live(1).is_live_in(&v1));
    assert!(!l.block_live(1).is_live_out(&v1));
}

#[test]
fn next_use_two_blocks_max_live_is_one_gpr() {
    let f = two_blocks();
    let l = NextUseLiveness::for_function(&f, &gprs());
    let max_live = l.calc_max_live(&f);
    assert_eq!(*max_live.get(RegFile::GPR), 1);
}

#[test]
fn next_use_two_blocks_points_count_from_the_block_start() {
    let f = two_blocks();
    let l = NextUseLiveness::for_function(&f, &gprs());
    let v1 = gpr(1);
    // In block 0: read at 1, and then at 0 of block 1, which is 2 + 0.
    assert_eq!(l.block_live(0).first_use(&v1), Some(1));
    assert_eq!(l.block_live(0).next_use_after_or_at_ip(&v1, 0), Some(1));
    assert_eq!(l.block_live(0).next_use_after_or_at_ip(&v1, 1), Some(1));
    assert_eq!(l.block_live(0).next_use_after_or_at_ip(&v1, 2), Some(2));
    assert_eq!(l.block_live(0).next_use_after_or_at_ip(&v1, 3), None);
    // In block 1: read at 0 only.
    assert_eq!(l.block_live(1).first_use(&v1), Some(0));
    assert_eq!(l.block_live(1).next_use_after_or_at_ip(&v1, 1), None);
    // Live after an instruction if a use follows it.
    assert!(l.block_live(0).is_live_after_ip(&v1, 0));
    assert!(l.block_live(0).is_live_after_ip(&v1, 1));
    assert!(!l.block_live(0).is_live_after_ip(&v1, 2));
    assert!(!l.block_live(1).is_live_after_ip(&v1, 0));
    // A value that is never seen.
    assert_eq!(l.block_live(0).first_use(&gpr(9)), None);
    assert_eq!(l.block_live(0).next_use_after_or_at_ip(&gpr(9), 0), None);
    assert!(!l.block_live(0).is_live_after_ip(&gpr(9), 0));
}

#[test]
fn next_use_loop_converges_with_value_live_out_of_its_block() {
    let f = Function::new(vec![
        BasicBlock::new(vec![defines(gpr(1))], vec![1], vec![1]),
        BasicBlock::new(vec![reads(gpr(1))], vec![0], vec![0]),
    ]);
    let l = NextUseLiveness::for_function(&f, &gprs());
    let v1 = gpr(1);
    assert!(l.block_live(0).is_live_out(&v1));
    assert!(!l.block_live(0).is_live_in(&v1));
    assert!(l.block_live(1).is_live_in(&v1));
    assert!(!l.block_live(1).is_live_out(&v1));
    assert_eq!(l.block_live(0).first_use(&v1), Some(1));
}

#[test]
fn next_use_passes_through_a_block_that_does_not_read() {
    // v1 is defined in block 0 and read at instruction 1 of block 2; block
    // 1, of three instructions, lies between.
    let f = Function::new(vec![
        BasicBlock::new(vec![defines(gpr(1))], vec![], vec![1]),
        BasicBlock::new(vec![nop(), nop(), nop()], vec![0], vec![2]),
        BasicBlock::new(vec![nop(), reads(gpr(1))], vec![1], vec![]),
    ]);
    let l = NextUseLiveness::for_function(&f, &gprs());
    let v1 = gpr(1);
    assert_eq!(l.block_live(2).first_use(&v1), Some(1));
    assert_eq!(l.block_live(1).first_use(&v1), Some(3 + 1));
    assert_eq!(l.block_live(0).first_use(&v1), Some(1 + 3 + 1));
    assert!(l.block_live(1).is_live_in(&v1));
    assert!(l.block_live(1).is_live_out(&v1));
    assert!(l.block_live(1).is_live_after_ip(&v1, 2));
    assert!(l.block_live(0).is_live_out(&v1));
    assert!(!l.block_live(0).is_live_in(&v1));
    assert!(!l.block_live(2).is_live_out(&v1));
}

#[test]
fn next_use_backward_edges_need_more_than_one_sweep() {
    // The blocks are laid out against the flow: 2 -> 1 -> 0, v1 defined
    // in block 2 and read at instruction 1 of block 0.
    let f = Function::new(vec![
        BasicBlock::new(vec![nop(), reads(gpr(1))], vec![1], vec![]),
        BasicBlock::new(vec![nop()], vec![2], vec![0]),
        BasicBlock::new(vec![defines(gpr(1)), nop()], vec![], vec![1]),
    ]);
    let l = NextUseLiveness::for_function(&f, &gprs());
    let v1 = gpr(1);
    assert_eq!(l.block_live(0).first_use(&v1), Some(1));
    assert_eq!(l.block_live(1).first_use(&v1), Some(1 + 1));
    assert_eq!(l.block_live(2).first_use(&v1), Some(2 + 1 + 1));
    assert!(l.block_live(2).is_live_out(&v1));
    assert!(!l.block_live(2).is_live_in(&v1));
}

#[test]
fn next_use_keeps_the_nearest_of_two_successors() {
    // Block 0 defines v1 and branches to block 1, which reads it at 2, and
    // to block 2, which reads it at 0.
    let f = Function::new(vec![
        BasicBlock::new(vec![defines(gpr(1))], vec![], vec![1, 2]),
        BasicBlock::new(vec![nop(), nop(), reads(gpr(1))], vec![0], vec![]),
        BasicBlock::new(vec![reads(gpr(1))], vec![0], vec![]),
    ]);
    let l = NextUseLiveness::for_function(&f, &gprs());
    assert_eq!(l.block_live(0).first_use(&gpr(1)), Some(1));
    assert_eq!(l.block_live(0).next_use_after_or_at_ip(&gpr(1), 0), Some(1));
    // The same with the successors the other way round.
    let f = Function::new(vec![
        BasicBlock::new(vec![defines(gpr(1))], vec![], vec![2, 1]),
        BasicBlock::new(vec![nop(), nop(), reads(gpr(1))], vec![0], vec![]),
        BasicBlock::new(vec![reads(gpr(1))], vec![0], vec![]),
    ]);
    let l = NextUseLiveness::for_function(&f, &gprs());
    assert_eq!(l.block_live(0).first_use(&gpr(1)), Some(1));
}

#[test]
fn next_use_round_a_loop_reaches_the_use_after_it() {
    // Block 0 defines v1.  Block 1 is a loop of two instructions that does
    // not read it.  Block 2 reads it at instruction 0.
    let f = Function::new(vec![
        BasicBlock::new(vec![defines(gpr(1))], vec![], vec![1]),
        BasicBlock::new(vec![nop(), nop()], vec![0, 1], vec![1, 2]),
        BasicBlock::new(vec![reads(gpr(1))], vec![1], vec![]),
    ]);
    let l = NextUseLiveness::for_function(&f, &gprs());
    let v1 = gpr(1);
    assert_eq!(l.block_live(1).first_use(&v1), Some(2));
    assert_eq!(l.block_live(0).first_use(&v1), Some(3));
    assert!(l.block_live(1).is_live_in(&v1));
    assert!(l.block_live(1).is_live_out(&v1));
}

#[test]
fn next_use_ignores_other_register_files() {
    let f = Function::new(vec![
        BasicBlock::new(vec![defines(gpr(1)), defines(pred(1))], vec![], vec![1]),
        BasicBlock::new(vec![reads(gpr(1)), reads(pred(1))], vec![0], vec![]),
    ]);
    let l = NextUseLiveness::for_function(&f, &gprs());
    assert!(l.block_live(1).is_live_in(&gpr(1)));
    assert!(!l.block_live(1).is_live_in(&pred(1)));
    assert!(!l.block_live(0).is_live_out(&pred(1)));
    assert_eq!(l.block_live(1).first_use(&pred(1)), None);
    let mut both = gprs();
    both.insert(RegFile::Pred);
    let l = NextUseLiveness::for_function(&f, &both);
    assert!(l.block_live(1).is_live_in(&pred(1)));
    assert!(l.block_live(0).is_live_out(&pred(1)));
    assert_eq!(l.block_live(1).first_use(&pred(1)), Some(1));
}

#[test]
fn next_use_iter_live_in_lists_values_read_before_defined() {
    // Block 1 reads v1 and v2, and defines and reads v3.
    let f = Function::new(vec![
        BasicBlock::new(vec![defines(gpr(1)), defines(gpr(2))], vec![], vec![1]),
        BasicBlock::new(
            vec![reads(gpr(1)), defines(gpr(3)), reads(gpr(3)), reads(gpr(2))],
            vec![0],
            vec![],
        ),
    ]);
    let l = NextUseLiveness::for_function(&f, &gprs());
    let mut live_in: Vec<u32> = l.block_live(1).iter_live_in().iter().map(|v| v.idx()).collect();
    live_in.sort();
    assert_eq!(live_in, vec![1, 2]);
    assert_eq!(l.block_live(0).iter_live_in(), vec![]);
}

#[test]
fn next_use_records_a_repeated_read_once() {
    // Instruction 1 reads v1 twice.
    let f = Function::new(vec![BasicBlock::new(
        vec![
            defines(gpr(1)),
            Instr::new(Op::Other, vec![], vec![read(vec![gpr(1)]), read(vec![gpr(1)])]),
            reads(gpr(1)),
        ],
        vec![],
        vec![],
    )]);
    let l = NextUseLiveness::for_function(&f, &gprs());
    let bl = l.block_live(0);
    assert_eq!(bl.first_use(&gpr(1)), Some(1));
    assert_eq!(bl.next_use_after_or_at_ip(&gpr(1), 1), Some(1));
    assert_eq!(bl.next_use_after_or_at_ip(&gpr(1), 2), Some(2));
    assert_eq!(bl.next_use_after_or_at_ip(&gpr(1), 3), None);
}

#[test]
fn next_use_agrees_with_simple_liveness_on_a_diamond() {
    let f = Function::new(vec![
        BasicBlock::new(vec![defines(gpr(1)), defines(gpr(2))], vec![], vec![1, 2]),
        BasicBlock::new(vec![reads(gpr(1))], vec![0], vec![3]),
        BasicBlock::new(vec![], vec![0], vec![3]),
        BasicBlock::new(vec![reads(gpr(2))], vec![1, 2], vec![]),
    ]);
    let simple = SimpleLiveness::for_function(&f);
    let next_use = NextUseLiveness::for_function(&f, &gprs());
    for b in 0..4 {
        for v in [gpr(1), gpr(2)] {
            assert_eq!(
                simple.block_live(b).is_live_in(&v),
                next_use.block_live(b).is_live_in(&v)
            );
            assert_eq!(
                simple.block_live(b).is_live_out(&v),
                next_use.block_live(b).is_live_out(&v)
            );
        }
    }
    assert_eq!(*simple.calc_max_live(&f).get(RegFile::GPR), 2);
    assert_eq!(*next_use.calc_max_live(&f).get(RegFile::GPR), 2);
}
