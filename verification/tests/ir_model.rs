use nak_liveness::ir::BasicBlock;
use nak_liveness::ir::Dst;
use nak_liveness::ir::DstKind;
use nak_liveness::ir::Function;
use nak_liveness::ir::Instr;
use nak_liveness::ir::Op;
use nak_liveness::ir::PerRegFile;
use nak_liveness::ir::RegFile;
use nak_liveness::ir::RegFileSet;
use nak_liveness::ir::SSARef;
use nak_liveness::ir::SSAValue;
use nak_liveness::ir::Src;

fn gpr(idx: u32) -> SSAValue {
    SSAValue::new(RegFile::GPR, idx)
}

#[test]
fn reg_file_index_round_trips() {
    let files = [
        RegFile::GPR,
        RegFile::UGPR,
        RegFile::Pred,
        RegFile::UPred,
        RegFile::Carry,
        RegFile::Bar,
        RegFile::Mem,
    ];
    for (i, file) in files.iter().enumerate() {
        assert_eq!(file.to_index() as usize, i);
        assert_eq!(RegFile::from_index(i as u8), *file);
    }
}

#[test]
fn ssa_value_keeps_file_and_index() {
    let v = SSAValue::new(RegFile::Pred, 17);
    assert_eq!(v.file(), RegFile::Pred);
    assert_eq!(v.idx(), 17);
}

#[test]
fn ssa_value_key_is_file_then_index() {
    assert_eq!(SSAValue::new(RegFile::GPR, 5).key(), 5);
    assert_eq!(SSAValue::new(RegFile::UGPR, 5).key(), 0x1_0000_0005);
    assert_eq!(SSAValue::new(RegFile::Mem, 0x1fff_ffff).key(), 0x6_1fff_ffff);
}

#[test]
fn ssa_value_takes_every_index_but_the_largest() {
    let v = SSAValue::new(RegFile::Mem, u32::MAX - 1);
    assert_eq!(v.idx(), u32::MAX - 1);
    assert_eq!(v.key(), 0x6_ffff_fffe);
    assert_eq!(SSAValue::from_key(0x6_ffff_fffe), v);
}

#[test]
fn ssa_value_key_round_trips() {
    for file in [RegFile::GPR, RegFile::Carry, RegFile::Mem] {
        for idx in [0u32, 1, 77, 0x1fff_ffff, 0xffff_fffe] {
            let v = SSAValue::new(file, idx);
            assert_eq!(SSAValue::from_key(v.key()), v);
        }
    }
}

#[test]
fn ssa_values_of_different_files_differ() {
    assert_ne!(SSAValue::new(RegFile::GPR, 3), SSAValue::new(RegFile::Pred, 3));
    assert_ne!(SSAValue::new(RegFile::GPR, 3).key(), SSAValue::new(RegFile::Pred, 3).key());
}

#[test]
fn per_reg_file_new_with_fills_each_slot() {
    let p = PerRegFile::new_with(|file: RegFile| file.to_index() * 2);
    assert_eq!(*p.get(RegFile::GPR), 0);
    assert_eq!(*p.get(RegFile::Pred), 4);
    assert_eq!(*p.get(RegFile::Mem), 12);
}

#[test]
fn per_reg_file_set_changes_one_slot() {
    let mut p = PerRegFile::zero();
    p.set(RegFile::Bar, 9);
    assert_eq!(*p.get(RegFile::Bar), 9);
    assert_eq!(*p.get(RegFile::GPR), 0);
    assert_eq!(*p.get(RegFile::Carry), 0);
}

#[test]
fn per_reg_file_max_is_slot_by_slot() {
    let mut a = PerRegFile::zero();
    let mut b = PerRegFile::zero();
    a.set(RegFile::GPR, 4);
    b.set(RegFile::GPR, 2);
    a.set(RegFile::Pred, 1);
    b.set(RegFile::Pred, 3);
    let m = a.max(&b);
    assert_eq!(*m.get(RegFile::GPR), 4);
    assert_eq!(*m.get(RegFile::Pred), 3);
    assert_eq!(*m.get(RegFile::Mem), 0);
}

#[test]
fn reg_file_set_holds_what_was_inserted() {
    let mut files = RegFileSet::new();
    assert!(!files.contains(RegFile::GPR));
    assert!(files.insert(RegFile::GPR));
    assert!(!files.insert(RegFile::GPR));
    assert!(files.contains(RegFile::GPR));
    assert!(!files.contains(RegFile::UGPR));
}

#[test]
fn instr_collects_uses_in_operand_order() {
    let instr = Instr::new(
        Op::Other,
        vec![],
        vec![
            Src::SSA(SSARef::new(vec![gpr(1), gpr(2)])),
            Src::NonSSA,
            Src::SSA(SSARef::new(vec![gpr(1)])),
        ],
    );
    assert_eq!(instr.ssa_uses(), vec![gpr(1), gpr(2), gpr(1)]);
    assert_eq!(instr.ssa_defs(), vec![]);
}

#[test]
fn instr_tells_vector_from_scalar_destinations() {
    let instr = Instr::new(
        Op::Other,
        vec![
            Dst::SSA(SSARef::new(vec![gpr(1)])),
            Dst::NonSSA,
            Dst::SSA(SSARef::new(vec![gpr(2), gpr(3)])),
            Dst::SSA(SSARef::new(vec![])),
            Dst::SSA(SSARef::new(vec![gpr(4)])),
        ],
        vec![],
    );
    assert_eq!(instr.ssa_defs(), vec![gpr(1), gpr(2), gpr(3), gpr(4)]);
    assert_eq!(instr.ssa_defs_of(DstKind::Any), vec![gpr(1), gpr(2), gpr(3), gpr(4)]);
    assert_eq!(instr.ssa_defs_of(DstKind::Vector), vec![gpr(2), gpr(3)]);
    assert_eq!(instr.ssa_defs_of(DstKind::Scalar), vec![gpr(1), gpr(4)]);
}

#[test]
fn ssa_ref_counts_its_components() {
    let r = SSARef::new(vec![gpr(7), gpr(8), gpr(9)]);
    assert_eq!(r.comps(), 3);
    assert_eq!(r.get(1), gpr(8));
}

#[test]
fn function_keeps_its_blocks() {
    let f = Function::new(vec![
        BasicBlock::new(vec![], vec![], vec![1]),
        BasicBlock::new(vec![], vec![0], vec![]),
    ]);
    assert_eq!(f.blocks.len(), 2);
    assert_eq!(f.blocks[0].succs, vec![1]);
    assert_eq!(f.blocks[1].preds, vec![0]);
}
