use nak_liveness::ir::RegFile;
use nak_liveness::ir::SSAValue;
use nak_liveness::value_map::ValueMap;
use nak_liveness::value_set::ValueSet;

fn val(file: RegFile, idx: u32) -> SSAValue {
    SSAValue::new(file, idx)
}

fn sorted(mut values: Vec<SSAValue>) -> Vec<u64> {
    values.sort_by_key(|v| v.key());
    values.iter().map(|v| v.key()).collect()
}

#[test]
fn value_set_insert_says_whether_new() {
    let mut s = ValueSet::new();
    assert!(s.insert(val(RegFile::GPR, 1)));
    assert!(!s.insert(val(RegFile::GPR, 1)));
    assert!(s.insert(val(RegFile::Pred, 1)));
}

#[test]
fn value_set_contains_what_was_inserted() {
    let mut s = ValueSet::new();
    assert!(!s.contains(&val(RegFile::GPR, 1)));
    s.insert(val(RegFile::GPR, 1));
    assert!(s.contains(&val(RegFile::GPR, 1)));
    assert!(!s.contains(&val(RegFile::GPR, 2)));
    assert!(!s.contains(&val(RegFile::UGPR, 1)));
}

#[test]
fn value_set_remove_says_whether_present() {
    let mut s = ValueSet::new();
    s.insert(val(RegFile::GPR, 1));
    assert!(!s.remove(&val(RegFile::GPR, 2)));
    assert!(s.remove(&val(RegFile::GPR, 1)));
    assert!(!s.remove(&val(RegFile::GPR, 1)));
    assert!(!s.contains(&val(RegFile::GPR, 1)));
}

#[test]
fn value_set_to_vec_holds_each_member_once() {
    let mut s = ValueSet::new();
    assert_eq!(s.to_vec(), vec![]);
    s.insert(val(RegFile::GPR, 3));
    s.insert(val(RegFile::GPR, 1));
    s.insert(val(RegFile::Pred, 2));
    s.insert(val(RegFile::GPR, 3));
    assert_eq!(sorted(s.to_vec()), vec![1, 3, 0x2_0000_0002]);
}

#[test]
fn value_set_union_with_says_whether_it_grew() {
    let mut a = ValueSet::new();
    let mut b = ValueSet::new();
    a.insert(val(RegFile::GPR, 1));
    b.insert(val(RegFile::GPR, 1));
    assert!(!a.union_with(&b));
    b.insert(val(RegFile::GPR, 2));
    assert!(a.union_with(&b));
    assert_eq!(sorted(a.to_vec()), vec![1, 2]);
    assert!(!a.union_with(&b));
}

#[test]
fn value_set_clone_holds_the_same_values() {
    let mut s = ValueSet::new();
    s.insert(val(RegFile::GPR, 3));
    s.insert(val(RegFile::Pred, 2));
    let mut c = s.clone();
    assert_eq!(sorted(c.to_vec()), vec![3, 0x2_0000_0002]);
    c.insert(val(RegFile::GPR, 4));
    s.remove(&val(RegFile::GPR, 3));
    assert_eq!(sorted(c.to_vec()), vec![3, 4, 0x2_0000_0002]);
    assert_eq!(sorted(s.to_vec()), vec![0x2_0000_0002]);
}

#[test]
fn value_map_insert_returns_previous_value() {
    let mut m: ValueMap<usize> = ValueMap::new();
    assert_eq!(m.insert(val(RegFile::GPR, 1), 10), None);
    assert_eq!(m.insert(val(RegFile::GPR, 1), 11), Some(10));
    assert_eq!(m.insert(val(RegFile::Pred, 1), 12), None);
}

#[test]
fn value_map_get_finds_the_last_value() {
    let mut m: ValueMap<usize> = ValueMap::new();
    assert_eq!(m.get(&val(RegFile::GPR, 1)), None);
    m.insert(val(RegFile::GPR, 1), 10);
    m.insert(val(RegFile::GPR, 1), 11);
    assert_eq!(m.get(&val(RegFile::GPR, 1)), Some(&11));
    assert_eq!(m.get(&val(RegFile::GPR, 2)), None);
    assert!(m.contains_key(&val(RegFile::GPR, 1)));
    assert!(!m.contains_key(&val(RegFile::Mem, 1)));
}

#[test]
fn value_map_remove_returns_the_value() {
    let mut m: ValueMap<usize> = ValueMap::new();
    m.insert(val(RegFile::GPR, 1), 10);
    assert_eq!(m.remove(&val(RegFile::GPR, 2)), None);
    assert_eq!(m.remove(&val(RegFile::GPR, 1)), Some(10));
    assert_eq!(m.remove(&val(RegFile::GPR, 1)), None);
    assert_eq!(m.get(&val(RegFile::GPR, 1)), None);
}

#[test]
fn value_map_keys_holds_each_key_once() {
    let mut m: ValueMap<usize> = ValueMap::new();
    assert_eq!(m.keys(), vec![]);
    m.insert(val(RegFile::GPR, 2), 0);
    m.insert(val(RegFile::UGPR, 2), 0);
    m.insert(val(RegFile::GPR, 2), 1);
    assert_eq!(sorted(m.keys()), vec![2, 0x1_0000_0002]);
}
