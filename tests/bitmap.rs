use decert::bitmap::BitMap;

#[test]
fn new_map_holds_nothing() {
    let m = BitMap::new();
    for i in 0..128u8 {
        assert!(!m.get(i));
    }
    assert_eq!(m.get_map(), 0);
    assert!(m.iter().is_empty());
}

#[test]
fn set_and_clear_slots() {
    let mut m = BitMap::new();
    m.set(3, true);
    m.set(127, true);
    assert!(m.get(3));
    assert!(m.get(127));
    assert!(!m.get(4));
    assert_eq!(m.iter(), vec![3, 127]);
    assert_eq!(m.get_map(), (1u128 << 3) | (1u128 << 127));
    m.set(3, false);
    assert!(!m.get(3));
    assert_eq!(m.iter(), vec![127]);
}

#[test]
fn conflict_means_a_shared_slot() {
    let a = BitMap::from_map(0b0110);
    let b = BitMap::from_map(0b0100);
    let c = BitMap::from_map(0b1001);
    assert!(a.conflict(&b));
    assert!(!a.conflict(&c));
    assert!(a.conflict_u64(0b0010));
    assert!(!a.conflict_u64(0));
}

#[test]
fn combine_keeps_common_slots() {
    let a = BitMap::from_map(0b0110);
    assert_eq!(a.combine(&BitMap::from_map(0b0011)).get_map(), 0b0010);
    assert_eq!(a.combine_u64(0b1100).get_map(), 0b0100);
}

#[test]
fn filled_prefix() {
    let m = BitMap::from_map(0b0111);
    assert!(m.is_filled(0));
    assert!(m.is_filled(2));
    assert!(!m.is_filled(3));
    assert!(BitMap::from_map(u128::MAX).is_filled(127));
    assert!(!BitMap::from_map(u128::MAX >> 1).is_filled(127));
}
