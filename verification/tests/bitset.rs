use ecs::bitset::AccessBitset;

#[test]
fn access_bitset_flags() {
    let mut bits = AccessBitset::with_capacity(3);
    assert_eq!(bits.len(), 3);
    assert_eq!(bits.get(1), (false, false));
    bits.set(1, true);
    assert_eq!(bits.get(1), (true, false));
    assert!(bits.reads(1));
    assert!(!bits.writes(1));
    assert!(!bits.write(1));
    assert!(bits.write(2));
    assert!(bits.writes(0) == false);
    assert_eq!(bits.iter().len(), 3);
}

#[test]
fn access_bitset_read_and_write_set_their_flags() {
    let mut bits = AccessBitset::with_capacity(2);
    assert!(bits.read(1));
    assert!(bits.reads(1));
    assert!(!bits.writes(1));
    assert!(!bits.reads(0) && !bits.writes(0));
    assert!(!bits.write(1));
    assert_eq!(bits.get(1), (true, false));

    assert!(bits.write(0));
    assert!(bits.writes(0));
    assert!(!bits.reads(0));
    assert!(!bits.write(0));
    assert!(!bits.read(0));
    assert_eq!(bits.get(0), (false, true));
}

#[test]
fn access_bitset_conflicts() {
    let mut a = AccessBitset::new();
    a.grow(2);
    let mut b = AccessBitset::with_capacity(2);
    a.set(0, true);
    assert!(!a.conflicts(&b));
    b.read(1);
    assert_eq!(b.get(1), (true, false));
    assert!(!a.conflicts(&b));
    let mut c = AccessBitset::with_capacity(2);
    c.write(0);
    assert_eq!(c.get(0), (false, true));
    assert!(a.conflicts(&c));
    assert!(c.conflicts(&a));
}
