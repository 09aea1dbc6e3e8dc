use pulsar_network::Natural;

#[test]
fn natural_from_bytes_drops_leading_zeros() {
    let n = Natural::from_bytes(&[0, 5]);
    assert_eq!(n.bits(), &vec![true, false, true]);
    assert_eq!(n.to_bytes(), vec![5]);
}

#[test]
fn natural_of_no_bytes_has_no_bits() {
    let n = Natural::from_bytes(&[]);
    assert!(n.bits().is_empty());
    assert!(n.to_bytes().is_empty());
}

#[test]
fn natural_zero_and_one() {
    assert_eq!(Natural::zero().bits(), &vec![false]);
    assert_eq!(Natural::one().bits(), &vec![true]);
    assert_eq!(Natural::zero().to_bytes(), vec![0]);
    assert_eq!(Natural::from_bytes(&[0, 0, 0]).bits(), &vec![false]);
}

#[test]
fn natural_bytes_group_from_the_low_end() {
    // 0x1_02: nine bits, two bytes.
    let n = Natural::from_bytes(&[1, 2]);
    assert_eq!(n.bits().len(), 9);
    assert_eq!(n.to_bytes(), vec![1, 2]);
    let m = Natural::from_bytes(&n.to_bytes());
    assert_eq!(m.bits(), n.bits());
}

#[test]
fn natural_from_u64() {
    assert_eq!(Natural::from_u64(0).to_bytes(), vec![0]);
    assert_eq!(Natural::from_u64(300).to_bytes(), vec![1, 44]);
    assert_eq!(Natural::from_u64(u64::MAX).to_bytes(), vec![255; 8]);
}

#[test]
fn natural_arithmetic() {
    let a = Natural::from_u64(300);
    let b = Natural::from_u64(45);
    assert_eq!(a.add(&b).to_bytes(), Natural::from_u64(345).to_bytes());
    assert_eq!(a.sub(&b).to_bytes(), Natural::from_u64(255).to_bytes());
    assert_eq!(a.sub(&a).bits(), &vec![false]);
    assert!(b.less_than(&a));
    assert!(!a.less_than(&b));
    assert!(!a.less_than(&a));
    assert_eq!(Natural::from_decimal("86400").to_bytes(), Natural::from_u64(86400).to_bytes());
    assert_eq!(Natural::from_decimal("5").bits(), &vec![true, false, true]);
    // One more than 255 needs a ninth bit.
    assert_eq!(Natural::from_u64(255).add(&Natural::one()).to_bytes(), vec![1, 0]);
}

#[test]
fn empty_natural_is_below_zero_in_order() {
    let empty = Natural::from_bytes(&[]);
    assert!(empty.less_than(&Natural::zero()));
    assert_eq!(empty.add(&Natural::zero()).bits(), &vec![false]);
    assert!(empty.add(&empty).bits().is_empty());
}
