use blazing_goldbach::bignum::BigNat;

#[test]
fn bignat_round_trip() {
    let n = BigNat::from_limbs(vec![7, 0, 0]);
    assert_eq!(n.to_limbs(), vec![7]);
    assert_eq!(n.to_u64(), Some(7));
    assert!(!n.is_even());
    let big = BigNat::from_limbs(vec![0, 1]);
    assert_eq!(big.to_u64(), None);
    assert!(big.is_even());
    assert_eq!(BigNat::from_u64(0).to_limbs(), Vec::<u64>::new());
}
