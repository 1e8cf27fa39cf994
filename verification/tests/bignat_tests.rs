use dice_dist::bignat::BigNat;

#[test]
fn small_values_round_trip() {
    assert_eq!(BigNat::zero().as_u64(), Some(0));
    assert_eq!(BigNat::one().as_u64(), Some(1));
    assert_eq!(BigNat::from_u64(12345).as_u64(), Some(12345));
    assert_eq!(BigNat::from_u64(999_999_999).as_u64(), Some(999_999_999));
    assert_eq!(BigNat::from_u64(1_000_000_000).as_u64(), Some(1_000_000_000));
}

#[test]
fn decimal_rendering() {
    assert_eq!(BigNat::zero().to_decimal(), "0");
    assert_eq!(BigNat::from_u64(7).to_decimal(), "7");
    assert_eq!(BigNat::from_u64(12345).to_decimal(), "12345");
    assert_eq!(
        BigNat::from_u64(10_000_000_000).to_decimal(),
        "10000000000"
    );
    assert_eq!(
        BigNat::from_u64(u64::MAX).to_decimal(),
        "18446744073709551615"
    );
}

#[test]
fn addition_carries() {
    let a = BigNat::from_u64(u64::MAX);
    let b = a.add(&BigNat::one());
    assert_eq!(b.to_decimal(), "18446744073709551616");
    assert_eq!(
        BigNat::from_u64(999_999_999).add(&BigNat::one()).as_u64(),
        Some(1_000_000_000)
    );
}

#[test]
fn multiplication_grows() {
    let a = BigNat::from_u64(u64::MAX);
    let sq = a.mul(&a);
    assert_eq!(
        sq.to_decimal(),
        "340282366920938463426481119284349108225"
    );
    assert_eq!(
        BigNat::from_u64(123456).mul(&BigNat::from_u64(654321)).as_u64(),
        Some(123456 * 654321)
    );
    assert_eq!(BigNat::from_u64(5).mul(&BigNat::zero()).as_u64(), Some(0));
}
