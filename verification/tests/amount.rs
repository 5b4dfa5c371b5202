use kobara_ob::amount::{pow10_exec, Amount, Total, FRAC_LIMIT, MANTISSA_LIMIT};

#[test]
fn powers_of_ten() {
    assert_eq!(pow10_exec(0), 1);
    assert_eq!(pow10_exec(3), 1000);
    assert_eq!(pow10_exec(28), FRAC_LIMIT);
}

#[test]
fn amount_from_decimal_splits_whole_and_fraction() {
    let a = Amount::from_decimal(12345, 2).unwrap();
    assert_eq!(a.whole, 123);
    assert_eq!(a.frac, 45 * pow10_exec(26));
    let b = Amount::from_decimal(7, 28).unwrap();
    assert_eq!(b.whole, 0);
    assert_eq!(b.frac, 7);
    assert_eq!(Amount::from_decimal(7, 29), None);
    assert_eq!(Amount::from_decimal(MANTISSA_LIMIT - 1, 0).unwrap().whole, MANTISSA_LIMIT - 1);
}

#[test]
fn amount_new_wants_a_proper_fraction() {
    assert_eq!(Amount::new(1, FRAC_LIMIT), None);
    assert_eq!(Amount::new(1, FRAC_LIMIT - 1), Some(Amount { whole: 1, frac: FRAC_LIMIT - 1 }));
    assert_eq!(Amount::zero(), Amount { whole: 0, frac: 0 });
    assert!(Amount::zero().is_zero());
    assert!(!Amount::new(0, 1).unwrap().is_zero());
}

#[test]
fn equal_values_are_equal_amounts() {
    assert_eq!(Amount::from_decimal(1000, 2), Amount::from_decimal(10, 0));
    assert_eq!(Amount::from_decimal(5, 1), Amount::from_decimal(50000, 5));
}

#[test]
fn amounts_compare_by_value() {
    let a = Amount::from_decimal(999, 2).unwrap();
    let b = Amount::from_decimal(10, 0).unwrap();
    assert!(a.lt(&b));
    assert!(a.le(&b));
    assert!(!b.lt(&a));
    assert!(!b.le(&a));
    assert!(b.le(&b));
    assert!(!b.lt(&b));
}

#[test]
fn difference_borrows_from_the_whole() {
    let a = Amount::from_decimal(10, 0).unwrap();
    let b = Amount::from_decimal(25, 2).unwrap();
    assert_eq!(a.minus(&b), Amount::from_decimal(975, 2).unwrap());
    assert_eq!(a.minus(&a), Amount::zero());
    let c = Amount::from_decimal(1, 28).unwrap();
    assert_eq!(a.minus(&c), Amount { whole: 9, frac: FRAC_LIMIT - 1 });
}

#[test]
fn sum_carries_into_the_whole() {
    let a = Amount::from_decimal(75, 2).unwrap();
    let b = Amount::from_decimal(5, 1).unwrap();
    assert_eq!(a.plus(&b), Amount::from_decimal(125, 2).unwrap());
    assert_eq!(a.plus(&Amount::zero()), a);
}

#[test]
fn least_scale_counts_the_digits_that_matter() {
    assert_eq!(Amount::from_decimal(1000, 2).unwrap().least_scale(), 0);
    assert_eq!(Amount::from_decimal(1050, 2).unwrap().least_scale(), 1);
    assert_eq!(Amount::from_decimal(1, 28).unwrap().least_scale(), 28);
    assert_eq!(Amount::from_decimal(12345, 3).unwrap().least_scale(), 3);
    assert_eq!(Amount::zero().least_scale(), 0);
}

#[test]
fn total_carries_beyond_128_bits() {
    let most = Amount::new(u128::MAX, FRAC_LIMIT - 1).unwrap();
    let unit = Amount::new(0, 1).unwrap();
    let t = Total::of(most);
    assert_eq!(t.to_amount(), Some(most));
    let t = t.plus(&unit);
    assert_eq!(t, Total { high: 1, low: Amount::zero() });
    assert_eq!(t.to_amount(), None);
    let t = t.plus(&most);
    assert_eq!(t, Total { high: 1, low: most });
    let t = t.plus(&most);
    assert_eq!(t, Total { high: 2, low: Amount::new(u128::MAX, FRAC_LIMIT - 2).unwrap() });
    assert_eq!(Total::zero().plus(&unit), Total::of(unit));
    let a = Amount::from_decimal(75, 2).unwrap();
    let b = Amount::from_decimal(5, 1).unwrap();
    assert_eq!(Total::of(a).plus(&b), Total::of(Amount::from_decimal(125, 2).unwrap()));
}

#[test]
fn total_borrows_from_beyond_128_bits() {
    let most = Amount::new(u128::MAX, FRAC_LIMIT - 1).unwrap();
    let unit = Amount::new(0, 1).unwrap();
    let t = Total { high: 1, low: Amount::zero() };
    assert_eq!(t.minus(&unit), Total::of(most));
    assert_eq!(t.minus(&most), Total::of(unit));
    let one = Amount::new(1, 0).unwrap();
    assert_eq!(t.minus(&one), Total::of(Amount::new(u128::MAX, 0).unwrap()));
    let t = Total { high: 2, low: Amount::new(5, 0).unwrap() };
    assert_eq!(t.minus(&Amount::new(6, 0).unwrap()), Total { high: 1, low: Amount::new(u128::MAX, 0).unwrap() });
    assert_eq!(t.minus(&Amount::new(5, 0).unwrap()), Total { high: 2, low: Amount::zero() });
    assert_eq!(Total::of(one).minus(&one), Total::zero());
}
