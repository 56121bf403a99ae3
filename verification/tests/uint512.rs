use execution_engine::gas::Gas;
use execution_engine::uint512::U512;

#[test]
fn widening_keeps_the_value() {
    assert_eq!(U512::from(77).as_u64(), 77);
    assert_eq!(U512::from_u64(u64::MAX).as_u64(), u64::MAX);
    assert!(U512::from(5).fits_u64());
    assert!(!U512::max_value().fits_u64());
}

#[test]
fn zero_is_zero() {
    assert!(U512::zero().is_zero());
    assert!(!U512::from(1).is_zero());
    assert_eq!(U512::default(), U512::zero());
}

#[test]
fn sum_carries_into_the_next_word() {
    let (sum, overflow) = U512::from(u64::MAX).overflowing_add(U512::from(1));
    assert!(!overflow);
    assert!(!sum.fits_u64());
    assert_eq!(sum.to_string(), "18446744073709551616");
    let (back, below) = sum.overflowing_sub(U512::from(1));
    assert!(!below);
    assert_eq!(back, U512::from(u64::MAX));
}

#[test]
fn sum_past_the_maximum_wraps_and_is_flagged() {
    let (sum, overflow) = U512::max_value().overflowing_add(U512::from(2));
    assert!(overflow);
    assert_eq!(sum, U512::from(1));
    assert_eq!(U512::max_value().checked_add(U512::from(1)), None);
    assert_eq!(U512::from(2).checked_add(U512::from(3)), Some(U512::from(5)));
}

#[test]
fn difference_below_zero_wraps_and_is_flagged() {
    let (difference, below) = U512::from(1).overflowing_sub(U512::from(2));
    assert!(below);
    assert_eq!(difference, U512::max_value());
    let (difference, below) = U512::from(9).overflowing_sub(U512::from(4));
    assert!(!below);
    assert_eq!(difference, U512::from(5));
}

#[test]
fn product_is_exact_or_flagged() {
    let (product, overflow) = U512::from(1 << 40).overflowing_mul(U512::from(1 << 40));
    assert!(!overflow);
    assert_eq!(product.to_string(), "1208925819614629174706176");
    let (_, overflow) = U512::max_value().overflowing_mul(U512::from(2));
    assert!(overflow);
    assert_eq!(U512::max_value().checked_mul(U512::from(10)), None);
    assert_eq!(U512::from(6).checked_mul(U512::from(7)), Some(U512::from(42)));
}

#[test]
fn division_gives_quotient_and_remainder() {
    let (quotient, remainder) = U512::from(1000).div_mod(U512::from(7));
    assert_eq!(quotient, U512::from(142));
    assert_eq!(remainder, U512::from(6));
    let (quotient, remainder) = U512::from(3).div_mod(U512::from(5));
    assert_eq!(quotient, U512::zero());
    assert_eq!(remainder, U512::from(3));
}

#[test]
fn decimal_numeral_of_the_maximum() {
    assert_eq!(U512::zero().to_string(), "0");
    assert_eq!(U512::from(1050).to_string(), "1050");
    assert_eq!(
        U512::max_value().to_string(),
        "13407807929942597099574024998205846127479365820592393377723561443721764030073546976801874298166903427690031858186486050853753882811946569946433649006084095"
    );
}

#[test]
fn order_follows_magnitude() {
    let small = U512::from(u64::MAX);
    let (large, _) = small.overflowing_add(U512::from(1));
    assert!(small < large);
    assert!(large > small);
    assert!(large <= U512::max_value());
    assert!(small >= small);
    assert_eq!(small.compare(&large), -1);
    assert_eq!(large.compare(&small), 1);
    assert_eq!(large.compare(&large), 0);
    assert_ne!(small, large);
}

#[test]
fn gas_sum_past_the_maximum_fails() {
    let most = Gas::new(U512::max_value());
    assert_eq!(most.checked_add(Gas::new(U512::from(1))), None);
    assert_eq!(most.checked_add(Gas::zero()), Some(most));
    let (half, _) = U512::max_value().div_mod(U512::from(2));
    let more = half.checked_add(U512::from(2)).expect("fits");
    assert_eq!(Gas::new(half).checked_add(Gas::new(more)), None);
    assert_eq!(
        Gas::new(U512::from(2)).checked_add(Gas::new(U512::from(3))),
        Some(Gas::new(U512::from(5)))
    );
}

#[test]
fn gas_arithmetic() {
    let a = Gas::new(U512::from(1000));
    let b = Gas::new(U512::from(100));
    assert_eq!(a + b, Gas::new(U512::from(1100)));
    assert_eq!(a - b, Gas::new(U512::from(900)));
    assert_eq!(a * b, Gas::new(U512::from(100000)));
    assert_eq!(a / b, Gas::new(U512::from(10)));
    assert!(a > b);
    assert!(Gas::default().is_zero());
    assert_eq!(Gas::zero().value(), U512::zero());
    assert_eq!(a.to_string(), "1000");
}
