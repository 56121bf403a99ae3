use execution_engine::gas::Gas;
use execution_engine::motes::Motes;
use execution_engine::uint512::U512;

#[test]
fn should_be_able_to_get_instance_of_motes() {
    let initial_value = 1;
    let motes = Motes::new(U512::from(initial_value));
    assert_eq!(
        initial_value,
        motes.value().as_u64(),
        "should have equal value"
    )
}

#[test]
fn should_be_able_to_get_instance_from_u64() {
    let initial_value = 1;
    let motes = Motes::from_u64(initial_value);
    assert_eq!(
        initial_value,
        motes.value().as_u64(),
        "should have equal value"
    )
}

#[test]
fn should_be_able_to_compare_two_instances_of_motes() {
    let left_motes = Motes::new(U512::from(1));
    let right_motes = Motes::new(U512::from(1));
    assert_eq!(left_motes, right_motes, "should be equal");
    let right_motes = Motes::new(U512::from(2));
    assert_ne!(left_motes, right_motes, "should not be equal")
}

#[test]
fn should_be_able_to_add_two_instances_of_motes() {
    let left_motes = Motes::new(U512::from(1));
    let right_motes = Motes::new(U512::from(1));
    let expected_motes = Motes::new(U512::from(2));
    assert_eq!(
        (left_motes + right_motes),
        expected_motes,
        "should be equal"
    )
}

#[test]
fn should_be_able_to_subtract_two_instances_of_motes() {
    let left_motes = Motes::new(U512::from(1));
    let right_motes = Motes::new(U512::from(1));
    let expected_motes = Motes::new(U512::from(0));
    assert_eq!(
        (left_motes - right_motes),
        expected_motes,
        "should be equal"
    )
}

#[test]
fn should_be_able_to_multiply_two_instances_of_motes() {
    let left_motes = Motes::new(U512::from(100));
    let right_motes = Motes::new(U512::from(10));
    let expected_motes = Motes::new(U512::from(1000));
    assert_eq!(
        (left_motes * right_motes),
        expected_motes,
        "should be equal"
    )
}

#[test]
fn should_be_able_to_divide_two_instances_of_motes() {
    let left_motes = Motes::new(U512::from(1000));
    let right_motes = Motes::new(U512::from(100));
    let expected_motes = Motes::new(U512::from(10));
    assert_eq!(
        (left_motes / right_motes),
        expected_motes,
        "should be equal"
    )
}

#[test]
fn should_be_able_to_convert_from_motes() {
    let gas = Gas::new(U512::from(100));
    let motes = Motes::from_gas(gas, 10).expect("should have value");
    let expected_motes = Motes::new(U512::from(1000));
    assert_eq!(motes, expected_motes, "should be equal")
}

#[test]
fn should_be_able_to_default() {
    let motes = Motes::default();
    let expected_motes = Motes::new(U512::from(0));
    assert_eq!(motes, expected_motes, "should be equal")
}

#[test]
fn should_be_able_to_compare_relative_value() {
    let left_motes = Motes::new(U512::from(100));
    let right_motes = Motes::new(U512::from(10));
    assert!(left_motes > right_motes, "should be gt");
    let right_motes = Motes::new(U512::from(100));
    assert!(left_motes >= right_motes, "should be gte");
    assert!(left_motes <= right_motes, "should be lte");
    let left_motes = Motes::new(U512::from(10));
    assert!(left_motes < right_motes, "should be lt");
}

#[test]
fn should_default() {
    let left_motes = Motes::new(U512::from(0));
    let right_motes = Motes::default();
    assert_eq!(left_motes, right_motes, "should be equal");
    let u512 = U512::zero();
    assert_eq!(left_motes.value(), u512, "should be equal");
}

#[test]
fn should_support_checked_mul_from_gas() {
    let gas = Gas::new(U512::max_value());
    let conv_rate = 10;
    let maybe = Motes::from_gas(gas, conv_rate);
    assert!(maybe.is_none(), "should be none due to overflow");
}

#[test]
fn motes_print_as_decimal_numerals() {
    assert_eq!(Motes::from_u64(1234567890).to_string(), "1234567890");
    assert_eq!(Motes::zero().to_string(), "0");
}

#[test]
fn motes_sum_past_the_maximum_fails() {
    let most = Motes::new(U512::max_value());
    assert_eq!(most.checked_add(Motes::from_u64(1)), None);
    assert_eq!(
        Motes::from_u64(1).checked_add(Motes::from_u64(2)),
        Some(Motes::from_u64(3))
    );
    assert!(Motes::zero().is_zero());
    assert!(!Motes::from_u64(1).is_zero());
}

#[test]
fn price_of_gas_at_the_edge() {
    let (tenth, _) = U512::max_value().div_mod(U512::from(10));
    let price = Motes::from_gas(Gas::new(tenth), 10).expect("fits");
    let (left, _) = U512::max_value().overflowing_sub(price.value());
    assert_eq!(left, U512::from(5));
    let more = tenth.checked_add(U512::from(1)).expect("fits");
    assert!(Motes::from_gas(Gas::new(more), 10).is_none());
    assert_eq!(Motes::from_gas(Gas::new(U512::max_value()), 0), Some(Motes::zero()));
}
