use execution_engine::deploy::{charge, deduct};
use execution_engine::digest::Digest;
use execution_engine::error::Error;
use execution_engine::gas::Gas;
use execution_engine::global_state::GlobalState;
use execution_engine::key::{AccessRights, Key};
use execution_engine::motes::Motes;
use execution_engine::transform::Transform;
use execution_engine::transform_set::TransformSet;
use execution_engine::uint512::U512;
use execution_engine::value::Value;

fn number(n: u64) -> Value {
    Value::from_u512(U512::from(n))
}

#[test]
fn payment_is_gas_times_rate() {
    assert_eq!(
        deduct(Motes::from_u64(5000), Gas::new(U512::from(100)), 10),
        Ok(Motes::from_u64(4000))
    );
    assert_eq!(
        deduct(Motes::from_u64(1000), Gas::new(U512::from(100)), 10),
        Ok(Motes::zero())
    );
}

#[test]
fn payment_beyond_the_balance_fails() {
    assert_eq!(
        deduct(Motes::from_u64(999), Gas::new(U512::from(100)), 10),
        Err(Error::Overflow)
    );
    assert_eq!(
        deduct(Motes::new(U512::max_value()), Gas::new(U512::max_value()), 10),
        Err(Error::Overflow)
    );
}

#[test]
fn charge_adds_the_payment_to_the_effects() {
    let purse = Key::URef([1; 32], AccessRights::all());
    let mut state = GlobalState::new();
    let mut seed = TransformSet::new();
    seed.push(purse, Transform::Write(number(5000)));
    let root = state.commit(&GlobalState::empty_root(), &seed).expect("applies");

    let mut effects = TransformSet::new();
    effects.push(purse, Transform::AddU512(U512::from(500)));
    effects.push(Key::Hash([2; 32]), Transform::Write(Value::Unit));
    assert_eq!(charge(&state, &root, &mut effects, purse, Gas::new(U512::from(100)), 10), Ok(()));
    assert_eq!(effects.len(), 3);
    let next = state.commit(&root, &effects).expect("applies");
    assert_eq!(state.read(&next, &purse), Ok(Some(number(4500))));
    assert_eq!(state.read(&root, &purse), Ok(Some(number(5000))));
}

#[test]
fn charge_that_fails_leaves_the_effects() {
    let purse = Key::URef([1; 32], AccessRights::all());
    let mut state = GlobalState::new();
    let mut seed = TransformSet::new();
    seed.push(purse, Transform::Write(number(50)));
    seed.push(Key::Hash([3; 32]), Transform::Write(Value::Unit));
    let root = state.commit(&GlobalState::empty_root(), &seed).expect("applies");

    let mut effects = TransformSet::new();
    effects.push(Key::Hash([2; 32]), Transform::Write(Value::Unit));
    assert_eq!(
        charge(&state, &root, &mut effects, purse, Gas::new(U512::from(100)), 10),
        Err(Error::Overflow)
    );
    assert_eq!(effects.len(), 1);
    assert_eq!(
        charge(&state, &root, &mut effects, Key::Hash([3; 32]), Gas::new(U512::from(1)), 1),
        Err(Error::TypeMismatch)
    );
    assert_eq!(
        charge(&state, &root, &mut effects, Key::Hash([4; 32]), Gas::new(U512::from(1)), 1),
        Err(Error::TypeMismatch)
    );
    let unknown = Digest { bytes: [7; 32] };
    assert_eq!(
        charge(&state, &unknown, &mut effects, purse, Gas::new(U512::from(1)), 1),
        Err(Error::UnknownRoot)
    );
    assert_eq!(effects.len(), 1);
}

#[test]
fn settle_commits_the_effects_with_the_payment() {
    let purse = Key::URef([1; 32], AccessRights::all());
    let mut state = GlobalState::new();
    let mut seed = TransformSet::new();
    seed.push(purse, Transform::Write(number(5000)));
    let root = state.commit(&GlobalState::empty_root(), &seed).expect("applies");

    let mut effects = TransformSet::new();
    effects.push(Key::Hash([2; 32]), Transform::Write(number(1)));
    let next = execution_engine::deploy::settle(
        &mut state,
        &root,
        effects,
        purse,
        Gas::new(U512::from(30)),
        100,
    )
    .expect("settles");
    assert_eq!(state.read(&next, &purse), Ok(Some(number(2000))));
    assert_eq!(state.read(&next, &Key::Hash([2; 32])), Ok(Some(number(1))));

    let mut more = TransformSet::new();
    more.push(Key::Hash([2; 32]), Transform::Write(number(2)));
    let refused = execution_engine::deploy::settle(
        &mut state,
        &next,
        more,
        purse,
        Gas::new(U512::from(30)),
        100,
    );
    assert_eq!(refused, Err(Error::Overflow));
    assert_eq!(state.read(&next, &Key::Hash([2; 32])), Ok(Some(number(1))));
}

#[test]
fn charge_fails_as_the_effects_fail_at_the_purse() {
    let purse = Key::URef([1; 32], AccessRights::all());
    let mut state = GlobalState::new();
    let mut seed = TransformSet::new();
    seed.push(purse, Transform::Write(Value::from_u512(U512::max_value())));
    let root = state.commit(&GlobalState::empty_root(), &seed).expect("applies");
    let mut effects = TransformSet::new();
    effects.push(purse, Transform::AddU512(U512::from(1)));
    assert_eq!(
        charge(&state, &root, &mut effects, purse, Gas::new(U512::from(1)), 1),
        Err(Error::Overflow)
    );
    assert_eq!(effects.len(), 1);
}
