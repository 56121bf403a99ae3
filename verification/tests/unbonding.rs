use execution_engine::digest::Digest;
use execution_engine::error::Error;
use execution_engine::global_state::GlobalState;
use execution_engine::key::{AccessRights, Key};
use execution_engine::motes::Motes;
use execution_engine::named_keys::NamedKeys;
use execution_engine::transform::Transform;
use execution_engine::transform_set::TransformSet;
use execution_engine::uint512::U512;
use execution_engine::unbonding::{call, unbond, unwrap_or_revert, CallFailure};
use execution_engine::value::Value;

const POS_PUBLIC: [u8; 32] = [10; 32];
const POS_CONTRACT: [u8; 32] = [11; 32];

fn state_with(stored: Value) -> (GlobalState, Digest) {
    let mut state = GlobalState::new();
    let mut set = TransformSet::new();
    set.push(Key::URef(POS_PUBLIC, AccessRights::all()), Transform::Write(stored));
    let root = state.commit(&GlobalState::empty_root(), &set).expect("applies");
    (state, root)
}

fn caller(key: Key) -> NamedKeys {
    let mut names = NamedKeys::new();
    names.insert("pos".to_string(), key);
    names
}

#[test]
fn unbonding_everything_calls_with_no_amount() {
    let contract = Key::Hash(POS_CONTRACT);
    let (state, root) = state_with(Value::from_key(contract));
    let names = caller(Key::URef(POS_PUBLIC, AccessRights::read_only()));
    let prepared = call(&names, &state, &root, None).expect("the call is prepared");
    assert_eq!(prepared.contract, contract);
    assert_eq!(prepared.method, "unbond");
    assert_eq!(prepared.amount, None);
}

#[test]
fn unbonding_a_part_widens_the_amount() {
    let contract = Key::URef(POS_CONTRACT, AccessRights::read_only());
    let (state, root) = state_with(Value::from_key(contract));
    let names = caller(Key::URef(POS_PUBLIC, AccessRights::read_only()));
    let prepared = call(&names, &state, &root, Some(1000)).expect("the call is prepared");
    assert_eq!(prepared.contract, contract);
    assert_eq!(prepared.method, "unbond");
    assert_eq!(prepared.amount, Some(U512::from(1000)));
}

#[test]
fn unknown_name_reverts_with_55() {
    let (state, root) = state_with(Value::from_key(Key::Hash(POS_CONTRACT)));
    let mut names = NamedKeys::new();
    names.insert("mint".to_string(), Key::URef(POS_PUBLIC, AccessRights::read_only()));
    assert_eq!(call(&names, &state, &root, None).err(), Some(CallFailure::Revert(55)));
}

#[test]
fn name_of_no_reference_reverts_with_66() {
    let (state, root) = state_with(Value::from_key(Key::Hash(POS_CONTRACT)));
    let names = caller(Key::Hash(POS_PUBLIC));
    assert_eq!(call(&names, &state, &root, None).err(), Some(CallFailure::Revert(66)));
}

#[test]
fn stored_key_of_no_contract_reverts_with_77() {
    let (state, root) = state_with(Value::from_key(Key::Account(POS_CONTRACT)));
    let names = caller(Key::URef(POS_PUBLIC, AccessRights::read_only()));
    assert_eq!(call(&names, &state, &root, Some(1)).err(), Some(CallFailure::Revert(77)));
}

#[test]
fn reference_without_the_right_to_read_is_refused() {
    let (state, root) = state_with(Value::from_key(Key::Hash(POS_CONTRACT)));
    let names = caller(Key::URef(POS_PUBLIC, AccessRights { read: false, write: true, add: true }));
    assert_eq!(
        call(&names, &state, &root, None).err(),
        Some(CallFailure::Trap(Error::InsufficientAccessRights))
    );
}

#[test]
fn reference_to_no_key_is_refused() {
    let (state, root) = state_with(Value::Unit);
    let names = caller(Key::URef(POS_PUBLIC, AccessRights::read_only()));
    assert_eq!(
        call(&names, &state, &root, None).err(),
        Some(CallFailure::Trap(Error::TypeMismatch))
    );
    let empty = GlobalState::empty_root();
    assert_eq!(
        call(&names, &state, &empty, None).err(),
        Some(CallFailure::Trap(Error::TypeMismatch))
    );
    let unknown = Digest { bytes: [1; 32] };
    assert_eq!(
        call(&names, &state, &unknown, None).err(),
        Some(CallFailure::Trap(Error::UnknownRoot))
    );
}

#[test]
fn unwrap_or_revert_gives_the_value_or_the_code() {
    assert_eq!(unwrap_or_revert(Some(3), 55), Ok(3));
    assert_eq!(unwrap_or_revert::<u8>(None, 66), Err(CallFailure::Revert(66)));
}

#[test]
fn unbonding_with_no_amount_releases_the_whole_stake() {
    let settled = unbond(Motes::from_u64(5000), None).expect("settles");
    assert_eq!(settled.released, Motes::from_u64(5000));
    assert_eq!(settled.remaining, Motes::zero());
}

#[test]
fn unbonding_a_thousand_releases_a_thousand() {
    let settled = unbond(Motes::from_u64(5000), Some(U512::from(1000))).expect("settles");
    assert_eq!(settled.released, Motes::from_u64(1000));
    assert_eq!(settled.remaining, Motes::from_u64(4000));
    let all = unbond(Motes::from_u64(1000), Some(U512::from(1000))).expect("settles");
    assert_eq!(all.remaining, Motes::zero());
}

#[test]
fn unbonding_more_than_the_stake_releases_nothing() {
    assert!(unbond(Motes::from_u64(999), Some(U512::from(1000))).is_none());
}

#[test]
fn failures_have_their_kinds() {
    assert_eq!(CallFailure::Revert(55).reason(), Error::NameNotFound);
    assert_eq!(CallFailure::Revert(66).reason(), Error::WrongKeyVariant);
    assert_eq!(CallFailure::Revert(77).reason(), Error::WrongKeyVariant);
    assert_eq!(CallFailure::Trap(Error::UnknownRoot).reason(), Error::UnknownRoot);
}
