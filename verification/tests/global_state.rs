use execution_engine::digest::Digest;
use execution_engine::error::Error;
use execution_engine::global_state::GlobalState;
use execution_engine::key::{AccessRights, Key};
use execution_engine::named_keys::NamedKeys;
use execution_engine::transform::Transform;
use execution_engine::transform_set::TransformSet;
use execution_engine::uint512::U512;
use execution_engine::value::{CLValue, Contract, Value};

fn number(n: u64) -> Value {
    Value::from_u512(U512::from(n))
}

fn purse(id: u8) -> Key {
    Key::URef([id; 32], AccessRights::all())
}

#[test]
fn empty_root_is_the_digest_of_the_empty_node() {
    let expected: [u8; 32] = [
        3, 23, 10, 46, 117, 151, 183, 183, 227, 216, 76, 5, 57, 29, 19, 154, 98, 177, 87, 231,
        135, 134, 216, 192, 130, 242, 157, 207, 76, 17, 19, 20,
    ];
    assert_eq!(GlobalState::empty_root().bytes, expected);
}

#[test]
fn new_store_knows_the_empty_state() {
    let state = GlobalState::new();
    let root = GlobalState::empty_root();
    assert!(state.knows(&root));
    assert_eq!(state.read(&root, &Key::Account([1; 32])), Ok(None));
}

#[test]
fn read_under_unknown_root_is_refused() {
    let state = GlobalState::new();
    let unknown = Digest { bytes: [9; 32] };
    assert_eq!(state.read(&unknown, &Key::Hash([1; 32])), Err(Error::UnknownRoot));
}

#[test]
fn commit_writes_and_old_roots_stay_readable() {
    let mut state = GlobalState::new();
    let empty = GlobalState::empty_root();
    let mut set = TransformSet::new();
    set.push(Key::Hash([1; 32]), Transform::Write(number(7)));
    set.push(Key::Account([2; 32]), Transform::Write(Value::Unit));
    let first = state.commit(&empty, &set).expect("the set applies");
    assert_ne!(first, empty);
    assert_eq!(state.read(&first, &Key::Hash([1; 32])), Ok(Some(number(7))));
    assert_eq!(state.read(&first, &Key::Account([2; 32])), Ok(Some(Value::Unit)));
    assert_eq!(state.read(&first, &Key::Hash([3; 32])), Ok(None));
    assert_eq!(state.read(&empty, &Key::Hash([1; 32])), Ok(None));

    let mut more = TransformSet::new();
    more.push(Key::Hash([1; 32]), Transform::AddU512(U512::from(5)));
    let second = state.commit(&first, &more).expect("the sum applies");
    assert_eq!(state.read(&second, &Key::Hash([1; 32])), Ok(Some(number(12))));
    assert_eq!(state.read(&first, &Key::Hash([1; 32])), Ok(Some(number(7))));
    assert_eq!(state.read(&second, &Key::Account([2; 32])), Ok(Some(Value::Unit)));
}

#[test]
fn write_then_add_comes_to_eight() {
    let mut state = GlobalState::new();
    let mut set = TransformSet::new();
    set.push(purse(1), Transform::Write(number(5)));
    set.push(purse(1), Transform::AddU512(U512::from(3)));
    let root = state.commit(&GlobalState::empty_root(), &set).expect("the set applies");
    assert_eq!(state.read(&root, &purse(1)), Ok(Some(number(8))));
}

#[test]
fn add_then_write_comes_to_five() {
    let mut state = GlobalState::new();
    let mut seed = TransformSet::new();
    seed.push(purse(1), Transform::Write(number(100)));
    let seeded = state.commit(&GlobalState::empty_root(), &seed).expect("the seed applies");
    let mut set = TransformSet::new();
    set.push(purse(1), Transform::AddU512(U512::from(3)));
    set.push(purse(1), Transform::Write(number(5)));
    let root = state.commit(&seeded, &set).expect("the set applies");
    assert_eq!(state.read(&root, &purse(1)), Ok(Some(number(5))));
}

#[test]
fn commit_does_not_depend_on_the_order_of_places() {
    let mut one = GlobalState::new();
    let mut other = GlobalState::new();
    let mut forward = TransformSet::new();
    let mut backward = TransformSet::new();
    for i in 0..40u8 {
        forward.push(Key::Hash([i; 32]), Transform::Write(number(i as u64)));
        forward.push(Key::Hash([i; 32]), Transform::AddU512(U512::from(1)));
    }
    for i in (0..40u8).rev() {
        backward.push(Key::Hash([i; 32]), Transform::Write(number(i as u64)));
        backward.push(Key::Hash([i; 32]), Transform::AddU512(U512::from(1)));
    }
    let a = one.commit(&GlobalState::empty_root(), &forward).expect("applies");
    let b = other.commit(&GlobalState::empty_root(), &backward).expect("applies");
    assert_eq!(a, b);
    let again = one.commit(&GlobalState::empty_root(), &backward).expect("applies");
    assert_eq!(a, again);
    assert_eq!(one.read(&a, &Key::Hash([7; 32])), Ok(Some(number(8))));
}

#[test]
fn the_same_state_has_the_same_root_however_it_came_about() {
    let mut one = GlobalState::new();
    let mut other = GlobalState::new();
    let mut both = TransformSet::new();
    both.push(Key::Hash([1; 32]), Transform::Write(number(1)));
    both.push(Key::Hash([2; 32]), Transform::Write(number(2)));
    let at_once = one.commit(&GlobalState::empty_root(), &both).expect("applies");
    let mut first = TransformSet::new();
    first.push(Key::Hash([2; 32]), Transform::Write(number(2)));
    let mut second = TransformSet::new();
    second.push(Key::Hash([1; 32]), Transform::Write(number(1)));
    let half = other.commit(&GlobalState::empty_root(), &first).expect("applies");
    let in_steps = other.commit(&half, &second).expect("applies");
    assert_eq!(at_once, in_steps);
}

#[test]
fn commit_to_unknown_root_is_refused() {
    let mut state = GlobalState::new();
    let mut set = TransformSet::new();
    set.push(Key::Hash([1; 32]), Transform::Write(number(1)));
    let unknown = Digest { bytes: [9; 32] };
    assert_eq!(state.commit(&unknown, &set), Err(Error::UnknownRoot));
}

#[test]
fn write_without_the_right_to_write_is_refused() {
    let mut state = GlobalState::new();
    let empty = GlobalState::empty_root();
    let read_only = Key::URef([4; 32], AccessRights::read_only());
    let mut set = TransformSet::new();
    set.push(Key::Hash([1; 32]), Transform::Write(number(1)));
    set.push(read_only, Transform::Write(number(2)));
    assert_eq!(state.commit(&empty, &set), Err(Error::InsufficientAccessRights));
    assert_eq!(state.read(&empty, &Key::Hash([1; 32])), Ok(None));
    assert_eq!(state.read(&empty, &read_only), Ok(None));
    let mut read = TransformSet::new();
    read.push(read_only, Transform::Identity);
    assert_eq!(state.commit(&empty, &read), Ok(empty));
    let mut add = TransformSet::new();
    add.push(read_only, Transform::AddU512(U512::from(1)));
    assert_eq!(state.commit(&empty, &add), Err(Error::InsufficientAccessRights));
}

#[test]
fn one_bad_transform_refuses_the_whole_set() {
    let mut state = GlobalState::new();
    let empty = GlobalState::empty_root();
    let mut seed = TransformSet::new();
    seed.push(Key::Hash([1; 32]), Transform::Write(Value::CLValue(CLValue::String("text".to_string()))));
    let seeded = state.commit(&empty, &seed).expect("the seed applies");
    let mut set = TransformSet::new();
    set.push(Key::Hash([2; 32]), Transform::Write(number(1)));
    set.push(Key::Hash([1; 32]), Transform::AddU512(U512::from(1)));
    assert_eq!(state.commit(&seeded, &set), Err(Error::TypeMismatch));
    assert_eq!(state.read(&seeded, &Key::Hash([2; 32])), Ok(None));
    assert_eq!(
        state.read(&seeded, &Key::Hash([1; 32])),
        Ok(Some(Value::CLValue(CLValue::String("text".to_string()))))
    );
    let mut missing = TransformSet::new();
    missing.push(Key::Hash([3; 32]), Transform::AddU512(U512::from(1)));
    assert_eq!(state.commit(&seeded, &missing), Err(Error::TypeMismatch));
}

#[test]
fn add_keys_enters_names_in_a_contract() {
    let mut state = GlobalState::new();
    let contract_key = Key::Hash([5; 32]);
    let mut set = TransformSet::new();
    set.push(
        contract_key,
        Transform::Write(Value::Contract(Contract { bytes: vec![1, 2, 3], named_keys: NamedKeys::new() })),
    );
    let mut names = NamedKeys::new();
    names.insert("purse".to_string(), purse(1));
    set.push(contract_key, Transform::AddKeys(names));
    let root = state.commit(&GlobalState::empty_root(), &set).expect("applies");
    match state.read(&root, &contract_key) {
        Ok(Some(Value::Contract(contract))) => {
            assert_eq!(contract.bytes, vec![1, 2, 3]);
            assert_eq!(contract.named_keys.get("purse"), Some(purse(1)));
            assert_eq!(contract.named_keys.get("other"), None);
        }
        other => panic!("a contract was expected, not {:?}", other),
    }
}

#[test]
fn keys_that_share_a_long_prefix_are_told_apart() {
    let mut state = GlobalState::new();
    let mut a = [0u8; 32];
    let mut b = [0u8; 32];
    a[31] = 1;
    b[31] = 3;
    let mut set = TransformSet::new();
    set.push(Key::Hash(a), Transform::Write(number(1)));
    set.push(Key::Hash(b), Transform::Write(number(2)));
    set.push(Key::URef(a, AccessRights::all()), Transform::Write(number(3)));
    let root = state.commit(&GlobalState::empty_root(), &set).expect("applies");
    assert_eq!(state.read(&root, &Key::Hash(a)), Ok(Some(number(1))));
    assert_eq!(state.read(&root, &Key::Hash(b)), Ok(Some(number(2))));
    assert_eq!(state.read(&root, &Key::URef(a, AccessRights::none())), Ok(Some(number(3))));
    assert_eq!(state.read(&root, &Key::Local(a)), Ok(None));
}

#[test]
fn many_keys_in_many_commits() {
    let mut state = GlobalState::new();
    let mut root = GlobalState::empty_root();
    let mut roots = vec![root];
    for round in 0..20u64 {
        let mut set = TransformSet::new();
        for i in 0..100u64 {
            let mut id = [0u8; 32];
            id[..8].copy_from_slice(&(i * 7919).to_be_bytes());
            id[31] = (round % 3) as u8;
            set.push(Key::Hash(id), Transform::Write(number(round)));
            set.push(Key::Hash(id), Transform::AddU512(U512::from(i)));
        }
        root = state.commit(&root, &set).expect("applies");
        roots.push(root);
    }
    let mut id = [0u8; 32];
    id[..8].copy_from_slice(&(5u64 * 7919).to_be_bytes());
    id[31] = 1;
    assert_eq!(state.read(&root, &Key::Hash(id)), Ok(Some(number(19 + 5))));
    assert_eq!(state.read(&roots[2], &Key::Hash(id)), Ok(Some(number(1 + 5))));
    assert_eq!(state.read(&roots[1], &Key::Hash(id)), Ok(None));
    id[31] = 2;
    assert_eq!(state.read(&root, &Key::Hash(id)), Ok(Some(number(17 + 5))));
    for known in &roots {
        assert!(state.knows(known));
    }
}

#[test]
fn amounts_that_do_not_add_up_refuse_the_whole_set() {
    let mut state = GlobalState::new();
    let empty = GlobalState::empty_root();
    let mut seed = TransformSet::new();
    seed.push(purse(1), Transform::Write(Value::from_u512(U512::max_value())));
    seed.push(purse(2), Transform::Write(Value::Unit));
    let seeded = state.commit(&empty, &seed).expect("the seed applies");

    let mut over = TransformSet::new();
    over.push(Key::Hash([2; 32]), Transform::Write(number(1)));
    over.push(purse(1), Transform::AddU512(U512::from(1)));
    assert_eq!(state.commit(&seeded, &over), Err(Error::Overflow));
    assert_eq!(state.read(&seeded, &Key::Hash([2; 32])), Ok(None));
    assert_eq!(state.read(&seeded, &purse(1)), Ok(Some(Value::from_u512(U512::max_value()))));

    let mut merged = TransformSet::new();
    merged.push(purse(3), Transform::AddU512(U512::max_value()));
    merged.push(purse(3), Transform::AddU512(U512::from(1)));
    assert_eq!(state.commit(&seeded, &merged), Err(Error::Overflow));
}

#[test]
fn a_type_mismatch_is_reported_before_an_overflow() {
    let mut state = GlobalState::new();
    let empty = GlobalState::empty_root();
    let mut seed = TransformSet::new();
    seed.push(purse(1), Transform::Write(Value::from_u512(U512::max_value())));
    seed.push(purse(2), Transform::Write(Value::Unit));
    let seeded = state.commit(&empty, &seed).expect("the seed applies");

    let mut one = TransformSet::new();
    one.push(purse(1), Transform::AddU512(U512::from(1)));
    one.push(purse(2), Transform::AddU512(U512::from(1)));
    let mut other = TransformSet::new();
    other.push(purse(2), Transform::AddU512(U512::from(1)));
    other.push(purse(1), Transform::AddU512(U512::from(1)));
    assert_eq!(state.commit(&seeded, &one), Err(Error::TypeMismatch));
    assert_eq!(state.commit(&seeded, &other), Err(Error::TypeMismatch));
}
