use execution_engine::error::Error;
use execution_engine::key::{AccessRights, Key, KeyKind};
use execution_engine::named_keys::NamedKeys;
use execution_engine::store::Node;
use execution_engine::transform::Transform;
use execution_engine::transform_set::{check_access, effective, TransformSet};
use execution_engine::uint512::U512;
use execution_engine::value::{
    Account, ActionThresholds, AssociatedKey, CLValue, Contract, Value,
};

fn number(n: u64) -> Value {
    Value::from_u512(U512::from(n))
}

fn names(entries: &[(&str, Key)]) -> NamedKeys {
    let mut table = NamedKeys::new();
    for (name, key) in entries {
        table.insert(name.to_string(), *key);
    }
    table
}

#[test]
fn identity_and_write() {
    assert_eq!(Transform::Identity.apply(number(4)), Ok(number(4)));
    assert_eq!(Transform::Write(Value::Unit).apply(number(4)), Ok(Value::Unit));
    assert_eq!(Transform::Identity.apply_to(None), Ok(None));
    assert_eq!(Transform::Write(number(1)).apply_to(None), Ok(Some(number(1))));
}

#[test]
fn sums_are_exact_or_fail() {
    assert_eq!(Transform::AddU512(U512::from(3)).apply(number(5)), Ok(number(8)));
    assert_eq!(
        Transform::AddU512(U512::from(2)).apply(Value::from_u512(U512::max_value())),
        Err(Error::Overflow)
    );
    assert_eq!(
        Transform::AddU512(U512::zero()).apply(Value::from_u512(U512::max_value())),
        Ok(Value::from_u512(U512::max_value()))
    );
    assert_eq!(
        Transform::AddInt128(-7).apply(Value::CLValue(CLValue::Int128(5))),
        Ok(Value::CLValue(CLValue::Int128(-2)))
    );
    assert_eq!(
        Transform::AddInt128(1).apply(Value::CLValue(CLValue::Int128(i128::MAX))),
        Err(Error::Overflow)
    );
    assert_eq!(
        Transform::AddInt128(-1).apply(Value::CLValue(CLValue::Int128(i128::MIN))),
        Err(Error::Overflow)
    );
    assert_eq!(
        Transform::AddInt128(i128::MIN).apply(Value::CLValue(CLValue::Int128(i128::MAX))),
        Ok(Value::CLValue(CLValue::Int128(-1)))
    );
}

#[test]
fn sum_onto_another_type_is_a_mismatch() {
    assert_eq!(Transform::AddU512(U512::from(3)).apply(Value::Unit), Err(Error::TypeMismatch));
    assert_eq!(
        Transform::AddU512(U512::from(3)).apply(Value::CLValue(CLValue::Int128(1))),
        Err(Error::TypeMismatch)
    );
    assert_eq!(Transform::AddInt128(3).apply(number(1)), Err(Error::TypeMismatch));
    assert_eq!(
        Transform::AddInt128(3).apply(Value::CLValue(CLValue::OptionU64(Some(1)))),
        Err(Error::TypeMismatch)
    );
    assert_eq!(Transform::AddU512(U512::from(3)).apply_to(None), Err(Error::TypeMismatch));
    assert_eq!(
        Transform::AddKeys(NamedKeys::new()).apply(number(1)),
        Err(Error::TypeMismatch)
    );
}

#[test]
fn names_are_entered_in_accounts_and_contracts() {
    let a = Key::Hash([1; 32]);
    let b = Key::Hash([2; 32]);
    let c = Key::Hash([3; 32]);
    let contract = Value::Contract(Contract { bytes: vec![9], named_keys: names(&[("x", a), ("y", b)]) });
    let added = Transform::AddKeys(names(&[("y", c), ("z", a)])).apply(contract);
    assert_eq!(
        added,
        Ok(Value::Contract(Contract {
            bytes: vec![9],
            named_keys: names(&[("x", a), ("y", c), ("z", a)]),
        }))
    );
    let account = Account {
        public_key: [7; 32],
        nonce: 3,
        named_keys: NamedKeys::new(),
        purse: Key::URef([8; 32], AccessRights::all()),
        associated_keys: vec![AssociatedKey { public_key: [7; 32], weight: 1 }],
        action_thresholds: ActionThresholds { deployment: 1, key_management: 1 },
    };
    match Transform::AddKeys(names(&[("x", a)])).apply(Value::Account(account)) {
        Ok(Value::Account(account)) => {
            assert_eq!(account.named_keys.get("x"), Some(a));
            assert_eq!(account.nonce, 3);
            assert_eq!(account.named_keys.len(), 1);
        }
        other => panic!("an account was expected, not {:?}", other),
    }
}

#[test]
fn merge_rules() {
    let write5 = || Transform::Write(number(5));
    let add3 = || Transform::AddU512(U512::from(3));
    assert_eq!(write5().merge(add3()).map(|t| t.apply_to(None)), Ok(Ok(Some(number(8)))));
    assert_eq!(add3().merge(write5()).map(|t| t.apply_to(None)), Ok(Ok(Some(number(5)))));
    assert_eq!(
        add3().merge(add3()).map(|t| t.apply(number(1))),
        Ok(Ok(number(7)))
    );
    assert_eq!(
        Transform::Identity.merge(add3()).map(|t| t.apply(number(1))),
        Ok(Ok(number(4)))
    );
    assert_eq!(
        add3().merge(Transform::Identity).map(|t| t.apply(number(1))),
        Ok(Ok(number(4)))
    );
    assert!(matches!(
        Transform::AddInt128(i128::MAX).merge(Transform::AddInt128(1)),
        Err(Error::Overflow)
    ));
    assert!(matches!(
        Transform::AddU512(U512::max_value()).merge(Transform::AddU512(U512::from(1))),
        Err(Error::Overflow)
    ));
    assert!(matches!(
        Transform::Write(Value::from_u512(U512::max_value())).merge(Transform::AddU512(U512::from(1))),
        Err(Error::Overflow)
    ));
    assert_eq!(
        Transform::AddInt128(i128::MAX).merge(Transform::AddInt128(-1)).map(|t| t.apply(Value::CLValue(CLValue::Int128(0)))),
        Ok(Ok(Value::CLValue(CLValue::Int128(i128::MAX - 1))))
    );
    assert!(matches!(Transform::Write(Value::Unit).merge(add3()), Err(Error::TypeMismatch)));
    assert!(matches!(add3().merge(Transform::AddInt128(1)), Err(Error::TypeMismatch)));
    assert!(matches!(add3().merge(Transform::AddKeys(NamedKeys::new())), Err(Error::TypeMismatch)));
    let a = Key::Hash([1; 32]);
    let b = Key::Hash([2; 32]);
    let joined = Transform::AddKeys(names(&[("x", a)])).merge(Transform::AddKeys(names(&[("x", b)])));
    let contract = Value::Contract(Contract { bytes: vec![], named_keys: NamedKeys::new() });
    match joined.map(|t| t.apply(contract)) {
        Ok(Ok(Value::Contract(contract))) => assert_eq!(contract.named_keys.get("x"), Some(b)),
        other => panic!("a contract was expected, not {:?}", other),
    }
}

#[test]
fn effects_hold_each_place_once() {
    let mut set = TransformSet::new();
    set.push(Key::URef([1; 32], AccessRights::all()), Transform::Write(number(5)));
    set.push(Key::Hash([1; 32]), Transform::Write(number(1)));
    set.push(Key::URef([1; 32], AccessRights::read_only()), Transform::AddU512(U512::from(3)));
    assert_eq!(set.len(), 3);
    let effects = effective(&set);
    assert_eq!(effects.len(), 2);
    assert_eq!(effects[0].address.kind, KeyKind::URef);
    match &effects[0].merged {
        Ok(merged) => assert_eq!(merged.apply_to(None), Ok(Some(number(8)))),
        Err(e) => panic!("the transforms merge, but {:?}", e),
    }
    assert_eq!(effects[1].address.kind, KeyKind::Hash);
    assert!(!check_access(&set));
    let held = set.outcome(None, &Key::URef([1; 32], AccessRights::none()).address());
    assert_eq!(held, Ok(Some(number(8))));
    assert_eq!(set.outcome(Some(Value::Unit), &Key::Hash([9; 32]).address()), Ok(Some(Value::Unit)));
    set.push(Key::Hash([1; 32]), Transform::AddInt128(1));
    set.push(Key::Hash([1; 32]), Transform::Write(number(2)));
    let effects = effective(&set);
    assert_eq!(effects.len(), 2);
    assert!(matches!(effects[1].merged, Err(Error::TypeMismatch)));
    assert!(effects[0].merged.is_ok());
    assert_eq!(set.outcome(None, &Key::Hash([1; 32]).address()), Err(Error::TypeMismatch));
    assert_eq!(set.clone().len(), 5);
}

#[test]
fn access_rights_as_bits() {
    assert_eq!(AccessRights::none().bits(), 0);
    assert_eq!(AccessRights::read_only().bits(), 1);
    assert_eq!(AccessRights::all().bits(), 7);
    assert_eq!(AccessRights { read: false, write: true, add: true }.bits(), 6);
    assert_eq!(AccessRights::from_bits(5), Some(AccessRights { read: true, write: false, add: true }));
    assert_eq!(AccessRights::from_bits(8), None);
}

#[test]
fn keys_and_their_places() {
    let reference = Key::URef([3; 32], AccessRights::all());
    let weaker = Key::URef([3; 32], AccessRights::read_only());
    assert_ne!(reference, weaker);
    assert_eq!(reference.address(), weaker.address());
    assert_ne!(reference.address(), Key::Hash([3; 32]).address());
    assert_eq!(reference.kind().tag(), 1);
    assert_eq!(Key::Local([3; 32]).kind().tag(), 3);
    assert_eq!(reference.id(), [3; 32]);
    assert_eq!(weaker.access_rights(), Some(AccessRights::read_only()));
    assert_eq!(Key::Account([3; 32]).access_rights(), None);
    assert_eq!(reference.to_u_ptr(), Some(reference));
    assert_eq!(Key::Hash([3; 32]).to_u_ptr(), None);
    assert_eq!(Key::Hash([3; 32]).to_c_ptr(), Some(Key::Hash([3; 32])));
    assert_eq!(Key::Account([3; 32]).to_c_ptr(), None);
}

#[test]
fn bytes_of_nodes() {
    assert_eq!(Node::Empty.encode(), vec![0]);
    let leaf = Node::Leaf(Key::Hash([7; 32]).address(), Value::CLValue(CLValue::OptionU64(Some(258))));
    let mut expected = vec![1, 2];
    expected.extend_from_slice(&[7; 32]);
    expected.extend_from_slice(&[2, 2, 1, 2, 1, 0, 0, 0, 0, 0, 0]);
    assert_eq!(leaf.encode(), expected);
    let text = Node::Leaf(Key::Account([0; 32]).address(), Value::CLValue(CLValue::String("ab".to_string())));
    let mut expected = vec![1, 0];
    expected.extend_from_slice(&[0; 32]);
    expected.extend_from_slice(&[2, 3, 2, 0, 0, 0, 0, 0, 0, 0, 97, 98]);
    assert_eq!(text.encode(), expected);
    let number = Node::Leaf(Key::Local([1; 32]).address(), Value::from_u512(U512::from(513)));
    let bytes = number.encode();
    assert_eq!(bytes.len(), 1 + 33 + 2 + 64);
    assert_eq!(&bytes[34..39], &[2, 1, 1, 2, 0]);
    let key = Node::Leaf(
        Key::Hash([1; 32]).address(),
        Value::from_key(Key::URef([5; 32], AccessRights::read_only())),
    );
    let bytes = key.encode();
    assert_eq!(bytes.len(), 1 + 33 + 2 + 34);
    assert_eq!(bytes[36], 1);
    assert_eq!(bytes[69], 1);
}

#[test]
fn keys_are_ordered_by_variant_then_bytes() {
    let account = Key::Account([9; 32]);
    let reference = Key::URef([0; 32], AccessRights::none());
    let hash = Key::Hash([0; 32]);
    let local = Key::Local([0; 32]);
    assert!(account < reference);
    assert!(reference < hash);
    assert!(hash < local);
    let mut low = [5u8; 32];
    let mut high = [5u8; 32];
    low[31] = 1;
    high[31] = 2;
    assert!(Key::Hash(low) < Key::Hash(high));
    assert_eq!(Key::Hash(low).compare(&Key::Hash(high)), -1);
    assert_eq!(Key::Hash(high).compare(&Key::Hash(low)), 1);
    assert_eq!(Key::Hash(low).compare(&Key::Hash(low)), 0);
    high[0] = 4;
    assert!(Key::Hash(high) < Key::Hash(low));
    assert!(Key::URef(low, AccessRights::read_only()) < Key::URef(low, AccessRights::all()));
    assert!(Key::URef(low, AccessRights::all()) >= Key::URef(low, AccessRights::all()));
}
