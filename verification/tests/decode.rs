use execution_engine::decode::{read_key, read_string, read_u64, read_value};
use execution_engine::key::{AccessRights, Key};
use execution_engine::named_keys::NamedKeys;
use execution_engine::transform::Transform;
use execution_engine::transform_set::TransformSet;
use execution_engine::uint512::U512;
use execution_engine::value::{
    Account, ActionThresholds, AssociatedKey, CLValue, Contract, Value,
};

fn names() -> NamedKeys {
    let mut table = NamedKeys::new();
    table.insert("mint".to_string(), Key::URef([4; 32], AccessRights::read_only()));
    table.insert("p\u{f6}s \u{2713}".to_string(), Key::Hash([5; 32]));
    table
}

fn every_kind() -> TransformSet {
    let account = Account {
        public_key: [7; 32],
        nonce: 3,
        named_keys: names(),
        purse: Key::URef([8; 32], AccessRights::all()),
        associated_keys: vec![
            AssociatedKey { public_key: [7; 32], weight: 1 },
            AssociatedKey { public_key: [9; 32], weight: 200 },
        ],
        action_thresholds: ActionThresholds { deployment: 1, key_management: 2 },
    };
    let (big, _) = U512::max_value().overflowing_sub(U512::from(12345));
    let mut set = TransformSet::new();
    set.push(Key::Account([7; 32]), Transform::Write(Value::Account(account)));
    set.push(
        Key::Hash([1; 32]),
        Transform::Write(Value::Contract(Contract { bytes: vec![0, 97, 115, 109], named_keys: names() })),
    );
    set.push(Key::Local([2; 32]), Transform::Write(Value::Unit));
    set.push(Key::Local([2; 32]), Transform::Identity);
    set.push(Key::URef([3; 32], AccessRights::all()), Transform::Write(Value::from_u512(big)));
    set.push(Key::URef([3; 32], AccessRights { read: false, write: false, add: true }), Transform::AddU512(big));
    set.push(Key::Hash([6; 32]), Transform::Write(Value::CLValue(CLValue::Int128(i128::MIN))));
    set.push(Key::Hash([6; 32]), Transform::AddInt128(-1));
    set.push(Key::Hash([6; 32]), Transform::AddInt128(i128::MAX));
    set.push(Key::Hash([10; 32]), Transform::Write(Value::CLValue(CLValue::OptionU64(None))));
    set.push(Key::Hash([11; 32]), Transform::Write(Value::CLValue(CLValue::OptionU64(Some(u64::MAX)))));
    set.push(Key::Hash([12; 32]), Transform::Write(Value::CLValue(CLValue::String("gr\u{fc}\u{df}e".to_string()))));
    set.push(Key::Hash([13; 32]), Transform::Write(Value::from_key(Key::Account([1; 32]))));
    set.push(Key::Hash([1; 32]), Transform::AddKeys(names()));
    set
}

fn same(a: &TransformSet, b: &TransformSet) -> bool {
    a.len() == b.len()
        && a.entries.iter().zip(b.entries.iter()).all(|(x, y)| {
            x.key == y.key && format!("{:?}", x.transform) == format!("{:?}", y.transform)
        })
}

#[test]
fn written_sets_are_read_back() {
    let set = every_kind();
    let bytes = set.to_bytes();
    let back = TransformSet::from_bytes(&bytes).expect("the bytes are those of a set");
    assert!(same(&set, &back));
    assert_eq!(back.to_bytes(), bytes);
    let empty = TransformSet::new();
    assert_eq!(empty.to_bytes(), vec![0; 8]);
    assert_eq!(TransformSet::from_bytes(&[0; 8]).map(|s| s.len()), Some(0));
}

#[test]
fn bytes_of_a_small_set() {
    let mut set = TransformSet::new();
    set.push(Key::URef([3; 32], AccessRights::all()), Transform::AddInt128(-2));
    set.push(Key::Hash([1; 32]), Transform::Identity);
    let mut expected = vec![2, 0, 0, 0, 0, 0, 0, 0, 1];
    expected.extend_from_slice(&[3; 32]);
    expected.extend_from_slice(&[7, 2, 254]);
    expected.extend_from_slice(&[255; 15]);
    expected.push(2);
    expected.extend_from_slice(&[1; 32]);
    expected.extend_from_slice(&[0, 0]);
    assert_eq!(set.to_bytes(), expected);
}

#[test]
fn cut_or_lengthened_bytes_are_no_set() {
    let bytes = every_kind().to_bytes();
    for cut in [0, 1, 7, 8, 9, 42, bytes.len() / 2, bytes.len() - 1] {
        assert!(TransformSet::from_bytes(&bytes[..cut]).is_none(), "cut at {}", cut);
    }
    let mut longer = bytes.clone();
    longer.push(0);
    assert!(TransformSet::from_bytes(&longer).is_none());
}

#[test]
fn wrong_tags_are_refused() {
    let mut set = TransformSet::new();
    set.push(Key::Hash([1; 32]), Transform::Write(Value::CLValue(CLValue::String("ab".to_string()))));
    let bytes = set.to_bytes();
    assert!(TransformSet::from_bytes(&bytes).is_some());
    let mut bad_kind = bytes.clone();
    bad_kind[8] = 4;
    assert!(TransformSet::from_bytes(&bad_kind).is_none());
    let mut bad_rights = bytes.clone();
    bad_rights[41] = 1;
    assert!(TransformSet::from_bytes(&bad_rights).is_none());
    let mut bad_transform = bytes.clone();
    bad_transform[42] = 5;
    assert!(TransformSet::from_bytes(&bad_transform).is_none());
    let mut bad_value = bytes.clone();
    bad_value[43] = 4;
    assert!(TransformSet::from_bytes(&bad_value).is_none());
    let mut bad_text = bytes.clone();
    let last = bad_text.len() - 1;
    bad_text[last] = 0xff;
    assert!(TransformSet::from_bytes(&bad_text).is_none());
    let mut bad_count = bytes.clone();
    bad_count[0] = 2;
    assert!(TransformSet::from_bytes(&bad_count).is_none());
}

#[test]
fn rights_of_a_reference_are_read_back() {
    let mut bytes = vec![1];
    bytes.extend_from_slice(&[9; 32]);
    bytes.push(5);
    assert_eq!(
        read_key(&bytes, 0),
        Some((Key::URef([9; 32], AccessRights { read: true, write: false, add: true }), 34))
    );
    bytes[33] = 8;
    assert_eq!(read_key(&bytes, 0), None);
    assert_eq!(read_key(&bytes, 1), None);
}

#[test]
fn parts_are_read_at_their_positions() {
    let data = [9, 1, 2, 0, 0, 0, 0, 0, 0, 2, 0, 0, 0, 0, 0, 0, 0, 104, 105, 3];
    assert_eq!(read_u64(&data, 1), Some((513, 9)));
    assert_eq!(read_string(&data, 9), Some(("hi".to_string(), 19)));
    assert_eq!(read_value(&data, 19), Some((Value::Unit, 20)));
    assert_eq!(read_u64(&data, 13), None);
    assert_eq!(read_value(&data, 20), None);
    assert_eq!(read_string(&data, 1), None);
}
