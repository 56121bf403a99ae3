use vstd::prelude::*;
use crate::key::{same_bytes, Key};
use crate::named_keys::{NamedKeys, NamedKeysView};
use crate::uint512::U512;

verus! {

/// Whether two byte strings are the same.
pub fn same_byte_vec(a: &Vec<u8>, b: &Vec<u8>) -> (r: bool)
    ensures
        r == (a@ == b@),
{
    if a.len() != b.len() {
        return false;
    }
    let mut i: usize = 0;
    while i < a.len()
        invariant
            i <= a.len(),
            a.len() == b.len(),
            forall|j: int| 0 <= j < i ==> a@[j] == b@[j],
        decreases a.len() - i,
    {
        if a[i] != b[i] {
            return false;
        }
        i = i + 1;
    }
    assert(a@ =~= b@);
    true
}

/// A public key that may sign for an account, with the weight of its
/// signature.
#[derive(Debug, Clone, Copy)]
pub struct AssociatedKey {
    pub public_key: [u8; 32],
    pub weight: u8,
}

/// The signature weights that an account demands.
#[derive(Debug, Clone, Copy, PartialEq, Eq, Structural)]
pub struct ActionThresholds {
    pub deployment: u8,
    pub key_management: u8,
}

/// Whether two lists of associated keys are the same.
fn same_associated_keys(a: &Vec<AssociatedKey>, b: &Vec<AssociatedKey>) -> (r: bool)
    ensures
        r == (a@ == b@),
{
    if a.len() != b.len() {
        return false;
    }
    let mut i: usize = 0;
    while i < a.len()
        invariant
            i <= a.len(),
            a.len() == b.len(),
            forall|j: int| 0 <= j < i ==> a@[j] == b@[j],
        decreases a.len() - i,
    {
        if !(same_bytes(&a[i].public_key, &b[i].public_key) && a[i].weight == b[i].weight) {
            return false;
        }
        i = i + 1;
    }
    assert(a@ =~= b@);
    true
}

/// An account: who may act for it, where its currency lies, and what it
/// knows by name.
#[derive(Debug)]
pub struct Account {
    pub public_key: [u8; 32],
    pub nonce: u64,
    pub named_keys: NamedKeys,
    /// The reference to the purse that holds the account's balance.
    pub purse: Key,
    pub associated_keys: Vec<AssociatedKey>,
    pub action_thresholds: ActionThresholds,
}

/// The mathematical form of an account.
pub struct AccountView {
    pub public_key: [u8; 32],
    pub nonce: u64,
    pub named_keys: NamedKeysView,
    pub purse: Key,
    pub associated_keys: Seq<AssociatedKey>,
    pub action_thresholds: ActionThresholds,
}

impl View for Account {
    type V = AccountView;

    open spec fn view(&self) -> AccountView {
        AccountView {
            public_key: self.public_key,
            nonce: self.nonce,
            named_keys: self.named_keys@,
            purse: self.purse,
            associated_keys: self.associated_keys@,
            action_thresholds: self.action_thresholds,
        }
    }
}

impl Clone for Account {
    fn clone(&self) -> (r: Account)
        ensures
            r@ == self@,
    {
        Account {
            public_key: self.public_key,
            nonce: self.nonce,
            named_keys: self.named_keys.clone(),
            purse: self.purse,
            associated_keys: vstd::slice::slice_to_vec(self.associated_keys.as_slice()),
            action_thresholds: self.action_thresholds,
        }
    }
}

impl PartialEq for Account {
    fn eq(&self, other: &Account) -> (r: bool) {
        same_bytes(&self.public_key, &other.public_key) && self.nonce == other.nonce
            && self.named_keys == other.named_keys && self.purse == other.purse
            && same_associated_keys(&self.associated_keys, &other.associated_keys)
            && self.action_thresholds == other.action_thresholds
    }
}

impl vstd::std_specs::cmp::PartialEqSpecImpl for Account {
    open spec fn obeys_eq_spec() -> bool {
        true
    }

    open spec fn eq_spec(&self, other: &Account) -> bool {
        self@ == other@
    }
}

/// A stored contract: its byte-code and what it knows by name.
#[derive(Debug)]
pub struct Contract {
    pub bytes: Vec<u8>,
    pub named_keys: NamedKeys,
}

/// The mathematical form of a contract.
pub struct ContractView {
    pub bytes: Seq<u8>,
    pub named_keys: NamedKeysView,
}

impl View for Contract {
    type V = ContractView;

    open spec fn view(&self) -> ContractView {
        ContractView { bytes: self.bytes@, named_keys: self.named_keys@ }
    }
}

impl Clone for Contract {
    fn clone(&self) -> (r: Contract)
        ensures
            r@ == self@,
    {
        Contract {
            bytes: vstd::slice::slice_to_vec(self.bytes.as_slice()),
            named_keys: self.named_keys.clone(),
        }
    }
}

impl PartialEq for Contract {
    fn eq(&self, other: &Contract) -> (r: bool) {
        same_byte_vec(&self.bytes, &other.bytes) && self.named_keys == other.named_keys
    }
}

impl vstd::std_specs::cmp::PartialEqSpecImpl for Contract {
    open spec fn obeys_eq_spec() -> bool {
        true
    }

    open spec fn eq_spec(&self, other: &Contract) -> bool {
        self@ == other@
    }
}

/// Typed data that a contract stores.
#[derive(Debug)]
pub enum CLValue {
    Int128(i128),
    U512(U512),
    OptionU64(Option<u64>),
    String(String),
    Key(Key),
}

/// The mathematical form of typed data: a 512-bit integer is the number
/// that it denotes.
pub enum CLValueView {
    Int128(i128),
    U512(nat),
    OptionU64(Option<u64>),
    String(Seq<char>),
    Key(Key),
}

impl View for CLValue {
    type V = CLValueView;

    open spec fn view(&self) -> CLValueView {
        match self {
            CLValue::Int128(n) => CLValueView::Int128(*n),
            CLValue::U512(n) => CLValueView::U512(n@),
            CLValue::OptionU64(n) => CLValueView::OptionU64(*n),
            CLValue::String(s) => CLValueView::String(s@),
            CLValue::Key(k) => CLValueView::Key(*k),
        }
    }
}

impl Clone for CLValue {
    fn clone(&self) -> (r: CLValue)
        ensures
            r@ == self@,
    {
        match self {
            CLValue::Int128(n) => CLValue::Int128(*n),
            CLValue::U512(n) => CLValue::U512(*n),
            CLValue::OptionU64(n) => CLValue::OptionU64(*n),
            CLValue::String(s) => CLValue::String(s.clone()),
            CLValue::Key(k) => CLValue::Key(*k),
        }
    }
}

impl PartialEq for CLValue {
    fn eq(&self, other: &CLValue) -> (r: bool) {
        match (self, other) {
            (CLValue::Int128(a), CLValue::Int128(b)) => *a == *b,
            (CLValue::U512(a), CLValue::U512(b)) => *a == *b,
            (CLValue::OptionU64(a), CLValue::OptionU64(b)) => match (a, b) {
                (Some(x), Some(y)) => *x == *y,
                (None, None) => true,
                _ => false,
            },
            (CLValue::String(a), CLValue::String(b)) => *a == *b,
            (CLValue::Key(a), CLValue::Key(b)) => *a == *b,
            _ => false,
        }
    }
}

impl vstd::std_specs::cmp::PartialEqSpecImpl for CLValue {
    open spec fn obeys_eq_spec() -> bool {
        true
    }

    open spec fn eq_spec(&self, other: &CLValue) -> bool {
        self@ == other@
    }
}

/// What global state can hold under a key.
#[derive(Debug)]
pub enum Value {
    Account(Account),
    Contract(Contract),
    CLValue(CLValue),
    Unit,
}

/// The mathematical form of a stored value.
pub enum ValueView {
    Account(AccountView),
    Contract(ContractView),
    CLValue(CLValueView),
    Unit,
}

impl View for Value {
    type V = ValueView;

    open spec fn view(&self) -> ValueView {
        match self {
            Value::Account(a) => ValueView::Account(a@),
            Value::Contract(c) => ValueView::Contract(c@),
            Value::CLValue(v) => ValueView::CLValue(v@),
            Value::Unit => ValueView::Unit,
        }
    }
}

/// The mathematical form of a value that may be absent.
pub open spec fn held_view(v: Option<Value>) -> Option<ValueView> {
    match v {
        Some(v) => Some(v@),
        None => None,
    }
}

impl Value {
    /// The stored form of a 512-bit integer.
    pub fn from_u512(n: U512) -> (r: Value)
        ensures
            r@ == ValueView::CLValue(CLValueView::U512(n@)),
    {
        Value::CLValue(CLValue::U512(n))
    }

    /// The stored form of a key.
    pub fn from_key(key: Key) -> (r: Value)
        ensures
            r@ == ValueView::CLValue(CLValueView::Key(key)),
    {
        Value::CLValue(CLValue::Key(key))
    }
}

impl Clone for Value {
    fn clone(&self) -> (r: Value)
        ensures
            r@ == self@,
    {
        match self {
            Value::Account(a) => Value::Account(a.clone()),
            Value::Contract(c) => Value::Contract(c.clone()),
            Value::CLValue(v) => Value::CLValue(v.clone()),
            Value::Unit => Value::Unit,
        }
    }
}

impl PartialEq for Value {
    fn eq(&self, other: &Value) -> (r: bool) {
        match (self, other) {
            (Value::Account(a), Value::Account(b)) => *a == *b,
            (Value::Contract(a), Value::Contract(b)) => *a == *b,
            (Value::CLValue(a), Value::CLValue(b)) => *a == *b,
            (Value::Unit, Value::Unit) => true,
            _ => false,
        }
    }
}

impl vstd::std_specs::cmp::PartialEqSpecImpl for Value {
    open spec fn obeys_eq_spec() -> bool {
        true
    }

    open spec fn eq_spec(&self, other: &Value) -> bool {
        self@ == other@
    }
}

} // verus!
