use vstd::prelude::*;
use vstd::bytes::{spec_u128_to_le_bytes, spec_u64_to_le_bytes, u128_to_le_bytes, u64_to_le_bytes};
use vstd::utf8::encode_utf8;
use crate::uint512::modulus;
use crate::key::{Address, Key};
use crate::named_keys::{NamedKeys, NamedKeysView};
use crate::transform::{Transform, TransformView};
use crate::transform_set::{TransformSet, TransformSetView};
use crate::value::{
    Account, AccountView, AssociatedKey, CLValue, CLValueView, Contract, ContractView, Value,
    ValueView,
};

verus! {

/// A byte string behind its length.
pub open spec fn encode_bytes(data: Seq<u8>) -> Seq<u8> {
    spec_u64_to_le_bytes(data.len() as u64) + data
}

/// A string as its UTF-8 bytes behind their number.
pub open spec fn encode_string(text: Seq<char>) -> Seq<u8> {
    encode_bytes(encode_utf8(text))
}

/// The variant's tag and the identifier.
pub open spec fn encode_address(address: Address) -> Seq<u8> {
    seq![address.kind.spec_tag()] + address.id@
}

/// The address, and behind it the bitmask of the rights that the key
/// carries, 0 where it carries none.
pub open spec fn encode_key(key: Key) -> Seq<u8> {
    encode_address(key.spec_address()) + seq![
        match key.spec_access_rights() {
            Some(rights) => rights.spec_bits(),
            None => 0u8,
        },
    ]
}

/// The entries from position `from` on, each as its name and its key.
pub open spec fn encode_named_entries(table: NamedKeysView, from: int) -> Seq<u8>
    decreases table.len() - from,
{
    if from < 0 || from >= table.len() {
        Seq::<u8>::empty()
    } else {
        encode_string(table[from].0) + encode_key(table[from].1) + encode_named_entries(
            table,
            from + 1,
        )
    }
}

/// The number of entries and the entries.
pub open spec fn encode_named_keys(table: NamedKeysView) -> Seq<u8> {
    spec_u64_to_le_bytes(table.len() as u64) + encode_named_entries(table, 0)
}

/// The associated keys from position `from` on, each as its public key and
/// its weight.
pub open spec fn encode_associated_entries(keys: Seq<AssociatedKey>, from: int) -> Seq<u8>
    decreases keys.len() - from,
{
    if from < 0 || from >= keys.len() {
        Seq::<u8>::empty()
    } else {
        keys[from].public_key@ + seq![keys[from].weight] + encode_associated_entries(
            keys,
            from + 1,
        )
    }
}

/// The fields of the account, one behind the other.
pub open spec fn encode_account(account: AccountView) -> Seq<u8> {
    account.public_key@ + spec_u64_to_le_bytes(account.nonce) + encode_named_keys(
        account.named_keys,
    ) + encode_key(account.purse) + spec_u64_to_le_bytes(account.associated_keys.len() as u64)
        + encode_associated_entries(account.associated_keys, 0) + seq![
        account.action_thresholds.deployment,
        account.action_thresholds.key_management,
    ]
}

/// The byte-code behind its length, and the named keys.
pub open spec fn encode_contract(contract: ContractView) -> Seq<u8> {
    encode_bytes(contract.bytes) + encode_named_keys(contract.named_keys)
}

/// The 128 bits of a signed integer in two's complement, as an unsigned
/// integer.
pub open spec fn int128_bits(n: i128) -> u128 {
    if n >= 0 {
        n as u128
    } else {
        (n + 0x1_0000_0000_0000_0000_0000_0000_0000_0000) as u128
    }
}

/// The 128 bits of a signed integer in two's complement.
pub fn int128_to_bits(n: i128) -> (r: u128)
    ensures
        r == int128_bits(n),
{
    if n >= 0 {
        n as u128
    } else {
        let high: u128 = 0x8000_0000_0000_0000_0000_0000_0000_0000;
        ((n - i128::MIN) as u128) + high
    }
}

/// A tag for the type, and the datum.
pub open spec fn encode_cl_value(value: CLValueView) -> Seq<u8> {
    match value {
        CLValueView::Int128(n) => seq![0u8] + spec_u128_to_le_bytes(int128_bits(n)),
        CLValueView::U512(n) => seq![1u8] + crate::uint512::nat_to_le_bytes(n),
        CLValueView::OptionU64(None) => seq![2u8, 0u8],
        CLValueView::OptionU64(Some(n)) => seq![2u8, 1u8] + spec_u64_to_le_bytes(n),
        CLValueView::String(s) => seq![3u8] + encode_string(s),
        CLValueView::Key(k) => seq![4u8] + encode_key(k),
    }
}

/// A tag for the variant, and the payload.
pub open spec fn encode_value(value: ValueView) -> Seq<u8> {
    match value {
        ValueView::Account(a) => seq![0u8] + encode_account(a),
        ValueView::Contract(c) => seq![1u8] + encode_contract(c),
        ValueView::CLValue(v) => seq![2u8] + encode_cl_value(v),
        ValueView::Unit => seq![3u8],
    }
}

/// A tag for the variant, and the payload.
pub open spec fn encode_transform(t: TransformView) -> Seq<u8> {
    match t {
        TransformView::Identity => seq![0u8],
        TransformView::Write(v) => seq![1u8] + encode_value(v),
        TransformView::AddInt128(n) => seq![2u8] + spec_u128_to_le_bytes(int128_bits(n)),
        TransformView::AddU512(n) => seq![3u8] + crate::uint512::nat_to_le_bytes(n),
        TransformView::AddKeys(k) => seq![4u8] + encode_named_keys(k),
    }
}

/// The entries from position `from` on, each as its key and its transform.
pub open spec fn encode_entries(set: TransformSetView, from: int) -> Seq<u8>
    decreases set.len() - from,
{
    if from < 0 || from >= set.len() {
        Seq::<u8>::empty()
    } else {
        encode_key(set[from].0) + encode_transform(set[from].1) + encode_entries(set, from + 1)
    }
}

/// The number of entries and the entries.
pub open spec fn encode_transform_set(set: TransformSetView) -> Seq<u8> {
    spec_u64_to_le_bytes(set.len() as u64) + encode_entries(set, 0)
}

/// Whether a string is short enough for its length to be written.
pub open spec fn valid_string(text: Seq<char>) -> bool {
    encode_utf8(text).len() <= u64::MAX
}

/// Whether a table and its names are short enough for their lengths to be
/// written.
pub open spec fn valid_named_keys(table: NamedKeysView) -> bool {
    &&& table.len() <= u64::MAX
    &&& forall|i: int| 0 <= i < table.len() ==> valid_string(#[trigger] table[i].0)
}

/// Whether the lengths in an account can be written.
pub open spec fn valid_account(a: AccountView) -> bool {
    valid_named_keys(a.named_keys) && a.associated_keys.len() <= u64::MAX
}

/// Whether the lengths in a contract can be written.
pub open spec fn valid_contract(c: ContractView) -> bool {
    valid_named_keys(c.named_keys) && c.bytes.len() <= u64::MAX
}

/// Whether a typed datum can be written: a 512-bit integer is below 2^512,
/// and the length of a string can be written.
pub open spec fn valid_cl_value(v: CLValueView) -> bool {
    match v {
        CLValueView::U512(n) => n < modulus(),
        CLValueView::String(text) => valid_string(text),
        _ => true,
    }
}

/// Whether a stored value can be written.
pub open spec fn valid_value(v: ValueView) -> bool {
    match v {
        ValueView::Account(a) => valid_account(a),
        ValueView::Contract(c) => valid_contract(c),
        ValueView::CLValue(v) => valid_cl_value(v),
        ValueView::Unit => true,
    }
}

/// Whether a transform can be written.
pub open spec fn valid_transform(t: TransformView) -> bool {
    match t {
        TransformView::Write(v) => valid_value(v),
        TransformView::AddU512(n) => n < modulus(),
        TransformView::AddKeys(k) => valid_named_keys(k),
        _ => true,
    }
}

/// Whether a transform set can be written.
pub open spec fn valid_set(set: TransformSetView) -> bool {
    &&& set.len() <= u64::MAX
    &&& forall|i: int| 0 <= i < set.len() ==> valid_transform(#[trigger] set[i].1)
}

/// Writes a 64-bit integer, least significant byte first.
pub fn write_u64(out: &mut Vec<u8>, n: u64)
    ensures
        final(out)@ == old(out)@ + spec_u64_to_le_bytes(n),
{
    let bytes = u64_to_le_bytes(n);
    out.extend_from_slice(bytes.as_slice());
}

/// Writes 32 bytes.
pub fn write_bytes32(out: &mut Vec<u8>, bytes: &[u8; 32])
    ensures
        final(out)@ == old(out)@ + bytes@,
{
    out.extend_from_slice(bytes.as_slice());
}

/// Writes a byte string behind its length.
pub fn write_bytes(out: &mut Vec<u8>, data: &[u8])
    ensures
        final(out)@ == old(out)@ + encode_bytes(data@),
        data@.len() <= u64::MAX,
{
    write_u64(out, data.len() as u64);
    out.extend_from_slice(data);
    assert(out@ =~= old(out)@ + encode_bytes(data@));
}

/// Writes a string as its UTF-8 bytes behind their number.
pub fn write_string(out: &mut Vec<u8>, text: &String)
    ensures
        final(out)@ == old(out)@ + encode_string(text@),
        valid_string(text@),
{
    write_bytes(out, text.as_str().as_bytes());
}

/// Writes an address.
pub fn write_address(out: &mut Vec<u8>, address: &Address)
    ensures
        final(out)@ == old(out)@ + encode_address(*address),
{
    out.push(address.kind.tag());
    write_bytes32(out, &address.id);
    assert(out@ =~= old(out)@ + encode_address(*address));
}

/// Writes a key.
pub fn write_key(out: &mut Vec<u8>, key: &Key)
    ensures
        final(out)@ == old(out)@ + encode_key(*key),
{
    write_address(out, &key.address());
    let rights: u8 = match key.access_rights() {
        Some(rights) => rights.bits(),
        None => 0,
    };
    out.push(rights);
    assert(out@ =~= old(out)@ + encode_key(*key));
}

/// Writes a named-key table.
pub fn write_named_keys(out: &mut Vec<u8>, table: &NamedKeys)
    ensures
        final(out)@ == old(out)@ + encode_named_keys(table@),
        valid_named_keys(table@),
{
    write_u64(out, table.entries.len() as u64);
    let ghost start = out@;
    let mut i: usize = 0;
    while i < table.entries.len()
        invariant
            i <= table.entries.len(),
            table@.len() == table.entries.len(),
            forall|j: int| 0 <= j < i ==> valid_string(#[trigger] table@[j].0),
            out@ + encode_named_entries(table@, i as int) == start + encode_named_entries(
                table@,
                0,
            ),
        decreases table.entries.len() - i,
    {
        assert(table@[i as int] == table.entries@[i as int]@);
        let ghost before = out@;
        write_string(out, &table.entries[i].name);
        write_key(out, &table.entries[i].key);
        assert(out@ + encode_named_entries(table@, i + 1) =~= before + encode_named_entries(
            table@,
            i as int,
        ));
        i = i + 1;
    }
    assert(out@ =~= old(out)@ + encode_named_keys(table@));
}

/// Writes an account.
pub fn write_account(out: &mut Vec<u8>, account: &Account)
    ensures
        final(out)@ == old(out)@ + encode_account(account@),
        valid_account(account@),
{
    write_bytes32(out, &account.public_key);
    write_u64(out, account.nonce);
    write_named_keys(out, &account.named_keys);
    write_key(out, &account.purse);
    write_u64(out, account.associated_keys.len() as u64);
    let ghost start = out@;
    let ghost keys = account.associated_keys@;
    let mut i: usize = 0;
    while i < account.associated_keys.len()
        invariant
            i <= account.associated_keys.len(),
            keys == account.associated_keys@,
            out@ + encode_associated_entries(keys, i as int) == start
                + encode_associated_entries(keys, 0),
        decreases account.associated_keys.len() - i,
    {
        let ghost before = out@;
        write_bytes32(out, &account.associated_keys[i].public_key);
        out.push(account.associated_keys[i].weight);
        assert(out@ + encode_associated_entries(keys, i + 1) =~= before
            + encode_associated_entries(keys, i as int));
        i = i + 1;
    }
    out.push(account.action_thresholds.deployment);
    out.push(account.action_thresholds.key_management);
    assert(out@ =~= old(out)@ + encode_account(account@));
}

/// Writes a contract.
pub fn write_contract(out: &mut Vec<u8>, contract: &Contract)
    ensures
        final(out)@ == old(out)@ + encode_contract(contract@),
        valid_contract(contract@),
{
    write_bytes(out, contract.bytes.as_slice());
    write_named_keys(out, &contract.named_keys);
    assert(out@ =~= old(out)@ + encode_contract(contract@));
}

/// Writes typed data.
pub fn write_cl_value(out: &mut Vec<u8>, value: &CLValue)
    ensures
        final(out)@ == old(out)@ + encode_cl_value(value@),
        valid_cl_value(value@),
{
    proof {
        if let CLValue::U512(n) = value {
            n.lemma_bound();
        }
    }
    match value {
        CLValue::Int128(n) => {
            out.push(0);
            let bytes = u128_to_le_bytes(int128_to_bits(*n));
            out.extend_from_slice(bytes.as_slice());
        },
        CLValue::U512(n) => {
            out.push(1);
            n.write_le_bytes(out);
        },
        CLValue::OptionU64(None) => {
            out.push(2);
            out.push(0);
        },
        CLValue::OptionU64(Some(n)) => {
            out.push(2);
            out.push(1);
            write_u64(out, *n);
        },
        CLValue::String(s) => {
            out.push(3);
            write_string(out, s);
        },
        CLValue::Key(k) => {
            out.push(4);
            write_key(out, k);
        },
    }
    assert(out@ =~= old(out)@ + encode_cl_value(value@));
}

/// Writes a stored value.
pub fn write_value(out: &mut Vec<u8>, value: &Value)
    ensures
        final(out)@ == old(out)@ + encode_value(value@),
        valid_value(value@),
{
    match value {
        Value::Account(a) => {
            out.push(0);
            write_account(out, a);
        },
        Value::Contract(c) => {
            out.push(1);
            write_contract(out, c);
        },
        Value::CLValue(v) => {
            out.push(2);
            write_cl_value(out, v);
        },
        Value::Unit => {
            out.push(3);
        },
    }
    assert(out@ =~= old(out)@ + encode_value(value@));
}

/// Writes a transform.
pub fn write_transform(out: &mut Vec<u8>, t: &Transform)
    ensures
        final(out)@ == old(out)@ + encode_transform(t@),
        valid_transform(t@),
{
    proof {
        if let Transform::AddU512(n) = t {
            n.lemma_bound();
        }
    }
    match t {
        Transform::Identity => {
            out.push(0);
        },
        Transform::Write(v) => {
            out.push(1);
            write_value(out, v);
        },
        Transform::AddInt128(n) => {
            out.push(2);
            let bytes = u128_to_le_bytes(int128_to_bits(*n));
            out.extend_from_slice(bytes.as_slice());
        },
        Transform::AddU512(n) => {
            out.push(3);
            n.write_le_bytes(out);
        },
        Transform::AddKeys(k) => {
            out.push(4);
            write_named_keys(out, k);
        },
    }
    assert(out@ =~= old(out)@ + encode_transform(t@));
}

impl TransformSet {
    /// The bytes of the set: what a journal keeps of a commit, and what
    /// crosses from an execution to the commit.
    pub fn to_bytes(&self) -> (r: Vec<u8>)
        ensures
            r@ == encode_transform_set(self@),
            valid_set(self@),
    {
        let mut out: Vec<u8> = Vec::new();
        write_u64(&mut out, self.entries.len() as u64);
        let ghost start = out@;
        let mut i: usize = 0;
        while i < self.entries.len()
            invariant
                i <= self.entries.len(),
                self@.len() == self.entries.len(),
                forall|j: int| 0 <= j < i ==> valid_transform(#[trigger] self@[j].1),
                out@ + encode_entries(self@, i as int) == start + encode_entries(self@, 0),
            decreases self.entries.len() - i,
        {
            assert(self@[i as int] == self.entries@[i as int]@);
            let ghost before = out@;
            write_key(&mut out, &self.entries[i].key);
            write_transform(&mut out, &self.entries[i].transform);
            assert(out@ + encode_entries(self@, i + 1) =~= before + encode_entries(
                self@,
                i as int,
            ));
            i = i + 1;
        }
        assert(out@ =~= encode_transform_set(self@));
        out
    }
}

} // verus!
