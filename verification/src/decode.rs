use vstd::bytes::{
    lemma_auto_spec_u128_to_from_le_bytes, lemma_auto_spec_u64_to_from_le_bytes,
    spec_u128_from_le_bytes, spec_u128_to_le_bytes, spec_u64_from_le_bytes, spec_u64_to_le_bytes,
    u128_from_le_bytes, u64_from_le_bytes,
};
use vstd::prelude::*;
use vstd::slice::{slice_subrange, slice_to_vec};
use vstd::utf8::{decode_utf8, encode_utf8, valid_utf8};
use crate::codec::{
    encode_account, encode_address, encode_associated_entries, encode_bytes, encode_cl_value,
    encode_contract, encode_entries, encode_key, encode_named_entries, encode_named_keys,
    encode_string, encode_transform, encode_transform_set, encode_value, int128_bits,
    valid_account, valid_cl_value, valid_contract, valid_named_keys, valid_set, valid_string,
    valid_transform, valid_value,
};
use crate::key::{AccessRights, Address, Key, KeyKind};
use crate::named_keys::{NamedKey, NamedKeys, NamedKeysView};
use crate::transform::{Transform, TransformView};
use crate::transform_set::{TransformSet, TransformSetView};
use crate::uint512::{
    le_bytes_to_nat, lemma_le_bytes_to_nat, lemma_nat_to_le_bytes, modulus, nat_to_le_bytes, U512,
};
use crate::value::{
    Account, AccountView, ActionThresholds, AssociatedKey, CLValue, CLValueView, Contract,
    ContractView, Value, ValueView,
};

verus! {

/// Whether the byte string holds `part` at position `pos`.
pub open spec fn has_at(s: Seq<u8>, pos: int, part: Seq<u8>) -> bool {
    &&& 0 <= pos
    &&& pos + part.len() <= s.len()
    &&& s.subrange(pos, pos + part.len()) == part
}

/// A byte string that holds two parts one behind the other holds each.
pub proof fn lemma_has_at_split(s: Seq<u8>, pos: int, first: Seq<u8>, second: Seq<u8>)
    requires
        has_at(s, pos, first + second),
    ensures
        has_at(s, pos, first),
        has_at(s, pos + first.len(), second),
{
    let whole = first + second;
    assert(s.subrange(pos, pos + first.len()) =~= whole.subrange(0, first.len() as int));
    assert(whole.subrange(0, first.len() as int) =~= first);
    assert(s.subrange(pos + first.len(), pos + first.len() + second.len()) =~= whole.subrange(
        first.len() as int,
        whole.len() as int,
    ));
    assert(whole.subrange(first.len() as int, whole.len() as int) =~= second);
}

/// The byte at a position, and the position behind it.
pub open spec fn parse_byte(s: Seq<u8>, pos: int) -> Option<(u8, int)> {
    if 0 <= pos < s.len() {
        Some((s[pos], pos + 1))
    } else {
        None
    }
}

/// The 64-bit integer at a position, and the position behind it.
pub open spec fn parse_u64(s: Seq<u8>, pos: int) -> Option<(u64, int)> {
    if 0 <= pos && pos + 8 <= s.len() {
        Some((spec_u64_from_le_bytes(s.subrange(pos, pos + 8)), pos + 8))
    } else {
        None
    }
}

/// The 128-bit integer at a position, and the position behind it.
pub open spec fn parse_u128(s: Seq<u8>, pos: int) -> Option<(u128, int)> {
    if 0 <= pos && pos + 16 <= s.len() {
        Some((spec_u128_from_le_bytes(s.subrange(pos, pos + 16)), pos + 16))
    } else {
        None
    }
}

/// The identifier that 32 bytes make.
pub open spec fn array_of(bytes: Seq<u8>) -> [u8; 32] {
    choose|a: [u8; 32]| a@ == bytes
}

/// The identifier at a position, and the position behind it.
pub open spec fn parse_bytes32(s: Seq<u8>, pos: int) -> Option<([u8; 32], int)> {
    if 0 <= pos && pos + 32 <= s.len() {
        Some((array_of(s.subrange(pos, pos + 32)), pos + 32))
    } else {
        None
    }
}

/// The byte string behind its length at a position, and the position
/// behind it.
pub open spec fn parse_bytes(s: Seq<u8>, pos: int) -> Option<(Seq<u8>, int)> {
    match parse_u64(s, pos) {
        Some((n, p)) => if p + n <= s.len() {
            Some((s.subrange(p, p + n), p + n))
        } else {
            None
        },
        None => None,
    }
}

/// The string at a position, and the position behind it.
pub open spec fn parse_string(s: Seq<u8>, pos: int) -> Option<(Seq<char>, int)> {
    match parse_bytes(s, pos) {
        Some((bytes, p)) => if valid_utf8(bytes) {
            Some((decode_utf8(bytes), p))
        } else {
            None
        },
        None => None,
    }
}

/// The variant that a tag stands for.
pub open spec fn kind_of_tag(tag: u8) -> Option<KeyKind> {
    if tag == 0 {
        Some(KeyKind::Account)
    } else if tag == 1 {
        Some(KeyKind::URef)
    } else if tag == 2 {
        Some(KeyKind::Hash)
    } else if tag == 3 {
        Some(KeyKind::Local)
    } else {
        None
    }
}

/// The address at a position, and the position behind it.
pub open spec fn parse_address(s: Seq<u8>, pos: int) -> Option<(Address, int)> {
    match parse_byte(s, pos) {
        Some((tag, p)) => match (kind_of_tag(tag), parse_bytes32(s, p)) {
            (Some(kind), Some((id, q))) => Some((Address { kind, id }, q)),
            _ => None,
        },
        None => None,
    }
}

/// The key of an address and a bitmask of rights: a reference takes the
/// rights of the bitmask, and any other key takes no bitmask but 0.
pub open spec fn key_of(address: Address, bits: u8) -> Option<Key> {
    match address.kind {
        KeyKind::URef => match AccessRights::spec_from_bits(bits) {
            Some(rights) => Some(Key::URef(address.id, rights)),
            None => None,
        },
        KeyKind::Account => if bits == 0 {
            Some(Key::Account(address.id))
        } else {
            None
        },
        KeyKind::Hash => if bits == 0 {
            Some(Key::Hash(address.id))
        } else {
            None
        },
        KeyKind::Local => if bits == 0 {
            Some(Key::Local(address.id))
        } else {
            None
        },
    }
}

/// The key at a position, and the position behind it.
pub open spec fn parse_key(s: Seq<u8>, pos: int) -> Option<(Key, int)> {
    match parse_address(s, pos) {
        Some((address, p)) => match parse_byte(s, p) {
            Some((bits, q)) => match key_of(address, bits) {
                Some(key) => Some((key, q)),
                None => None,
            },
            None => None,
        },
        None => None,
    }
}

/// The table that `count` more entries from a position on make of the
/// entries in `table`, and the position behind them.
pub open spec fn parse_named_entries(s: Seq<u8>, pos: int, count: nat, table: NamedKeysView)
    -> Option<(NamedKeysView, int)>
    decreases count,
{
    if count == 0 {
        Some((table, pos))
    } else {
        match parse_string(s, pos) {
            Some((name, p)) => match parse_key(s, p) {
                Some((key, q)) => parse_named_entries(
                    s,
                    q,
                    (count - 1) as nat,
                    table.push((name, key)),
                ),
                None => None,
            },
            None => None,
        }
    }
}

/// The named-key table at a position, and the position behind it.
pub open spec fn parse_named_keys(s: Seq<u8>, pos: int) -> Option<(NamedKeysView, int)> {
    match parse_u64(s, pos) {
        Some((count, p)) => parse_named_entries(
            s,
            p,
            count as nat,
            Seq::<(Seq<char>, Key)>::empty(),
        ),
        None => None,
    }
}

/// A written 64-bit integer is read back.
pub proof fn lemma_parse_u64(s: Seq<u8>, pos: int, n: u64)
    requires
        has_at(s, pos, spec_u64_to_le_bytes(n)),
    ensures
        parse_u64(s, pos) == Some((n, pos + 8)),
        spec_u64_to_le_bytes(n).len() == 8,
{
    lemma_auto_spec_u64_to_from_le_bytes();
}

/// A written 128-bit integer is read back.
pub proof fn lemma_parse_u128(s: Seq<u8>, pos: int, n: u128)
    requires
        has_at(s, pos, spec_u128_to_le_bytes(n)),
    ensures
        parse_u128(s, pos) == Some((n, pos + 16)),
        spec_u128_to_le_bytes(n).len() == 16,
{
    lemma_auto_spec_u128_to_from_le_bytes();
}

/// A written identifier is read back.
pub proof fn lemma_parse_bytes32(s: Seq<u8>, pos: int, id: [u8; 32])
    requires
        has_at(s, pos, id@),
    ensures
        parse_bytes32(s, pos) == Some((id, pos + 32)),
{
    let found = array_of(id@);
    assert(found@ == id@);
    assert(found =~= id);
}

/// A written byte string is read back.
pub proof fn lemma_parse_bytes(s: Seq<u8>, pos: int, data: Seq<u8>)
    requires
        has_at(s, pos, encode_bytes(data)),
        data.len() <= u64::MAX,
    ensures
        parse_bytes(s, pos) == Some((data, pos + encode_bytes(data).len())),
        encode_bytes(data).len() == 8 + data.len(),
{
    lemma_has_at_split(s, pos, spec_u64_to_le_bytes(data.len() as u64), data);
    lemma_parse_u64(s, pos, data.len() as u64);
}

/// A written string is read back.
pub proof fn lemma_parse_string(s: Seq<u8>, pos: int, text: Seq<char>)
    requires
        has_at(s, pos, encode_string(text)),
        valid_string(text),
    ensures
        parse_string(s, pos) == Some((text, pos + encode_string(text).len())),
{
    lemma_parse_bytes(s, pos, encode_utf8(text));
    vstd::utf8::encode_utf8_valid_utf8(text);
    vstd::utf8::encode_utf8_decode_utf8(text);
}

/// A written address is read back.
pub proof fn lemma_parse_address(s: Seq<u8>, pos: int, address: Address)
    requires
        has_at(s, pos, encode_address(address)),
    ensures
        parse_address(s, pos) == Some((address, pos + 33)),
        encode_address(address).len() == 33,
{
    lemma_has_at_split(s, pos, seq![address.kind.spec_tag()], address.id@);
    assert(s.subrange(pos, pos + 1)[0] == s[pos]);
    lemma_parse_bytes32(s, pos + 1, address.id);
}

/// A written key is read back.
pub proof fn lemma_parse_key(s: Seq<u8>, pos: int, key: Key)
    requires
        has_at(s, pos, encode_key(key)),
    ensures
        parse_key(s, pos) == Some((key, pos + 34)),
        encode_key(key).len() == 34,
{
    let bits = match key.spec_access_rights() {
        Some(rights) => rights.spec_bits(),
        None => 0u8,
    };
    lemma_has_at_split(s, pos, encode_address(key.spec_address()), seq![bits]);
    lemma_parse_address(s, pos, key.spec_address());
    assert(s.subrange(pos + 33, pos + 34)[0] == s[pos + 33]);
    match key {
        Key::URef(_, rights) => {
            rights.lemma_bits();
        },
        _ => {},
    }
}

/// Written entries are read back behind the entries before them.
pub proof fn lemma_parse_named_entries(s: Seq<u8>, pos: int, table: NamedKeysView, from: int)
    requires
        0 <= from <= table.len(),
        valid_named_keys(table),
        has_at(s, pos, encode_named_entries(table, from)),
    ensures
        parse_named_entries(s, pos, (table.len() - from) as nat, table.take(from)) == Some(
            (table, pos + encode_named_entries(table, from).len()),
        ),
    decreases table.len() - from,
{
    if from == table.len() {
        assert(table.take(from) =~= table);
    } else {
        let name = encode_string(table[from].0);
        let key = encode_key(table[from].1);
        let rest = encode_named_entries(table, from + 1);
        assert(encode_named_entries(table, from) == name + key + rest);
        lemma_has_at_split(s, pos, name + key, rest);
        lemma_has_at_split(s, pos, name, key);
        lemma_parse_string(s, pos, table[from].0);
        lemma_parse_key(s, pos + name.len(), table[from].1);
        assert(table.take(from).push(table[from]) =~= table.take(from + 1));
        lemma_parse_named_entries(s, pos + name.len() + 34, table, from + 1);
    }
}

/// A written named-key table is read back.
pub proof fn lemma_parse_named_keys(s: Seq<u8>, pos: int, table: NamedKeysView)
    requires
        valid_named_keys(table),
        has_at(s, pos, encode_named_keys(table)),
    ensures
        parse_named_keys(s, pos) == Some((table, pos + encode_named_keys(table).len())),
{
    lemma_has_at_split(
        s,
        pos,
        spec_u64_to_le_bytes(table.len() as u64),
        encode_named_entries(table, 0),
    );
    lemma_parse_u64(s, pos, table.len() as u64);
    assert(table.take(0) =~= Seq::<(Seq<char>, Key)>::empty());
    lemma_parse_named_entries(s, pos + 8, table, 0);
}

/// A byte string that holds a part and another behind it holds the two
/// together.
pub proof fn lemma_has_at_join(s: Seq<u8>, pos: int, first: Seq<u8>, second: Seq<u8>)
    requires
        has_at(s, pos, first),
        has_at(s, pos + first.len(), second),
    ensures
        has_at(s, pos, first + second),
{
    assert(s.subrange(pos, pos + first.len() + second.len()) =~= s.subrange(
        pos,
        pos + first.len(),
    ) + s.subrange(pos + first.len(), pos + first.len() + second.len()));
}

/// The identifier whose first `count` bytes are those of a byte string.
pub open spec fn array_up_to(bytes: Seq<u8>, count: int) -> [u8; 32]
    decreases count,
{
    if count <= 0 {
        vstd::array::spec_array_fill_for_copy_type::<u8, 32>(0u8)
    } else {
        vstd::array::spec_array_update(array_up_to(bytes, count - 1), count - 1, bytes[count - 1])
    }
}

/// 32 bytes make an identifier.
pub proof fn lemma_array_of(bytes: Seq<u8>)
    requires
        bytes.len() == 32,
    ensures
        array_of(bytes)@ == bytes,
{
    lemma_array_up_to(bytes, 32);
    assert(array_up_to(bytes, 32)@ =~= bytes);
}

proof fn lemma_array_up_to(bytes: Seq<u8>, count: int)
    requires
        bytes.len() == 32,
        0 <= count <= 32,
    ensures
        forall|j: int| 0 <= j < count ==> array_up_to(bytes, count)@[j] == bytes[j],
    decreases count,
{
    if count > 0 {
        lemma_array_up_to(bytes, count - 1);
    }
}

/// What is read as a 64-bit integer are the bytes of that integer.
pub proof fn lemma_sound_u64(s: Seq<u8>, pos: int)
    requires
        parse_u64(s, pos) is Some,
    ensures
        parse_u64(s, pos).unwrap().1 == pos + 8,
        spec_u64_to_le_bytes(parse_u64(s, pos).unwrap().0).len() == 8,
        has_at(s, pos, spec_u64_to_le_bytes(parse_u64(s, pos).unwrap().0)),
{
    lemma_auto_spec_u64_to_from_le_bytes();
    let part = s.subrange(pos, pos + 8);
    assert(spec_u64_to_le_bytes(spec_u64_from_le_bytes(part)) == part);
}

/// What is read as a 128-bit integer are the bytes of that integer.
pub proof fn lemma_sound_u128(s: Seq<u8>, pos: int)
    requires
        parse_u128(s, pos) is Some,
    ensures
        parse_u128(s, pos).unwrap().1 == pos + 16,
        spec_u128_to_le_bytes(parse_u128(s, pos).unwrap().0).len() == 16,
        has_at(s, pos, spec_u128_to_le_bytes(parse_u128(s, pos).unwrap().0)),
{
    lemma_auto_spec_u128_to_from_le_bytes();
    let part = s.subrange(pos, pos + 16);
    assert(spec_u128_to_le_bytes(spec_u128_from_le_bytes(part)) == part);
}

/// What is read as an identifier are the bytes of that identifier.
pub proof fn lemma_sound_bytes32(s: Seq<u8>, pos: int)
    requires
        parse_bytes32(s, pos) is Some,
    ensures
        parse_bytes32(s, pos).unwrap().1 == pos + 32,
        has_at(s, pos, parse_bytes32(s, pos).unwrap().0@),
{
    lemma_array_of(s.subrange(pos, pos + 32));
}

/// What is read as a byte string are the bytes of that byte string.
pub proof fn lemma_sound_bytes(s: Seq<u8>, pos: int)
    requires
        parse_bytes(s, pos) is Some,
    ensures
        parse_bytes(s, pos).unwrap().0.len() <= u64::MAX,
        parse_bytes(s, pos).unwrap().1 == pos + encode_bytes(parse_bytes(s, pos).unwrap().0).len(),
        has_at(s, pos, encode_bytes(parse_bytes(s, pos).unwrap().0)),
{
    lemma_sound_u64(s, pos);
    let n = parse_u64(s, pos).unwrap().0;
    let data = s.subrange(pos + 8, pos + 8 + n);
    assert(data.len() == n);
    assert(s.subrange(pos + 8, pos + 8 + data.len()) == data);
    lemma_has_at_join(s, pos, spec_u64_to_le_bytes(n), data);
}

/// What is read as a string are the bytes of that string.
pub proof fn lemma_sound_string(s: Seq<u8>, pos: int)
    requires
        parse_string(s, pos) is Some,
    ensures
        valid_string(parse_string(s, pos).unwrap().0),
        parse_string(s, pos).unwrap().1 == pos + encode_string(
            parse_string(s, pos).unwrap().0,
        ).len(),
        has_at(s, pos, encode_string(parse_string(s, pos).unwrap().0)),
{
    lemma_sound_bytes(s, pos);
    vstd::utf8::decode_utf8_encode_utf8(parse_bytes(s, pos).unwrap().0);
}

/// What is read as an address are the bytes of that address.
pub proof fn lemma_sound_address(s: Seq<u8>, pos: int)
    requires
        parse_address(s, pos) is Some,
    ensures
        parse_address(s, pos).unwrap().1 == pos + 33,
        has_at(s, pos, encode_address(parse_address(s, pos).unwrap().0)),
{
    lemma_sound_bytes32(s, pos + 1);
    let address = parse_address(s, pos).unwrap().0;
    assert(s.subrange(pos, pos + 1) =~= seq![address.kind.spec_tag()]);
    lemma_has_at_join(s, pos, seq![address.kind.spec_tag()], address.id@);
}

/// What is read as a key are the bytes of that key.
pub proof fn lemma_sound_key(s: Seq<u8>, pos: int)
    requires
        parse_key(s, pos) is Some,
    ensures
        parse_key(s, pos).unwrap().1 == pos + 34,
        has_at(s, pos, encode_key(parse_key(s, pos).unwrap().0)),
{
    lemma_sound_address(s, pos);
    let key = parse_key(s, pos).unwrap().0;
    let bits = s[pos + 33];
    let written = match key.spec_access_rights() {
        Some(rights) => rights.spec_bits(),
        None => 0u8,
    };
    assert(written == bits);
    assert(s.subrange(pos + 33, pos + 34) =~= seq![bits]);
    assert(key.spec_address() == parse_address(s, pos).unwrap().0);
    lemma_has_at_join(s, pos, encode_address(key.spec_address()), seq![bits]);
}

/// What is read as further entries of a table are the bytes of those
/// entries, and the table begins with the entries that were there.
pub proof fn lemma_sound_named_entries(s: Seq<u8>, pos: int, count: nat, table: NamedKeysView)
    requires
        parse_named_entries(s, pos, count, table) is Some,
        0 <= pos <= s.len(),
    ensures
        ({
            let (found, end) = parse_named_entries(s, pos, count, table).unwrap();
            &&& found.len() == table.len() + count
            &&& found.take(table.len() as int) == table
            &&& forall|i: int| table.len() <= i < found.len() ==> valid_string(#[trigger] found[i].0)
            &&& end == pos + encode_named_entries(found, table.len() as int).len()
            &&& has_at(s, pos, encode_named_entries(found, table.len() as int))
        }),
    decreases count,
{
    if count == 0 {
        assert(table.take(table.len() as int) =~= table);
        assert(s.subrange(pos, pos) =~= Seq::<u8>::empty());
    } else {
        lemma_sound_string(s, pos);
        let (name, p) = parse_string(s, pos).unwrap();
        lemma_sound_key(s, p);
        let (key, q) = parse_key(s, p).unwrap();
        let longer = table.push((name, key));
        lemma_sound_named_entries(s, q, (count - 1) as nat, longer);
        let (found, end) = parse_named_entries(s, pos, count, table).unwrap();
        let at = table.len() as int;
        assert(found.take(at + 1)[at] == longer[at]);
        assert(found[at] == (name, key));
        assert(found.take(at) =~= table) by {
            assert forall|i: int| 0 <= i < at implies found[i] == table[i] by {
                assert(found.take(at + 1)[i] == longer[i]);
            }
        }
        lemma_has_at_join(s, pos, encode_string(name), encode_key(key));
        lemma_has_at_join(
            s,
            pos,
            encode_string(name) + encode_key(key),
            encode_named_entries(found, at + 1),
        );
    }
}

/// What is read as a named-key table are the bytes of that table.
pub proof fn lemma_sound_named_keys(s: Seq<u8>, pos: int)
    requires
        parse_named_keys(s, pos) is Some,
    ensures
        valid_named_keys(parse_named_keys(s, pos).unwrap().0),
        parse_named_keys(s, pos).unwrap().1 == pos + encode_named_keys(
            parse_named_keys(s, pos).unwrap().0,
        ).len(),
        has_at(s, pos, encode_named_keys(parse_named_keys(s, pos).unwrap().0)),
{
    lemma_sound_u64(s, pos);
    let count = parse_u64(s, pos).unwrap().0;
    lemma_sound_named_entries(s, pos + 8, count as nat, Seq::<(Seq<char>, Key)>::empty());
    let table = parse_named_keys(s, pos).unwrap().0;
    lemma_has_at_join(s, pos, spec_u64_to_le_bytes(count), encode_named_entries(table, 0));
}

/// Calls `String::from_utf8`: the string that the bytes are the UTF-8
/// encoding of, or nothing where they are not valid UTF-8.
#[verifier::external_body]
fn string_from_utf8(bytes: Vec<u8>) -> (r: Option<String>)
    ensures
        match r {
            Some(text) => valid_utf8(bytes@) && text@ == decode_utf8(bytes@),
            None => !valid_utf8(bytes@),
        },
{
    String::from_utf8(bytes).ok()
}

/// Reads a byte.
pub fn read_byte(data: &[u8], pos: usize) -> (r: Option<(u8, usize)>)
    ensures
        match r {
            Some((b, end)) => parse_byte(data@, pos as int) == Some((b, end as int)),
            None => parse_byte(data@, pos as int) is None,
        },
{
    if pos < data.len() {
        Some((data[pos], pos + 1))
    } else {
        None
    }
}

/// Reads a 64-bit integer, least significant byte first.
pub fn read_u64(data: &[u8], pos: usize) -> (r: Option<(u64, usize)>)
    ensures
        match r {
            Some((n, end)) => parse_u64(data@, pos as int) == Some((n, end as int)) && end
                <= data@.len(),
            None => parse_u64(data@, pos as int) is None,
        },
{
    if pos <= data.len() && data.len() - pos >= 8 {
        let n = u64_from_le_bytes(slice_subrange(data, pos, pos + 8));
        Some((n, pos + 8))
    } else {
        None
    }
}

/// Reads a 128-bit integer, least significant byte first.
pub fn read_u128(data: &[u8], pos: usize) -> (r: Option<(u128, usize)>)
    ensures
        match r {
            Some((n, end)) => parse_u128(data@, pos as int) == Some((n, end as int)) && end
                <= data@.len(),
            None => parse_u128(data@, pos as int) is None,
        },
{
    if pos <= data.len() && data.len() - pos >= 16 {
        let n = u128_from_le_bytes(slice_subrange(data, pos, pos + 16));
        Some((n, pos + 16))
    } else {
        None
    }
}

/// Reads a 32-byte identifier.
pub fn read_bytes32(data: &[u8], pos: usize) -> (r: Option<([u8; 32], usize)>)
    ensures
        match r {
            Some((id, end)) => parse_bytes32(data@, pos as int) == Some((id, end as int)) && end
                <= data@.len(),
            None => parse_bytes32(data@, pos as int) is None,
        },
{
    if !(pos <= data.len() && data.len() - pos >= 32) {
        return None;
    }
    let mut id: [u8; 32] = [
        0u8, 0u8, 0u8, 0u8, 0u8, 0u8, 0u8, 0u8, 0u8, 0u8, 0u8, 0u8, 0u8, 0u8, 0u8, 0u8, 0u8, 0u8,
        0u8, 0u8, 0u8, 0u8, 0u8, 0u8, 0u8, 0u8, 0u8, 0u8, 0u8, 0u8, 0u8, 0u8,
    ];
    let mut i: usize = 0;
    while i < 32
        invariant
            i <= 32,
            pos + 32 <= data@.len(),
            pos + 32 <= usize::MAX,
            forall|j: int| 0 <= j < i ==> id@[j] == data@[pos + j],
        decreases 32 - i,
    {
        id[i] = data[pos + i];
        i = i + 1;
    }
    proof {
        assert(id@ =~= data@.subrange(pos as int, pos + 32));
        let found = array_of(data@.subrange(pos as int, pos + 32));
        assert(found@ == id@);
        assert(found =~= id);
    }
    Some((id, pos + 32))
}

/// Reads a byte string behind its length.
pub fn read_bytes(data: &[u8], pos: usize) -> (r: Option<(Vec<u8>, usize)>)
    ensures
        match r {
            Some((bytes, end)) => parse_bytes(data@, pos as int) == Some((bytes@, end as int))
                && end <= data@.len(),
            None => parse_bytes(data@, pos as int) is None,
        },
{
    let (n, p) = match read_u64(data, pos) {
        Some(found) => found,
        None => {
            return None;
        },
    };
    if n > (data.len() - p) as u64 {
        return None;
    }
    let length = n as usize;
    let bytes = slice_to_vec(slice_subrange(data, p, p + length));
    Some((bytes, p + length))
}

/// Reads a string.
pub fn read_string(data: &[u8], pos: usize) -> (r: Option<(String, usize)>)
    ensures
        match r {
            Some((text, end)) => parse_string(data@, pos as int) == Some((text@, end as int))
                && end <= data@.len(),
            None => parse_string(data@, pos as int) is None,
        },
{
    let (bytes, p) = match read_bytes(data, pos) {
        Some(found) => found,
        None => {
            return None;
        },
    };
    match string_from_utf8(bytes) {
        Some(text) => Some((text, p)),
        None => None,
    }
}

/// The variant that a tag stands for.
pub fn kind_from_tag(tag: u8) -> (r: Option<KeyKind>)
    ensures
        r == kind_of_tag(tag),
{
    if tag == 0 {
        Some(KeyKind::Account)
    } else if tag == 1 {
        Some(KeyKind::URef)
    } else if tag == 2 {
        Some(KeyKind::Hash)
    } else if tag == 3 {
        Some(KeyKind::Local)
    } else {
        None
    }
}

/// Reads an address.
pub fn read_address(data: &[u8], pos: usize) -> (r: Option<(Address, usize)>)
    ensures
        match r {
            Some((address, end)) => parse_address(data@, pos as int) == Some(
                (address, end as int),
            ) && end <= data@.len(),
            None => parse_address(data@, pos as int) is None,
        },
{
    let (tag, p) = match read_byte(data, pos) {
        Some(found) => found,
        None => {
            return None;
        },
    };
    let kind = match kind_from_tag(tag) {
        Some(kind) => kind,
        None => {
            return None;
        },
    };
    match read_bytes32(data, p) {
        Some((id, q)) => Some((Address { kind, id }, q)),
        None => None,
    }
}

/// Reads a key.
pub fn read_key(data: &[u8], pos: usize) -> (r: Option<(Key, usize)>)
    ensures
        match r {
            Some((key, end)) => parse_key(data@, pos as int) == Some((key, end as int)) && end
                <= data@.len(),
            None => parse_key(data@, pos as int) is None,
        },
{
    let (address, p) = match read_address(data, pos) {
        Some(found) => found,
        None => {
            return None;
        },
    };
    let (bits, q) = match read_byte(data, p) {
        Some(found) => found,
        None => {
            return None;
        },
    };
    let key = match address.kind {
        KeyKind::URef => match AccessRights::from_bits(bits) {
            Some(rights) => Key::URef(address.id, rights),
            None => {
                return None;
            },
        },
        KeyKind::Account => {
            if bits != 0 {
                return None;
            }
            Key::Account(address.id)
        },
        KeyKind::Hash => {
            if bits != 0 {
                return None;
            }
            Key::Hash(address.id)
        },
        KeyKind::Local => {
            if bits != 0 {
                return None;
            }
            Key::Local(address.id)
        },
    };
    Some((key, q))
}

/// Reads a named-key table.
pub fn read_named_keys(data: &[u8], pos: usize) -> (r: Option<(NamedKeys, usize)>)
    ensures
        match r {
            Some((table, end)) => parse_named_keys(data@, pos as int) == Some(
                (table@, end as int),
            ) && end <= data@.len(),
            None => parse_named_keys(data@, pos as int) is None,
        },
{
    let (count, start) = match read_u64(data, pos) {
        Some(found) => found,
        None => {
            return None;
        },
    };
    let mut table = NamedKeys::new();
    let mut current = start;
    let mut i: u64 = 0;
    while i < count
        invariant
            i <= count,
            current <= data@.len(),
            parse_named_keys(data@, pos as int) == parse_named_entries(
                data@,
                current as int,
                (count - i) as nat,
                table@,
            ),
        decreases count - i,
    {
        let (name, p) = match read_string(data, current) {
            Some(found) => found,
            None => {
                return None;
            },
        };
        let (key, q) = match read_key(data, p) {
            Some(found) => found,
            None => {
                return None;
            },
        };
        let ghost before = table@;
        let ghost name_view = name@;
        table.entries.push(NamedKey { name, key });
        assert(table@ =~= before.push((name_view, key)));
        current = q;
        i = i + 1;
    }
    Some((table, current))
}

/// The 512-bit integer at a position, and the position behind it.
pub open spec fn parse_u512(s: Seq<u8>, pos: int) -> Option<(nat, int)> {
    if 0 <= pos && pos + 64 <= s.len() {
        Some((le_bytes_to_nat(s.subrange(pos, pos + 64)), pos + 64))
    } else {
        None
    }
}

/// The signed integer that 128 bits denote in two's complement.
pub open spec fn int128_of_bits(x: u128) -> i128 {
    if x < 0x8000_0000_0000_0000_0000_0000_0000_0000 {
        x as i128
    } else {
        (x - 0x1_0000_0000_0000_0000_0000_0000_0000_0000) as i128
    }
}

/// The signed integer at a position, and the position behind it.
pub open spec fn parse_int128(s: Seq<u8>, pos: int) -> Option<(i128, int)> {
    match parse_u128(s, pos) {
        Some((x, p)) => Some((int128_of_bits(x), p)),
        None => None,
    }
}

/// The list that `count` more associated keys from a position on make of
/// the keys in `keys`, and the position behind them.
pub open spec fn parse_associated_entries(
    s: Seq<u8>,
    pos: int,
    count: nat,
    keys: Seq<AssociatedKey>,
) -> Option<(Seq<AssociatedKey>, int)>
    decreases count,
{
    if count == 0 {
        Some((keys, pos))
    } else {
        match parse_bytes32(s, pos) {
            Some((public_key, p)) => match parse_byte(s, p) {
                Some((weight, q)) => parse_associated_entries(
                    s,
                    q,
                    (count - 1) as nat,
                    keys.push(AssociatedKey { public_key, weight }),
                ),
                None => None,
            },
            None => None,
        }
    }
}

/// The account at a position, and the position behind it.
pub open spec fn parse_account(s: Seq<u8>, pos: int) -> Option<(AccountView, int)> {
    match parse_bytes32(s, pos) {
        Some((public_key, p1)) => match parse_u64(s, p1) {
            Some((nonce, p2)) => match parse_named_keys(s, p2) {
                Some((named_keys, p3)) => match parse_key(s, p3) {
                    Some((purse, p4)) => match parse_u64(s, p4) {
                        Some((count, p5)) => match parse_associated_entries(
                            s,
                            p5,
                            count as nat,
                            Seq::<AssociatedKey>::empty(),
                        ) {
                            Some((associated_keys, p6)) => match parse_byte(s, p6) {
                                Some((deployment, p7)) => match parse_byte(s, p7) {
                                    Some((key_management, p8)) => Some(
                                        (
                                            AccountView {
                                                public_key,
                                                nonce,
                                                named_keys,
                                                purse,
                                                associated_keys,
                                                action_thresholds: ActionThresholds {
                                                    deployment,
                                                    key_management,
                                                },
                                            },
                                            p8,
                                        ),
                                    ),
                                    None => None,
                                },
                                None => None,
                            },
                            None => None,
                        },
                        None => None,
                    },
                    None => None,
                },
                None => None,
            },
            None => None,
        },
        None => None,
    }
}

/// The contract at a position, and the position behind it.
pub open spec fn parse_contract(s: Seq<u8>, pos: int) -> Option<(ContractView, int)> {
    match parse_bytes(s, pos) {
        Some((bytes, p)) => match parse_named_keys(s, p) {
            Some((named_keys, q)) => Some((ContractView { bytes, named_keys }, q)),
            None => None,
        },
        None => None,
    }
}

/// The typed datum at a position, and the position behind it.
pub open spec fn parse_cl_value(s: Seq<u8>, pos: int) -> Option<(CLValueView, int)> {
    match parse_byte(s, pos) {
        Some((tag, p)) => if tag == 0 {
            match parse_int128(s, p) {
                Some((n, q)) => Some((CLValueView::Int128(n), q)),
                None => None,
            }
        } else if tag == 1 {
            match parse_u512(s, p) {
                Some((n, q)) => Some((CLValueView::U512(n), q)),
                None => None,
            }
        } else if tag == 2 {
            match parse_byte(s, p) {
                Some((flag, q)) => if flag == 0 {
                    Some((CLValueView::OptionU64(None), q))
                } else if flag == 1 {
                    match parse_u64(s, q) {
                        Some((n, r)) => Some((CLValueView::OptionU64(Some(n)), r)),
                        None => None,
                    }
                } else {
                    None
                },
                None => None,
            }
        } else if tag == 3 {
            match parse_string(s, p) {
                Some((text, q)) => Some((CLValueView::String(text), q)),
                None => None,
            }
        } else if tag == 4 {
            match parse_key(s, p) {
                Some((key, q)) => Some((CLValueView::Key(key), q)),
                None => None,
            }
        } else {
            None
        },
        None => None,
    }
}

/// The stored value at a position, and the position behind it.
pub open spec fn parse_value(s: Seq<u8>, pos: int) -> Option<(ValueView, int)> {
    match parse_byte(s, pos) {
        Some((tag, p)) => if tag == 0 {
            match parse_account(s, p) {
                Some((a, q)) => Some((ValueView::Account(a), q)),
                None => None,
            }
        } else if tag == 1 {
            match parse_contract(s, p) {
                Some((c, q)) => Some((ValueView::Contract(c), q)),
                None => None,
            }
        } else if tag == 2 {
            match parse_cl_value(s, p) {
                Some((v, q)) => Some((ValueView::CLValue(v), q)),
                None => None,
            }
        } else if tag == 3 {
            Some((ValueView::Unit, p))
        } else {
            None
        },
        None => None,
    }
}

/// The transform at a position, and the position behind it.
pub open spec fn parse_transform(s: Seq<u8>, pos: int) -> Option<(TransformView, int)> {
    match parse_byte(s, pos) {
        Some((tag, p)) => if tag == 0 {
            Some((TransformView::Identity, p))
        } else if tag == 1 {
            match parse_value(s, p) {
                Some((v, q)) => Some((TransformView::Write(v), q)),
                None => None,
            }
        } else if tag == 2 {
            match parse_int128(s, p) {
                Some((n, q)) => Some((TransformView::AddInt128(n), q)),
                None => None,
            }
        } else if tag == 3 {
            match parse_u512(s, p) {
                Some((n, q)) => Some((TransformView::AddU512(n), q)),
                None => None,
            }
        } else if tag == 4 {
            match parse_named_keys(s, p) {
                Some((k, q)) => Some((TransformView::AddKeys(k), q)),
                None => None,
            }
        } else {
            None
        },
        None => None,
    }
}

/// The set that `count` more entries from a position on make of the
/// entries in `set`, and the position behind them.
pub open spec fn parse_entries(s: Seq<u8>, pos: int, count: nat, set: TransformSetView) -> Option<
    (TransformSetView, int),
>
    decreases count,
{
    if count == 0 {
        Some((set, pos))
    } else {
        match parse_key(s, pos) {
            Some((key, p)) => match parse_transform(s, p) {
                Some((t, q)) => parse_entries(s, q, (count - 1) as nat, set.push((key, t))),
                None => None,
            },
            None => None,
        }
    }
}

/// The transform set at a position, and the position behind it.
pub open spec fn parse_transform_set(s: Seq<u8>, pos: int) -> Option<(TransformSetView, int)> {
    match parse_u64(s, pos) {
        Some((count, p)) => parse_entries(
            s,
            p,
            count as nat,
            Seq::<(Key, TransformView)>::empty(),
        ),
        None => None,
    }
}

/// The transform set that a byte string is the bytes of, if it is the
/// bytes of one.
pub open spec fn decode_transform_set(s: Seq<u8>) -> Option<TransformSetView> {
    match parse_transform_set(s, 0) {
        Some((set, end)) => if end == s.len() {
            Some(set)
        } else {
            None
        },
        None => None,
    }
}

/// A written 512-bit integer is read back.
pub proof fn lemma_parse_u512(s: Seq<u8>, pos: int, n: nat)
    requires
        n < modulus(),
        has_at(s, pos, nat_to_le_bytes(n)),
    ensures
        parse_u512(s, pos) == Some((n, pos + 64)),
        nat_to_le_bytes(n).len() == 64,
{
    lemma_le_bytes_to_nat(n);
}

/// A written signed integer is read back.
pub proof fn lemma_parse_int128(s: Seq<u8>, pos: int, n: i128)
    requires
        has_at(s, pos, spec_u128_to_le_bytes(int128_bits(n))),
    ensures
        parse_int128(s, pos) == Some((n, pos + 16)),
{
    lemma_parse_u128(s, pos, int128_bits(n));
}

/// Written associated keys are read back behind the keys before them.
pub proof fn lemma_parse_associated_entries(
    s: Seq<u8>,
    pos: int,
    keys: Seq<AssociatedKey>,
    from: int,
)
    requires
        0 <= from <= keys.len(),
        has_at(s, pos, encode_associated_entries(keys, from)),
    ensures
        parse_associated_entries(s, pos, (keys.len() - from) as nat, keys.take(from)) == Some(
            (keys, pos + encode_associated_entries(keys, from).len()),
        ),
    decreases keys.len() - from,
{
    if from == keys.len() {
        assert(keys.take(from) =~= keys);
    } else {
        let id = keys[from].public_key@;
        let weight = seq![keys[from].weight];
        let rest = encode_associated_entries(keys, from + 1);
        assert(encode_associated_entries(keys, from) == id + weight + rest);
        lemma_has_at_split(s, pos, id + weight, rest);
        lemma_has_at_split(s, pos, id, weight);
        lemma_parse_bytes32(s, pos, keys[from].public_key);
        assert(s.subrange(pos + 32, pos + 33)[0] == s[pos + 32]);
        assert(keys.take(from).push(keys[from]) =~= keys.take(from + 1));
        lemma_parse_associated_entries(s, pos + 33, keys, from + 1);
    }
}

/// A written account is read back.
pub proof fn lemma_parse_account(s: Seq<u8>, pos: int, a: AccountView)
    requires
        valid_account(a),
        has_at(s, pos, encode_account(a)),
    ensures
        parse_account(s, pos) == Some((a, pos + encode_account(a).len())),
{
    let f1 = a.public_key@;
    let f2 = spec_u64_to_le_bytes(a.nonce);
    let f3 = encode_named_keys(a.named_keys);
    let f4 = encode_key(a.purse);
    let f5 = spec_u64_to_le_bytes(a.associated_keys.len() as u64);
    let f6 = encode_associated_entries(a.associated_keys, 0);
    let f7 = seq![a.action_thresholds.deployment, a.action_thresholds.key_management];
    assert(encode_account(a) == f1 + f2 + f3 + f4 + f5 + f6 + f7);
    lemma_has_at_split(s, pos, f1 + f2 + f3 + f4 + f5 + f6, f7);
    lemma_has_at_split(s, pos, f1 + f2 + f3 + f4 + f5, f6);
    lemma_has_at_split(s, pos, f1 + f2 + f3 + f4, f5);
    lemma_has_at_split(s, pos, f1 + f2 + f3, f4);
    lemma_has_at_split(s, pos, f1 + f2, f3);
    lemma_has_at_split(s, pos, f1, f2);
    lemma_parse_bytes32(s, pos, a.public_key);
    let p1 = pos + 32;
    lemma_parse_u64(s, p1, a.nonce);
    let p2 = p1 + 8;
    lemma_parse_named_keys(s, p2, a.named_keys);
    let p3 = p2 + f3.len();
    lemma_parse_key(s, p3, a.purse);
    let p4 = p3 + 34;
    lemma_parse_u64(s, p4, a.associated_keys.len() as u64);
    let p5 = p4 + 8;
    assert(a.associated_keys.take(0) =~= Seq::<AssociatedKey>::empty());
    lemma_parse_associated_entries(s, p5, a.associated_keys, 0);
    let p6 = p5 + f6.len();
    assert(s.subrange(p6, p6 + 2)[0] == s[p6]);
    assert(s.subrange(p6, p6 + 2)[1] == s[p6 + 1]);
}

/// A written contract is read back.
pub proof fn lemma_parse_contract(s: Seq<u8>, pos: int, c: ContractView)
    requires
        valid_contract(c),
        has_at(s, pos, encode_contract(c)),
    ensures
        parse_contract(s, pos) == Some((c, pos + encode_contract(c).len())),
{
    lemma_has_at_split(s, pos, encode_bytes(c.bytes), encode_named_keys(c.named_keys));
    lemma_parse_bytes(s, pos, c.bytes);
    lemma_parse_named_keys(s, pos + encode_bytes(c.bytes).len(), c.named_keys);
}

/// A written typed datum is read back.
pub proof fn lemma_parse_cl_value(s: Seq<u8>, pos: int, v: CLValueView)
    requires
        valid_cl_value(v),
        has_at(s, pos, encode_cl_value(v)),
    ensures
        parse_cl_value(s, pos) == Some((v, pos + encode_cl_value(v).len())),
{
    match v {
        CLValueView::Int128(n) => {
            lemma_has_at_split(s, pos, seq![0u8], spec_u128_to_le_bytes(int128_bits(n)));
            assert(s.subrange(pos, pos + 1)[0] == s[pos]);
            lemma_parse_int128(s, pos + 1, n);
            lemma_parse_u128(s, pos + 1, int128_bits(n));
        },
        CLValueView::U512(n) => {
            lemma_has_at_split(s, pos, seq![1u8], nat_to_le_bytes(n));
            assert(s.subrange(pos, pos + 1)[0] == s[pos]);
            lemma_parse_u512(s, pos + 1, n);
        },
        CLValueView::OptionU64(None) => {
            assert(s.subrange(pos, pos + 2)[0] == s[pos]);
            assert(s.subrange(pos, pos + 2)[1] == s[pos + 1]);
        },
        CLValueView::OptionU64(Some(n)) => {
            lemma_has_at_split(s, pos, seq![2u8, 1u8], spec_u64_to_le_bytes(n));
            assert(s.subrange(pos, pos + 2)[0] == s[pos]);
            assert(s.subrange(pos, pos + 2)[1] == s[pos + 1]);
            lemma_parse_u64(s, pos + 2, n);
        },
        CLValueView::String(text) => {
            lemma_has_at_split(s, pos, seq![3u8], encode_string(text));
            assert(s.subrange(pos, pos + 1)[0] == s[pos]);
            lemma_parse_string(s, pos + 1, text);
        },
        CLValueView::Key(key) => {
            lemma_has_at_split(s, pos, seq![4u8], encode_key(key));
            assert(s.subrange(pos, pos + 1)[0] == s[pos]);
            lemma_parse_key(s, pos + 1, key);
        },
    }
}

/// A written stored value is read back.
pub proof fn lemma_parse_value(s: Seq<u8>, pos: int, v: ValueView)
    requires
        valid_value(v),
        has_at(s, pos, encode_value(v)),
    ensures
        parse_value(s, pos) == Some((v, pos + encode_value(v).len())),
{
    match v {
        ValueView::Account(a) => {
            lemma_has_at_split(s, pos, seq![0u8], encode_account(a));
            assert(s.subrange(pos, pos + 1)[0] == s[pos]);
            lemma_parse_account(s, pos + 1, a);
        },
        ValueView::Contract(c) => {
            lemma_has_at_split(s, pos, seq![1u8], encode_contract(c));
            assert(s.subrange(pos, pos + 1)[0] == s[pos]);
            lemma_parse_contract(s, pos + 1, c);
        },
        ValueView::CLValue(d) => {
            lemma_has_at_split(s, pos, seq![2u8], encode_cl_value(d));
            assert(s.subrange(pos, pos + 1)[0] == s[pos]);
            lemma_parse_cl_value(s, pos + 1, d);
        },
        ValueView::Unit => {
            assert(s.subrange(pos, pos + 1)[0] == s[pos]);
        },
    }
}

/// A written transform is read back.
pub proof fn lemma_parse_transform(s: Seq<u8>, pos: int, t: TransformView)
    requires
        valid_transform(t),
        has_at(s, pos, encode_transform(t)),
    ensures
        parse_transform(s, pos) == Some((t, pos + encode_transform(t).len())),
{
    match t {
        TransformView::Identity => {
            assert(s.subrange(pos, pos + 1)[0] == s[pos]);
        },
        TransformView::Write(v) => {
            lemma_has_at_split(s, pos, seq![1u8], encode_value(v));
            assert(s.subrange(pos, pos + 1)[0] == s[pos]);
            lemma_parse_value(s, pos + 1, v);
        },
        TransformView::AddInt128(n) => {
            lemma_has_at_split(s, pos, seq![2u8], spec_u128_to_le_bytes(int128_bits(n)));
            assert(s.subrange(pos, pos + 1)[0] == s[pos]);
            lemma_parse_int128(s, pos + 1, n);
            lemma_parse_u128(s, pos + 1, int128_bits(n));
        },
        TransformView::AddU512(n) => {
            lemma_has_at_split(s, pos, seq![3u8], nat_to_le_bytes(n));
            assert(s.subrange(pos, pos + 1)[0] == s[pos]);
            lemma_parse_u512(s, pos + 1, n);
        },
        TransformView::AddKeys(k) => {
            lemma_has_at_split(s, pos, seq![4u8], encode_named_keys(k));
            assert(s.subrange(pos, pos + 1)[0] == s[pos]);
            lemma_parse_named_keys(s, pos + 1, k);
        },
    }
}

/// Written entries are read back behind the entries before them.
pub proof fn lemma_parse_entries(s: Seq<u8>, pos: int, set: TransformSetView, from: int)
    requires
        0 <= from <= set.len(),
        valid_set(set),
        has_at(s, pos, encode_entries(set, from)),
    ensures
        parse_entries(s, pos, (set.len() - from) as nat, set.take(from)) == Some(
            (set, pos + encode_entries(set, from).len()),
        ),
    decreases set.len() - from,
{
    if from == set.len() {
        assert(set.take(from) =~= set);
    } else {
        let key = encode_key(set[from].0);
        let t = encode_transform(set[from].1);
        let rest = encode_entries(set, from + 1);
        assert(encode_entries(set, from) == key + t + rest);
        lemma_has_at_split(s, pos, key + t, rest);
        lemma_has_at_split(s, pos, key, t);
        lemma_parse_key(s, pos, set[from].0);
        lemma_parse_transform(s, pos + 34, set[from].1);
        assert(set.take(from).push(set[from]) =~= set.take(from + 1));
        lemma_parse_entries(s, pos + 34 + t.len(), set, from + 1);
    }
}

/// The bytes of a transform set are the bytes of that set and of no
/// other: they are read back as the set that was written.
pub proof fn lemma_decode_encode(set: TransformSetView)
    requires
        valid_set(set),
    ensures
        decode_transform_set(encode_transform_set(set)) == Some(set),
{
    let s = encode_transform_set(set);
    assert(s.subrange(0, s.len() as int) =~= s);
    lemma_has_at_split(s, 0, spec_u64_to_le_bytes(set.len() as u64), encode_entries(set, 0));
    lemma_parse_u64(s, 0, set.len() as u64);
    assert(set.take(0) =~= Seq::<(Key, TransformView)>::empty());
    lemma_parse_entries(s, 8, set, 0);
}

/// What is read as a 512-bit integer are the bytes of that integer.
pub proof fn lemma_sound_u512(s: Seq<u8>, pos: int)
    requires
        parse_u512(s, pos) is Some,
    ensures
        parse_u512(s, pos).unwrap().0 < modulus(),
        parse_u512(s, pos).unwrap().1 == pos + 64,
        nat_to_le_bytes(parse_u512(s, pos).unwrap().0).len() == 64,
        has_at(s, pos, nat_to_le_bytes(parse_u512(s, pos).unwrap().0)),
{
    lemma_nat_to_le_bytes(s.subrange(pos, pos + 64));
}

/// What is read as a signed integer are the bytes of that integer.
pub proof fn lemma_sound_int128(s: Seq<u8>, pos: int)
    requires
        parse_int128(s, pos) is Some,
    ensures
        parse_int128(s, pos).unwrap().1 == pos + 16,
        spec_u128_to_le_bytes(int128_bits(parse_int128(s, pos).unwrap().0)).len() == 16,
        has_at(s, pos, spec_u128_to_le_bytes(int128_bits(parse_int128(s, pos).unwrap().0))),
{
    lemma_sound_u128(s, pos);
    let x = parse_u128(s, pos).unwrap().0;
    assert(int128_bits(int128_of_bits(x)) == x);
}

/// What is read as further associated keys are the bytes of those keys,
/// and the list begins with the keys that were there.
pub proof fn lemma_sound_associated_entries(
    s: Seq<u8>,
    pos: int,
    count: nat,
    keys: Seq<AssociatedKey>,
)
    requires
        parse_associated_entries(s, pos, count, keys) is Some,
        0 <= pos <= s.len(),
    ensures
        ({
            let (found, end) = parse_associated_entries(s, pos, count, keys).unwrap();
            &&& found.len() == keys.len() + count
            &&& found.take(keys.len() as int) == keys
            &&& end == pos + encode_associated_entries(found, keys.len() as int).len()
            &&& has_at(s, pos, encode_associated_entries(found, keys.len() as int))
        }),
    decreases count,
{
    if count == 0 {
        assert(keys.take(keys.len() as int) =~= keys);
        assert(s.subrange(pos, pos) =~= Seq::<u8>::empty());
    } else {
        lemma_sound_bytes32(s, pos);
        let (public_key, p) = parse_bytes32(s, pos).unwrap();
        let (weight, q) = parse_byte(s, p).unwrap();
        let key = AssociatedKey { public_key, weight };
        let longer = keys.push(key);
        lemma_sound_associated_entries(s, q, (count - 1) as nat, longer);
        let (found, end) = parse_associated_entries(s, pos, count, keys).unwrap();
        let at = keys.len() as int;
        assert(found.take(at + 1)[at] == longer[at]);
        assert(found[at] == key);
        assert(found.take(at) =~= keys) by {
            assert forall|i: int| 0 <= i < at implies found[i] == keys[i] by {
                assert(found.take(at + 1)[i] == longer[i]);
            }
        }
        assert(s.subrange(p, p + 1) =~= seq![weight]);
        lemma_has_at_join(s, pos, public_key@, seq![weight]);
        lemma_has_at_join(
            s,
            pos,
            public_key@ + seq![weight],
            encode_associated_entries(found, at + 1),
        );
    }
}

/// What is read as an account are the bytes of that account.
pub proof fn lemma_sound_account(s: Seq<u8>, pos: int)
    requires
        parse_account(s, pos) is Some,
    ensures
        valid_account(parse_account(s, pos).unwrap().0),
        parse_account(s, pos).unwrap().1 == pos + encode_account(
            parse_account(s, pos).unwrap().0,
        ).len(),
        has_at(s, pos, encode_account(parse_account(s, pos).unwrap().0)),
{
    let a = parse_account(s, pos).unwrap().0;
    lemma_sound_bytes32(s, pos);
    let p1 = pos + 32;
    lemma_sound_u64(s, p1);
    let p2 = p1 + 8;
    lemma_sound_named_keys(s, p2);
    let p3 = parse_named_keys(s, p2).unwrap().1;
    lemma_sound_key(s, p3);
    let p4 = p3 + 34;
    lemma_sound_u64(s, p4);
    let count = parse_u64(s, p4).unwrap().0;
    let p5 = p4 + 8;
    lemma_sound_associated_entries(s, p5, count as nat, Seq::<AssociatedKey>::empty());
    let p6 = parse_associated_entries(s, p5, count as nat, Seq::<AssociatedKey>::empty()).unwrap().1;
    let f1 = a.public_key@;
    let f2 = spec_u64_to_le_bytes(a.nonce);
    let f3 = encode_named_keys(a.named_keys);
    let f4 = encode_key(a.purse);
    let f5 = spec_u64_to_le_bytes(a.associated_keys.len() as u64);
    let f6 = encode_associated_entries(a.associated_keys, 0);
    let f7 = seq![a.action_thresholds.deployment, a.action_thresholds.key_management];
    assert(s.subrange(p6, p6 + 2) =~= f7);
    lemma_has_at_join(s, pos, f1, f2);
    lemma_has_at_join(s, pos, f1 + f2, f3);
    lemma_has_at_join(s, pos, f1 + f2 + f3, f4);
    lemma_has_at_join(s, pos, f1 + f2 + f3 + f4, f5);
    lemma_has_at_join(s, pos, f1 + f2 + f3 + f4 + f5, f6);
    lemma_has_at_join(s, pos, f1 + f2 + f3 + f4 + f5 + f6, f7);
}

/// What is read as a contract are the bytes of that contract.
pub proof fn lemma_sound_contract(s: Seq<u8>, pos: int)
    requires
        parse_contract(s, pos) is Some,
    ensures
        valid_contract(parse_contract(s, pos).unwrap().0),
        parse_contract(s, pos).unwrap().1 == pos + encode_contract(
            parse_contract(s, pos).unwrap().0,
        ).len(),
        has_at(s, pos, encode_contract(parse_contract(s, pos).unwrap().0)),
{
    lemma_sound_bytes(s, pos);
    let (bytes, p) = parse_bytes(s, pos).unwrap();
    lemma_sound_named_keys(s, p);
    let c = parse_contract(s, pos).unwrap().0;
    lemma_has_at_join(s, pos, encode_bytes(c.bytes), encode_named_keys(c.named_keys));
}

/// What is read as a typed datum are the bytes of that datum.
pub proof fn lemma_sound_cl_value(s: Seq<u8>, pos: int)
    requires
        parse_cl_value(s, pos) is Some,
    ensures
        valid_cl_value(parse_cl_value(s, pos).unwrap().0),
        parse_cl_value(s, pos).unwrap().1 == pos + encode_cl_value(
            parse_cl_value(s, pos).unwrap().0,
        ).len(),
        has_at(s, pos, encode_cl_value(parse_cl_value(s, pos).unwrap().0)),
{
    let tag = s[pos];
    assert(s.subrange(pos, pos + 1) =~= seq![tag]);
    let p = pos + 1;
    if tag == 0 {
        lemma_sound_int128(s, p);
        let n = parse_int128(s, p).unwrap().0;
        lemma_has_at_join(s, pos, seq![0u8], spec_u128_to_le_bytes(int128_bits(n)));
    } else if tag == 1 {
        lemma_sound_u512(s, p);
        let n = parse_u512(s, p).unwrap().0;
        lemma_has_at_join(s, pos, seq![1u8], nat_to_le_bytes(n));
    } else if tag == 2 {
        let flag = s[p];
        assert(s.subrange(pos, pos + 2) =~= seq![tag, flag]);
        if flag == 1 {
            lemma_sound_u64(s, p + 1);
            let n = parse_u64(s, p + 1).unwrap().0;
            lemma_has_at_join(s, pos, seq![2u8, 1u8], spec_u64_to_le_bytes(n));
        }
    } else if tag == 3 {
        lemma_sound_string(s, p);
        let text = parse_string(s, p).unwrap().0;
        lemma_has_at_join(s, pos, seq![3u8], encode_string(text));
    } else {
        lemma_sound_key(s, p);
        let key = parse_key(s, p).unwrap().0;
        lemma_has_at_join(s, pos, seq![4u8], encode_key(key));
    }
}

/// What is read as a stored value are the bytes of that value.
pub proof fn lemma_sound_value(s: Seq<u8>, pos: int)
    requires
        parse_value(s, pos) is Some,
    ensures
        valid_value(parse_value(s, pos).unwrap().0),
        parse_value(s, pos).unwrap().1 == pos + encode_value(parse_value(s, pos).unwrap().0).len(),
        has_at(s, pos, encode_value(parse_value(s, pos).unwrap().0)),
{
    let tag = s[pos];
    assert(s.subrange(pos, pos + 1) =~= seq![tag]);
    let p = pos + 1;
    if tag == 0 {
        lemma_sound_account(s, p);
        lemma_has_at_join(s, pos, seq![0u8], encode_account(parse_account(s, p).unwrap().0));
    } else if tag == 1 {
        lemma_sound_contract(s, p);
        lemma_has_at_join(s, pos, seq![1u8], encode_contract(parse_contract(s, p).unwrap().0));
    } else if tag == 2 {
        lemma_sound_cl_value(s, p);
        lemma_has_at_join(s, pos, seq![2u8], encode_cl_value(parse_cl_value(s, p).unwrap().0));
    }
}

/// What is read as a transform are the bytes of that transform.
pub proof fn lemma_sound_transform(s: Seq<u8>, pos: int)
    requires
        parse_transform(s, pos) is Some,
    ensures
        valid_transform(parse_transform(s, pos).unwrap().0),
        parse_transform(s, pos).unwrap().1 == pos + encode_transform(
            parse_transform(s, pos).unwrap().0,
        ).len(),
        has_at(s, pos, encode_transform(parse_transform(s, pos).unwrap().0)),
{
    let tag = s[pos];
    assert(s.subrange(pos, pos + 1) =~= seq![tag]);
    let p = pos + 1;
    if tag == 1 {
        lemma_sound_value(s, p);
        lemma_has_at_join(s, pos, seq![1u8], encode_value(parse_value(s, p).unwrap().0));
    } else if tag == 2 {
        lemma_sound_int128(s, p);
        let n = parse_int128(s, p).unwrap().0;
        lemma_has_at_join(s, pos, seq![2u8], spec_u128_to_le_bytes(int128_bits(n)));
    } else if tag == 3 {
        lemma_sound_u512(s, p);
        let n = parse_u512(s, p).unwrap().0;
        lemma_has_at_join(s, pos, seq![3u8], nat_to_le_bytes(n));
    } else if tag == 4 {
        lemma_sound_named_keys(s, p);
        let k = parse_named_keys(s, p).unwrap().0;
        lemma_has_at_join(s, pos, seq![4u8], encode_named_keys(k));
    }
}

/// What is read as further entries of a set are the bytes of those
/// entries, and the set begins with the entries that were there.
pub proof fn lemma_sound_entries(s: Seq<u8>, pos: int, count: nat, set: TransformSetView)
    requires
        parse_entries(s, pos, count, set) is Some,
        0 <= pos <= s.len(),
    ensures
        ({
            let (found, end) = parse_entries(s, pos, count, set).unwrap();
            &&& found.len() == set.len() + count
            &&& found.take(set.len() as int) == set
            &&& forall|i: int| set.len() <= i < found.len() ==> valid_transform(#[trigger] found[i].1)
            &&& end == pos + encode_entries(found, set.len() as int).len()
            &&& has_at(s, pos, encode_entries(found, set.len() as int))
        }),
    decreases count,
{
    if count == 0 {
        assert(set.take(set.len() as int) =~= set);
        assert(s.subrange(pos, pos) =~= Seq::<u8>::empty());
    } else {
        lemma_sound_key(s, pos);
        let (key, p) = parse_key(s, pos).unwrap();
        lemma_sound_transform(s, p);
        let (t, q) = parse_transform(s, p).unwrap();
        let longer = set.push((key, t));
        lemma_sound_entries(s, q, (count - 1) as nat, longer);
        let (found, end) = parse_entries(s, pos, count, set).unwrap();
        let at = set.len() as int;
        assert(found.take(at + 1)[at] == longer[at]);
        assert(found[at] == (key, t));
        assert(found.take(at) =~= set) by {
            assert forall|i: int| 0 <= i < at implies found[i] == set[i] by {
                assert(found.take(at + 1)[i] == longer[i]);
            }
        }
        lemma_has_at_join(s, pos, encode_key(key), encode_transform(t));
        lemma_has_at_join(
            s,
            pos,
            encode_key(key) + encode_transform(t),
            encode_entries(found, at + 1),
        );
    }
}

/// A byte string that is read as a transform set is the bytes of that set.
pub proof fn lemma_encode_decode(s: Seq<u8>)
    requires
        decode_transform_set(s) is Some,
    ensures
        valid_set(decode_transform_set(s).unwrap()),
        encode_transform_set(decode_transform_set(s).unwrap()) == s,
{
    lemma_sound_u64(s, 0);
    let count = parse_u64(s, 0).unwrap().0;
    lemma_sound_entries(s, 8, count as nat, Seq::<(Key, TransformView)>::empty());
    let set = decode_transform_set(s).unwrap();
    lemma_has_at_join(s, 0, spec_u64_to_le_bytes(count), encode_entries(set, 0));
    assert(s.subrange(0, s.len() as int) =~= s);
}

/// The signed integer that 128 bits denote in two's complement.
pub fn int128_from_bits(x: u128) -> (r: i128)
    ensures
        r == int128_of_bits(x),
{
    let high: u128 = 0x8000_0000_0000_0000_0000_0000_0000_0000;
    if x < high {
        x as i128
    } else {
        ((x - high) as i128) + i128::MIN
    }
}

/// Reads a signed integer.
pub fn read_int128(data: &[u8], pos: usize) -> (r: Option<(i128, usize)>)
    ensures
        match r {
            Some((n, end)) => parse_int128(data@, pos as int) == Some((n, end as int)) && end
                <= data@.len(),
            None => parse_int128(data@, pos as int) is None,
        },
{
    match read_u128(data, pos) {
        Some((x, p)) => Some((int128_from_bits(x), p)),
        None => None,
    }
}

/// Reads a 512-bit integer.
pub fn read_u512(data: &[u8], pos: usize) -> (r: Option<(U512, usize)>)
    ensures
        match r {
            Some((n, end)) => parse_u512(data@, pos as int) == Some((n@, end as int)) && end
                <= data@.len(),
            None => parse_u512(data@, pos as int) is None,
        },
{
    U512::read_le_bytes(data, pos)
}

/// Reads an account.
#[verifier::loop_isolation(false)]
pub fn read_account(data: &[u8], pos: usize) -> (r: Option<(Account, usize)>)
    ensures
        match r {
            Some((a, end)) => parse_account(data@, pos as int) == Some((a@, end as int)) && end
                <= data@.len(),
            None => parse_account(data@, pos as int) is None,
        },
{
    let (public_key, p1) = match read_bytes32(data, pos) {
        Some(found) => found,
        None => {
            return None;
        },
    };
    let (nonce, p2) = match read_u64(data, p1) {
        Some(found) => found,
        None => {
            return None;
        },
    };
    let (named_keys, p3) = match read_named_keys(data, p2) {
        Some(found) => found,
        None => {
            return None;
        },
    };
    let (purse, p4) = match read_key(data, p3) {
        Some(found) => found,
        None => {
            return None;
        },
    };
    let (count, p5) = match read_u64(data, p4) {
        Some(found) => found,
        None => {
            return None;
        },
    };
    let mut associated_keys: Vec<AssociatedKey> = Vec::new();
    let mut current = p5;
    let mut i: u64 = 0;
    while i < count
        invariant
            i <= count,
            current <= data@.len(),
            parse_associated_entries(
                data@,
                p5 as int,
                count as nat,
                Seq::<AssociatedKey>::empty(),
            ) == parse_associated_entries(
                data@,
                current as int,
                (count - i) as nat,
                associated_keys@,
            ),
        decreases count - i,
    {
        let (key, p) = match read_bytes32(data, current) {
            Some(found) => found,
            None => {
                return None;
            },
        };
        let (weight, q) = match read_byte(data, p) {
            Some(found) => found,
            None => {
                return None;
            },
        };
        associated_keys.push(AssociatedKey { public_key: key, weight });
        current = q;
        i = i + 1;
    }
    let (deployment, p7) = match read_byte(data, current) {
        Some(found) => found,
        None => {
            return None;
        },
    };
    let (key_management, p8) = match read_byte(data, p7) {
        Some(found) => found,
        None => {
            return None;
        },
    };
    Some(
        (
            Account {
                public_key,
                nonce,
                named_keys,
                purse,
                associated_keys,
                action_thresholds: ActionThresholds { deployment, key_management },
            },
            p8,
        ),
    )
}

/// Reads a contract.
pub fn read_contract(data: &[u8], pos: usize) -> (r: Option<(Contract, usize)>)
    ensures
        match r {
            Some((c, end)) => parse_contract(data@, pos as int) == Some((c@, end as int)) && end
                <= data@.len(),
            None => parse_contract(data@, pos as int) is None,
        },
{
    let (bytes, p) = match read_bytes(data, pos) {
        Some(found) => found,
        None => {
            return None;
        },
    };
    match read_named_keys(data, p) {
        Some((named_keys, q)) => Some((Contract { bytes, named_keys }, q)),
        None => None,
    }
}

/// Reads a typed datum.
pub fn read_cl_value(data: &[u8], pos: usize) -> (r: Option<(CLValue, usize)>)
    ensures
        match r {
            Some((v, end)) => parse_cl_value(data@, pos as int) == Some((v@, end as int)) && end
                <= data@.len(),
            None => parse_cl_value(data@, pos as int) is None,
        },
{
    let (tag, p) = match read_byte(data, pos) {
        Some(found) => found,
        None => {
            return None;
        },
    };
    if tag == 0 {
        match read_int128(data, p) {
            Some((n, q)) => Some((CLValue::Int128(n), q)),
            None => None,
        }
    } else if tag == 1 {
        match read_u512(data, p) {
            Some((n, q)) => Some((CLValue::U512(n), q)),
            None => None,
        }
    } else if tag == 2 {
        match read_byte(data, p) {
            Some((flag, q)) => if flag == 0 {
                Some((CLValue::OptionU64(None), q))
            } else if flag == 1 {
                match read_u64(data, q) {
                    Some((n, r)) => Some((CLValue::OptionU64(Some(n)), r)),
                    None => None,
                }
            } else {
                None
            },
            None => None,
        }
    } else if tag == 3 {
        match read_string(data, p) {
            Some((text, q)) => Some((CLValue::String(text), q)),
            None => None,
        }
    } else if tag == 4 {
        match read_key(data, p) {
            Some((key, q)) => Some((CLValue::Key(key), q)),
            None => None,
        }
    } else {
        None
    }
}

/// Reads a stored value.
pub fn read_value(data: &[u8], pos: usize) -> (r: Option<(Value, usize)>)
    ensures
        match r {
            Some((v, end)) => parse_value(data@, pos as int) == Some((v@, end as int)) && end
                <= data@.len(),
            None => parse_value(data@, pos as int) is None,
        },
{
    let (tag, p) = match read_byte(data, pos) {
        Some(found) => found,
        None => {
            return None;
        },
    };
    if tag == 0 {
        match read_account(data, p) {
            Some((a, q)) => Some((Value::Account(a), q)),
            None => None,
        }
    } else if tag == 1 {
        match read_contract(data, p) {
            Some((c, q)) => Some((Value::Contract(c), q)),
            None => None,
        }
    } else if tag == 2 {
        match read_cl_value(data, p) {
            Some((v, q)) => Some((Value::CLValue(v), q)),
            None => None,
        }
    } else if tag == 3 {
        Some((Value::Unit, p))
    } else {
        None
    }
}

/// Reads a transform.
pub fn read_transform(data: &[u8], pos: usize) -> (r: Option<(Transform, usize)>)
    ensures
        match r {
            Some((t, end)) => parse_transform(data@, pos as int) == Some((t@, end as int)) && end
                <= data@.len(),
            None => parse_transform(data@, pos as int) is None,
        },
{
    let (tag, p) = match read_byte(data, pos) {
        Some(found) => found,
        None => {
            return None;
        },
    };
    if tag == 0 {
        Some((Transform::Identity, p))
    } else if tag == 1 {
        match read_value(data, p) {
            Some((v, q)) => Some((Transform::Write(v), q)),
            None => None,
        }
    } else if tag == 2 {
        match read_int128(data, p) {
            Some((n, q)) => Some((Transform::AddInt128(n), q)),
            None => None,
        }
    } else if tag == 3 {
        match read_u512(data, p) {
            Some((n, q)) => Some((Transform::AddU512(n), q)),
            None => None,
        }
    } else if tag == 4 {
        match read_named_keys(data, p) {
            Some((k, q)) => Some((Transform::AddKeys(k), q)),
            None => None,
        }
    } else {
        None
    }
}

/// The mathematical form of a transform set that may be absent.
pub open spec fn set_view(r: Option<TransformSet>) -> Option<TransformSetView> {
    match r {
        Some(set) => Some(set@),
        None => None,
    }
}

impl TransformSet {
    /// The transform set that the bytes are the bytes of, or nothing where
    /// they are not the bytes of a transform set.
    #[verifier::loop_isolation(false)]
    pub fn from_bytes(data: &[u8]) -> (r: Option<TransformSet>)
        ensures
            set_view(r) == decode_transform_set(data@),
            match r {
                Some(set) => data@ == encode_transform_set(set@),
                None => forall|set: TransformSetView|
                    valid_set(set) ==> data@ != #[trigger] encode_transform_set(set),
            },
    {
        proof {
            if decode_transform_set(data@) is Some {
                lemma_encode_decode(data@);
            } else {
                assert forall|set: TransformSetView| valid_set(set) implies data@
                    != #[trigger] encode_transform_set(set) by {
                    lemma_decode_encode(set);
                }
            }
        }
        let (count, start) = match read_u64(data, 0) {
            Some(found) => found,
            None => {
                return None;
            },
        };
        let mut set = TransformSet::new();
        let mut current = start;
        let mut i: u64 = 0;
        while i < count
            invariant
                i <= count,
                current <= data@.len(),
                parse_transform_set(data@, 0) == parse_entries(
                    data@,
                    current as int,
                    (count - i) as nat,
                    set@,
                ),
            decreases count - i,
        {
            let (key, p) = match read_key(data, current) {
                Some(found) => found,
                None => {
                    return None;
                },
            };
            let (transform, q) = match read_transform(data, p) {
                Some(found) => found,
                None => {
                    return None;
                },
            };
            set.push(key, transform);
            current = q;
            i = i + 1;
        }
        if current == data.len() {
            Some(set)
        } else {
            None
        }
    }
}

} // verus!
