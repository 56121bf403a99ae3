use vstd::prelude::*;
use crate::error::Error;
use crate::named_keys::{lemma_named_merge_concat, named_merge, NamedKeys, NamedKeysView};
use crate::uint512::{modulus, U512};
use crate::value::{held_view, CLValue, CLValueView, Value, ValueView};

verus! {

/// The effect that an execution step asks for at one key.
#[derive(Debug)]
pub enum Transform {
    /// The key was read; nothing changes.
    Identity,
    /// The value replaces whatever the key held.
    Write(Value),
    /// The amount is added to the signed integer that the key holds.
    AddInt128(i128),
    /// The amount is added to the 512-bit integer that the key holds.
    AddU512(U512),
    /// The entries are entered in the named-key table of the account or
    /// contract that the key holds.
    AddKeys(NamedKeys),
}

/// The mathematical form of a transform.
pub enum TransformView {
    Identity,
    Write(ValueView),
    AddInt128(i128),
    AddU512(nat),
    AddKeys(NamedKeysView),
}

impl View for Transform {
    type V = TransformView;

    open spec fn view(&self) -> TransformView {
        match self {
            Transform::Identity => TransformView::Identity,
            Transform::Write(v) => TransformView::Write(v@),
            Transform::AddInt128(n) => TransformView::AddInt128(*n),
            Transform::AddU512(n) => TransformView::AddU512(n@),
            Transform::AddKeys(k) => TransformView::AddKeys(k@),
        }
    }
}

/// The mathematical form of the outcome of applying a transform.
pub open spec fn value_outcome(r: Result<Value, Error>) -> Result<ValueView, Error> {
    match r {
        Ok(v) => Ok(v@),
        Err(e) => Err(e),
    }
}

/// The mathematical form of the outcome of merging two transforms.
pub open spec fn transform_outcome(r: Result<Transform, Error>) -> Result<TransformView, Error> {
    match r {
        Ok(t) => Ok(t@),
        Err(e) => Err(e),
    }
}

/// The mathematical form of the outcome of applying a transform to what a
/// key holds.
pub open spec fn slot_outcome(r: Result<Option<Value>, Error>) -> Result<Option<ValueView>, Error> {
    match r {
        Ok(v) => Ok(held_view(v)),
        Err(e) => Err(e),
    }
}

/// The sum of two signed integers, or an overflow where it is no signed
/// 128-bit integer.
pub open spec fn signed_sum(x: i128, y: i128) -> Result<i128, Error> {
    if x + y > i128::MAX || x + y < i128::MIN {
        Err(Error::Overflow)
    } else {
        Ok((x + y) as i128)
    }
}

/// The sum of two amounts, or an overflow where it does not fit in 512
/// bits.
pub open spec fn amount_sum(x: nat, y: nat) -> Result<nat, Error> {
    if x + y >= modulus() {
        Err(Error::Overflow)
    } else {
        Ok(x + y)
    }
}

/// The value that a transform makes of `value`. A sum that does not fit is
/// an overflow; adding to a value of another type, and entering names in a
/// value that has no named-key table, is a type mismatch.
pub open spec fn apply_spec(t: TransformView, value: ValueView) -> Result<ValueView, Error> {
    match t {
        TransformView::Identity => Ok(value),
        TransformView::Write(w) => Ok(w),
        TransformView::AddInt128(n) => match value {
            ValueView::CLValue(CLValueView::Int128(x)) => match signed_sum(x, n) {
                Ok(sum) => Ok(ValueView::CLValue(CLValueView::Int128(sum))),
                Err(e) => Err(e),
            },
            _ => Err(Error::TypeMismatch),
        },
        TransformView::AddU512(n) => match value {
            ValueView::CLValue(CLValueView::U512(x)) => match amount_sum(x, n) {
                Ok(sum) => Ok(ValueView::CLValue(CLValueView::U512(sum))),
                Err(e) => Err(e),
            },
            _ => Err(Error::TypeMismatch),
        },
        TransformView::AddKeys(keys) => match value {
            ValueView::Account(a) => Ok(
                ValueView::Account(
                    crate::value::AccountView { named_keys: named_merge(a.named_keys, keys), ..a },
                ),
            ),
            ValueView::Contract(c) => Ok(
                ValueView::Contract(
                    crate::value::ContractView {
                        named_keys: named_merge(c.named_keys, keys),
                        ..c
                    },
                ),
            ),
            _ => Err(Error::TypeMismatch),
        },
    }
}

/// The one transform that stands for `first` followed by `second` at the
/// same key. A later write discards what came before it; a transform after
/// a write is applied to the written value; sums accumulate, and overflow
/// where they do not fit; lists of names are joined. Anything else is a
/// type mismatch.
pub open spec fn merge_spec(first: TransformView, second: TransformView) -> Result<
    TransformView,
    Error,
> {
    match (first, second) {
        (a, TransformView::Identity) => Ok(a),
        (TransformView::Identity, b) => Ok(b),
        (_, TransformView::Write(w)) => Ok(TransformView::Write(w)),
        (TransformView::Write(v), b) => match apply_spec(b, v) {
            Ok(w) => Ok(TransformView::Write(w)),
            Err(e) => Err(e),
        },
        (TransformView::AddInt128(i), TransformView::AddInt128(j)) => match signed_sum(i, j) {
            Ok(sum) => Ok(TransformView::AddInt128(sum)),
            Err(e) => Err(e),
        },
        (TransformView::AddU512(i), TransformView::AddU512(j)) => match amount_sum(i, j) {
            Ok(sum) => Ok(TransformView::AddU512(sum)),
            Err(e) => Err(e),
        },
        (TransformView::AddKeys(k1), TransformView::AddKeys(k2)) => Ok(
            TransformView::AddKeys(k1 + k2),
        ),
        _ => Err(Error::TypeMismatch),
    }
}

/// The one transform that stands for a list of transforms at one key,
/// merged from left to right.
pub open spec fn merge_all(list: Seq<TransformView>) -> Result<TransformView, Error>
    decreases list.len(),
{
    if list.len() == 0 {
        Ok(TransformView::Identity)
    } else {
        match merge_all(list.drop_last()) {
            Ok(t) => merge_spec(t, list.last()),
            Err(e) => Err(e),
        }
    }
}

/// What a key holds after a transform, given what it held before. A key
/// that holds nothing takes a write and ignores a read; any other
/// transform is a type mismatch there.
pub open spec fn apply_to_slot(t: TransformView, held: Option<ValueView>) -> Result<
    Option<ValueView>,
    Error,
> {
    match (t, held) {
        (TransformView::Identity, _) => Ok(held),
        (TransformView::Write(w), _) => Ok(Some(w)),
        (_, None) => Err(Error::TypeMismatch),
        (_, Some(v)) => match apply_spec(t, v) {
            Ok(w) => Ok(Some(w)),
            Err(e) => Err(e),
        },
    }
}

/// Applying a merged transform is applying its two parts in turn, wherever
/// the first part applies.
pub proof fn lemma_merge_then_apply(
    first: TransformView,
    second: TransformView,
    merged: TransformView,
    value: ValueView,
    middle: ValueView,
)
    requires
        merge_spec(first, second) == Ok::<TransformView, Error>(merged),
        apply_spec(first, value) == Ok::<ValueView, Error>(middle),
    ensures
        apply_spec(merged, value) == apply_spec(second, middle),
{
    match (first, second) {
        (TransformView::AddKeys(k1), TransformView::AddKeys(k2)) => {
            match value {
                ValueView::Account(a) => {
                    lemma_named_merge_concat(a.named_keys, k1, k2);
                },
                ValueView::Contract(c) => {
                    lemma_named_merge_concat(c.named_keys, k1, k2);
                },
                _ => {},
            }
        },
        _ => {},
    }
}

/// Where two transforms do not merge because their types do not go
/// together, or because amounts do not add up, they do not apply in turn
/// either.
pub proof fn lemma_merge_failure(first: TransformView, second: TransformView, value: ValueView)
    requires
        merge_spec(first, second) is Err,
        !(first is AddInt128 && second is AddInt128),
    ensures
        apply_spec(first, value) matches Ok(middle) ==> apply_spec(second, middle) is Err,
{
}

/// Transforms fail to apply and to merge with a type mismatch or with an
/// overflow, and with nothing else.
pub proof fn lemma_failures(first: TransformView, second: TransformView, value: ValueView)
    ensures
        apply_spec(first, value) matches Err(e) ==> e == Error::TypeMismatch || e
            == Error::Overflow,
        merge_spec(first, second) matches Err(e) ==> e == Error::TypeMismatch || e
            == Error::Overflow,
        apply_to_slot(first, Some(value)) matches Err(e) ==> e == Error::TypeMismatch || e
            == Error::Overflow,
        apply_to_slot(first, None) matches Err(e) ==> e == Error::TypeMismatch,
{
}

/// A later write discards whatever came before it.
pub proof fn lemma_write_absorbs(first: TransformView, written: ValueView)
    ensures
        merge_spec(first, TransformView::Write(written)) == Ok::<TransformView, Error>(
            TransformView::Write(written),
        ),
{
}

/// A sum after a write is added to the written number.
pub proof fn lemma_add_after_write(written: nat, amount: nat)
    requires
        written + amount < modulus(),
    ensures
        merge_spec(
            TransformView::Write(ValueView::CLValue(CLValueView::U512(written))),
            TransformView::AddU512(amount),
        ) == Ok::<TransformView, Error>(
            TransformView::Write(ValueView::CLValue(CLValueView::U512(written + amount))),
        ),
{
}

/// Sums accumulate in either order.
pub proof fn lemma_add_commutes(i: nat, j: nat, x: i128, y: i128)
    ensures
        merge_spec(TransformView::AddU512(i), TransformView::AddU512(j)) == merge_spec(
            TransformView::AddU512(j),
            TransformView::AddU512(i),
        ),
        merge_spec(TransformView::AddInt128(x), TransformView::AddInt128(y)) == merge_spec(
            TransformView::AddInt128(y),
            TransformView::AddInt128(x),
        ),
{
}

impl Clone for Transform {
    fn clone(&self) -> (r: Transform)
        ensures
            r@ == self@,
    {
        match self {
            Transform::Identity => Transform::Identity,
            Transform::Write(v) => Transform::Write(v.clone()),
            Transform::AddInt128(n) => Transform::AddInt128(*n),
            Transform::AddU512(n) => Transform::AddU512(*n),
            Transform::AddKeys(k) => Transform::AddKeys(k.clone()),
        }
    }
}

impl Transform {
    /// The value that the transform makes of `value`.
    pub fn apply(&self, value: Value) -> (r: Result<Value, Error>)
        ensures
            value_outcome(r) == apply_spec(self@, value@),
    {
        match self {
            Transform::Identity => Ok(value),
            Transform::Write(w) => Ok(w.clone()),
            Transform::AddInt128(n) => match value {
                Value::CLValue(CLValue::Int128(x)) => match x.checked_add(*n) {
                    Some(sum) => Ok(Value::CLValue(CLValue::Int128(sum))),
                    None => Err(Error::Overflow),
                },
                _ => Err(Error::TypeMismatch),
            },
            Transform::AddU512(n) => match value {
                Value::CLValue(CLValue::U512(x)) => match x.checked_add(*n) {
                    Some(sum) => Ok(Value::CLValue(CLValue::U512(sum))),
                    None => Err(Error::Overflow),
                },
                _ => Err(Error::TypeMismatch),
            },
            Transform::AddKeys(keys) => match value {
                Value::Account(account) => {
                    let mut account = account;
                    account.named_keys.merge(keys);
                    Ok(Value::Account(account))
                },
                Value::Contract(contract) => {
                    let mut contract = contract;
                    contract.named_keys.merge(keys);
                    Ok(Value::Contract(contract))
                },
                _ => Err(Error::TypeMismatch),
            },
        }
    }

    /// What a key holds after the transform, given what it held before.
    pub fn apply_to(&self, held: Option<Value>) -> (r: Result<Option<Value>, Error>)
        ensures
            slot_outcome(r) == apply_to_slot(self@, held_view(held)),
    {
        match self {
            Transform::Identity => Ok(held),
            Transform::Write(w) => Ok(Some(w.clone())),
            _ => match held {
                None => Err(Error::TypeMismatch),
                Some(v) => match self.apply(v) {
                    Ok(w) => Ok(Some(w)),
                    Err(e) => Err(e),
                },
            },
        }
    }

    /// The one transform that stands for `self` followed by `second` at
    /// the same key.
    pub fn merge(self, second: Transform) -> (r: Result<Transform, Error>)
        ensures
            transform_outcome(r) == merge_spec(self@, second@),
    {
        match (self, second) {
            (a, Transform::Identity) => Ok(a),
            (Transform::Identity, b) => Ok(b),
            (_, Transform::Write(w)) => Ok(Transform::Write(w)),
            (Transform::Write(v), b) => match b.apply(v) {
                Ok(w) => Ok(Transform::Write(w)),
                Err(e) => Err(e),
            },
            (Transform::AddInt128(i), Transform::AddInt128(j)) => match i.checked_add(j) {
                Some(sum) => Ok(Transform::AddInt128(sum)),
                None => Err(Error::Overflow),
            },
            (Transform::AddU512(i), Transform::AddU512(j)) => match i.checked_add(j) {
                Some(sum) => Ok(Transform::AddU512(sum)),
                None => Err(Error::Overflow),
            },
            (Transform::AddKeys(k1), Transform::AddKeys(k2)) => {
                let mut joined = k1;
                joined.append(&k2);
                Ok(Transform::AddKeys(joined))
            },
            _ => Err(Error::TypeMismatch),
        }
    }
}

} // verus!
