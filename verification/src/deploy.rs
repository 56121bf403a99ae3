use vstd::prelude::*;
use crate::digest::Digest;
use crate::error::Error;
use crate::gas::Gas;
use crate::global_state::{commit_spec, held_at, Contents, GlobalState};
use crate::store::digest_collision;
use crate::trie::state_root;
use crate::key::Key;
use crate::motes::Motes;
use crate::transform::{Transform, TransformView};
use crate::transform_set::{lemma_merged_at_push, outcome_at, TransformSet, TransformSetView};
use crate::uint512::modulus;
use crate::value::{CLValue, CLValueView, Value, ValueView};

verus! {

/// The price of `gas` at `conv_rate` motes for each unit of gas, taken from
/// a balance: what is left of the balance, or an overflow where the price
/// does not fit in 512 bits or is more than the balance.
pub open spec fn deduct_spec(balance: nat, gas: nat, conv_rate: u64) -> Result<nat, Error> {
    if gas * conv_rate >= modulus() || gas * conv_rate > balance {
        Err(Error::Overflow)
    } else {
        Ok((balance - gas * conv_rate) as nat)
    }
}

/// What is left of a balance once the gas that an execution consumed is
/// paid for.
pub fn deduct(balance: Motes, gas: Gas, conv_rate: u64) -> (r: Result<Motes, Error>)
    ensures
        match r {
            Ok(rest) => deduct_spec(balance@, gas@, conv_rate) == Ok::<nat, Error>(rest@),
            Err(e) => deduct_spec(balance@, gas@, conv_rate) == Err::<nat, Error>(e),
        },
{
    let cost = match Motes::from_gas(gas, conv_rate) {
        Some(cost) => cost,
        None => {
            return Err(Error::Overflow);
        },
    };
    let (rest, below) = balance.value().overflowing_sub(cost.value());
    if below {
        Err(Error::Overflow)
    } else {
        Ok(Motes::new(rest))
    }
}

/// The balance that a purse holds once the effects of an execution are
/// applied to the state that holds `contents`: a type mismatch where the
/// purse then holds no amount, and whatever the effects fail with at the
/// purse.
pub open spec fn balance_after(set: TransformSetView, contents: Contents, purse: Key) -> Result<
    nat,
    Error,
> {
    match outcome_at(set, held_at(contents, purse.spec_address()), purse.spec_address()) {
        Ok(Some(ValueView::CLValue(CLValueView::U512(n)))) => Ok(n),
        Ok(_) => Err(Error::TypeMismatch),
        Err(e) => Err(e),
    }
}

/// The effects of an execution with the payment for its gas: one more
/// transform, which writes to the payer's purse what is left of its
/// balance.
pub open spec fn charge_spec(
    states: Map<Digest, Contents>,
    root: Digest,
    set: TransformSetView,
    purse: Key,
    gas: nat,
    conv_rate: u64,
) -> Result<TransformSetView, Error> {
    if !states.contains_key(root) {
        Err(Error::UnknownRoot)
    } else {
        match balance_after(set, states[root], purse) {
            Err(e) => Err(e),
            Ok(balance) => match deduct_spec(balance, gas, conv_rate) {
                Err(e) => Err(e),
                Ok(rest) => Ok(
                    set.push(
                        (purse, TransformView::Write(ValueView::CLValue(CLValueView::U512(rest)))),
                    ),
                ),
            },
        }
    }
}

/// Adds to the effects of an execution the payment for the gas that it
/// consumed, taken from the balance that the payer's purse holds once the
/// effects are applied. The effects stay as they are where the payment
/// fails.
pub fn charge(
    state: &GlobalState,
    root: &Digest,
    set: &mut TransformSet,
    purse: Key,
    gas: Gas,
    conv_rate: u64,
) -> (r: Result<(), Error>)
    requires
        state.wf(),
    ensures
        match charge_spec(state@, *root, old(set)@, purse, gas@, conv_rate) {
            Ok(charged) => r is Ok && final(set)@ == charged,
            Err(e) => r == Err::<(), Error>(e) && final(set)@ == old(set)@,
        },
{
    let held = match state.read(root, &purse) {
        Ok(held) => held,
        Err(e) => {
            return Err(e);
        },
    };
    let address = purse.address();
    let balance = match set.outcome(held, &address) {
        Ok(Some(Value::CLValue(CLValue::U512(n)))) => Motes::new(n),
        Ok(_) => {
            return Err(Error::TypeMismatch);
        },
        Err(e) => {
            return Err(e);
        },
    };
    let rest = match deduct(balance, gas, conv_rate) {
        Ok(rest) => rest,
        Err(e) => {
            return Err(e);
        },
    };
    set.push(purse, Transform::Write(Value::from_u512(rest.value())));
    Ok(())
}

/// Commits the effects of an execution together with the payment for the
/// gas that it consumed, and gives the root of the state that results.
/// All or nothing: where the payment or the commit fails, the store stays
/// as it was.
pub fn settle(
    state: &mut GlobalState,
    root: &Digest,
    effects: TransformSet,
    purse: Key,
    gas: Gas,
    conv_rate: u64,
) -> (r: Result<Digest, Error>)
    requires
        old(state).wf(),
    ensures
        final(state).wf(),
        match charge_spec(old(state)@, *root, effects@, purse, gas@, conv_rate) {
            Err(e) => r == Err::<Digest, Error>(e) && final(state)@ == old(state)@,
            Ok(charged) => match commit_spec(old(state)@, *root, charged) {
                Err(e) => r == Err::<Digest, Error>(e) && final(state)@ == old(state)@,
                Ok(contents) => match r {
                    Ok(new_root) => new_root@ == state_root(contents) && final(state)@ == old(
                        state,
                    )@.insert(new_root, contents),
                    Err(e) => e == Error::CorruptNode && digest_collision() && final(state)@
                        == old(state)@,
                },
            },
        },
{
    let mut charged = effects;
    match charge(state, root, &mut charged, purse, gas, conv_rate) {
        Ok(()) => state.commit(root, &charged),
        Err(e) => Err(e),
    }
}

/// Once the payment is added, the effects leave in the payer's purse what
/// is left of its balance.
pub proof fn lemma_charged_balance(
    set: TransformSetView,
    contents: Contents,
    purse: Key,
    rest: nat,
)
    requires
        balance_after(set, contents, purse) is Ok,
    ensures
        balance_after(
            set.push((purse, TransformView::Write(ValueView::CLValue(CLValueView::U512(rest))))),
            contents,
            purse,
        ) == Ok::<nat, Error>(rest),
{
    lemma_merged_at_push(
        set,
        purse,
        TransformView::Write(ValueView::CLValue(CLValueView::U512(rest))),
        purse.spec_address(),
    );
}

} // verus!
