use vstd::prelude::*;
use crate::digest::Digest;
use crate::error::Error;
use crate::genesis::{
    bonding_purse_key, derive_id, purse_key, stake_key, system_account_addr, BONDING_PURSE, PURSE,
    STAKE,
};
use crate::global_state::{held_at, Contents, GlobalState};
use crate::key::{AccessRights, Key};
use crate::transform::{Transform, TransformView};
use crate::transform_set::{TransformSet, TransformSetView};
use crate::motes::Motes;
use crate::named_keys::{named_get, NamedKeys, NamedKeysView};
use crate::uint512::U512;
use crate::value::{CLValue, CLValueView, Value, ValueView};

verus! {

/// The name under which an account knows the proof-of-stake contract.
pub const POS_CONTRACT_NAME: &'static str = "pos";

/// The entry point of the proof-of-stake contract that releases a stake.
pub const UNBOND_METHOD_NAME: &'static str = "unbond";

/// The reason code for a name that the caller does not know.
pub const NAME_NOT_FOUND: u32 = 55;

/// The reason code for a named key that is not a reference.
pub const NOT_A_REFERENCE: u32 = 66;

/// The reason code for a stored key that does not point to a contract.
pub const NOT_A_CONTRACT: u32 = 77;

/// Why a call was given up.
#[derive(Debug, Clone, Copy, PartialEq, Eq, Structural)]
pub enum CallFailure {
    /// The caller gave the call up, with its reason code.
    Revert(u32),
    /// Global state refused what the caller asked of it.
    Trap(Error),
}

impl CallFailure {
    /// The kind of failure: a name that does not resolve, a key of the
    /// wrong variant, or what global state refused with.
    pub open spec fn spec_reason(&self) -> Error {
        match *self {
            CallFailure::Revert(code) => if code == NAME_NOT_FOUND {
                Error::NameNotFound
            } else {
                Error::WrongKeyVariant
            },
            CallFailure::Trap(e) => e,
        }
    }

    /// The kind of failure.
    #[verifier::when_used_as_spec(spec_reason)]
    pub fn reason(&self) -> (r: Error)
        ensures
            r == self.spec_reason(),
    {
        match self {
            CallFailure::Revert(code) => if *code == NAME_NOT_FOUND {
                Error::NameNotFound
            } else {
                Error::WrongKeyVariant
            },
            CallFailure::Trap(e) => *e,
        }
    }
}

/// A call of an entry point of a stored contract.
#[derive(Debug)]
pub struct ContractCall {
    /// The key of the contract.
    pub contract: Key,
    /// The name of the entry point.
    pub method: String,
    /// The amount to unbond; none to unbond everything.
    pub amount: Option<U512>,
}

/// The mathematical form of a call.
pub struct ContractCallView {
    pub contract: Key,
    pub method: Seq<char>,
    pub amount: Option<nat>,
}

impl View for ContractCall {
    type V = ContractCallView;

    open spec fn view(&self) -> ContractCallView {
        ContractCallView {
            contract: self.contract,
            method: self.method@,
            amount: match self.amount {
                Some(n) => Some(n@),
                None => None,
            },
        }
    }
}

/// The mathematical form of the outcome of preparing a call.
pub open spec fn call_outcome(r: Result<ContractCall, CallFailure>) -> Result<
    ContractCallView,
    CallFailure,
> {
    match r {
        Ok(c) => Ok(c@),
        Err(e) => Err(e),
    }
}

/// The value, or the reason code where there is none.
pub fn unwrap_or_revert<T>(option: Option<T>, code: u32) -> (r: Result<T, CallFailure>)
    ensures
        r == match option {
            Some(value) => Ok::<T, CallFailure>(value),
            None => Err::<T, CallFailure>(CallFailure::Revert(code)),
        },
{
    match option {
        Some(value) => Ok(value),
        None => Err(CallFailure::Revert(code)),
    }
}

/// The key that the state under `root` holds behind a reference. The
/// reference must give the right to read.
pub open spec fn read_key_spec(states: Map<Digest, Contents>, root: Digest, pointer: Key) -> Result<
    Key,
    CallFailure,
> {
    if !(pointer.spec_access_rights() matches Some(rights) && rights.read) {
        Err(CallFailure::Trap(Error::InsufficientAccessRights))
    } else if !states.contains_key(root) {
        Err(CallFailure::Trap(Error::UnknownRoot))
    } else {
        match held_at(states[root], pointer.spec_address()) {
            Some(ValueView::CLValue(CLValueView::Key(k))) => Ok(k),
            _ => Err(CallFailure::Trap(Error::TypeMismatch)),
        }
    }
}

/// The call that unbonds `amount` for a caller who knows the keys of
/// `named` in the state under `root`: the name of the proof-of-stake
/// contract is resolved to a reference, the reference is followed to the
/// key of the contract, and the amount is widened to 512 bits.
pub open spec fn call_spec(
    named: NamedKeysView,
    states: Map<Digest, Contents>,
    root: Digest,
    amount: Option<u64>,
) -> Result<ContractCallView, CallFailure> {
    match named_get(named, POS_CONTRACT_NAME@) {
        None => Err(CallFailure::Revert(NAME_NOT_FOUND)),
        Some(named_key) => match named_key.spec_to_u_ptr() {
            None => Err(CallFailure::Revert(NOT_A_REFERENCE)),
            Some(pointer) => match read_key_spec(states, root, pointer) {
                Err(e) => Err(e),
                Ok(stored) => match stored.spec_to_c_ptr() {
                    None => Err(CallFailure::Revert(NOT_A_CONTRACT)),
                    Some(contract) => Ok(
                        ContractCallView {
                            contract,
                            method: UNBOND_METHOD_NAME@,
                            amount: match amount {
                                Some(n) => Some(n as nat),
                                None => None,
                            },
                        },
                    ),
                },
            },
        },
    }
}

/// The key that the state under `root` holds behind a reference.
pub fn read_key(state: &GlobalState, root: &Digest, pointer: &Key) -> (r: Result<Key, CallFailure>)
    requires
        state.wf(),
    ensures
        r == read_key_spec(state@, *root, *pointer),
{
    let readable = match pointer.access_rights() {
        Some(rights) => rights.read,
        None => false,
    };
    if !readable {
        return Err(CallFailure::Trap(Error::InsufficientAccessRights));
    }
    match state.read(root, pointer) {
        Err(e) => Err(CallFailure::Trap(e)),
        Ok(Some(Value::CLValue(CLValue::Key(k)))) => Ok(k),
        Ok(_) => Err(CallFailure::Trap(Error::TypeMismatch)),
    }
}

/// Prepares the call that unbonds `amount`, or all of the caller's stake
/// where `amount` is none. Nothing is unbonded where the call fails.
pub fn call(named: &NamedKeys, state: &GlobalState, root: &Digest, amount: Option<u64>) -> (r:
    Result<ContractCall, CallFailure>)
    requires
        state.wf(),
    ensures
        call_outcome(r) == call_spec(named@, state@, *root, amount),
{
    let pos_uref = match unwrap_or_revert(named.get(POS_CONTRACT_NAME), NAME_NOT_FOUND) {
        Ok(k) => k,
        Err(e) => {
            return Err(e);
        },
    };
    let pos_public = match unwrap_or_revert(pos_uref.to_u_ptr(), NOT_A_REFERENCE) {
        Ok(k) => k,
        Err(e) => {
            return Err(e);
        },
    };
    let pos_contract = match read_key(state, root, &pos_public) {
        Ok(k) => k,
        Err(e) => {
            return Err(e);
        },
    };
    let pos_pointer = match unwrap_or_revert(pos_contract.to_c_ptr(), NOT_A_CONTRACT) {
        Ok(k) => k,
        Err(e) => {
            return Err(e);
        },
    };
    let unbond_amount = match amount {
        Some(n) => Some(U512::from_u64(n)),
        None => None,
    };
    Ok(
        ContractCall {
            contract: pos_pointer,
            method: UNBOND_METHOD_NAME.to_owned(),
            amount: unbond_amount,
        },
    )
}

/// What unbonding comes to: the stake that is released and the stake
/// that stays bonded.
#[derive(Debug, Clone, Copy)]
pub struct Unbonding {
    pub released: Motes,
    pub remaining: Motes,
}

/// Releases `amount` of a stake of `bonded`, or all of it where `amount`
/// is none. Nothing is released where the amount is more than the stake.
pub fn unbond(bonded: Motes, amount: Option<U512>) -> (r: Option<Unbonding>)
    ensures
        match amount {
            None => r is Some && r.unwrap().released@ == bonded@ && r.unwrap().remaining@ == 0,
            Some(n) => if n@ <= bonded@ {
                r is Some && r.unwrap().released@ == n@ && r.unwrap().remaining@ == bonded@ - n@
            } else {
                r is None
            },
        },
{
    match amount {
        None => Some(Unbonding { released: bonded, remaining: Motes::zero() }),
        Some(n) => {
            let (rest, below) = bonded.value().overflowing_sub(n);
            if below {
                None
            } else {
                Some(Unbonding { released: Motes::new(n), remaining: Motes::new(rest) })
            }
        },
    }
}

/// The amount that the state under `root` holds under a key.
pub open spec fn amount_at(states: Map<Digest, Contents>, root: Digest, key: Key) -> Option<nat> {
    match held_at(states[root], key.spec_address()) {
        Some(ValueView::CLValue(CLValueView::U512(n))) => Some(n),
        _ => None,
    }
}

/// The effects of unbonding `amount` of the stake of `owner`, or all of it
/// where `amount` is none, in the state under `root`: the record of the
/// stake and the purse of all stakes go down by what is released, and the
/// purse of the owner goes up by it. Nothing is released where the state
/// holds no stake of the owner, and where the amount is more than the
/// stake.
pub open spec fn unbond_effects_spec(
    states: Map<Digest, Contents>,
    root: Digest,
    owner: [u8; 32],
    amount: Option<nat>,
) -> Result<TransformSetView, Error> {
    if !states.contains_key(root) {
        Err(Error::UnknownRoot)
    } else {
        match (
            amount_at(states, root, stake_key(owner)),
            amount_at(states, root, bonding_purse_key()),
        ) {
            (Some(bonded), Some(total)) => {
                let released = match amount {
                    Some(n) => n,
                    None => bonded,
                };
                if released > bonded || released > total {
                    Err(Error::Overflow)
                } else {
                    Ok(
                        seq![
                            (
                                stake_key(owner),
                                TransformView::Write(
                                    ValueView::CLValue(
                                        CLValueView::U512((bonded - released) as nat),
                                    ),
                                ),
                            ),
                            (
                                bonding_purse_key(),
                                TransformView::Write(
                                    ValueView::CLValue(
                                        CLValueView::U512((total - released) as nat),
                                    ),
                                ),
                            ),
                            (purse_key(owner), TransformView::AddU512(released)),
                        ],
                    )
                }
            },
            _ => Err(Error::TypeMismatch),
        }
    }
}

/// The amount that the state under `root` holds under a key.
fn read_amount(state: &GlobalState, root: &Digest, key: &Key) -> (r: Result<Option<U512>, Error>)
    requires
        state.wf(),
    ensures
        match r {
            Ok(Some(n)) => state@.contains_key(*root) && amount_at(state@, *root, *key) == Some(
                n@,
            ),
            Ok(None) => state@.contains_key(*root) && amount_at(state@, *root, *key) is None,
            Err(e) => !state@.contains_key(*root) && e == Error::UnknownRoot,
        },
{
    match state.read(root, key) {
        Err(e) => Err(e),
        Ok(Some(Value::CLValue(CLValue::U512(n)))) => Ok(Some(n)),
        Ok(_) => Ok(None),
    }
}

/// The mathematical form of an amount that may be absent.
pub open spec fn amount_view(amount: Option<U512>) -> Option<nat> {
    match amount {
        Some(n) => Some(n@),
        None => None,
    }
}

/// The effects of unbonding `amount` of the stake of `owner`, or all of it
/// where `amount` is none, in the state under `root`.
pub fn unbond_effects(state: &GlobalState, root: &Digest, owner: [u8; 32], amount: Option<U512>)
    -> (r: Result<TransformSet, Error>)
    requires
        state.wf(),
    ensures
        match r {
            Ok(set) => unbond_effects_spec(state@, *root, owner, amount_view(amount)) == Ok::<
                TransformSetView,
                Error,
            >(set@),
            Err(e) => unbond_effects_spec(state@, *root, owner, amount_view(amount)) == Err::<
                TransformSetView,
                Error,
            >(e),
        },
{
    let zero = system_account_addr();
    let stake = Key::Local(derive_id(STAKE, &owner));
    let purse = Key::URef(derive_id(PURSE, &owner), AccessRights::all());
    let bonding_purse = Key::URef(derive_id(BONDING_PURSE, &zero), AccessRights::all());
    let bonded = match read_amount(state, root, &stake) {
        Err(e) => {
            return Err(e);
        },
        Ok(found) => found,
    };
    let total = match read_amount(state, root, &bonding_purse) {
        Err(e) => {
            return Err(e);
        },
        Ok(found) => found,
    };
    let (bonded, total) = match (bonded, total) {
        (Some(bonded), Some(total)) => (bonded, total),
        _ => {
            return Err(Error::TypeMismatch);
        },
    };
    let settled = match unbond(Motes::new(bonded), amount) {
        Some(settled) => settled,
        None => {
            return Err(Error::Overflow);
        },
    };
    let (rest, below) = total.overflowing_sub(settled.released.value());
    if below {
        return Err(Error::Overflow);
    }
    let mut set = TransformSet::new();
    set.push(stake, Transform::Write(Value::from_u512(settled.remaining.value())));
    set.push(bonding_purse, Transform::Write(Value::from_u512(rest)));
    set.push(purse, Transform::AddU512(settled.released.value()));
    proof {
        let expected = unbond_effects_spec(state@, *root, owner, amount_view(amount));
        assert(expected is Ok);
        assert(set@ =~= expected.unwrap());
    }
    Ok(set)
}

} // verus!
