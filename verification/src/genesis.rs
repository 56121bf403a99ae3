use vstd::prelude::*;
use crate::codec::write_bytes32;
use crate::digest::Digest;
use crate::error::Error;
use crate::global_state::{
    commit_contents, commit_spec, spec_empty_root, Contents, GlobalState,
};
use crate::key::{AccessRights, Address, Key};
use crate::motes::Motes;
use crate::named_keys::{named_insert, NamedKeys, NamedKeysView};
use crate::store::digest_collision;
use crate::transform::{Transform, TransformView};
use crate::transform_set::{TransformSet, TransformSetView};
use crate::trie::state_root;
use crate::value::{
    Account, AccountView, ActionThresholds, AssociatedKey, CLValue, CLValueView, Value, ValueView,
};

verus! {

/// The name under which every account knows the mint.
pub const MINT_NAME: &'static str = "mint";

/// The name under which every account knows the proof-of-stake contract.
pub const POS_NAME: &'static str = "pos";

/// The kind of identifier that the purse of an account has.
pub const PURSE: u8 = 0;

/// The kind of identifier that the record of the stake of an account has.
pub const STAKE: u8 = 1;

/// The kind of identifier that the mint contract has.
pub const MINT: u8 = 2;

/// The kind of identifier that the proof-of-stake contract has.
pub const POS: u8 = 3;

/// The kind of identifier that the reference of accounts to the mint has.
pub const MINT_REFERENCE: u8 = 4;

/// The kind of identifier that the reference of accounts to the
/// proof-of-stake contract has.
pub const POS_REFERENCE: u8 = 5;

/// The kind of identifier that the purse of all bonded stakes has.
pub const BONDING_PURSE: u8 = 6;

/// The address of the system account: 32 zero bytes.
pub open spec fn spec_system_account_addr() -> [u8; 32] {
    [
        0u8, 0u8, 0u8, 0u8, 0u8, 0u8, 0u8, 0u8, 0u8, 0u8, 0u8, 0u8, 0u8, 0u8, 0u8, 0u8, 0u8, 0u8,
        0u8, 0u8, 0u8, 0u8, 0u8, 0u8, 0u8, 0u8, 0u8, 0u8, 0u8, 0u8, 0u8, 0u8,
    ]
}

/// The address of the system account.
pub fn system_account_addr() -> (r: [u8; 32])
    ensures
        r == spec_system_account_addr(),
{
    [
        0u8, 0u8, 0u8, 0u8, 0u8, 0u8, 0u8, 0u8, 0u8, 0u8, 0u8, 0u8, 0u8, 0u8, 0u8, 0u8, 0u8, 0u8,
        0u8, 0u8, 0u8, 0u8, 0u8, 0u8, 0u8, 0u8, 0u8, 0u8, 0u8, 0u8, 0u8, 0u8,
    ]
}

/// The identifier that genesis gives to the thing of kind `tag` that
/// belongs to `owner`: the digest of the tag and the owner.
pub open spec fn derived_id(tag: u8, owner: [u8; 32]) -> [u8; 32] {
    Digest::spec_of(seq![tag] + owner@).bytes
}

/// The identifier that genesis gives to the thing of kind `tag` that
/// belongs to `owner`.
pub fn derive_id(tag: u8, owner: &[u8; 32]) -> (r: [u8; 32])
    ensures
        r == derived_id(tag, *owner),
{
    let mut data: Vec<u8> = Vec::new();
    data.push(tag);
    write_bytes32(&mut data, owner);
    assert(data@ =~= seq![tag] + owner@);
    Digest::of(&data).bytes
}

/// Every right.
pub open spec fn all_rights() -> AccessRights {
    AccessRights { read: true, write: true, add: true }
}

/// The right to read only.
pub open spec fn read_right() -> AccessRights {
    AccessRights { read: true, write: false, add: false }
}

/// The reference to the purse of an account.
pub open spec fn purse_key(owner: [u8; 32]) -> Key {
    Key::URef(derived_id(PURSE, owner), all_rights())
}

/// The key under which the proof-of-stake contract records the stake of an
/// account.
pub open spec fn stake_key(owner: [u8; 32]) -> Key {
    Key::Local(derived_id(STAKE, owner))
}

/// The reference under which the mint contract lies.
pub open spec fn mint_key(rights: AccessRights) -> Key {
    Key::URef(derived_id(MINT, spec_system_account_addr()), rights)
}

/// The reference under which the proof-of-stake contract lies.
pub open spec fn pos_key(rights: AccessRights) -> Key {
    Key::URef(derived_id(POS, spec_system_account_addr()), rights)
}

/// The reference that accounts hold to the key of the mint contract.
pub open spec fn mint_public_key(rights: AccessRights) -> Key {
    Key::URef(derived_id(MINT_REFERENCE, spec_system_account_addr()), rights)
}

/// The reference that accounts hold to the key of the proof-of-stake
/// contract.
pub open spec fn pos_public_key(rights: AccessRights) -> Key {
    Key::URef(derived_id(POS_REFERENCE, spec_system_account_addr()), rights)
}

/// The reference to the purse that holds all bonded stakes.
pub open spec fn bonding_purse_key() -> Key {
    Key::URef(derived_id(BONDING_PURSE, spec_system_account_addr()), all_rights())
}

/// The names that every account knows from genesis on: the system
/// contracts, each behind a reference that gives the right to read only.
pub open spec fn system_names() -> NamedKeysView {
    named_insert(
        named_insert(
            Seq::<(Seq<char>, Key)>::empty(),
            MINT_NAME@,
            mint_public_key(read_right()),
        ),
        POS_NAME@,
        pos_public_key(read_right()),
    )
}

/// The account that genesis makes for a public key.
pub open spec fn account_value(owner: [u8; 32]) -> ValueView {
    ValueView::Account(
        AccountView {
            public_key: owner,
            nonce: 0,
            named_keys: system_names(),
            purse: purse_key(owner),
            associated_keys: seq![AssociatedKey { public_key: owner, weight: 1 }],
            action_thresholds: ActionThresholds { deployment: 1, key_management: 1 },
        },
    )
}

/// The stored form of an amount.
pub open spec fn amount_value(n: nat) -> ValueView {
    ValueView::CLValue(CLValueView::U512(n))
}

/// The stored form of a key.
pub open spec fn key_value(key: Key) -> ValueView {
    ValueView::CLValue(CLValueView::Key(key))
}

/// The transforms that install the system contracts and the system
/// account, which has no balance.
pub open spec fn system_entries(mint: ValueView, pos: ValueView) -> TransformSetView {
    seq![
        (mint_key(all_rights()), TransformView::Write(mint)),
        (pos_key(all_rights()), TransformView::Write(pos)),
        (mint_public_key(all_rights()), TransformView::Write(key_value(mint_key(read_right())))),
        (pos_public_key(all_rights()), TransformView::Write(key_value(pos_key(read_right())))),
        (bonding_purse_key(), TransformView::Write(amount_value(0))),
        (purse_key(spec_system_account_addr()), TransformView::Write(amount_value(0))),
        (
            Key::Account(spec_system_account_addr()),
            TransformView::Write(account_value(spec_system_account_addr())),
        ),
    ]
}

/// The transforms that seed one account: its purse with its balance, the
/// account itself, the record of its stake, and its stake added to the
/// purse of all stakes.
pub open spec fn account_entries(account: GenesisAccountView) -> TransformSetView {
    seq![
        (purse_key(account.public_key), TransformView::Write(amount_value(account.balance))),
        (Key::Account(account.public_key), TransformView::Write(account_value(account.public_key))),
        (stake_key(account.public_key), TransformView::Write(amount_value(account.bonded_amount))),
        (bonding_purse_key(), TransformView::AddU512(account.bonded_amount)),
    ]
}

/// The transforms of genesis up to the first `count` accounts.
pub open spec fn genesis_entries(
    mint: ValueView,
    pos: ValueView,
    accounts: Seq<GenesisAccountView>,
    count: int,
) -> TransformSetView
    decreases count,
{
    if count <= 0 {
        system_entries(mint, pos)
    } else {
        genesis_entries(mint, pos, accounts, count - 1) + account_entries(accounts[count - 1])
    }
}

/// The transform set of genesis.
pub open spec fn genesis_set(mint: ValueView, pos: ValueView, accounts: Seq<GenesisAccountView>)
    -> TransformSetView {
    genesis_entries(mint, pos, accounts, accounts.len() as int)
}

/// The sum of the stakes of the first `count` accounts.
pub open spec fn total_bonded(accounts: Seq<GenesisAccountView>, count: int) -> nat
    decreases count,
{
    if count <= 0 {
        0
    } else {
        total_bonded(accounts, count - 1) + accounts[count - 1].bonded_amount
    }
}

/// The sum of the stakes of some accounts is at most that of more.
pub proof fn lemma_total_bonded_grows(accounts: Seq<GenesisAccountView>, fewer: int, more: int)
    requires
        0 <= fewer <= more,
    ensures
        total_bonded(accounts, fewer) <= total_bonded(accounts, more),
    decreases more - fewer,
{
    if fewer < more {
        lemma_total_bonded_grows(accounts, fewer, more - 1);
    }
}

/// Why genesis makes no transform set: an installer yielded a value that
/// is no contract, or else the stakes do not add up to an amount.
pub open spec fn genesis_refusal(
    mint: ValueView,
    pos: ValueView,
    accounts: Seq<GenesisAccountView>,
) -> Option<Error> {
    if !(mint is Contract && pos is Contract) {
        Some(Error::InvalidInstaller)
    } else if total_bonded(accounts, accounts.len() as int) >= crate::uint512::modulus() {
        Some(Error::Overflow)
    } else {
        None
    }
}

/// The root of the state that a transform set makes of the empty state.
pub open spec fn replay_root(set: TransformSetView) -> Seq<u8> {
    state_root(commit_contents(set, Map::<Address, ValueView>::empty()))
}

/// An account that exists from genesis on.
#[derive(Debug, Clone, Copy)]
pub struct GenesisAccount {
    public_key: [u8; 32],
    balance: Motes,
    bonded_amount: Motes,
}

/// The mathematical form of a genesis account.
pub struct GenesisAccountView {
    pub public_key: [u8; 32],
    pub balance: nat,
    pub bonded_amount: nat,
}

impl View for GenesisAccount {
    type V = GenesisAccountView;

    closed spec fn view(&self) -> GenesisAccountView {
        GenesisAccountView {
            public_key: self.public_key,
            balance: self.balance@,
            bonded_amount: self.bonded_amount@,
        }
    }
}

impl GenesisAccount {
    /// The account of a public key with its balance and its stake.
    pub fn new(public_key: [u8; 32], balance: Motes, bonded_amount: Motes) -> (r: GenesisAccount)
        ensures
            r@ == (GenesisAccountView {
                public_key,
                balance: balance@,
                bonded_amount: bonded_amount@,
            }),
    {
        GenesisAccount { public_key, balance, bonded_amount }
    }

    /// The public key of the account.
    pub fn public_key(&self) -> (r: [u8; 32])
        ensures
            r == self@.public_key,
    {
        self.public_key
    }

    /// The balance of the account.
    pub fn balance(&self) -> (r: Motes)
        ensures
            r@ == self@.balance,
    {
        self.balance
    }

    /// The stake of the account.
    pub fn bonded_amount(&self) -> (r: Motes)
        ensures
            r@ == self@.bonded_amount,
    {
        self.bonded_amount
    }
}

/// The mathematical form of a list of genesis accounts.
pub open spec fn accounts_view(accounts: Seq<GenesisAccount>) -> Seq<GenesisAccountView> {
    accounts.map_values(|a: GenesisAccount| a@)
}

/// What genesis is made from. The two installers are byte-code: whoever
/// runs genesis executes each once, and hands what they yield to
/// `run_genesis`.
#[derive(Debug)]
pub struct GenesisConfig {
    /// The name of the chain.
    pub name: String,
    pub timestamp: u64,
    pub protocol_version: u64,
    /// The byte-code that yields the mint contract.
    pub mint_installer_bytes: Vec<u8>,
    /// The byte-code that yields the proof-of-stake contract.
    pub pos_installer_bytes: Vec<u8>,
    /// The accounts that exist from genesis on.
    pub accounts: Vec<GenesisAccount>,
    /// The version of the table of execution costs.
    pub wasm_costs_version: u64,
}

impl GenesisConfig {
    /// The configuration of a chain.
    pub fn new(
        name: String,
        timestamp: u64,
        protocol_version: u64,
        mint_installer_bytes: Vec<u8>,
        pos_installer_bytes: Vec<u8>,
        accounts: Vec<GenesisAccount>,
        wasm_costs_version: u64,
    ) -> (r: GenesisConfig)
        ensures
            r.name@ == name@,
            r.timestamp == timestamp,
            r.protocol_version == protocol_version,
            r.mint_installer_bytes@ == mint_installer_bytes@,
            r.pos_installer_bytes@ == pos_installer_bytes@,
            r.accounts@ == accounts@,
            r.wasm_costs_version == wasm_costs_version,
    {
        GenesisConfig {
            name,
            timestamp,
            protocol_version,
            mint_installer_bytes,
            pos_installer_bytes,
            accounts,
            wasm_costs_version,
        }
    }
}

/// What genesis comes to: the root of the first state, and the transform
/// set that made it, kept for replay.
#[derive(Debug)]
pub struct GenesisResult {
    pub post_state_hash: Digest,
    pub effects: TransformSet,
}

/// The names that every account knows from genesis on.
fn new_system_names() -> (r: NamedKeys)
    ensures
        r@ == system_names(),
{
    let zero = system_account_addr();
    let mut names = NamedKeys::new();
    names.insert(
        MINT_NAME.to_owned(),
        Key::URef(derive_id(MINT_REFERENCE, &zero), AccessRights::read_only()),
    );
    names.insert(POS_NAME.to_owned(), Key::URef(derive_id(POS_REFERENCE, &zero), AccessRights::read_only()));
    names
}

/// The account that genesis makes for a public key.
fn new_account(owner: [u8; 32]) -> (r: Value)
    ensures
        r@ == account_value(owner),
{
    let mut associated_keys: Vec<AssociatedKey> = Vec::new();
    associated_keys.push(AssociatedKey { public_key: owner, weight: 1 });
    let account = Account {
        public_key: owner,
        nonce: 0,
        named_keys: new_system_names(),
        purse: Key::URef(derive_id(PURSE, &owner), AccessRights::all()),
        associated_keys,
        action_thresholds: ActionThresholds { deployment: 1, key_management: 1 },
    };
    assert(account.associated_keys@ =~= seq![AssociatedKey { public_key: owner, weight: 1 }]);
    Value::Account(account)
}

/// The transform set of genesis: what installs the system contracts that
/// the two installers yielded, the system account, and each account with
/// its balance and its stake. Refused where an installer yielded a value
/// that is no contract, and where the stakes do not add up to an amount.
#[verifier::loop_isolation(false)]
pub fn genesis_transforms(accounts: &Vec<GenesisAccount>, mint: Value, pos: Value) -> (r: Result<
    TransformSet,
    Error,
>)
    ensures
        match r {
            Ok(set) => genesis_refusal(mint@, pos@, accounts_view(accounts@)) is None && set@
                == genesis_set(mint@, pos@, accounts_view(accounts@)),
            Err(e) => genesis_refusal(mint@, pos@, accounts_view(accounts@)) == Some(e),
        },
{
    let installed = match (&mint, &pos) {
        (Value::Contract(_), Value::Contract(_)) => true,
        _ => false,
    };
    if !installed {
        return Err(Error::InvalidInstaller);
    }
    let ghost mint_view = mint@;
    let ghost pos_view = pos@;
    let ghost list = accounts_view(accounts@);
    let zero = system_account_addr();
    let all = AccessRights::all();
    let read = AccessRights::read_only();
    let bonding_purse = Key::URef(derive_id(BONDING_PURSE, &zero), all);
    let mut set = TransformSet::new();
    set.push(Key::URef(derive_id(MINT, &zero), all), Transform::Write(mint));
    set.push(Key::URef(derive_id(POS, &zero), all), Transform::Write(pos));
    set.push(
        Key::URef(derive_id(MINT_REFERENCE, &zero), all),
        Transform::Write(Value::from_key(Key::URef(derive_id(MINT, &zero), read))),
    );
    set.push(
        Key::URef(derive_id(POS_REFERENCE, &zero), all),
        Transform::Write(Value::from_key(Key::URef(derive_id(POS, &zero), read))),
    );
    set.push(bonding_purse, Transform::Write(Value::from_u512(crate::uint512::U512::zero())));
    set.push(
        Key::URef(derive_id(PURSE, &zero), all),
        Transform::Write(Value::from_u512(crate::uint512::U512::zero())),
    );
    set.push(Key::Account(zero), Transform::Write(new_account(zero)));
    assert(set@ =~= system_entries(mint_view, pos_view));
    let mut total = Motes::zero();
    let mut i: usize = 0;
    while i < accounts.len()
        invariant
            i <= accounts.len(),
            list == accounts_view(accounts@),
            list.len() == accounts.len(),
            total@ == total_bonded(list, i as int),
            total@ < crate::uint512::modulus(),
            zero == spec_system_account_addr(),
            all == all_rights(),
            bonding_purse == bonding_purse_key(),
            set@ == genesis_entries(mint_view, pos_view, list, i as int),
        decreases accounts.len() - i,
    {
        let account = accounts[i];
        assert(list[i as int] == account@);
        total = match total.checked_add(account.bonded_amount()) {
            Some(sum) => sum,
            None => {
                proof {
                    lemma_total_bonded_grows(list, i + 1, list.len() as int);
                }
                return Err(Error::Overflow);
            },
        };
        let owner = account.public_key();
        let ghost before = set@;
        set.push(
            Key::URef(derive_id(PURSE, &owner), all),
            Transform::Write(Value::from_u512(account.balance().value())),
        );
        set.push(Key::Account(owner), Transform::Write(new_account(owner)));
        set.push(
            Key::Local(derive_id(STAKE, &owner)),
            Transform::Write(Value::from_u512(account.bonded_amount().value())),
        );
        set.push(bonding_purse, Transform::AddU512(account.bonded_amount().value()));
        assert(set@ =~= before + account_entries(account@));
        i = i + 1;
    }
    Ok(set)
}

/// Makes the first state of a chain: installs the system contracts that
/// the two installers yielded, and seeds the accounts, in one commit to the
/// empty state. Gives the root of the first state and the transform set
/// that made it. All or nothing: where an installer yielded no contract,
/// the stakes do not add up to an amount, or the commit fails, the store
/// stays as it was.
pub fn run_genesis(state: &mut GlobalState, config: &GenesisConfig, mint: Value, pos: Value) -> (r:
    Result<GenesisResult, Error>)
    requires
        old(state).wf(),
    ensures
        final(state).wf(),
        match r {
            Ok(genesis) => {
                &&& genesis_refusal(mint@, pos@, accounts_view(config.accounts@)) is None
                &&& genesis.effects@ == genesis_set(mint@, pos@, accounts_view(config.accounts@))
                &&& genesis.post_state_hash@ == replay_root(genesis.effects@)
                &&& commit_spec(old(state)@, spec_empty_root(), genesis.effects@) is Ok
                &&& final(state)@ == old(state)@.insert(
                    genesis.post_state_hash,
                    commit_contents(genesis.effects@, Map::<Address, ValueView>::empty()),
                )
            },
            Err(e) => {
                &&& final(state)@ == old(state)@
                &&& match genesis_refusal(mint@, pos@, accounts_view(config.accounts@)) {
                    Some(refusal) => e == refusal,
                    None => match commit_spec(
                        old(state)@,
                        spec_empty_root(),
                        genesis_set(mint@, pos@, accounts_view(config.accounts@)),
                    ) {
                        Err(refusal) => e == refusal,
                        Ok(_) => e == Error::CorruptNode && digest_collision(),
                    },
                }
            },
        },
{
    proof {
        state.lemma_knows_empty();
    }
    let effects = match genesis_transforms(&config.accounts, mint, pos) {
        Ok(set) => set,
        Err(e) => {
            return Err(e);
        },
    };
    let empty = GlobalState::empty_root();
    match state.commit(&empty, &effects) {
        Ok(post_state_hash) => Ok(GenesisResult { post_state_hash, effects }),
        Err(e) => Err(e),
    }
}

/// Replaying a recorded transform set on the empty state of any store
/// gives the root that depends on the set alone: the root that genesis
/// gave when it made the set.
pub proof fn lemma_replay(states: Map<Digest, Contents>, set: TransformSetView)
    requires
        states.contains_key(spec_empty_root()),
        states[spec_empty_root()] == Map::<Address, ValueView>::empty(),
        commit_spec(states, spec_empty_root(), set) is Ok,
    ensures
        state_root(commit_spec(states, spec_empty_root(), set).unwrap()) == replay_root(set),
{
}

} // verus!
