use execution_engine::error::Error;
use execution_engine::genesis::{
    derive_id, genesis_transforms, run_genesis, system_account_addr, GenesisAccount,
    GenesisConfig, BONDING_PURSE, MINT, POS, STAKE,
};
use execution_engine::global_state::GlobalState;
use execution_engine::key::{AccessRights, Key};
use execution_engine::motes::Motes;
use execution_engine::named_keys::NamedKeys;
use execution_engine::transform::Transform;
use execution_engine::transform_set::TransformSet;
use execution_engine::uint512::U512;
use execution_engine::unbonding::call;
use execution_engine::value::{Account, Contract, Value};

const CHAIN_NAME: &str = "Jeremiah";
const TIMESTAMP: u64 = 0;
const PROTOCOL_VERSION: u64 = 1;
const ACCOUNT_1_ADDR: [u8; 32] = [1u8; 32];
const ACCOUNT_2_ADDR: [u8; 32] = [2u8; 32];
const ACCOUNT_1_BONDED_AMOUNT: u64 = 1_000_000;
const ACCOUNT_2_BONDED_AMOUNT: u64 = 2_000_000;
const ACCOUNT_1_BALANCE: u64 = 1_000_000_000;
const ACCOUNT_2_BALANCE: u64 = 2_000_000_000;

fn mint_contract() -> Value {
    Value::Contract(Contract { bytes: vec![0, 97, 115, 109, 1], named_keys: NamedKeys::new() })
}

fn pos_contract() -> Value {
    Value::Contract(Contract { bytes: vec![0, 97, 115, 109, 2], named_keys: NamedKeys::new() })
}

fn bad_install() -> Value {
    Value::Unit
}

fn accounts() -> Vec<GenesisAccount> {
    let account_1 = GenesisAccount::new(
        ACCOUNT_1_ADDR,
        Motes::new(ACCOUNT_1_BALANCE.into()),
        Motes::new(ACCOUNT_1_BONDED_AMOUNT.into()),
    );
    let account_2 = GenesisAccount::new(
        ACCOUNT_2_ADDR,
        Motes::new(ACCOUNT_2_BALANCE.into()),
        Motes::new(ACCOUNT_2_BONDED_AMOUNT.into()),
    );
    vec![account_1, account_2]
}

fn genesis_config() -> GenesisConfig {
    GenesisConfig::new(
        CHAIN_NAME.to_string(),
        TIMESTAMP,
        PROTOCOL_VERSION,
        vec![0, 97, 115, 109, 1],
        vec![0, 97, 115, 109, 2],
        accounts(),
        PROTOCOL_VERSION,
    )
}

fn account_at(state: &GlobalState, root: &execution_engine::digest::Digest, addr: [u8; 32]) -> Account {
    match state.read(root, &Key::Account(addr)) {
        Ok(Some(Value::Account(account))) => account,
        other => panic!("an account was expected, not {:?}", other),
    }
}

fn balance_at(state: &GlobalState, root: &execution_engine::digest::Digest, purse: &Key) -> U512 {
    match state.read(root, purse) {
        Ok(Some(Value::CLValue(execution_engine::value::CLValue::U512(n)))) => n,
        other => panic!("a balance was expected, not {:?}", other),
    }
}

#[test]
fn should_run_genesis() {
    let mut global_state = GlobalState::new();
    let genesis = run_genesis(&mut global_state, &genesis_config(), mint_contract(), pos_contract())
        .expect("should run genesis");
    assert!(!genesis.post_state_hash.bytes.to_vec().is_empty());
    assert!(global_state.knows(&genesis.post_state_hash));
    assert_ne!(genesis.post_state_hash, GlobalState::empty_root());
}

#[test]
fn test_genesis_hash_match() {
    let mut state = GlobalState::new();
    let genesis = run_genesis(&mut state, &genesis_config(), mint_contract(), pos_contract())
        .expect("should run genesis");
    let genesis_run_hash = genesis.post_state_hash;
    let genesis_transforms = genesis.effects.clone();

    let mut replay = GlobalState::new();
    let genesis_transforms_hash = replay
        .commit(&GlobalState::empty_root(), &genesis_transforms)
        .expect("the recorded effects apply");

    assert_eq!(genesis_run_hash, genesis_transforms_hash);
}

#[test]
fn regression_test_genesis_hash_mismatch() {
    let mut state = GlobalState::new();
    let first = run_genesis(&mut state, &genesis_config(), mint_contract(), pos_contract())
        .expect("should run genesis");
    let genesis_run_hash = first.post_state_hash;
    let genesis_transforms_hash = state
        .commit(&GlobalState::empty_root(), &first.effects)
        .expect("the recorded effects apply");
    assert_eq!(genesis_run_hash, genesis_transforms_hash);

    let mut step = TransformSet::new();
    step.push(Key::Local([1u8; 32]), Transform::Write(Value::Unit));
    state.commit(&genesis_run_hash, &step).expect("the step applies");

    let second = run_genesis(&mut state, &genesis_config(), mint_contract(), pos_contract())
        .expect("should run genesis");
    let second_genesis_run_hash = second.post_state_hash;
    let second_genesis_transforms_hash = state
        .commit(&GlobalState::empty_root(), &second.effects)
        .expect("the recorded effects apply");

    assert_eq!(second_genesis_run_hash, second_genesis_transforms_hash);
    assert_eq!(second_genesis_run_hash, genesis_run_hash);
    assert_eq!(second_genesis_transforms_hash, genesis_transforms_hash);
}

#[test]
fn should_run_genesis_with_chainspec() {
    let account_1_balance = Motes::new(ACCOUNT_1_BALANCE.into());
    let account_2_balance = Motes::new(ACCOUNT_2_BALANCE.into());
    let mut state = GlobalState::new();
    let genesis = run_genesis(&mut state, &genesis_config(), mint_contract(), pos_contract())
        .expect("should run genesis");
    let root = genesis.post_state_hash;

    let system_account = account_at(&state, &root, system_account_addr());
    let account_1 = account_at(&state, &root, ACCOUNT_1_ADDR);
    let account_2 = account_at(&state, &root, ACCOUNT_2_ADDR);

    assert_eq!(balance_at(&state, &root, &system_account.purse), U512::zero());
    assert_eq!(balance_at(&state, &root, &account_1.purse), account_1_balance.value());
    assert_eq!(balance_at(&state, &root, &account_2.purse), account_2_balance.value());

    let mint_contract_uref = Key::URef(derive_id(MINT, &system_account_addr()), AccessRights::read_only());
    let pos_contract_uref = Key::URef(derive_id(POS, &system_account_addr()), AccessRights::read_only());

    if let Ok(Some(Value::Contract(_))) = state.read(&root, &mint_contract_uref) {
    } else {
        panic!("contract not found at mint uref");
    }
    if let Ok(Some(Value::Contract(_))) = state.read(&root, &pos_contract_uref) {
    } else {
        panic!("contract not found at pos uref");
    }

    let stake_1 = Key::Local(derive_id(STAKE, &ACCOUNT_1_ADDR));
    assert_eq!(balance_at(&state, &root, &stake_1), U512::from(ACCOUNT_1_BONDED_AMOUNT));
    let bonding_purse = Key::URef(derive_id(BONDING_PURSE, &system_account_addr()), AccessRights::all());
    assert_eq!(
        balance_at(&state, &root, &bonding_purse),
        U512::from(ACCOUNT_1_BONDED_AMOUNT + ACCOUNT_2_BONDED_AMOUNT)
    );
    assert_eq!(account_1.nonce, 0);
    assert_eq!(account_1.associated_keys.len(), 1);
    assert_eq!(account_1.associated_keys[0].weight, 1);
    assert_eq!(genesis.effects.len(), 7 + 2 * 4);
}

#[test]
fn should_fail_if_bad_mint_install_contract_is_provided() {
    let mut state = GlobalState::new();
    let result = run_genesis(&mut state, &genesis_config(), bad_install(), pos_contract());
    if result.is_ok() {
        panic!("genesis should fail with a bad install contract")
    }
    assert_eq!(result.err(), Some(Error::InvalidInstaller));
    assert_eq!(state.read(&GlobalState::empty_root(), &Key::Account(ACCOUNT_1_ADDR)), Ok(None));
}

#[test]
fn should_fail_if_bad_pos_install_contract_is_provided() {
    let mut state = GlobalState::new();
    let result = run_genesis(&mut state, &genesis_config(), mint_contract(), bad_install());
    if result.is_ok() {
        panic!("genesis should fail with a bad install contract")
    }
    assert_eq!(result.err(), Some(Error::InvalidInstaller));
    assert!(genesis_transforms(&accounts(), mint_contract(), Value::from_u512(U512::zero())).is_err());
}

#[test]
fn should_have_read_only_access_to_system_contract_urefs() {
    let mut state = GlobalState::new();
    let genesis = run_genesis(&mut state, &genesis_config(), mint_contract(), pos_contract())
        .expect("should run genesis");
    let root = genesis.post_state_hash;
    let account_1 = account_at(&state, &root, ACCOUNT_1_ADDR);
    for name in ["mint", "pos"] {
        let known = account_1.named_keys.get(name).expect("the account knows the contract");
        assert_eq!(known.access_rights(), Some(AccessRights::read_only()));
        let mut write = TransformSet::new();
        write.push(known, Transform::Write(Value::Unit));
        assert_eq!(state.commit(&root, &write), Err(Error::InsufficientAccessRights));
        let mut add = TransformSet::new();
        add.push(known, Transform::AddKeys(NamedKeys::new()));
        assert_eq!(state.commit(&root, &add), Err(Error::InsufficientAccessRights));
        match state.read(&root, &known) {
            Ok(Some(Value::CLValue(execution_engine::value::CLValue::Key(contract)))) => {
                assert_eq!(contract.access_rights(), Some(AccessRights::read_only()));
                let mut through = TransformSet::new();
                through.push(contract, Transform::Write(Value::Unit));
                assert_eq!(state.commit(&root, &through), Err(Error::InsufficientAccessRights));
            }
            other => panic!("a key was expected, not {:?}", other),
        }
    }
    let prepared = call(&account_1.named_keys, &state, &root, Some(1000)).expect("the call is prepared");
    assert_eq!(
        prepared.contract,
        Key::URef(derive_id(POS, &system_account_addr()), AccessRights::read_only())
    );
}

#[test]
fn genesis_accounts_keep_what_they_are_made_of() {
    let account = GenesisAccount::new([4; 32], Motes::from_u64(10), Motes::from_u64(3));
    assert_eq!(account.public_key(), [4; 32]);
    assert_eq!(account.balance(), Motes::from_u64(10));
    assert_eq!(account.bonded_amount(), Motes::from_u64(3));
    assert_eq!(system_account_addr(), [0; 32]);
    let config = genesis_config();
    assert_eq!(config.name, "Jeremiah");
    assert_eq!(config.accounts.len(), 2);
}

#[test]
fn later_account_of_the_same_key_wins_and_stakes_add_up() {
    let twice = vec![
        GenesisAccount::new([4; 32], Motes::from_u64(10), Motes::from_u64(3)),
        GenesisAccount::new([4; 32], Motes::from_u64(20), Motes::from_u64(4)),
    ];
    let config = GenesisConfig::new("twice".to_string(), 0, 1, vec![], vec![], twice, 1);
    let mut state = GlobalState::new();
    let genesis = run_genesis(&mut state, &config, mint_contract(), pos_contract()).expect("runs");
    let root = genesis.post_state_hash;
    let account = account_at(&state, &root, [4; 32]);
    assert_eq!(balance_at(&state, &root, &account.purse), U512::from(20));
    let bonding_purse = Key::URef(derive_id(BONDING_PURSE, &system_account_addr()), AccessRights::all());
    assert_eq!(balance_at(&state, &root, &bonding_purse), U512::from(7));
}

#[test]
fn stakes_that_do_not_add_up_refuse_genesis() {
    let most = Motes::new(U512::max_value());
    let too_much = vec![
        GenesisAccount::new([4; 32], Motes::from_u64(10), most),
        GenesisAccount::new([5; 32], Motes::from_u64(20), Motes::from_u64(1)),
    ];
    let config = GenesisConfig::new("much".to_string(), 0, 1, vec![], vec![], too_much, 1);
    let mut state = GlobalState::new();
    let result = run_genesis(&mut state, &config, mint_contract(), pos_contract());
    assert_eq!(result.err(), Some(Error::Overflow));
    let bad = run_genesis(&mut state, &config, bad_install(), pos_contract());
    assert_eq!(bad.err(), Some(Error::InvalidInstaller));
    let just = vec![GenesisAccount::new([4; 32], Motes::from_u64(10), most)];
    let config = GenesisConfig::new("just".to_string(), 0, 1, vec![], vec![], just, 1);
    assert!(run_genesis(&mut state, &config, mint_contract(), pos_contract()).is_ok());
}

#[test]
fn unbonding_a_thousand_moves_a_thousand_from_the_stake_to_the_purse() {
    let mut state = GlobalState::new();
    let genesis = run_genesis(&mut state, &genesis_config(), mint_contract(), pos_contract())
        .expect("should run genesis");
    let root = genesis.post_state_hash;
    let account_1 = account_at(&state, &root, ACCOUNT_1_ADDR);
    let stake_1 = Key::Local(derive_id(STAKE, &ACCOUNT_1_ADDR));
    let bonding_purse = Key::URef(derive_id(BONDING_PURSE, &system_account_addr()), AccessRights::all());

    let effects = execution_engine::unbonding::unbond_effects(
        &state,
        &root,
        ACCOUNT_1_ADDR,
        Some(U512::from(1000)),
    )
    .expect("the stake is there");
    let next = state.commit(&root, &effects).expect("applies");
    assert_eq!(balance_at(&state, &next, &stake_1), U512::from(ACCOUNT_1_BONDED_AMOUNT - 1000));
    assert_eq!(balance_at(&state, &next, &account_1.purse), U512::from(ACCOUNT_1_BALANCE + 1000));
    assert_eq!(
        balance_at(&state, &next, &bonding_purse),
        U512::from(ACCOUNT_1_BONDED_AMOUNT + ACCOUNT_2_BONDED_AMOUNT - 1000)
    );

    let all = execution_engine::unbonding::unbond_effects(&state, &next, ACCOUNT_1_ADDR, None)
        .expect("the stake is there");
    let last = state.commit(&next, &all).expect("applies");
    assert_eq!(balance_at(&state, &last, &stake_1), U512::zero());
    assert_eq!(
        balance_at(&state, &last, &account_1.purse),
        U512::from(ACCOUNT_1_BALANCE + ACCOUNT_1_BONDED_AMOUNT)
    );
    assert_eq!(balance_at(&state, &last, &bonding_purse), U512::from(ACCOUNT_2_BONDED_AMOUNT));
    assert_eq!(balance_at(&state, &root, &stake_1), U512::from(ACCOUNT_1_BONDED_AMOUNT));
}

#[test]
fn unbonding_more_than_the_stake_or_of_no_stake_fails() {
    let mut state = GlobalState::new();
    let genesis = run_genesis(&mut state, &genesis_config(), mint_contract(), pos_contract())
        .expect("should run genesis");
    let root = genesis.post_state_hash;
    let more = U512::from(ACCOUNT_1_BONDED_AMOUNT + 1);
    assert_eq!(
        execution_engine::unbonding::unbond_effects(&state, &root, ACCOUNT_1_ADDR, Some(more)).err(),
        Some(Error::Overflow)
    );
    assert_eq!(
        execution_engine::unbonding::unbond_effects(&state, &root, [9; 32], None).err(),
        Some(Error::TypeMismatch)
    );
    let unknown = execution_engine::digest::Digest { bytes: [3; 32] };
    assert_eq!(
        execution_engine::unbonding::unbond_effects(&state, &unknown, ACCOUNT_1_ADDR, None).err(),
        Some(Error::UnknownRoot)
    );
}
