/// The bytes of keys, values and trie nodes.
pub mod codec;
/// The payment for the gas that an execution consumed.
pub mod deploy;
/// The reading of keys, values and transform sets from their bytes.
pub mod decode;
/// Digests of byte strings.
pub mod digest;
/// Lists of digests with fast lookup.
pub mod digest_index;
/// The failures of the engine.
pub mod error;
/// Amounts of computation.
pub mod gas;
/// The making of the first state of a chain.
pub mod genesis;
/// The store of all committed states, and the commit of transform sets.
pub mod global_state;
/// The journal of commits, from which a store is made again.
pub mod journal;
/// Keys, their addresses and their access rights.
pub mod key;
/// Amounts of currency.
pub mod motes;
/// Tables from names to keys.
pub mod named_keys;
/// The index of trie nodes.
pub mod store;
/// Transforms: how they apply and how they merge.
pub mod transform;
/// Transform sets and their effects.
pub mod transform_set;
/// The canonical trie of a state.
pub mod trie;
/// Unsigned 512-bit integers.
pub mod uint512;
/// The call that unbonds a stake.
pub mod unbonding;
/// What global state holds under a key.
pub mod value;
