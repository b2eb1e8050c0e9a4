//! The maps of a pool, kept as `soroban_sdk::Map`s keyed by the bytes of
//! each address: the shares of the members and their deposit records.
//!
//! A `soroban_sdk::Map` is a handle to an immutable map object of the host
//! environment: `set` makes a new object and points the handle at it, so a
//! clone of a map keeps the entries it had. A key is a `soroban_sdk::Bytes`
//! made from the address's bytes, and two keys with the same bytes are the
//! same key. What a map holds is named below (`share_entries`,
//! `deposit_entries`); the trusted methods say how each call reads or changes
//! it, as the host's map functions do. Every host call charges the host's
//! resource budget and stops the contract once it is spent; when that happens
//! depends on the environment, and nothing here states it.
use vstd::prelude::*;

verus! {

/// The host environment, which holds every map object.
#[verifier::external_type_specification]
#[verifier::external_body]
pub struct ExEnv(soroban_sdk::Env);

/// A byte string held by the host environment.
#[verifier::external_type_specification]
#[verifier::external_body]
pub struct ExBytes(soroban_sdk::Bytes);

/// A map held by the host environment.
#[verifier::external_type_specification]
#[verifier::external_body]
#[verifier::reject_recursive_types(K)]
#[verifier::reject_recursive_types(V)]
pub struct ExMap<K, V>(soroban_sdk::Map<K, V>);

/// The entries of a host map of shares, each key taken as its bytes.
pub uninterp spec fn share_entries(m: soroban_sdk::Map<soroban_sdk::Bytes, i128>) -> Map<Seq<u8>, i128>;

/// The entries of a host map of deposit records, each key taken as its bytes.
pub uninterp spec fn deposit_entries(m: soroban_sdk::Map<soroban_sdk::Bytes, bool>) -> Map<Seq<u8>, bool>;

/// The share of each member, keyed by the bytes of the member's address.
pub struct ShareMap {
    pub map: soroban_sdk::Map<soroban_sdk::Bytes, i128>,
}

impl View for ShareMap {
    type V = Map<Seq<u8>, i128>;

    open spec fn view(&self) -> Map<Seq<u8>, i128> {
        share_entries(self.map)
    }
}

impl ShareMap {
    /// An empty map in the host environment `env` (`soroban_sdk::Map::new`).
    #[verifier::external_body]
    pub(crate) fn new(env: &soroban_sdk::Env) -> (r: ShareMap)
        ensures
            share_entries(r.map).dom() == Set::<Seq<u8>>::empty(),
    {
        ShareMap { map: soroban_sdk::Map::new(env) }
    }

    /// The share under `key`, if any (`soroban_sdk::Map::get`, the key made
    /// into host bytes with `soroban_sdk::Bytes::from_slice`).
    #[verifier::external_body]
    pub(crate) fn get(&self, key: &[u8]) -> (r: Option<i128>)
        ensures
            share_entries(self.map).contains_key(key@) ==> r == Some(share_entries(self.map)[key@]),
            !share_entries(self.map).contains_key(key@) ==> r is None,
    {
        self.map.get(soroban_sdk::Bytes::from_slice(self.map.env(), key))
    }

    /// Whether there is a share under `key` (`soroban_sdk::Map::contains_key`).
    #[verifier::external_body]
    pub(crate) fn contains_key(&self, key: &[u8]) -> (r: bool)
        ensures
            r == share_entries(self.map).contains_key(key@),
    {
        self.map.contains_key(soroban_sdk::Bytes::from_slice(self.map.env(), key))
    }

    /// Puts `value` under `key`, in place of what was there
    /// (`soroban_sdk::Map::set`).
    #[verifier::external_body]
    pub(crate) fn set(&mut self, key: &[u8], value: i128)
        ensures
            share_entries(final(self).map) == share_entries(old(self).map).insert(key@, value),
    {
        let k = soroban_sdk::Bytes::from_slice(self.map.env(), key);
        self.map.set(k, value);
    }

    /// A map with the same entries (`Clone` of `soroban_sdk::Map`).
    #[verifier::external_body]
    pub(crate) fn copy(&self) -> (r: ShareMap)
        ensures
            share_entries(r.map) == share_entries(self.map),
    {
        ShareMap { map: self.map.clone() }
    }
}

/// Whether each member has deposited, keyed by the bytes of the member's
/// address.
pub struct DepositMap {
    pub map: soroban_sdk::Map<soroban_sdk::Bytes, bool>,
}

impl View for DepositMap {
    type V = Map<Seq<u8>, bool>;

    open spec fn view(&self) -> Map<Seq<u8>, bool> {
        deposit_entries(self.map)
    }
}

impl DepositMap {
    /// An empty map in the host environment `env` (`soroban_sdk::Map::new`).
    #[verifier::external_body]
    pub(crate) fn new(env: &soroban_sdk::Env) -> (r: DepositMap)
        ensures
            deposit_entries(r.map).dom() == Set::<Seq<u8>>::empty(),
    {
        DepositMap { map: soroban_sdk::Map::new(env) }
    }

    /// The record under `key`, if any (`soroban_sdk::Map::get`, the key made
    /// into host bytes with `soroban_sdk::Bytes::from_slice`).
    #[verifier::external_body]
    pub(crate) fn get(&self, key: &[u8]) -> (r: Option<bool>)
        ensures
            deposit_entries(self.map).contains_key(key@) ==> r == Some(deposit_entries(self.map)[key@]),
            !deposit_entries(self.map).contains_key(key@) ==> r is None,
    {
        self.map.get(soroban_sdk::Bytes::from_slice(self.map.env(), key))
    }

    /// Puts `value` under `key`, in place of what was there
    /// (`soroban_sdk::Map::set`).
    #[verifier::external_body]
    pub(crate) fn set(&mut self, key: &[u8], value: bool)
        ensures
            deposit_entries(final(self).map) == deposit_entries(old(self).map).insert(key@, value),
    {
        let k = soroban_sdk::Bytes::from_slice(self.map.env(), key);
        self.map.set(k, value);
    }

    /// A map with the same entries (`Clone` of `soroban_sdk::Map`).
    #[verifier::external_body]
    pub(crate) fn copy(&self) -> (r: DepositMap)
        ensures
            deposit_entries(r.map) == deposit_entries(self.map),
    {
        DepositMap { map: self.map.clone() }
    }
}

} // verus!
