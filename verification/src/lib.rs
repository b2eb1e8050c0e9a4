//! Verified model of the StellarSplit contracts: payment pools whose members
//! deposit their shares into escrow, and whose escrow is released to the
//! recipient once every member has deposited, or refunded otherwise.
//!
//! The three contracts (`SplitPool`, `TokenRouter`, `Settlement`) are modelled
//! over plain values. The ledger clock and the addresses of the calling
//! contracts are handed in as values, and the token transfers to make are
//! handed back as values. Checking a caller's signature (`require_auth`),
//! reading and writing host storage, and emitting events are left to the
//! contracts that call this library.
//!
//! The maps of a pool (its shares and deposit records) are `soroban_sdk::Map`s
//! held by the host environment, reached through the trusted methods of
//! `host_map`. What the contracts keep in their storage, one entry per key
//! (the pools of the pool contract, the router's escrow per pool and token),
//! is held here in `BytesMap`, keyed by the bytes of identifiers and
//! addresses; the contracts read and write the entries.
//!
//! Paying out of escrow, closing a pool as settled and recording a refund are
//! reserved to the contracts each side was configured with
//! (`TokenRouter::set_callers`, `SplitPool::set_settlement`).

pub mod address;
pub mod bytes_map;
pub mod host_map;
pub mod token_router;
pub mod split_pool;
pub mod settlement;
pub mod laws;
pub mod history;
pub mod outcomes;
