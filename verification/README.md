# stellar_split

A verified model of the StellarSplit contracts: groups create payment pools,
members deposit their shares into escrow, and the escrow is released to the
recipient once everyone has deposited, or refunded when the pool is cancelled
or expires.

- `src/` is the library, verified with Verus.
  - `address.rs`: addresses as the bytes of their encoding, pool identifiers.
  - `bytes_map.rs`: a map keyed by byte strings, for what the contracts keep
    in storage one entry per key.
  - `host_map.rs`: a pool's shares and deposit records as `soroban_sdk::Map`s,
    behind trusted methods whose contracts state what each host call does.
  - `token_router.rs`: escrow per pool and token, and the token transfers it asks for.
  - `split_pool.rs`: pools, their shares and deposits; creating, depositing, cancelling.
  - `settlement.rs`: settling a complete pool, refunding an expired one.
  - `laws.rs`: properties of the contracts taken together, one call at a time.
  - `history.rs`: properties over whole sequences of calls: a closed pool stays
    closed, a member deposits and is refunded at most once, a pool is settled
    at most once, and an open pool's escrow covers its deposits, so that every
    depositor of an expired pool can reclaim.
- `tests/` runs the library on concrete values.
- `app/` holds the Soroban contracts that read the host's storage, clock and
  authorisation, call the library, and carry out the transfers, cross-contract
  calls, storage writes and events it decides on.
