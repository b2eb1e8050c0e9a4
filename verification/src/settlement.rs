use vstd::prelude::*;

use crate::address::{Address, PoolId};
use crate::split_pool::{PoolError, PoolState, PoolView, SplitPool, SplitPoolView};
use crate::token_router::{Direction, RouterError, TokenRouter, TokenRouterView, Transfer, TransferView};

verus! {

/// Why the settlement contract refused a request.
#[derive(Debug, Clone, Copy, PartialEq, Eq)]
pub enum SettlementError {
    /// `initialize` was called a second time.
    AlreadyInitialized,
    /// `initialize` was never called.
    NotInitialized,
    /// No pool has this identifier.
    PoolNotFound,
    /// The pool was settled or cancelled.
    AlreadySettled,
    /// The pool's expiry has passed: its members claim refunds instead.
    PoolExpired,
    /// Some member has not deposited their share.
    NotAllDeposited,
    /// The pool's expiry has not passed yet.
    NotExpired,
    /// The member has no deposit in the pool.
    NotDeposited,
    /// The address holds no share in the pool.
    NotMember,
    /// The token router refused the transfer.
    Router(RouterError),
    /// The pool contract refused to record the outcome.
    Pool(PoolError),
}

/// The contracts the settlement contract works with.
pub struct SettlementConfig {
    pub split_pool: Address,
    pub token_router: Address,
}

/// What a `SettlementConfig` stands for.
pub struct SettlementConfigView {
    pub split_pool: Seq<u8>,
    pub token_router: Seq<u8>,
}

/// What the settlement contract holds: its configuration, once initialised.
pub struct SettlementView {
    pub config: Option<SettlementConfigView>,
}

/// Whether `pool` may be settled at ledger time `now`, or why not.
pub open spec fn settle_check(pool: PoolView, now: u64) -> Result<(), SettlementError> {
    if pool.settled {
        Err(SettlementError::AlreadySettled)
    } else if now >= pool.expiry {
        Err(SettlementError::PoolExpired)
    } else if !pool.all_deposited() {
        Err(SettlementError::NotAllDeposited)
    } else {
        Ok(())
    }
}

/// The refund that `member` may claim from `pool` at ledger time `now`, or
/// why none.
pub open spec fn refund_check(pool: PoolView, member: Seq<u8>, now: u64) -> Result<i128, SettlementError> {
    if pool.settled {
        Err(SettlementError::AlreadySettled)
    } else if now < pool.expiry {
        Err(SettlementError::NotExpired)
    } else if !pool.has_deposited(member) {
        Err(SettlementError::NotDeposited)
    } else if !pool.shares.contains_key(member) {
        Err(SettlementError::NotMember)
    } else {
        Ok(pool.shares[member])
    }
}

impl SettlementView {
    /// What settling the pool `pool_id` at ledger time `now` leads to, the
    /// settlement contract being at `caller`: the pool contract and the
    /// router afterwards, or why it is refused.
    pub open spec fn settle_outcome(
        self,
        caller: Seq<u8>,
        pools: SplitPoolView,
        router: TokenRouterView,
        pool_id: Seq<u8>,
        now: u64,
    ) -> Result<(SplitPoolView, TokenRouterView), SettlementError> {
        if self.config is None {
            Err(SettlementError::NotInitialized)
        } else if !pools.pools.contains_key(pool_id) {
            Err(SettlementError::PoolNotFound)
        } else {
            let pool = pools.pools[pool_id];
            match settle_check(pool, now) {
                Err(e) => Err(e),
                Ok(_) => match router.release_outcome(caller, pool_id, pool.token, pool.total_amount) {
                    Err(e) => Err(SettlementError::Router(e)),
                    Ok(rv) => if !pools.is_settlement(caller) {
                        Err(SettlementError::Pool(PoolError::NotSettlement))
                    } else {
                        Ok((pools.with_pool(pool_id, PoolView { settled: true, ..pool }), rv))
                    },
                },
            }
        }
    }

    /// What the claim of `member` for a refund from the pool `pool_id` at
    /// ledger time `now` leads to, the settlement contract being at
    /// `caller`: the pool contract and the router afterwards, or why it is
    /// refused.
    pub open spec fn claim_outcome(
        self,
        caller: Seq<u8>,
        pools: SplitPoolView,
        router: TokenRouterView,
        pool_id: Seq<u8>,
        member: Seq<u8>,
        now: u64,
    ) -> Result<(SplitPoolView, TokenRouterView), SettlementError> {
        if self.config is None {
            Err(SettlementError::NotInitialized)
        } else if !pools.pools.contains_key(pool_id) {
            Err(SettlementError::PoolNotFound)
        } else {
            let pool = pools.pools[pool_id];
            match refund_check(pool, member, now) {
                Err(e) => Err(e),
                Ok(share) => match router.refund_outcome(caller, pool_id, pool.token, share) {
                    Err(e) => Err(SettlementError::Router(e)),
                    Ok(rv) => if !pools.is_settlement(caller) {
                        Err(SettlementError::Pool(PoolError::NotSettlement))
                    } else {
                        Ok((pools.with_pool(pool_id, pool.with_refund(member)), rv))
                    },
                },
            }
        }
    }
}

/// The settlement contract: settles a pool once every member has deposited,
/// and refunds the members of a pool that expired unsettled.
pub struct Settlement {
    config: Option<SettlementConfig>,
}

impl View for Settlement {
    type V = SettlementView;

    closed spec fn view(&self) -> SettlementView {
        SettlementView {
            config: match self.config {
                Some(c) => Some(
                    SettlementConfigView { split_pool: c.split_pool@, token_router: c.token_router@ },
                ),
                None => None,
            },
        }
    }
}

impl Settlement {
    /// A freshly deployed settlement contract: not initialised.
    pub fn new() -> (r: Self)
        ensures
            r@.config is None,
    {
        Settlement { config: None }
    }

    /// Records the pool contract and the token router; only once.
    pub fn initialize(&mut self, split_pool: Address, token_router: Address) -> (r: Result<
        (),
        SettlementError,
    >)
        ensures
            old(self)@.config is Some ==> r == Err::<(), SettlementError>(
                SettlementError::AlreadyInitialized,
            ) && final(self)@ == old(self)@,
            old(self)@.config is None ==> r is Ok && final(self)@ == (SettlementView {
                config: Some(
                    SettlementConfigView { split_pool: split_pool@, token_router: token_router@ },
                ),
            }),
    {
        if self.config.is_some() {
            return Err(SettlementError::AlreadyInitialized);
        }
        self.config = Some(SettlementConfig { split_pool, token_router });
        Ok(())
    }

    /// Whether `pool` may be settled at ledger time `now`, or why not.
    pub fn check_settle(pool: &PoolState, now: u64) -> (r: Result<(), SettlementError>)
        ensures
            r == settle_check(pool@, now),
    {
        if pool.settled {
            return Err(SettlementError::AlreadySettled);
        }
        if now >= pool.expiry {
            return Err(SettlementError::PoolExpired);
        }
        if !SplitPool::all_deposited_internal(pool) {
            return Err(SettlementError::NotAllDeposited);
        }
        Ok(())
    }

    /// The refund that `member` may claim from `pool` at ledger time `now`,
    /// or why none.
    pub fn check_refund(pool: &PoolState, member: &Address, now: u64) -> (r: Result<
        i128,
        SettlementError,
    >)
        ensures
            r == refund_check(pool@, member@, now),
    {
        if pool.settled {
            return Err(SettlementError::AlreadySettled);
        }
        if now < pool.expiry {
            return Err(SettlementError::NotExpired);
        }
        if !pool.has_deposited(member) {
            return Err(SettlementError::NotDeposited);
        }
        match pool.shares.get(member.bytes.as_slice()) {
            Some(s) => Ok(s),
            None => Err(SettlementError::NotMember),
        }
    }

    /// Whether `pool` is ready to settle at ledger time `now`: not settled,
    /// not expired, and every member has deposited.
    pub fn ready(pool: &PoolState, now: u64) -> (r: bool)
        ensures
            r == (!pool@.settled && now < pool@.expiry && pool@.all_deposited()),
    {
        !pool.settled && now < pool.expiry && SplitPool::all_deposited_internal(pool)
    }

    /// Settles the pool `pool_id` at ledger time `now`: the router releases
    /// the pool's total from escrow to its recipient, and the pool is marked
    /// settled. `self_address` is the settlement contract's own address, the
    /// caller of the router and of the pool contract. Hands back the
    /// transfer to make.
    pub fn settle(
        &self,
        self_address: &Address,
        pools: &mut SplitPool,
        router: &mut TokenRouter,
        pool_id: &PoolId,
        now: u64,
    ) -> (r: Result<Transfer, SettlementError>)
        ensures
            final(pools)@.wf(),
            final(router)@.wf(),
            match self@.settle_outcome(self_address@, old(pools)@, old(router)@, pool_id@, now) {
                Err(e) => r == Err::<Transfer, SettlementError>(e) && final(pools)@ == old(pools)@
                    && final(router)@ == old(router)@,
                Ok((pv, rv)) => r matches Ok(t) && final(pools)@ == pv && final(router)@ == rv && t@ == (
                TransferView {
                    token: old(pools)@.pools[pool_id@].token,
                    direction: Direction::OutOfEscrow,
                    party: old(pools)@.pools[pool_id@].recipient,
                    amount: old(pools)@.pools[pool_id@].total_amount,
                }),
            },
    {
        proof {
            use_type_invariant(&*router);
            use_type_invariant(&*pools);
        }
        if self.config.is_none() {
            return Err(SettlementError::NotInitialized);
        }
        let (recipient, token, total) = match pools.get_pool(pool_id) {
            Err(_) => {
                return Err(SettlementError::PoolNotFound);
            },
            Ok(pool) => {
                match Settlement::check_settle(pool, now) {
                    Err(e) => {
                        return Err(e);
                    },
                    Ok(_) => (pool.recipient.clone(), pool.token.clone(), pool.total_amount),
                }
            },
        };
        let snapshot = router.snapshot();
        let transfer = match router.release(self_address, pool_id, recipient, token, total) {
            Ok(t) => t,
            Err(e) => {
                return Err(SettlementError::Router(e));
            },
        };
        match pools.mark_settled(self_address, pool_id) {
            Ok(_) => Ok(transfer),
            Err(e) => {
                *router = snapshot;
                Err(SettlementError::Pool(e))
            },
        }
    }

    /// Whether the pool `pool_id` is ready to settle at ledger time `now`.
    pub fn is_ready(&self, pools: &SplitPool, pool_id: &PoolId, now: u64) -> (r: Result<
        bool,
        SettlementError,
    >)
        ensures
            self@.config is None ==> r == Err::<bool, SettlementError>(SettlementError::NotInitialized),
            self@.config is Some && !pools@.pools.contains_key(pool_id@) ==> r == Err::<
                bool,
                SettlementError,
            >(SettlementError::PoolNotFound),
            self@.config is Some && pools@.pools.contains_key(pool_id@) ==> r == Ok::<
                bool,
                SettlementError,
            >(settle_check(pools@.pools[pool_id@], now) is Ok),
    {
        if self.config.is_none() {
            return Err(SettlementError::NotInitialized);
        }
        match pools.get_pool(pool_id) {
            Err(_) => Err(SettlementError::PoolNotFound),
            Ok(pool) => Ok(Settlement::ready(pool, now)),
        }
    }

    /// Pays `member` back their share from the escrow of the pool `pool_id`,
    /// which expired unsettled, at ledger time `now`, and records the refund
    /// in the pool, so that it is paid once. `self_address` is the
    /// settlement contract's own address, the caller of the router and of
    /// the pool contract. Hands back the transfer to make; its amount is the
    /// member's share.
    pub fn claim_refund(
        &self,
        self_address: &Address,
        pools: &mut SplitPool,
        router: &mut TokenRouter,
        pool_id: &PoolId,
        member: &Address,
        now: u64,
    ) -> (r: Result<Transfer, SettlementError>)
        ensures
            final(pools)@.wf(),
            final(router)@.wf(),
            match self@.claim_outcome(self_address@, old(pools)@, old(router)@, pool_id@, member@, now) {
                Err(e) => r == Err::<Transfer, SettlementError>(e) && final(pools)@ == old(pools)@
                    && final(router)@ == old(router)@,
                Ok((pv, rv)) => r matches Ok(t) && final(pools)@ == pv && final(router)@ == rv && t@ == (
                TransferView {
                    token: old(pools)@.pools[pool_id@].token,
                    direction: Direction::OutOfEscrow,
                    party: member@,
                    amount: old(pools)@.pools[pool_id@].shares[member@],
                }),
            },
    {
        proof {
            use_type_invariant(&*router);
            use_type_invariant(&*pools);
        }
        if self.config.is_none() {
            return Err(SettlementError::NotInitialized);
        }
        let (share, token) = match pools.get_pool(pool_id) {
            Err(_) => {
                return Err(SettlementError::PoolNotFound);
            },
            Ok(pool) => {
                match Settlement::check_refund(pool, member, now) {
                    Err(e) => {
                        return Err(e);
                    },
                    Ok(share) => (share, pool.token.clone()),
                }
            },
        };
        let snapshot = router.snapshot();
        let transfer = match router.refund(self_address, pool_id, member.clone(), token, share) {
            Ok(t) => t,
            Err(e) => {
                return Err(SettlementError::Router(e));
            },
        };
        match pools.record_refund(self_address, pool_id, member) {
            Ok(_) => Ok(transfer),
            Err(e) => {
                *router = snapshot;
                Err(SettlementError::Pool(e))
            },
        }
    }

    /// The pool contract the settlement contract was initialised with.
    pub fn split_pool(&self) -> (a: Address)
        requires
            self@.config is Some,
        ensures
            a@ == self@.config->0.split_pool,
    {
        match &self.config {
            Some(c) => c.split_pool.clone(),
            None => {
                assert(false);
                Address::new(Vec::new())
            },
        }
    }

    /// The token router the settlement contract was initialised with.
    pub fn token_router(&self) -> (a: Address)
        requires
            self@.config is Some,
        ensures
            a@ == self@.config->0.token_router,
    {
        match &self.config {
            Some(c) => c.token_router.clone(),
            None => {
                assert(false);
                Address::new(Vec::new())
            },
        }
    }
}

} // verus!
