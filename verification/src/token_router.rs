use vstd::prelude::*;

use crate::address::{concat_bytes, Address, PoolId};
use crate::bytes_map::BytesMap;

verus! {

/// Why the router refused a request.
#[derive(Debug, Clone, Copy, PartialEq, Eq)]
pub enum RouterError {
    /// `initialize` was called a second time.
    AlreadyInitialized,
    /// The amount to move was zero or negative.
    NonPositiveAmount,
    /// The escrow of the pool and token holds less than the amount.
    InsufficientEscrow,
    /// The escrow of the pool and token would exceed the largest `i128`.
    BalanceOverflow,
    /// The router was not initialised yet.
    NotInitialized,
    /// The contracts allowed to pay out of escrow were already set.
    CallersAlreadySet,
    /// The caller may not pay out of escrow.
    Unauthorized,
}

/// Which way a token transfer goes, seen from the router.
#[derive(Debug, Clone, Copy, PartialEq, Eq)]
pub enum Direction {
    /// From a party into the router's escrow.
    IntoEscrow,
    /// From the router's escrow to a party.
    OutOfEscrow,
}

/// A call of a token contract's `transfer` that the router makes: `amount`
/// units of `token` move between `party` and the router itself.
#[derive(Debug, PartialEq, Eq)]
pub struct Transfer {
    pub token: Address,
    pub direction: Direction,
    pub party: Address,
    pub amount: i128,
}

/// What a `Transfer` stands for.
pub struct TransferView {
    pub token: Seq<u8>,
    pub direction: Direction,
    pub party: Seq<u8>,
    pub amount: i128,
}

impl View for Transfer {
    type V = TransferView;

    open spec fn view(&self) -> TransferView {
        TransferView {
            token: self.token@,
            direction: self.direction,
            party: self.party@,
            amount: self.amount,
        }
    }
}

/// The addresses the router was initialised with.
pub struct RouterConfig {
    pub admin: Address,
    pub xlm_sac: Address,
    pub usdc_contract: Address,
}

/// The contracts allowed to pay out of escrow: the settlement contract
/// releases and refunds, the pool contract refunds when a pool is cancelled.
pub struct RouterCallers {
    pub settlement: Address,
    pub split_pool: Address,
}

/// What a `RouterCallers` stands for.
pub struct RouterCallersView {
    pub settlement: Seq<u8>,
    pub split_pool: Seq<u8>,
}

impl View for RouterCallers {
    type V = RouterCallersView;

    open spec fn view(&self) -> RouterCallersView {
        RouterCallersView { settlement: self.settlement@, split_pool: self.split_pool@ }
    }
}

impl RouterCallers {
    /// Whether `caller` may release escrow to a pool's recipient: only the
    /// settlement contract.
    pub fn may_release(&self, caller: &Address) -> (r: bool)
        ensures
            r == (self@.settlement == caller@),
    {
        self.settlement.same_as(caller)
    }

    /// Whether `caller` may refund escrow to a member: the settlement
    /// contract or the pool contract.
    pub fn may_refund(&self, caller: &Address) -> (r: bool)
        ensures
            r == (self@.settlement == caller@ || self@.split_pool == caller@),
    {
        self.settlement.same_as(caller) || self.split_pool.same_as(caller)
    }
}

/// The key under which the escrow of a pool and a token is kept.
pub open spec fn escrow_key(pool_id: Seq<u8>, token: Seq<u8>) -> Seq<u8> {
    pool_id + token
}

/// What a `RouterConfig` stands for.
pub struct RouterConfigView {
    pub admin: Seq<u8>,
    pub xlm_sac: Seq<u8>,
    pub usdc_contract: Seq<u8>,
}

/// What the router holds: its configuration, once initialised, and the
/// escrowed balance of each pool and token.
pub struct TokenRouterView {
    pub config: Option<RouterConfigView>,
    pub callers: Option<RouterCallersView>,
    pub escrow: Map<Seq<u8>, i128>,
}

impl TokenRouterView {
    /// Whether `caller` may release escrow.
    pub open spec fn may_release(self, caller: Seq<u8>) -> bool {
        self.callers matches Some(c) && c.settlement == caller
    }

    /// Whether `caller` may refund escrow.
    pub open spec fn may_refund(self, caller: Seq<u8>) -> bool {
        self.callers matches Some(c) && (c.settlement == caller || c.split_pool == caller)
    }

    /// The outcome of `caller` releasing `amount` of `token` from the escrow
    /// of `pool_id`.
    pub open spec fn release_outcome(self, caller: Seq<u8>, pool_id: Seq<u8>, token: Seq<u8>, amount: i128) -> Result<
        Self,
        RouterError,
    > {
        if !self.may_release(caller) {
            Err(RouterError::Unauthorized)
        } else {
            self.withdraw_outcome(pool_id, token, amount)
        }
    }

    /// The outcome of `caller` refunding `amount` of `token` from the escrow
    /// of `pool_id`.
    pub open spec fn refund_outcome(self, caller: Seq<u8>, pool_id: Seq<u8>, token: Seq<u8>, amount: i128) -> Result<
        Self,
        RouterError,
    > {
        if !self.may_refund(caller) {
            Err(RouterError::Unauthorized)
        } else {
            self.withdraw_outcome(pool_id, token, amount)
        }
    }

    /// The escrowed balance of `token` for the pool `pool_id`: zero where
    /// nothing was ever escrowed.
    pub open spec fn balance(self, pool_id: Seq<u8>, token: Seq<u8>) -> int {
        let k = escrow_key(pool_id, token);
        if self.escrow.contains_key(k) {
            self.escrow[k] as int
        } else {
            0
        }
    }

    /// The same router with the escrow of `pool_id` and `token` set to `amount`.
    pub open spec fn with_balance(self, pool_id: Seq<u8>, token: Seq<u8>, amount: int) -> Self {
        TokenRouterView { escrow: self.escrow.insert(escrow_key(pool_id, token), amount as i128), ..self }
    }

    /// No escrowed balance is negative.
    pub open spec fn wf(self) -> bool {
        forall|k: Seq<u8>| #[trigger] self.escrow.contains_key(k) ==> self.escrow[k] >= 0
    }

    /// The outcome of moving `amount` of `token` into the escrow of `pool_id`.
    pub open spec fn transfer_in_outcome(self, pool_id: Seq<u8>, token: Seq<u8>, amount: i128) -> Result<
        Self,
        RouterError,
    > {
        if amount <= 0 {
            Err(RouterError::NonPositiveAmount)
        } else if self.balance(pool_id, token) + amount > i128::MAX {
            Err(RouterError::BalanceOverflow)
        } else {
            Ok(self.with_balance(pool_id, token, self.balance(pool_id, token) + amount))
        }
    }

    /// The outcome of paying `amount` of `token` out of the escrow of `pool_id`.
    pub open spec fn withdraw_outcome(self, pool_id: Seq<u8>, token: Seq<u8>, amount: i128) -> Result<
        Self,
        RouterError,
    > {
        if amount <= 0 {
            Err(RouterError::NonPositiveAmount)
        } else if self.balance(pool_id, token) < amount {
            Err(RouterError::InsufficientEscrow)
        } else {
            Ok(self.with_balance(pool_id, token, self.balance(pool_id, token) - amount))
        }
    }
}

/// The escrowed balance after `amount` more is taken in on top of
/// `current`, or why it may not be.
pub fn credit(current: i128, amount: i128) -> (r: Result<i128, RouterError>)
    ensures
        amount <= 0 ==> r == Err::<i128, RouterError>(RouterError::NonPositiveAmount),
        amount > 0 && current + amount > i128::MAX ==> r == Err::<i128, RouterError>(
            RouterError::BalanceOverflow,
        ),
        amount > 0 && current + amount <= i128::MAX ==> r == Ok::<i128, RouterError>(
            (current + amount) as i128,
        ),
{
    if amount <= 0 {
        return Err(RouterError::NonPositiveAmount);
    }
    if current > i128::MAX - amount {
        return Err(RouterError::BalanceOverflow);
    }
    Ok(current + amount)
}

/// The escrowed balance after `amount` is paid out of `current`, or why it
/// may not be.
pub fn debit(current: i128, amount: i128) -> (r: Result<i128, RouterError>)
    ensures
        amount <= 0 ==> r == Err::<i128, RouterError>(RouterError::NonPositiveAmount),
        amount > 0 && current < amount ==> r == Err::<i128, RouterError>(
            RouterError::InsufficientEscrow,
        ),
        amount > 0 && current >= amount ==> r == Ok::<i128, RouterError>((current - amount) as i128),
{
    if amount <= 0 {
        return Err(RouterError::NonPositiveAmount);
    }
    if current < amount {
        return Err(RouterError::InsufficientEscrow);
    }
    Ok(current - amount)
}

/// The escrow key of a pool and a token, as bytes.
fn make_escrow_key(pool_id: &PoolId, token: &Address) -> (k: Vec<u8>)
    ensures
        k@ == escrow_key(pool_id@, token@),
{
    concat_bytes(pool_id.as_slice(), token.bytes.as_slice())
}

/// The token router: holds each pool's deposits in escrow, per token, and
/// pays them out again.
pub struct TokenRouter {
    config: Option<RouterConfig>,
    callers: Option<RouterCallers>,
    escrow: BytesMap<i128>,
}

impl View for TokenRouter {
    type V = TokenRouterView;

    closed spec fn view(&self) -> TokenRouterView {
        TokenRouterView {
            config: match self.config {
                Some(c) => Some(RouterConfigView { admin: c.admin@, xlm_sac: c.xlm_sac@, usdc_contract: c.usdc_contract@ }),
                None => None,
            },
            callers: match self.callers {
                Some(c) => Some(c@),
                None => None,
            },
            escrow: self.escrow@,
        }
    }
}

/// Pays each refund of `refunds` in turn out of the escrow of `pool_id` and
/// `token`; the first refusal stops the whole run.
pub open spec fn refunds_outcome(
    router: TokenRouterView,
    caller: Seq<u8>,
    pool_id: Seq<u8>,
    token: Seq<u8>,
    refunds: Seq<(Seq<u8>, i128)>,
) -> Result<TokenRouterView, RouterError>
    decreases refunds.len(),
{
    if refunds.len() == 0 {
        Ok(router)
    } else {
        match refunds_outcome(router, caller, pool_id, token, refunds.drop_last()) {
            Err(e) => Err(e),
            Ok(r) => r.refund_outcome(caller, pool_id, token, refunds.last().1),
        }
    }
}

/// Once a run of refunds is refused, every longer run is refused the same way.
pub proof fn lemma_refunds_err_persists(
    router: TokenRouterView,
    caller: Seq<u8>,
    pool_id: Seq<u8>,
    token: Seq<u8>,
    refunds: Seq<(Seq<u8>, i128)>,
    k: int,
    n: int,
)
    requires
        0 <= k <= n <= refunds.len(),
        refunds_outcome(router, caller, pool_id, token, refunds.take(k)) is Err,
    ensures
        refunds_outcome(router, caller, pool_id, token, refunds.take(n)) == refunds_outcome(
            router,
            caller,
            pool_id,
            token,
            refunds.take(k),
        ),
    decreases n - k,
{
    if n > k {
        lemma_refunds_err_persists(router, caller, pool_id, token, refunds, k, n - 1);
        assert(refunds.take(n).drop_last() =~= refunds.take(n - 1));
    }
}

impl TokenRouter {
    #[verifier::type_invariant]
    pub open spec fn inv(&self) -> bool {
        self@.wf()
    }

    /// A copy of the router, to return to where a run of calls is refused.
    pub(crate) fn snapshot(&self) -> (r: Self)
        ensures
            r@ == self@,
    {
        proof {
            use_type_invariant(self);
        }
        let config = match &self.config {
            Some(c) => Some(
                RouterConfig {
                    admin: c.admin.clone(),
                    xlm_sac: c.xlm_sac.clone(),
                    usdc_contract: c.usdc_contract.clone(),
                },
            ),
            None => None,
        };
        let callers = match &self.callers {
            Some(c) => Some(
                RouterCallers { settlement: c.settlement.clone(), split_pool: c.split_pool.clone() },
            ),
            None => None,
        };
        TokenRouter { config, callers, escrow: self.escrow.copy() }
    }

    /// A freshly deployed router: not initialised, nothing in escrow.
    pub fn new() -> (r: Self)
        ensures
            r@.config is None,
            r@.callers is None,
            r@.escrow == Map::<Seq<u8>, i128>::empty(),
            r@.wf(),
    {
        TokenRouter { config: None, callers: None, escrow: BytesMap::new() }
    }

    /// Records, once and after initialisation, the settlement contract and
    /// the pool contract: the only callers allowed to pay out of escrow.
    pub fn set_callers(&mut self, settlement: Address, split_pool: Address) -> (r: Result<
        (),
        RouterError,
    >)
        ensures
            old(self)@.config is None ==> r == Err::<(), RouterError>(RouterError::NotInitialized)
                && final(self)@ == old(self)@,
            old(self)@.config is Some && old(self)@.callers is Some ==> r == Err::<(), RouterError>(
                RouterError::CallersAlreadySet,
            ) && final(self)@ == old(self)@,
            old(self)@.config is Some && old(self)@.callers is None ==> r is Ok && final(self)@ == (
            TokenRouterView {
                callers: Some(
                    RouterCallersView { settlement: settlement@, split_pool: split_pool@ },
                ),
                ..old(self)@
            }),
    {
        proof {
            use_type_invariant(&*self);
        }
        if self.config.is_none() {
            return Err(RouterError::NotInitialized);
        }
        if self.callers.is_some() {
            return Err(RouterError::CallersAlreadySet);
        }
        self.callers = Some(RouterCallers { settlement, split_pool });
        Ok(())
    }

    /// Records the admin and the supported token contracts; only once.
    pub fn initialize(&mut self, admin: Address, xlm_sac: Address, usdc_contract: Address) -> (r:
        Result<(), RouterError>)
        ensures
            old(self)@.config is Some ==> r == Err::<(), RouterError>(RouterError::AlreadyInitialized)
                && final(self)@ == old(self)@,
            old(self)@.config is None ==> r is Ok && final(self)@ == (TokenRouterView {
                config: Some(RouterConfigView { admin: admin@, xlm_sac: xlm_sac@, usdc_contract: usdc_contract@ }),
                ..old(self)@
            }),
    {
        proof {
            use_type_invariant(&*self);
        }
        if self.config.is_some() {
            return Err(RouterError::AlreadyInitialized);
        }
        self.config = Some(RouterConfig { admin, xlm_sac, usdc_contract });
        Ok(())
    }

    /// Moves `amount` of `token` from `from` into the escrow of `pool_id`:
    /// hands back the transfer to make and credits the escrow.
    pub fn transfer_in(&mut self, from: Address, pool_id: &PoolId, token: Address, amount: i128) -> (r:
        Result<Transfer, RouterError>)
        ensures
            final(self)@.wf(),
            match old(self)@.transfer_in_outcome(pool_id@, token@, amount) {
                Ok(v) => r matches Ok(t) && final(self)@ == v && t@ == (TransferView {
                    token: token@,
                    direction: Direction::IntoEscrow,
                    party: from@,
                    amount,
                }),
                Err(e) => r == Err::<Transfer, RouterError>(e) && final(self)@ == old(self)@,
            },
    {
        proof {
            use_type_invariant(&*self);
        }
        let current = self.escrow_balance(pool_id, &token);
        let updated = match credit(current, amount) {
            Ok(b) => b,
            Err(e) => {
                return Err(e);
            },
        };
        let mut escrow: BytesMap<i128> = BytesMap::new();
        std::mem::swap(&mut escrow, &mut self.escrow);
        escrow.set(make_escrow_key(pool_id, &token), updated);
        self.escrow = escrow;
        proof {
            assert(self@ =~= old(self)@.with_balance(pool_id@, token@, current + amount));
        }
        Ok(Transfer { token, direction: Direction::IntoEscrow, party: from, amount })
    }

    /// Pays `amount` of `token` out of the escrow of `pool_id` to `to`.
    fn withdraw(&mut self, pool_id: &PoolId, to: Address, token: Address, amount: i128) -> (r: Result<
        Transfer,
        RouterError,
    >)
        ensures
            final(self)@.wf(),
            match old(self)@.withdraw_outcome(pool_id@, token@, amount) {
                Ok(v) => r matches Ok(t) && final(self)@ == v && t@ == (TransferView {
                    token: token@,
                    direction: Direction::OutOfEscrow,
                    party: to@,
                    amount,
                }),
                Err(e) => r == Err::<Transfer, RouterError>(e) && final(self)@ == old(self)@,
            },
    {
        proof {
            use_type_invariant(&*self);
        }
        let escrowed = self.escrow_balance(pool_id, &token);
        let updated = match debit(escrowed, amount) {
            Ok(b) => b,
            Err(e) => {
                return Err(e);
            },
        };
        let mut escrow: BytesMap<i128> = BytesMap::new();
        std::mem::swap(&mut escrow, &mut self.escrow);
        escrow.set(make_escrow_key(pool_id, &token), updated);
        self.escrow = escrow;
        proof {
            assert(self@ =~= old(self)@.with_balance(pool_id@, token@, escrowed - amount));
        }
        Ok(Transfer { token, direction: Direction::OutOfEscrow, party: to, amount })
    }

    /// Releases `amount` of `token` from the escrow of `pool_id` to the
    /// pool's `recipient`; only the settlement contract may.
    pub fn release(
        &mut self,
        caller: &Address,
        pool_id: &PoolId,
        recipient: Address,
        token: Address,
        amount: i128,
    ) -> (r: Result<Transfer, RouterError>)
        ensures
            final(self)@.wf(),
            match old(self)@.release_outcome(caller@, pool_id@, token@, amount) {
                Ok(v) => r matches Ok(t) && final(self)@ == v && t@ == (TransferView {
                    token: token@,
                    direction: Direction::OutOfEscrow,
                    party: recipient@,
                    amount,
                }),
                Err(e) => r == Err::<Transfer, RouterError>(e) && final(self)@ == old(self)@,
            },
    {
        proof {
            use_type_invariant(&*self);
        }
        let allowed = match &self.callers {
            Some(c) => c.may_release(caller),
            None => false,
        };
        if !allowed {
            return Err(RouterError::Unauthorized);
        }
        self.withdraw(pool_id, recipient, token, amount)
    }

    /// Refunds `amount` of `token` from the escrow of `pool_id` to `member`;
    /// only the settlement contract and the pool contract may.
    pub fn refund(
        &mut self,
        caller: &Address,
        pool_id: &PoolId,
        member: Address,
        token: Address,
        amount: i128,
    ) -> (r: Result<Transfer, RouterError>)
        ensures
            final(self)@.wf(),
            match old(self)@.refund_outcome(caller@, pool_id@, token@, amount) {
                Ok(v) => r matches Ok(t) && final(self)@ == v && t@ == (TransferView {
                    token: token@,
                    direction: Direction::OutOfEscrow,
                    party: member@,
                    amount,
                }),
                Err(e) => r == Err::<Transfer, RouterError>(e) && final(self)@ == old(self)@,
            },
    {
        proof {
            use_type_invariant(&*self);
        }
        let allowed = match &self.callers {
            Some(c) => c.may_refund(caller),
            None => false,
        };
        if !allowed {
            return Err(RouterError::Unauthorized);
        }
        self.withdraw(pool_id, member, token, amount)
    }

    /// Sets the escrow of `pool_id` and `token` to `amount`, as it was kept
    /// between calls: how a contract that stores each escrow on its own
    /// brings it back before a call.
    pub fn restore_escrow(&mut self, pool_id: &PoolId, token: &Address, amount: i128)
        requires
            amount >= 0,
        ensures
            final(self)@ == old(self)@.with_balance(pool_id@, token@, amount as int),
    {
        proof {
            use_type_invariant(&*self);
        }
        let mut escrow: BytesMap<i128> = BytesMap::new();
        std::mem::swap(&mut escrow, &mut self.escrow);
        escrow.set(make_escrow_key(pool_id, token), amount);
        self.escrow = escrow;
        proof {
            assert(self@ =~= old(self)@.with_balance(pool_id@, token@, amount as int));
        }
    }

    /// The escrowed balance of `token` for the pool `pool_id`.
    pub fn escrow_balance(&self, pool_id: &PoolId, token: &Address) -> (b: i128)
        ensures
            b == self@.balance(pool_id@, token@),
    {
        let key = make_escrow_key(pool_id, token);
        match self.escrow.get(key.as_slice()) {
            Some(b) => *b,
            None => 0,
        }
    }

    /// The admin the router was initialised with.
    pub fn admin(&self) -> (a: Address)
        requires
            self@.config is Some,
        ensures
            a@ == self@.config->0.admin,
    {
        match &self.config {
            Some(c) => c.admin.clone(),
            None => {
                assert(false);
                Address::new(Vec::new())
            },
        }
    }

    /// The XLM Stellar Asset Contract the router was initialised with.
    pub fn xlm_sac(&self) -> (a: Address)
        requires
            self@.config is Some,
        ensures
            a@ == self@.config->0.xlm_sac,
    {
        match &self.config {
            Some(c) => c.xlm_sac.clone(),
            None => {
                assert(false);
                Address::new(Vec::new())
            },
        }
    }

    /// The USDC contract the router was initialised with.
    pub fn usdc_contract(&self) -> (a: Address)
        requires
            self@.config is Some,
        ensures
            a@ == self@.config->0.usdc_contract,
    {
        match &self.config {
            Some(c) => c.usdc_contract.clone(),
            None => {
                assert(false);
                Address::new(Vec::new())
            },
        }
    }
}

} // verus!
