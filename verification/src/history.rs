//! The three contracts over whole histories of calls: what holds after any
//! sequence of calls, and not only after the next one.
use vstd::prelude::*;

use crate::settlement::{refund_check, settle_check, SettlementView};
use crate::split_pool::{lemma_assigned_keys, pool_id_bytes, pool_outcome, PoolView, SplitPoolView};
use crate::laws::{
    escrow_covers_deposits, law_cancel_keeps_pool_covered, law_claim_keeps_pool_covered, law_created_pool_covered,
    law_deposit_keeps_pool_covered, law_escrow_isolated, law_expired_depositor_can_reclaim, lemma_refunds_isolated,
};
use crate::split_pool::law_created_pool_wf;
use crate::token_router::{refunds_outcome, TokenRouterView};

verus! {

/// The deployed contracts: the settlement contract, the pool contract and
/// the router, with the addresses of the first two.
pub struct System {
    pub settlement: SettlementView,
    pub pools: SplitPoolView,
    pub router: TokenRouterView,
    pub settlement_at: Seq<u8>,
    pub pools_at: Seq<u8>,
}

/// A call of one of the contracts, as a user makes it.
pub enum Call {
    CreatePool {
        creator: Seq<u8>,
        members: Seq<Seq<u8>>,
        shares: Seq<i128>,
        token: Seq<u8>,
        recipient: Seq<u8>,
        expiry: u64,
        ledger_sequence: u32,
    },
    Deposit { pool_id: Seq<u8>, member: Seq<u8> },
    CancelPool { pool_id: Seq<u8>, creator: Seq<u8> },
    Settle { pool_id: Seq<u8> },
    ClaimRefund { pool_id: Seq<u8>, member: Seq<u8> },
    TransferIn { pool_id: Seq<u8>, token: Seq<u8>, amount: i128 },
    Release { caller: Seq<u8>, pool_id: Seq<u8>, token: Seq<u8>, amount: i128 },
    Refund { caller: Seq<u8>, pool_id: Seq<u8>, token: Seq<u8>, amount: i128 },
    MarkSettled { caller: Seq<u8>, pool_id: Seq<u8> },
    RecordRefund { caller: Seq<u8>, pool_id: Seq<u8>, member: Seq<u8> },
}

/// The contracts after `c` is called at ledger time `now`: as the called
/// function's contract says, and unchanged where the call is refused.
pub open spec fn step(s: System, now: u64, c: Call) -> System {
    match c {
        Call::CreatePool { creator, members, shares, token, recipient, expiry, ledger_sequence } => {
            match pool_outcome(creator, members, shares, token, recipient, expiry, now) {
                Ok(v) => if s.pools.pool_count < u64::MAX {
                    System {
                        pools: SplitPoolView {
                            pool_count: (s.pools.pool_count + 1) as u64,
                            pools: s.pools.pools.insert(pool_id_bytes(ledger_sequence, s.pools.pool_count), v),
                            ..s.pools
                        },
                        ..s
                    }
                } else {
                    s
                },
                Err(_) => s,
            }
        },
        Call::Deposit { pool_id, member } => match s.pools.deposit_outcome(s.router, pool_id, member, now) {
            Ok((p, r)) => System { pools: p, router: r, ..s },
            Err(_) => s,
        },
        Call::CancelPool { pool_id, creator } => match s.pools.cancel_outcome(
            s.router,
            s.pools_at,
            pool_id,
            creator,
        ) {
            Ok((p, r)) => System { pools: p, router: r, ..s },
            Err(_) => s,
        },
        Call::Settle { pool_id } => match s.settlement.settle_outcome(
            s.settlement_at,
            s.pools,
            s.router,
            pool_id,
            now,
        ) {
            Ok((p, r)) => System { pools: p, router: r, ..s },
            Err(_) => s,
        },
        Call::ClaimRefund { pool_id, member } => match s.settlement.claim_outcome(
            s.settlement_at,
            s.pools,
            s.router,
            pool_id,
            member,
            now,
        ) {
            Ok((p, r)) => System { pools: p, router: r, ..s },
            Err(_) => s,
        },
        Call::TransferIn { pool_id, token, amount } => match s.router.transfer_in_outcome(pool_id, token, amount) {
            Ok(r) => System { router: r, ..s },
            Err(_) => s,
        },
        Call::Release { caller, pool_id, token, amount } => match s.router.release_outcome(
            caller,
            pool_id,
            token,
            amount,
        ) {
            Ok(r) => System { router: r, ..s },
            Err(_) => s,
        },
        Call::Refund { caller, pool_id, token, amount } => match s.router.refund_outcome(
            caller,
            pool_id,
            token,
            amount,
        ) {
            Ok(r) => System { router: r, ..s },
            Err(_) => s,
        },
        Call::MarkSettled { caller, pool_id } => if s.pools.is_settlement(caller) && s.pools.pools.contains_key(
            pool_id,
        ) && !s.pools.pools[pool_id].settled {
            System {
                pools: s.pools.with_pool(pool_id, PoolView { settled: true, ..s.pools.pools[pool_id] }),
                ..s
            }
        } else {
            s
        },
        Call::RecordRefund { caller, pool_id, member } => if s.pools.is_settlement(caller)
            && s.pools.pools.contains_key(pool_id) && s.pools.pools[pool_id].has_deposited(member) {
            System { pools: s.pools.with_pool(pool_id, s.pools.pools[pool_id].with_refund(member)), ..s }
        } else {
            s
        },
    }
}

/// The contracts after each call of `h`, made at its ledger time, in turn.
pub open spec fn run(s: System, h: Seq<(u64, Call)>) -> System
    decreases h.len(),
{
    if h.len() == 0 {
        s
    } else {
        step(run(s, h.drop_last()), h.last().0, h.last().1)
    }
}

/// Whether the deposit of `member` into the pool `pool_id` at `now` is accepted.
pub open spec fn deposit_accepted(s: System, now: u64, pool_id: Seq<u8>, member: Seq<u8>) -> bool {
    s.pools.deposit_outcome(s.router, pool_id, member, now) is Ok
}

/// Whether the claim of `member` for a refund from `pool_id` at `now` is accepted.
pub open spec fn claim_accepted(s: System, now: u64, pool_id: Seq<u8>, member: Seq<u8>) -> bool {
    s.settlement.claim_outcome(s.settlement_at, s.pools, s.router, pool_id, member, now) is Ok
}

/// Whether settling `pool_id` at `now` is accepted.
pub open spec fn settle_accepted(s: System, now: u64, pool_id: Seq<u8>) -> bool {
    s.settlement.settle_outcome(s.settlement_at, s.pools, s.router, pool_id, now) is Ok
}

/// How many deposits of `member` into `pool_id` the calls of `h` made.
pub open spec fn deposits_made(s: System, h: Seq<(u64, Call)>, pool_id: Seq<u8>, member: Seq<u8>) -> nat
    decreases h.len(),
{
    if h.len() == 0 {
        0
    } else {
        let prev = run(s, h.drop_last());
        deposits_made(s, h.drop_last(), pool_id, member) + if h.last().1 == (Call::Deposit {
            pool_id,
            member,
        }) && deposit_accepted(prev, h.last().0, pool_id, member) {
            1nat
        } else {
            0nat
        }
    }
}

/// How many refunds to `member` from `pool_id` the calls of `h` made.
pub open spec fn refunds_made(s: System, h: Seq<(u64, Call)>, pool_id: Seq<u8>, member: Seq<u8>) -> nat
    decreases h.len(),
{
    if h.len() == 0 {
        0
    } else {
        let prev = run(s, h.drop_last());
        refunds_made(s, h.drop_last(), pool_id, member) + if h.last().1 == (Call::ClaimRefund {
            pool_id,
            member,
        }) && claim_accepted(prev, h.last().0, pool_id, member) {
            1nat
        } else {
            0nat
        }
    }
}

/// What the refunds to `member` from `pool_id` made by the calls of `h` paid.
pub open spec fn refunds_paid(s: System, h: Seq<(u64, Call)>, pool_id: Seq<u8>, member: Seq<u8>) -> int
    decreases h.len(),
{
    if h.len() == 0 {
        0
    } else {
        let prev = run(s, h.drop_last());
        refunds_paid(s, h.drop_last(), pool_id, member) + if h.last().1 == (Call::ClaimRefund {
            pool_id,
            member,
        }) && claim_accepted(prev, h.last().0, pool_id, member) {
            prev.pools.pools[pool_id].shares[member] as int
        } else {
            0
        }
    }
}

/// How many times the calls of `h` settled `pool_id`.
pub open spec fn settlements_made(s: System, h: Seq<(u64, Call)>, pool_id: Seq<u8>) -> nat
    decreases h.len(),
{
    if h.len() == 0 {
        0
    } else {
        let prev = run(s, h.drop_last());
        settlements_made(s, h.drop_last(), pool_id) + if h.last().1 == (Call::Settle { pool_id })
            && settle_accepted(prev, h.last().0, pool_id) {
            1nat
        } else {
            0nat
        }
    }
}

/// Every stored pool is kept under the identifier of a count below the pool
/// count.
pub open spec fn ids_ok(pools: SplitPoolView) -> bool {
    forall|k: Seq<u8>| #[trigger]
        pools.pools.contains_key(k) ==> exists|s: u32, c: u64|
            c < pools.pool_count && k == #[trigger] pool_id_bytes(s, c)
}

/// Whether the configuration of `t` is that of `s`.
pub open spec fn same_config(s: System, t: System) -> bool {
    &&& t.settlement == s.settlement
    &&& t.settlement_at == s.settlement_at
    &&& t.pools_at == s.pools_at
    &&& t.pools.token_router == s.pools.token_router
    &&& t.pools.settlement == s.pools.settlement
    &&& t.router.config == s.router.config
    &&& t.router.callers == s.router.callers
}

/// Whether `c`, if it is a direct call of what the pool contract reserves to
/// the settlement contract, comes from another caller: the settlement
/// contract makes such calls only within settling and refunding.
pub open spec fn outside_call(s: System, c: Call) -> bool {
    match c {
        Call::MarkSettled { caller, .. } => !s.pools.is_settlement(caller),
        Call::RecordRefund { caller, .. } => !s.pools.is_settlement(caller),
        _ => true,
    }
}

/// A history of calls made in order of ledger time, on contracts deployed
/// with no pools, whose direct calls come from outside callers.
pub open spec fn valid_history(s: System, h: Seq<(u64, Call)>) -> bool {
    &&& forall|k: Seq<u8>| !#[trigger] s.pools.pools.contains_key(k)
    &&& forall|i: int, j: int| 0 <= i <= j < h.len() ==> #[trigger] h[i].0 <= #[trigger] h[j].0
    &&& forall|i: int| 0 <= i < h.len() ==> outside_call(s, #[trigger] h[i].1)
}

/// What one call does to the pool `id`, where it exists: nothing, or the
/// deposit, cancellation, settlement or refund that was accepted.
pub open spec fn pool_effect(p: PoolView, q: PoolView, now: u64, c: Call, id: Seq<u8>) -> bool {
    ||| q == p
    ||| (c matches Call::Deposit { pool_id, member } && pool_id == id && p.deposit_outcome(member, now) is Ok
        && q == p.with_deposit(member))
    ||| (c matches Call::CancelPool { pool_id, .. } && pool_id == id && !p.settled && q == p.cancelled())
    ||| (c matches Call::Settle { pool_id } && pool_id == id && settle_check(p, now) is Ok && q == (PoolView {
        settled: true,
        ..p
    }))
    ||| (c matches Call::ClaimRefund { pool_id, member } && pool_id == id && refund_check(p, member, now)
        is Ok && q == p.with_refund(member))
}

/// A run of refunds keeps the router's configuration.
proof fn lemma_refunds_keep_config(
    router: TokenRouterView,
    caller: Seq<u8>,
    pool_id: Seq<u8>,
    token: Seq<u8>,
    refunds: Seq<(Seq<u8>, i128)>,
)
    requires
        refunds_outcome(router, caller, pool_id, token, refunds) is Ok,
    ensures
        refunds_outcome(router, caller, pool_id, token, refunds)->Ok_0.config == router.config,
        refunds_outcome(router, caller, pool_id, token, refunds)->Ok_0.callers == router.callers,
    decreases refunds.len(),
{
    if refunds.len() > 0 {
        lemma_refunds_keep_config(router, caller, pool_id, token, refunds.drop_last());
    }
}

/// One call keeps the configuration and the identifiers in order, keeps
/// every pool, changes a pool only as `pool_effect` allows, and brings a
/// pool into being only by creating it with no deposits.
proof fn lemma_step(s: System, now: u64, c: Call, id: Seq<u8>)
    requires
        ids_ok(s.pools),
        outside_call(s, c),
    ensures
        same_config(s, step(s, now, c)),
        ids_ok(step(s, now, c).pools),
        s.pools.pools.contains_key(id) ==> step(s, now, c).pools.pools.contains_key(id) && pool_effect(
            s.pools.pools[id],
            step(s, now, c).pools.pools[id],
            now,
            c,
            id,
        ),
        !s.pools.pools.contains_key(id) && step(s, now, c).pools.pools.contains_key(id) ==> (c is CreatePool
            && !step(s, now, c).pools.pools[id].settled && forall|m: Seq<u8>|
            !#[trigger] step(s, now, c).pools.pools[id].has_deposited(m)),
        c matches Call::Deposit { pool_id, member } && !deposit_accepted(s, now, pool_id, member) ==> step(
            s,
            now,
            c,
        ) == s,
        c matches Call::ClaimRefund { pool_id, member } && !claim_accepted(s, now, pool_id, member) ==> step(
            s,
            now,
            c,
        ) == s,
        c matches Call::Settle { pool_id } && !settle_accepted(s, now, pool_id) ==> step(s, now, c) == s,
{
    let t = step(s, now, c);
    match c {
        Call::CreatePool { creator, members, shares, token, recipient, expiry, ledger_sequence } => {
            if pool_outcome(creator, members, shares, token, recipient, expiry, now) is Ok
                && s.pools.pool_count < u64::MAX {
                let k = pool_id_bytes(ledger_sequence, s.pools.pool_count);
                if s.pools.pools.contains_key(k) {
                    let (a, b) = choose|a: u32, b: u64|
                        b < s.pools.pool_count && k == #[trigger] pool_id_bytes(a, b);
                    crate::split_pool::law_pool_ids_distinct(a, b, ledger_sequence, s.pools.pool_count);
                }
                assert forall|x: Seq<u8>| #[trigger] t.pools.pools.contains_key(x) implies exists|a: u32, b: u64|
                    b < t.pools.pool_count && x == #[trigger] pool_id_bytes(a, b) by {
                    if x == k {
                        assert(x == pool_id_bytes(ledger_sequence, s.pools.pool_count));
                    } else {
                        assert(s.pools.pools.contains_key(x));
                        let (a, b) = choose|a: u32, b: u64|
                            b < s.pools.pool_count && x == #[trigger] pool_id_bytes(a, b);
                        assert(x == pool_id_bytes(a, b));
                    }
                }
                if !s.pools.pools.contains_key(id) && t.pools.pools.contains_key(id) {
                    let n = members.len();
                    lemma_assigned_keys(members, shares, n);
                }
            }
        },
        Call::CancelPool { pool_id, creator } => {
            if s.pools.pools.contains_key(pool_id) {
                let p = s.pools.pools[pool_id];
                if refunds_outcome(s.router, s.pools_at, pool_id, p.token, p.refunds_due()) is Ok {
                    lemma_refunds_keep_config(s.router, s.pools_at, pool_id, p.token, p.refunds_due());
                }
            }
        },
        _ => {},
    }
}

/// Whether `m` is recorded as having deposited into the pool `id` of `t`.
pub open spec fn holds_deposit(t: System, id: Seq<u8>, m: Seq<u8>) -> bool {
    t.pools.pools.contains_key(id) && t.pools.pools[id].has_deposited(m)
}

/// The ledger time of the last call of `h`.
pub open spec fn clock(h: Seq<(u64, Call)>) -> u64 {
    if h.len() == 0 {
        0
    } else {
        h.last().0
    }
}

/// What every history keeps, for the pool `id` and the member `m`.
proof fn lemma_history(s: System, h: Seq<(u64, Call)>, id: Seq<u8>, m: Seq<u8>)
    requires
        valid_history(s, h),
    ensures
        same_config(s, run(s, h)),
        ids_ok(run(s, h).pools),
        !run(s, h).pools.pools.contains_key(id) ==> deposits_made(s, h, id, m) == 0 && refunds_made(
            s,
            h,
            id,
            m,
        ) == 0 && settlements_made(s, h, id) == 0,
        deposits_made(s, h, id, m) <= 1,
        deposits_made(s, h, id, m) == 1 ==> run(s, h).pools.pools.contains_key(id) && (run(
            s,
            h,
        ).pools.pools[id].settled || run(s, h).pools.pools[id].has_deposited(m) || clock(h) >= run(
            s,
            h,
        ).pools.pools[id].expiry),
        refunds_made(s, h, id, m) + (if holds_deposit(run(s, h), id, m) {
            1int
        } else {
            0int
        }) <= deposits_made(s, h, id, m),
        refunds_made(s, h, id, m) == 0 ==> refunds_paid(s, h, id, m) == 0,
        refunds_made(s, h, id, m) == 1 ==> run(s, h).pools.pools.contains_key(id) && refunds_paid(s, h, id, m)
            == run(s, h).pools.pools[id].shares[m],
        settlements_made(s, h, id) <= 1,
        settlements_made(s, h, id) == 1 ==> run(s, h).pools.pools.contains_key(id) && run(
            s,
            h,
        ).pools.pools[id].settled,
    decreases h.len(),
{
    if h.len() > 0 {
        let h0 = h.drop_last();
        assert forall|i: int, j: int| 0 <= i <= j < h0.len() implies #[trigger] h0[i].0 <= #[trigger] h0[j].0 by {
            assert(h[i].0 <= h[j].0);
        }
        assert forall|i: int| 0 <= i < h0.len() implies outside_call(s, #[trigger] h0[i].1) by {
            assert(h0[i] == h[i]);
            assert(outside_call(s, h[i].1));
        }
        lemma_history(s, h0, id, m);
        let prev = run(s, h0);
        let now = h.last().0;
        let c = h.last().1;
        assert(outside_call(s, h[h.len() - 1].1));
        assert(outside_call(prev, c));
        lemma_step(prev, now, c, id);
        let t = run(s, h);
        assert(t == step(prev, now, c));
        if h0.len() > 0 {
            assert(h[h.len() - 2].0 <= h[h.len() - 1].0);
            assert(clock(h0) == h[h.len() - 2].0);
        }
        assert(clock(h0) <= now);
        if prev.pools.pools.contains_key(id) {
            let p = prev.pools.pools[id];
            let q = t.pools.pools[id];
            assert(q.same_terms(p));
            assert(p.settled ==> q.settled);
        }
        if c == (Call::ClaimRefund { pool_id: id, member: m }) && claim_accepted(prev, now, id, m) {
            assert(prev.pools.pools.contains_key(id));
            assert(refunds_made(s, h, id, m) == refunds_made(s, h0, id, m) + 1);
            assert(refunds_paid(s, h, id, m) == refunds_paid(s, h0, id, m) + prev.pools.pools[id].shares[m]);
        } else {
            assert(refunds_made(s, h, id, m) == refunds_made(s, h0, id, m));
            assert(refunds_paid(s, h, id, m) == refunds_paid(s, h0, id, m));
        }
    }
}

/// A closed pool stays closed: once a pool is settled or cancelled, every
/// later call leaves it so, and no later deposit into it is accepted.
pub proof fn law_closed_pool_stays_closed(s: System, h: Seq<(u64, Call)>, i: int, id: Seq<u8>, member: Seq<u8>)
    requires
        valid_history(s, h),
        0 <= i <= h.len(),
        run(s, h.take(i)).pools.pools.contains_key(id),
        run(s, h.take(i)).pools.pools[id].settled,
    ensures
        run(s, h).pools.pools.contains_key(id),
        run(s, h).pools.pools[id].settled,
        forall|now: u64| !deposit_accepted(run(s, h), now, id, member),
    decreases h.len(),
{
    if i < h.len() {
        let h0 = h.drop_last();
        assert(h0.take(i) =~= h.take(i));
        assert forall|a: int, b: int| 0 <= a <= b < h0.len() implies #[trigger] h0[a].0 <= #[trigger] h0[b].0 by {
            assert(h[a].0 <= h[b].0);
        }
        assert forall|a: int| 0 <= a < h0.len() implies outside_call(s, #[trigger] h0[a].1) by {
            assert(h0[a] == h[a]);
            assert(outside_call(s, h[a].1));
        }
        law_closed_pool_stays_closed(s, h0, i, id, member);
        lemma_history(s, h0, id, member);
        let prev = run(s, h0);
        let c = h.last().1;
        assert(outside_call(s, h[h.len() - 1].1));
        lemma_step(prev, h.last().0, c, id);
    } else {
        assert(h.take(i) =~= h);
    }
}

/// A member pays into a pool at most once over any history.
pub proof fn law_member_deposits_once(s: System, h: Seq<(u64, Call)>, id: Seq<u8>, member: Seq<u8>)
    requires
        valid_history(s, h),
    ensures
        deposits_made(s, h, id, member) <= 1,
{
    lemma_history(s, h, id, member);
}

/// A member is refunded from a pool at most as often as they deposited into
/// it, so at most once, and never more than their share: nothing if they
/// never deposited.
pub proof fn law_member_refunded_at_most_share(s: System, h: Seq<(u64, Call)>, id: Seq<u8>, member: Seq<u8>)
    requires
        valid_history(s, h),
    ensures
        refunds_made(s, h, id, member) <= deposits_made(s, h, id, member),
        refunds_made(s, h, id, member) <= 1,
        deposits_made(s, h, id, member) == 0 ==> refunds_paid(s, h, id, member) == 0,
        refunds_paid(s, h, id, member) == 0 || (run(s, h).pools.pools.contains_key(id) && refunds_paid(
            s,
            h,
            id,
            member,
        ) == run(s, h).pools.pools[id].shares[member]),
{
    lemma_history(s, h, id, member);
}

/// A pool is settled, and its recipient paid, at most once over any history.
pub proof fn law_pool_settled_once(s: System, h: Seq<(u64, Call)>, id: Seq<u8>)
    requires
        valid_history(s, h),
    ensures
        settlements_made(s, h, id) <= 1,
{
    lemma_history(s, h, id, Seq::empty());
}

/// Whether `c`, if it is a direct call of the router's payouts, comes from a
/// caller that the router refuses: the settlement and pool contracts call
/// them only within settling, refunding and cancelling.
pub open spec fn no_direct_payout(s: System, c: Call) -> bool {
    match c {
        Call::Release { caller, .. } => !s.router.may_release(caller),
        Call::Refund { caller, .. } => !s.router.may_refund(caller),
        _ => true,
    }
}

/// The router and every pool are well formed, and the pool `id`, while
/// open, is covered by its escrow.
pub open spec fn covered(t: System, id: Seq<u8>) -> bool {
    &&& t.router.wf()
    &&& t.pools.wf()
    &&& t.pools.pools.contains_key(id) && !t.pools.pools[id].settled ==> escrow_covers_deposits(
        t.pools,
        t.router,
        id,
    )
}

/// Every stored pool identifier is 32 bytes long.
proof fn lemma_id_len(pools: SplitPoolView, k: Seq<u8>)
    requires
        ids_ok(pools),
        pools.pools.contains_key(k),
    ensures
        k.len() == 32,
{
    let (a, b) = choose|a: u32, b: u64| b < pools.pool_count && k == #[trigger] pool_id_bytes(a, b);
    assert(k == pool_id_bytes(a, b));
}

/// What one call does to a pool keeps it well formed.
proof fn lemma_effect_keeps_wf(p: PoolView, q: PoolView, now: u64, c: Call, id: Seq<u8>)
    requires
        p.wf(),
        pool_effect(p, q, now, c, id),
    ensures
        q.wf(),
{
    if q != p {
        assert(q.deposited.dom() =~= p.deposited.dom());
    }
}

/// One call keeps the router and every pool well formed and keeps the pool
/// `id`, while open, covered by its escrow.
proof fn lemma_step_covered(s: System, now: u64, c: Call, id: Seq<u8>)
    requires
        covered(s, id),
        outside_call(s, c),
        no_direct_payout(s, c),
    ensures
        covered(step(s, now, c), id),
{
    let t = step(s, now, c);
    lemma_step(s, now, c, id);
    assert forall|x: Seq<u8>| #[trigger] t.pools.pools.contains_key(x) implies t.pools.pools[x].wf() by {
        lemma_step(s, now, c, x);
        if s.pools.pools.contains_key(x) {
            lemma_effect_keeps_wf(s.pools.pools[x], t.pools.pools[x], now, c, x);
        } else if let Call::CreatePool { creator, members, shares, token, recipient, expiry, ledger_sequence } = c {
            law_created_pool_wf(creator, members, shares, token, recipient, expiry, now);
        }
    }
    match c {
        Call::CreatePool { creator, members, shares, token, recipient, expiry, ledger_sequence } => {
            if pool_outcome(creator, members, shares, token, recipient, expiry, now) is Ok
                && s.pools.pool_count < u64::MAX && !s.pools.pools.contains_key(id) && t.pools.pools.contains_key(
                id,
            ) {
                law_created_pool_covered(
                    s.pools,
                    s.router,
                    id,
                    creator,
                    members,
                    shares,
                    token,
                    recipient,
                    expiry,
                    now,
                );
            }
        },
        Call::Deposit { pool_id, member } => {
            if deposit_accepted(s, now, pool_id, member) {
                if pool_id == id {
                    law_deposit_keeps_pool_covered(s.pools, s.router, pool_id, member, now);
                } else if s.pools.pools.contains_key(id) {
                    lemma_id_len(s.pools, id);
                    lemma_id_len(s.pools, pool_id);
                    let tok = s.pools.pools[pool_id].token;
                    law_escrow_isolated(
                        s.router,
                        pool_id,
                        tok,
                        s.router.balance(pool_id, tok) + s.pools.pools[pool_id].shares[member],
                        id,
                        s.pools.pools[id].token,
                    );
                }
            }
        },
        Call::CancelPool { pool_id, creator } => {
            if s.pools.cancel_outcome(s.router, s.pools_at, pool_id, creator) is Ok {
                law_cancel_keeps_pool_covered(s.pools, s.router, s.pools_at, pool_id, creator);
                if pool_id != id && s.pools.pools.contains_key(id) {
                    lemma_id_len(s.pools, id);
                    lemma_id_len(s.pools, pool_id);
                    let p = s.pools.pools[pool_id];
                    lemma_refunds_isolated(
                        s.router,
                        s.pools_at,
                        pool_id,
                        p.token,
                        p.refunds_due(),
                        id,
                        s.pools.pools[id].token,
                    );
                }
            }
        },
        Call::Settle { pool_id } => {
            if settle_accepted(s, now, pool_id) && pool_id != id && s.pools.pools.contains_key(id) {
                lemma_id_len(s.pools, id);
                lemma_id_len(s.pools, pool_id);
                let p = s.pools.pools[pool_id];
                law_escrow_isolated(
                    s.router,
                    pool_id,
                    p.token,
                    s.router.balance(pool_id, p.token) - p.total_amount,
                    id,
                    s.pools.pools[id].token,
                );
            }
        },
        Call::ClaimRefund { pool_id, member } => {
            if claim_accepted(s, now, pool_id, member) {
                if pool_id == id {
                    law_claim_keeps_pool_covered(s.settlement, s.settlement_at, s.pools, s.router, pool_id, member, now);
                } else if s.pools.pools.contains_key(id) {
                    lemma_id_len(s.pools, id);
                    lemma_id_len(s.pools, pool_id);
                    let p = s.pools.pools[pool_id];
                    law_escrow_isolated(
                        s.router,
                        pool_id,
                        p.token,
                        s.router.balance(pool_id, p.token) - p.shares[member],
                        id,
                        s.pools.pools[id].token,
                    );
                }
            }
        },
        _ => {},
    }
}

/// Over every history whose payouts come from the contracts, the router and
/// every pool stay well formed and every open pool stays covered by its
/// escrow.
proof fn lemma_history_covered(s: System, h: Seq<(u64, Call)>, id: Seq<u8>)
    requires
        valid_history(s, h),
        s.router.wf(),
        forall|i: int| 0 <= i < h.len() ==> no_direct_payout(s, #[trigger] h[i].1),
    ensures
        covered(run(s, h), id),
    decreases h.len(),
{
    if h.len() == 0 {
        assert(ids_ok(s.pools));
    } else {
        let h0 = h.drop_last();
        assert forall|i: int, j: int| 0 <= i <= j < h0.len() implies #[trigger] h0[i].0 <= #[trigger] h0[j].0 by {
            assert(h[i].0 <= h[j].0);
        }
        assert forall|i: int| 0 <= i < h0.len() implies outside_call(s, #[trigger] h0[i].1) && no_direct_payout(
            s,
            h0[i].1,
        ) by {
            assert(h0[i] == h[i]);
            assert(outside_call(s, h[i].1));
            assert(no_direct_payout(s, h[i].1));
        }
        lemma_history_covered(s, h0, id);
        lemma_history(s, h0, id, Seq::empty());
        let prev = run(s, h0);
        let c = h.last().1;
        assert(outside_call(s, h[h.len() - 1].1));
        assert(no_direct_payout(s, h[h.len() - 1].1));
        lemma_step_covered(prev, h.last().0, c, id);
    }
}

/// Every open pool stays covered by its escrow: after any history whose
/// payouts come from the contracts, the escrow of an open pool holds at least
/// the shares of the members who have deposited into it.
pub proof fn law_open_pool_stays_covered(s: System, h: Seq<(u64, Call)>, id: Seq<u8>)
    requires
        valid_history(s, h),
        s.router.wf(),
        forall|i: int| 0 <= i < h.len() ==> no_direct_payout(s, #[trigger] h[i].1),
        run(s, h).pools.pools.contains_key(id),
        !run(s, h).pools.pools[id].settled,
    ensures
        escrow_covers_deposits(run(s, h).pools, run(s, h).router, id),
{
    lemma_history_covered(s, h, id);
}

/// After any history whose payouts come from the contracts, every member
/// who has deposited into an open pool that has expired gets their refund
/// when they claim it, the contracts being wired to one another.
pub proof fn law_depositor_can_reclaim(s: System, h: Seq<(u64, Call)>, id: Seq<u8>, member: Seq<u8>, now: u64)
    requires
        valid_history(s, h),
        s.router.wf(),
        forall|i: int| 0 <= i < h.len() ==> no_direct_payout(s, #[trigger] h[i].1),
        s.settlement.config is Some,
        s.router.may_refund(s.settlement_at),
        s.pools.is_settlement(s.settlement_at),
        run(s, h).pools.pools.contains_key(id),
        !run(s, h).pools.pools[id].settled,
        now >= run(s, h).pools.pools[id].expiry,
        run(s, h).pools.pools[id].has_deposited(member),
    ensures
        claim_accepted(run(s, h), now, id, member),
{
    lemma_history_covered(s, h, id);
    lemma_history(s, h, id, member);
    let t = run(s, h);
    law_expired_depositor_can_reclaim(t.settlement, t.settlement_at, t.pools, t.router, id, member, now);
}

} // verus!
