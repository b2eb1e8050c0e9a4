//! Properties of the contracts taken together: what one call undoes of
//! another, what no call can do, and what every call keeps.
use vstd::prelude::*;

use crate::split_pool::{
    cancel_refunds, law_new_pool_not_all_deposited, lemma_take_contains, pool_outcome, share_total, PoolError,
    PoolView, SplitPoolView,
};
use crate::settlement::{refund_check, settle_check, SettlementError, SettlementView};
use crate::token_router::{escrow_key, refunds_outcome, TokenRouterView};

verus! {

/// Escrow keys of 32-byte pool identifiers tell pool and token apart.
pub proof fn law_escrow_keys_distinct(p: Seq<u8>, t: Seq<u8>, q: Seq<u8>, u: Seq<u8>)
    requires
        p.len() == 32,
        q.len() == 32,
        escrow_key(p, t) == escrow_key(q, u),
    ensures
        p == q,
        t == u,
{
    let k = escrow_key(p, t);
    assert(k.subrange(0, 32) =~= p);
    assert(escrow_key(q, u).subrange(0, 32) =~= q);
    assert(k.subrange(32, k.len() as int) =~= t);
    assert(escrow_key(q, u).subrange(32, k.len() as int) =~= u);
}

/// Moving funds for one pool and token leaves the escrow of every other
/// pool and token as it was.
pub proof fn law_escrow_isolated(
    router: TokenRouterView,
    p: Seq<u8>,
    t: Seq<u8>,
    amount: int,
    q: Seq<u8>,
    u: Seq<u8>,
)
    requires
        p.len() == 32,
        q.len() == 32,
        p != q || t != u,
    ensures
        router.with_balance(p, t, amount).balance(q, u) == router.balance(q, u),
{
    if escrow_key(p, t) == escrow_key(q, u) {
        law_escrow_keys_distinct(p, t, q, u);
    }
}

/// Paying out what was just taken into escrow returns every escrow balance
/// to what it was.
pub proof fn law_withdraw_undoes_transfer_in(
    router: TokenRouterView,
    p: Seq<u8>,
    t: Seq<u8>,
    amount: i128,
    q: Seq<u8>,
    u: Seq<u8>,
)
    requires
        router.wf(),
        router.transfer_in_outcome(p, t, amount) is Ok,
    ensures
        router.transfer_in_outcome(p, t, amount)->Ok_0.withdraw_outcome(p, t, amount) is Ok,
        router.transfer_in_outcome(p, t, amount)->Ok_0.withdraw_outcome(p, t, amount)->Ok_0.balance(q, u)
            == router.balance(q, u),
{
}

/// A member who has deposited cannot deposit into the same pool again.
pub proof fn law_deposit_once(pool: PoolView, member: Seq<u8>, now: u64, later: u64)
    requires
        pool.deposit_outcome(member, now) is Ok,
    ensures
        pool.with_deposit(member).deposit_outcome(member, later) is Err,
{
}

/// Depositing, cancelling and settling change only the deposit records and
/// whether the pool is closed: never its members, shares, total, token,
/// recipient, creator or expiry.
pub proof fn law_pool_terms_fixed(pool: PoolView, member: Seq<u8>)
    ensures
        pool.with_deposit(member).same_terms(pool),
        pool.cancelled().same_terms(pool),
        (PoolView { settled: true, ..pool }).same_terms(pool),
{
}

/// A cancelled pool is closed and records no member as having deposited.
pub proof fn law_cancelled_pool_has_no_deposits(pool: PoolView)
    ensures
        pool.cancelled().settled,
        forall|i: int|
            0 <= i < pool.members.len() ==> !pool.cancelled().has_deposited(#[trigger] pool.members[i]),
{
    assert forall|i: int| 0 <= i < pool.members.len() implies !pool.cancelled().has_deposited(
        #[trigger] pool.members[i],
    ) by {
        assert(pool.members.contains(pool.members[i]));
    }
}

/// Whether some refund of `refunds` goes to `member`.
pub open spec fn pays(refunds: Seq<(Seq<u8>, i128)>, member: Seq<u8>) -> bool {
    exists|i: int| 0 <= i < refunds.len() && #[trigger] refunds[i].0 == member
}

/// Cancelling refunds every member who has deposited exactly once, with
/// their share, and nobody else.
pub proof fn law_cancel_refunds_each_depositor_once(pool: PoolView)
    ensures
        forall|m: Seq<u8>| #[trigger]
            pays(pool.refunds_due(), m) <==> (pool.members.contains(m) && pool.has_deposited(m)),
        forall|i: int|
            0 <= i < pool.refunds_due().len() ==> #[trigger] pool.refunds_due()[i].1 == pool.shares[pool.refunds_due()[i].0],
        forall|i: int, j: int|
            0 <= i < j < pool.refunds_due().len() ==> #[trigger] pool.refunds_due()[i].0
                != #[trigger] pool.refunds_due()[j].0,
{
    lemma_cancel_refunds(pool, pool.members.len());
    assert(pool.members.take(pool.members.len() as int) =~= pool.members);
}

/// The refunds among the first `n` members go to exactly the members among
/// them who have deposited, once each, with their share.
proof fn lemma_cancel_refunds(pool: PoolView, n: nat)
    requires
        n <= pool.members.len(),
    ensures
        forall|m: Seq<u8>| #[trigger]
            pays(cancel_refunds(pool, n), m) <==> (pool.members.take(n as int).contains(m)
                && pool.has_deposited(m)),
        forall|i: int|
            0 <= i < cancel_refunds(pool, n).len() ==> #[trigger] cancel_refunds(pool, n)[i].1
                == pool.shares[cancel_refunds(pool, n)[i].0],
        forall|i: int, j: int|
            0 <= i < j < cancel_refunds(pool, n).len() ==> #[trigger] cancel_refunds(pool, n)[i].0
                != #[trigger] cancel_refunds(pool, n)[j].0,
    decreases n,
{
    if n > 0 {
        let n0 = (n - 1) as nat;
        lemma_cancel_refunds(pool, n0);
        let prev = cancel_refunds(pool, n0);
        let cur = cancel_refunds(pool, n);
        let m = pool.members[n - 1];
        let t = pool.members.take(n as int);
        let t0 = pool.members.take(n0 as int);
        assert(t =~= t0.push(m));
        assert forall|k: Seq<u8>| t.contains(k) <==> (t0.contains(k) || k == m) by {
            if t.contains(k) {
                let j = choose|j: int| 0 <= j < t.len() && t[j] == k;
                if j < n0 {
                    assert(t0[j] == k);
                }
            }
            if t0.contains(k) {
                let j = choose|j: int| 0 <= j < t0.len() && t0[j] == k;
                assert(t[j] == k);
            }
            if k == m {
                assert(t[n0 as int] == k);
            }
        }
        if pool.has_deposited(m) && !t0.contains(m) {
            assert(cur == prev.push((m, pool.shares[m])));
            assert forall|k: Seq<u8>| #[trigger]
                pays(cur, k) <==> (t.contains(k) && pool.has_deposited(k)) by {
                assert(pays(prev, k) <==> (t0.contains(k) && pool.has_deposited(k)));
                if pays(cur, k) {
                    let i = choose|i: int| 0 <= i < cur.len() && #[trigger] cur[i].0 == k;
                    if i < prev.len() {
                        assert(prev[i].0 == k);
                        assert(pays(prev, k));
                    }
                }
                if t.contains(k) && pool.has_deposited(k) {
                    if k == m {
                        assert(cur[prev.len() as int].0 == k);
                    } else {
                        assert(t0.contains(k));
                        assert(pays(prev, k));
                        let i = choose|i: int| 0 <= i < prev.len() && #[trigger] prev[i].0 == k;
                        assert(cur[i].0 == k);
                    }
                }
            }
            assert forall|i: int, j: int| 0 <= i < j < cur.len() implies #[trigger] cur[i].0
                != #[trigger] cur[j].0 by {
                if j == prev.len() {
                    if prev[i].0 == m {
                        assert(pays(prev, m));
                    }
                } else {
                    assert(prev[i].0 != prev[j].0);
                }
            }
            assert forall|i: int| 0 <= i < cur.len() implies #[trigger] cur[i].1
                == pool.shares[cur[i].0] by {
                if i < prev.len() {
                    assert(cur[i] == prev[i]);
                }
            }
        } else {
            assert(cur == prev);
            assert forall|k: Seq<u8>| #[trigger]
                pays(cur, k) <==> (t.contains(k) && pool.has_deposited(k)) by {
                assert(pays(prev, k) <==> (t0.contains(k) && pool.has_deposited(k)));
                if t.contains(k) && pool.has_deposited(k) && k == m {
                    assert(t0.contains(k));
                }
            }
        }
    }
}

/// A pool can be settled only by the settlement contract, while the pool is
/// open and unexpired, once every member has deposited, and only if its
/// escrow holds its total: then the escrow pays out exactly the total and the
/// pool is closed.
pub proof fn law_settle_only_when_complete(
    settlement: SettlementView,
    caller: Seq<u8>,
    pools: SplitPoolView,
    router: TokenRouterView,
    pool_id: Seq<u8>,
    now: u64,
)
    requires
        settlement.settle_outcome(caller, pools, router, pool_id, now) is Ok,
    ensures
        ({
            let pool = pools.pools[pool_id];
            let (pv, rv) = settlement.settle_outcome(caller, pools, router, pool_id, now)->Ok_0;
            &&& settlement.config is Some
            &&& router.may_release(caller)
            &&& pools.is_settlement(caller)
            &&& pools.pools.contains_key(pool_id)
            &&& !pool.settled
            &&& now < pool.expiry
            &&& pool.all_deposited()
            &&& router.balance(pool_id, pool.token) >= pool.total_amount
            &&& rv.balance(pool_id, pool.token) == router.balance(pool_id, pool.token) - pool.total_amount
            &&& pv.pools[pool_id].settled
        }),
{
}

/// A settled pool is final: it cannot be settled again, deposited into,
/// cancelled, or refunded from.
pub proof fn law_settled_pool_is_final(
    settlement: SettlementView,
    caller: Seq<u8>,
    pools: SplitPoolView,
    router: TokenRouterView,
    pool_id: Seq<u8>,
    now: u64,
    later: u64,
    member: Seq<u8>,
    canceller: Seq<u8>,
    creator: Seq<u8>,
)
    requires
        settlement.settle_outcome(caller, pools, router, pool_id, now) is Ok,
    ensures
        ({
            let (pv, rv) = settlement.settle_outcome(caller, pools, router, pool_id, now)->Ok_0;
            &&& settlement.settle_outcome(caller, pv, rv, pool_id, later) == Err::<
                (SplitPoolView, TokenRouterView),
                SettlementError,
            >(SettlementError::AlreadySettled)
            &&& pv.deposit_outcome(rv, pool_id, member, later) == Err::<
                (SplitPoolView, TokenRouterView),
                PoolError,
            >(PoolError::AlreadySettled)
            &&& pv.cancel_outcome(rv, canceller, pool_id, creator) is Err
            &&& settlement.claim_outcome(caller, pv, rv, pool_id, member, later) == Err::<
                (SplitPoolView, TokenRouterView),
                SettlementError,
            >(SettlementError::AlreadySettled)
        }),
{
}

/// A refund is paid once: after a member's refund is claimed, the same
/// member can claim no further refund from the pool and cannot deposit
/// again, and the escrow paid out exactly their share.
pub proof fn law_refund_paid_once(
    settlement: SettlementView,
    caller: Seq<u8>,
    pools: SplitPoolView,
    router: TokenRouterView,
    pool_id: Seq<u8>,
    member: Seq<u8>,
    now: u64,
    later: u64,
)
    requires
        settlement.claim_outcome(caller, pools, router, pool_id, member, now) is Ok,
        later >= now,
    ensures
        ({
            let pool = pools.pools[pool_id];
            let (pv, rv) = settlement.claim_outcome(caller, pools, router, pool_id, member, now)->Ok_0;
            &&& pool.has_deposited(member)
            &&& !pv.pools[pool_id].has_deposited(member)
            &&& rv.balance(pool_id, pool.token) == router.balance(pool_id, pool.token) - pool.shares[member]
            &&& settlement.claim_outcome(caller, pv, rv, pool_id, member, later) == Err::<
                (SplitPoolView, TokenRouterView),
                SettlementError,
            >(SettlementError::NotDeposited)
            &&& pv.deposit_outcome(rv, pool_id, member, later) == Err::<
                (SplitPoolView, TokenRouterView),
                PoolError,
            >(PoolError::PoolExpired)
        }),
{
}

/// Escrow leaves the router only at the request of the contracts it was
/// configured with: releases only for the settlement contract, refunds only
/// for the settlement contract or the pool contract.
pub proof fn law_only_configured_callers_pay_out(
    router: TokenRouterView,
    caller: Seq<u8>,
    pool_id: Seq<u8>,
    token: Seq<u8>,
    amount: i128,
)
    ensures
        router.release_outcome(caller, pool_id, token, amount) is Ok ==> (router.callers matches Some(c)
            && c.settlement == caller),
        router.refund_outcome(caller, pool_id, token, amount) is Ok ==> (router.callers matches Some(c)
            && (c.settlement == caller || c.split_pool == caller)),
{
}

/// At any one time a pool can either be settled or be refunded from, never
/// both.
pub proof fn law_settle_and_refund_exclusive(pool: PoolView, member: Seq<u8>, now: u64)
    ensures
        !(settle_check(pool, now) is Ok && refund_check(pool, member, now) is Ok),
{
}

/// The shares of those among the first `n` members who have deposited,
/// each member counted once, added up.
pub open spec fn deposited_sum(pool: PoolView, n: nat) -> int
    decreases n,
{
    if n == 0 {
        0
    } else {
        deposited_sum(pool, (n - 1) as nat) + if !pool.members.take(n - 1).contains(pool.members[n - 1])
            && pool.has_deposited(pool.members[n - 1]) {
            pool.shares[pool.members[n - 1]] as int
        } else {
            0
        }
    }
}

/// The first position at which `x` is listed among the first `n` of `s`.
proof fn lemma_first_position(s: Seq<Seq<u8>>, x: Seq<u8>, n: int) -> (j: int)
    requires
        0 <= n <= s.len(),
        s.take(n).contains(x),
    ensures
        0 <= j < n,
        s[j] == x,
        !s.take(j).contains(x),
    decreases n,
{
    lemma_take_contains(s, n, x);
    if s.take(n - 1).contains(x) {
        lemma_first_position(s, x, n - 1)
    } else {
        n - 1
    }
}

/// The pool `pool_id` exists and the escrow of its token holds at least the
/// shares of the members who have deposited.
pub open spec fn escrow_covers_deposits(pools: SplitPoolView, router: TokenRouterView, pool_id: Seq<u8>) -> bool {
    &&& pools.pools.contains_key(pool_id)
    &&& router.balance(pool_id, pools.pools[pool_id].token) >= deposited_sum(
        pools.pools[pool_id],
        pools.pools[pool_id].members.len(),
    )
}

/// Where nobody has deposited, the deposited shares add up to nothing.
proof fn lemma_deposited_sum_none(pool: PoolView, k: nat)
    requires
        k <= pool.members.len(),
        forall|i: int| 0 <= i < pool.members.len() ==> !pool.has_deposited(#[trigger] pool.members[i]),
    ensures
        deposited_sum(pool, k) == 0,
    decreases k,
{
    if k > 0 {
        lemma_deposited_sum_none(pool, (k - 1) as nat);
    }
}

/// Recording the deposit of the member first listed at position `j` adds
/// their share to the deposited shares of every prefix that includes them.
proof fn lemma_deposited_sum_after_deposit(pool: PoolView, j: int, k: nat)
    requires
        k <= pool.members.len(),
        0 <= j < pool.members.len(),
        !pool.members.take(j).contains(pool.members[j]),
        !pool.has_deposited(pool.members[j]),
    ensures
        deposited_sum(pool.with_deposit(pool.members[j]), k) == deposited_sum(pool, k) + if j < k {
            pool.shares[pool.members[j]] as int
        } else {
            0
        },
    decreases k,
{
    if k > 0 {
        lemma_deposited_sum_after_deposit(pool, j, (k - 1) as nat);
        let i = k - 1;
        if i > j && pool.members[i] == pool.members[j] {
            assert(pool.members.take(i)[j] == pool.members[j]);
            assert(pool.members.take(i).contains(pool.members[i]));
        }
        if i < j && pool.members[i] == pool.members[j] {
            assert(pool.members.take(j)[i] == pool.members[j]);
        }
    }
}

/// Where everyone has deposited, the deposited shares are all the shares.
proof fn lemma_deposited_sum_all(pool: PoolView, k: nat)
    requires
        k <= pool.members.len(),
        pool.all_deposited(),
    ensures
        deposited_sum(pool, k) == share_total(pool.members, pool.shares, k),
    decreases k,
{
    if k > 0 {
        lemma_deposited_sum_all(pool, (k - 1) as nat);
        assert(pool.has_deposited(pool.members[k - 1]));
    }
}

/// A newly created pool is covered by the escrow of its identifier,
/// whatever that escrow holds.
pub proof fn law_created_pool_covered(
    pools: SplitPoolView,
    router: TokenRouterView,
    pool_id: Seq<u8>,
    creator: Seq<u8>,
    members: Seq<Seq<u8>>,
    shares: Seq<i128>,
    token: Seq<u8>,
    recipient: Seq<u8>,
    expiry: u64,
    now: u64,
)
    requires
        router.wf(),
        pool_outcome(creator, members, shares, token, recipient, expiry, now) is Ok,
    ensures
        escrow_covers_deposits(
            pools.with_pool(
                pool_id,
                pool_outcome(creator, members, shares, token, recipient, expiry, now)->Ok_0,
            ),
            router,
            pool_id,
        ),
{
    let p = pool_outcome(creator, members, shares, token, recipient, expiry, now)->Ok_0;
    law_new_pool_not_all_deposited(creator, members, shares, token, recipient, expiry, now);
    lemma_deposited_sum_none(p, members.len());
    let pv = pools.with_pool(pool_id, p);
    assert(pv.pools[pool_id] == p);
    assert(router.balance(pool_id, token) >= 0);
}

/// A deposit keeps the pool covered by its escrow.
pub proof fn law_deposit_keeps_pool_covered(
    pools: SplitPoolView,
    router: TokenRouterView,
    pool_id: Seq<u8>,
    member: Seq<u8>,
    now: u64,
)
    requires
        pools.wf(),
        escrow_covers_deposits(pools, router, pool_id),
        pools.deposit_outcome(router, pool_id, member, now) is Ok,
    ensures
        escrow_covers_deposits(
            pools.deposit_outcome(router, pool_id, member, now)->Ok_0.0,
            pools.deposit_outcome(router, pool_id, member, now)->Ok_0.1,
            pool_id,
        ),
{
    let p = pools.pools[pool_id];
    let (pv, rv) = pools.deposit_outcome(router, pool_id, member, now)->Ok_0;
    let q = p.with_deposit(member);
    assert(pv.pools[pool_id] == q);
    assert(p.wf());
    assert(p.shares.contains_key(member));
    assert(p.members.contains(member));
    assert(p.members.take(p.members.len() as int) =~= p.members);
    let j = lemma_first_position(p.members, member, p.members.len() as int);
    lemma_deposited_sum_after_deposit(p, j, p.members.len());
}

/// A pool covered by its escrow, open, unexpired and fully deposited is
/// settled by the settlement contract: the escrow pays its total to the
/// recipient.
pub proof fn law_complete_pool_settles(
    settlement: SettlementView,
    caller: Seq<u8>,
    pools: SplitPoolView,
    router: TokenRouterView,
    pool_id: Seq<u8>,
    now: u64,
)
    requires
        pools.wf(),
        settlement.config is Some,
        router.may_release(caller),
        pools.is_settlement(caller),
        escrow_covers_deposits(pools, router, pool_id),
        !pools.pools[pool_id].settled,
        now < pools.pools[pool_id].expiry,
        pools.pools[pool_id].all_deposited(),
    ensures
        settlement.settle_outcome(caller, pools, router, pool_id, now) is Ok,
{
    let p = pools.pools[pool_id];
    assert(p.wf());
    lemma_deposited_sum_all(p, p.members.len());
}

/// A pool that is ready to settle, and whose escrow holds its total, is
/// settled by the settlement contract.
pub proof fn law_ready_pool_settles(
    settlement: SettlementView,
    caller: Seq<u8>,
    pools: SplitPoolView,
    router: TokenRouterView,
    pool_id: Seq<u8>,
    now: u64,
)
    requires
        pools.wf(),
        settlement.config is Some,
        router.may_release(caller),
        pools.is_settlement(caller),
        pools.pools.contains_key(pool_id),
        settle_check(pools.pools[pool_id], now) is Ok,
        router.balance(pool_id, pools.pools[pool_id].token) >= pools.pools[pool_id].total_amount,
    ensures
        settlement.settle_outcome(caller, pools, router, pool_id, now) is Ok,
{
    assert(pools.pools[pool_id].wf());
}

/// The deposited shares are never negative.
proof fn lemma_deposited_sum_nonneg(pool: PoolView, k: nat)
    requires
        pool.wf(),
        k <= pool.members.len(),
    ensures
        deposited_sum(pool, k) >= 0,
    decreases k,
{
    if k > 0 {
        lemma_deposited_sum_nonneg(pool, (k - 1) as nat);
        let m = pool.members[k - 1];
        assert(pool.members.contains(m));
        assert(pool.shares.contains_key(m));
    }
}

/// Taking back the deposit of a member who has deposited takes their share
/// off the deposited shares, which stay at least nothing.
proof fn lemma_deposited_sum_after_refund(pool: PoolView, member: Seq<u8>)
    requires
        pool.wf(),
        pool.has_deposited(member),
    ensures
        pool.with_refund(member).wf(),
        deposited_sum(pool, pool.members.len()) == deposited_sum(pool.with_refund(member), pool.members.len())
            + pool.shares[member],
        deposited_sum(pool.with_refund(member), pool.members.len()) >= 0,
        pool.shares[member] > 0,
{
    let q = pool.with_refund(member);
    assert(q.deposited.dom() =~= pool.deposited.dom());
    assert(pool.shares.contains_key(member));
    assert(pool.members.contains(member));
    assert(pool.members.take(pool.members.len() as int) =~= pool.members);
    let j = lemma_first_position(pool.members, member, pool.members.len() as int);
    assert(q.members.take(j) == pool.members.take(j));
    lemma_deposited_sum_after_deposit(q, j, pool.members.len());
    assert(q.with_deposit(member).deposited =~= pool.deposited);
    assert(q.with_deposit(member) == pool);
    lemma_deposited_sum_nonneg(q, pool.members.len());
}

/// A refund keeps the pool covered by its escrow: the escrow pays out the
/// member's share, and their deposit no longer counts.
pub proof fn law_claim_keeps_pool_covered(
    settlement: SettlementView,
    caller: Seq<u8>,
    pools: SplitPoolView,
    router: TokenRouterView,
    pool_id: Seq<u8>,
    member: Seq<u8>,
    now: u64,
)
    requires
        pools.wf(),
        escrow_covers_deposits(pools, router, pool_id),
        settlement.claim_outcome(caller, pools, router, pool_id, member, now) is Ok,
    ensures
        escrow_covers_deposits(
            settlement.claim_outcome(caller, pools, router, pool_id, member, now)->Ok_0.0,
            settlement.claim_outcome(caller, pools, router, pool_id, member, now)->Ok_0.1,
            pool_id,
        ),
{
    let p = pools.pools[pool_id];
    assert(p.wf());
    let (pv, rv) = settlement.claim_outcome(caller, pools, router, pool_id, member, now)->Ok_0;
    assert(pv.pools[pool_id] == p.with_refund(member));
    lemma_deposited_sum_after_refund(p, member);
}

/// Cancelling leaves the pool covered: no deposit counts any more, and the
/// refunds never take an escrow below nothing.
pub proof fn law_cancel_keeps_pool_covered(
    pools: SplitPoolView,
    router: TokenRouterView,
    caller: Seq<u8>,
    pool_id: Seq<u8>,
    creator: Seq<u8>,
)
    requires
        router.wf(),
        pools.cancel_outcome(router, caller, pool_id, creator) is Ok,
    ensures
        escrow_covers_deposits(
            pools.cancel_outcome(router, caller, pool_id, creator)->Ok_0.0,
            pools.cancel_outcome(router, caller, pool_id, creator)->Ok_0.1,
            pool_id,
        ),
        pools.cancel_outcome(router, caller, pool_id, creator)->Ok_0.1.wf(),
{
    let p = pools.pools[pool_id];
    let (pv, rv) = pools.cancel_outcome(router, caller, pool_id, creator)->Ok_0;
    assert(pv.pools[pool_id] == p.cancelled());
    law_cancelled_pool_has_no_deposits(p);
    lemma_deposited_sum_none(p.cancelled(), p.members.len());
    lemma_refunds_keep_wf(router, caller, pool_id, p.token, p.refunds_due());
}

/// Refunds never take an escrow below nothing.
proof fn lemma_refunds_keep_wf(
    router: TokenRouterView,
    caller: Seq<u8>,
    pool_id: Seq<u8>,
    token: Seq<u8>,
    refunds: Seq<(Seq<u8>, i128)>,
)
    requires
        router.wf(),
        refunds_outcome(router, caller, pool_id, token, refunds) is Ok,
    ensures
        refunds_outcome(router, caller, pool_id, token, refunds)->Ok_0.wf(),
    decreases refunds.len(),
{
    if refunds.len() > 0 {
        lemma_refunds_keep_wf(router, caller, pool_id, token, refunds.drop_last());
    }
}

/// Every member who has deposited into an open pool that has expired, and
/// that its escrow covers, gets their refund when they claim it.
pub proof fn law_expired_depositor_can_reclaim(
    settlement: SettlementView,
    caller: Seq<u8>,
    pools: SplitPoolView,
    router: TokenRouterView,
    pool_id: Seq<u8>,
    member: Seq<u8>,
    now: u64,
)
    requires
        pools.wf(),
        settlement.config is Some,
        router.may_refund(caller),
        pools.is_settlement(caller),
        escrow_covers_deposits(pools, router, pool_id),
        !pools.pools[pool_id].settled,
        now >= pools.pools[pool_id].expiry,
        pools.pools[pool_id].has_deposited(member),
    ensures
        settlement.claim_outcome(caller, pools, router, pool_id, member, now) is Ok,
{
    let p = pools.pools[pool_id];
    assert(p.wf());
    assert(p.deposited.dom().contains(member));
    lemma_deposited_sum_after_refund(p, member);
}

/// Refunds from one pool's escrow leave the escrow of every other pool as
/// it was.
pub(crate) proof fn lemma_refunds_isolated(
    router: TokenRouterView,
    caller: Seq<u8>,
    pool_id: Seq<u8>,
    token: Seq<u8>,
    refunds: Seq<(Seq<u8>, i128)>,
    q: Seq<u8>,
    u: Seq<u8>,
)
    requires
        pool_id.len() == 32,
        q.len() == 32,
        pool_id != q,
        refunds_outcome(router, caller, pool_id, token, refunds) is Ok,
    ensures
        refunds_outcome(router, caller, pool_id, token, refunds)->Ok_0.balance(q, u) == router.balance(q, u),
    decreases refunds.len(),
{
    if refunds.len() > 0 {
        lemma_refunds_isolated(router, caller, pool_id, token, refunds.drop_last(), q, u);
        let r = refunds_outcome(router, caller, pool_id, token, refunds.drop_last())->Ok_0;
        law_escrow_isolated(r, pool_id, token, r.balance(pool_id, token) - refunds.last().1, q, u);
    }
}

} // verus!
