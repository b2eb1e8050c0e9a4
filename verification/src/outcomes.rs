//! What each operation answers, over all inputs, stated over the fields of
//! the pools and the router: who may deposit, cancel, create a pool or move
//! escrow, and what the call then leaves behind.
use vstd::prelude::*;

use crate::split_pool::{
    assign_shares, cancel_refunds, law_new_pool_not_all_deposited, law_share_tally, pool_outcome, share_total,
    sum_shares, PoolError, PoolView, SplitPoolView,
};
use crate::settlement::{refund_check, settle_check, SettlementError};
use crate::token_router::{escrow_key, RouterError, TokenRouterView};

verus! {

/// Every listed member of an open, unexpired pool who has not deposited yet
/// may deposit, whoever created the pool, and deposits exactly their share;
/// a deposit is accepted in no other case.
pub proof fn law_member_may_deposit(pool: PoolView, member: Seq<u8>, now: u64)
    ensures
        !pool.settled && now < pool.expiry && !(pool.deposited.contains_key(member) && pool.deposited[member])
            && pool.shares.contains_key(member) ==> pool.deposit_outcome(member, now) == Ok::<i128, PoolError>(
            pool.shares[member],
        ),
        pool.deposit_outcome(member, now) is Ok ==> !pool.settled && now < pool.expiry && !(
        pool.deposited.contains_key(member) && pool.deposited[member]) && pool.shares.contains_key(member),
{
}

/// Such a deposit is accepted by the pool contract, once it knows its router
/// and the escrow has room: the member is recorded as having deposited and
/// the escrow of the pool's token grows by their share, nothing else changes.
pub proof fn law_deposit_accepted(
    pools: SplitPoolView,
    router: TokenRouterView,
    pool_id: Seq<u8>,
    member: Seq<u8>,
    now: u64,
)
    requires
        pools.wf(),
        pools.token_router is Some,
        pools.pools.contains_key(pool_id),
        !pools.pools[pool_id].settled,
        now < pools.pools[pool_id].expiry,
        !(pools.pools[pool_id].deposited.contains_key(member) && pools.pools[pool_id].deposited[member]),
        pools.pools[pool_id].shares.contains_key(member),
        router.balance(pool_id, pools.pools[pool_id].token) + pools.pools[pool_id].shares[member] <= i128::MAX,
    ensures
        ({
            let p = pools.pools[pool_id];
            pools.deposit_outcome(router, pool_id, member, now) == Ok::<
                (SplitPoolView, TokenRouterView),
                PoolError,
            >(
                (
                    SplitPoolView {
                        pools: pools.pools.insert(pool_id, PoolView { deposited: p.deposited.insert(member, true), ..p }),
                        ..pools
                    },
                    TokenRouterView {
                        escrow: router.escrow.insert(
                            escrow_key(pool_id, p.token),
                            (router.balance(pool_id, p.token) + p.shares[member]) as i128,
                        ),
                        ..router
                    },
                ),
            )
        }),
{
    assert(pools.pools[pool_id].wf());
}

/// The creator of an open pool can always cancel it, whether or not anyone
/// has deposited; nobody else can, and a closed pool cannot be cancelled.
pub proof fn law_creator_may_cancel(pool: PoolView, creator: Seq<u8>)
    ensures
        pool.cancel_check(creator) is Ok <==> (creator == pool.creator && !pool.settled),
{
}

/// Where nobody has deposited, no refund is due.
proof fn lemma_no_refunds_without_deposits(pool: PoolView, n: nat)
    requires
        n <= pool.members.len(),
        forall|i: int|
            0 <= i < pool.members.len() ==> !(#[trigger] pool.deposited.contains_key(pool.members[i])
                && pool.deposited[pool.members[i]]),
    ensures
        cancel_refunds(pool, n).len() == 0,
    decreases n,
{
    if n > 0 {
        lemma_no_refunds_without_deposits(pool, (n - 1) as nat);
        assert(!(pool.deposited.contains_key(pool.members[n - 1]) && pool.deposited[pool.members[n - 1]]));
    }
}

/// The creator cancels a pool that nobody has deposited into: the router is
/// asked for nothing, and the pool is closed with its terms kept and no
/// deposit recorded.
pub proof fn law_cancel_without_deposits(
    pools: SplitPoolView,
    router: TokenRouterView,
    caller: Seq<u8>,
    pool_id: Seq<u8>,
)
    requires
        pools.token_router is Some,
        pools.pools.contains_key(pool_id),
        !pools.pools[pool_id].settled,
        forall|i: int|
            0 <= i < pools.pools[pool_id].members.len() ==> !(
            #[trigger] pools.pools[pool_id].deposited.contains_key(pools.pools[pool_id].members[i])
                && pools.pools[pool_id].deposited[pools.pools[pool_id].members[i]]),
    ensures
        ({
            let p = pools.pools[pool_id];
            let out = pools.cancel_outcome(router, caller, pool_id, p.creator);
            &&& out is Ok
            &&& out->Ok_0.1 == router
            &&& out->Ok_0.0.pools.contains_key(pool_id)
            &&& out->Ok_0.0.pools[pool_id].settled
            &&& out->Ok_0.0.pools[pool_id].members == p.members
            &&& out->Ok_0.0.pools[pool_id].shares == p.shares
            &&& out->Ok_0.0.pools[pool_id].creator == p.creator
            &&& forall|m: Seq<u8>|
                !(#[trigger] out->Ok_0.0.pools[pool_id].deposited.contains_key(m)
                    && out->Ok_0.0.pools[pool_id].deposited[m] && p.members.contains(m))
        }),
{
    let p = pools.pools[pool_id];
    lemma_no_refunds_without_deposits(p, p.members.len());
    assert(p.refunds_due() =~= Seq::<(Seq<u8>, i128)>::empty());
}

/// A pool is fully deposited exactly when every listed member, the creator
/// among them if listed, is recorded as having deposited.
pub proof fn law_all_deposited_iff(pool: PoolView)
    ensures
        pool.all_deposited() <==> forall|i: int|
            0 <= i < pool.members.len() ==> #[trigger] pool.deposited.contains_key(pool.members[i])
                && pool.deposited[pool.members[i]],
{
    if pool.all_deposited() {
        assert forall|i: int| 0 <= i < pool.members.len() implies #[trigger] pool.deposited.contains_key(
            pool.members[i],
        ) && pool.deposited[pool.members[i]] by {
            assert(pool.has_deposited(pool.members[i]));
        }
    }
    if forall|i: int|
        0 <= i < pool.members.len() ==> #[trigger] pool.deposited.contains_key(pool.members[i])
            && pool.deposited[pool.members[i]] {
        assert forall|i: int| 0 <= i < pool.members.len() implies pool.has_deposited(
            #[trigger] pool.members[i],
        ) by {
            assert(pool.deposited.contains_key(pool.members[i]));
        }
    }
}

/// Recording the deposit of the last member who had not deposited makes the
/// pool fully deposited.
pub proof fn law_last_deposit_completes(pool: PoolView, member: Seq<u8>)
    requires
        forall|i: int|
            0 <= i < pool.members.len() && pool.members[i] != member ==> #[trigger] pool.deposited.contains_key(
                pool.members[i],
            ) && pool.deposited[pool.members[i]],
    ensures
        (PoolView { deposited: pool.deposited.insert(member, true), ..pool }).all_deposited(),
{
    let q = PoolView { deposited: pool.deposited.insert(member, true), ..pool };
    assert forall|i: int| 0 <= i < q.members.len() implies q.has_deposited(#[trigger] q.members[i]) by {
        if q.members[i] != member {
            assert(pool.deposited.contains_key(pool.members[i]));
        }
    }
}

/// The router takes any positive amount of any token into escrow while the
/// escrow stays in the range of `i128`: the escrow of that pool and token
/// grows by the amount and nothing else changes. It refuses only an amount
/// that is not positive, or one that would overflow the escrow.
pub proof fn law_transfer_in_accepts(router: TokenRouterView, pool_id: Seq<u8>, token: Seq<u8>, amount: i128)
    ensures
        (amount > 0 && router.balance(pool_id, token) + amount <= i128::MAX ==> router.transfer_in_outcome(
            pool_id,
            token,
            amount,
        ) == Ok::<TokenRouterView, RouterError>(
            TokenRouterView {
                escrow: router.escrow.insert(
                    escrow_key(pool_id, token),
                    (router.balance(pool_id, token) + amount) as i128,
                ),
                ..router
            },
        )),
        amount <= 0 ==> router.transfer_in_outcome(pool_id, token, amount) == Err::<TokenRouterView, RouterError>(
            RouterError::NonPositiveAmount,
        ),
        amount > 0 && router.balance(pool_id, token) + amount > i128::MAX ==> router.transfer_in_outcome(
            pool_id,
            token,
            amount,
        ) == Err::<TokenRouterView, RouterError>(RouterError::BalanceOverflow),
{
}

/// Taking an amount in and then reading the escrow gives what was there
/// plus the amount; the escrow of every other key is as it was.
pub proof fn law_transfer_in_then_balance(
    router: TokenRouterView,
    pool_id: Seq<u8>,
    token: Seq<u8>,
    amount: i128,
    other: Seq<u8>,
)
    requires
        amount > 0,
        router.balance(pool_id, token) + amount <= i128::MAX,
    ensures
        router.transfer_in_outcome(pool_id, token, amount)->Ok_0.escrow[escrow_key(pool_id, token)]
            == router.balance(pool_id, token) + amount,
        other != escrow_key(pool_id, token) ==> router.transfer_in_outcome(pool_id, token, amount)->Ok_0.escrow.contains_key(
            other,
        ) == router.escrow.contains_key(other) && (router.escrow.contains_key(other) ==> router.transfer_in_outcome(
            pool_id,
            token,
            amount,
        )->Ok_0.escrow[other] == router.escrow[other]),
{
}

/// The settlement contract, as configured, releases any positive amount of
/// any token that the escrow holds: the escrow shrinks by the amount.
pub proof fn law_release_accepts(
    router: TokenRouterView,
    caller: Seq<u8>,
    pool_id: Seq<u8>,
    token: Seq<u8>,
    amount: i128,
)
    requires
        router.callers is Some,
        router.callers->0.settlement == caller,
        amount > 0,
        router.balance(pool_id, token) >= amount,
    ensures
        (router.release_outcome(caller, pool_id, token, amount) == Ok::<TokenRouterView, RouterError>(
            TokenRouterView {
                escrow: router.escrow.insert(
                    escrow_key(pool_id, token),
                    (router.balance(pool_id, token) - amount) as i128,
                ),
                ..router
            },
        )),
{
}

/// The settlement contract or the pool contract, as configured, refunds any
/// positive amount of any token that the escrow holds: the escrow shrinks by
/// the amount.
pub proof fn law_refund_accepts(
    router: TokenRouterView,
    caller: Seq<u8>,
    pool_id: Seq<u8>,
    token: Seq<u8>,
    amount: i128,
)
    requires
        router.callers is Some,
        router.callers->0.settlement == caller || router.callers->0.split_pool == caller,
        amount > 0,
        router.balance(pool_id, token) >= amount,
    ensures
        (router.refund_outcome(caller, pool_id, token, amount) == Ok::<TokenRouterView, RouterError>(
            TokenRouterView {
                escrow: router.escrow.insert(
                    escrow_key(pool_id, token),
                    (router.balance(pool_id, token) - amount) as i128,
                ),
                ..router
            },
        )),
{
}

/// With members listed once each, member `i` holds share `i`.
proof fn lemma_distinct_shares(members: Seq<Seq<u8>>, shares: Seq<i128>, n: nat, i: int)
    requires
        n <= members.len(),
        members.len() == shares.len(),
        0 <= i < n,
        forall|a: int, b: int| 0 <= a < b < members.len() ==> members[a] != members[b],
    ensures
        assign_shares(members, shares, n).contains_key(members[i]),
        assign_shares(members, shares, n)[members[i]] == shares[i],
    decreases n,
{
    if i < n - 1 {
        lemma_distinct_shares(members, shares, (n - 1) as nat, i);
        assert(members[i] != members[n - 1]);
    }
}

/// With members listed once each, the total is the sum of the shares.
proof fn lemma_distinct_total(members: Seq<Seq<u8>>, shares: Seq<i128>, n: nat)
    requires
        n <= members.len(),
        members.len() == shares.len(),
        forall|a: int, b: int| 0 <= a < b < members.len() ==> members[a] != members[b],
    ensures
        share_total(members, assign_shares(members, shares, members.len()), n) == sum_shares(shares.take(n as int)),
    decreases n,
{
    if n > 0 {
        lemma_distinct_total(members, shares, (n - 1) as nat);
        assert(shares.take(n as int).drop_last() =~= shares.take(n - 1));
        if members.take(n - 1).contains(members[n - 1]) {
            let j = choose|j: int| 0 <= j < n - 1 && #[trigger] members.take(n - 1)[j] == members[n - 1];
            assert(members[j] == members[n - 1]);
        }
        lemma_distinct_shares(members, shares, members.len(), n - 1);
    }
}

/// A pool is created whatever the number of members, given members, shares
/// of the same number, an expiry in the future, positive shares and a sum
/// of shares in the range of `i128`. It holds the terms it was given, nobody
/// has deposited, and each member listed holds a share; where every member
/// is listed once, member `i` holds share `i` and the total is the sum of the
/// shares. It is refused, with the reason, where any of these fails.
pub proof fn law_pool_created(
    creator: Seq<u8>,
    members: Seq<Seq<u8>>,
    shares: Seq<i128>,
    token: Seq<u8>,
    recipient: Seq<u8>,
    expiry: u64,
    now: u64,
)
    ensures
        members.len() > 0 && members.len() == shares.len() && expiry > now && (forall|i: int|
            0 <= i < shares.len() ==> shares[i] > 0) && sum_shares(shares) <= i128::MAX ==> pool_outcome(
            creator,
            members,
            shares,
            token,
            recipient,
            expiry,
            now,
        ) is Ok,
        pool_outcome(creator, members, shares, token, recipient, expiry, now) is Ok ==> ({
            let p = pool_outcome(creator, members, shares, token, recipient, expiry, now)->Ok_0;
            &&& members.len() > 0 && members.len() == shares.len() && expiry > now
            &&& forall|i: int| 0 <= i < shares.len() ==> shares[i] > 0
            &&& p.creator == creator && p.members == members && p.token == token
            &&& p.recipient == recipient && p.expiry == expiry && !p.settled
            &&& forall|i: int|
                0 <= i < members.len() ==> #[trigger] p.shares.contains_key(members[i]) && !(
                p.deposited.contains_key(members[i]) && p.deposited[members[i]])
            &&& (forall|a: int, b: int| 0 <= a < b < members.len() ==> members[a] != members[b]) ==> (
            p.total_amount == sum_shares(shares) && forall|i: int|
                0 <= i < members.len() ==> #[trigger] p.shares[members[i]] == shares[i])
        }),
        members.len() == 0 ==> pool_outcome(creator, members, shares, token, recipient, expiry, now) == Err::<
            PoolView,
            PoolError,
        >(PoolError::NoMembers),
        members.len() > 0 && members.len() != shares.len() ==> pool_outcome(
            creator,
            members,
            shares,
            token,
            recipient,
            expiry,
            now,
        ) == Err::<PoolView, PoolError>(PoolError::LengthMismatch),
        members.len() > 0 && members.len() == shares.len() && expiry <= now ==> pool_outcome(
            creator,
            members,
            shares,
            token,
            recipient,
            expiry,
            now,
        ) == Err::<PoolView, PoolError>(PoolError::ExpiryNotInFuture),
{
    if members.len() == shares.len() {
        law_share_tally(members, shares);
    }
    if pool_outcome(creator, members, shares, token, recipient, expiry, now) is Ok {
        let p = pool_outcome(creator, members, shares, token, recipient, expiry, now)->Ok_0;
        law_new_pool_not_all_deposited(creator, members, shares, token, recipient, expiry, now);
        assert forall|i: int| 0 <= i < members.len() implies #[trigger] p.shares.contains_key(members[i]) && !(
        p.deposited.contains_key(members[i]) && p.deposited[members[i]]) by {
            assert(!p.has_deposited(p.members[i]));
        }
        if forall|a: int, b: int| 0 <= a < b < members.len() ==> members[a] != members[b] {
            let n = members.len();
            lemma_distinct_total(members, shares, n);
            assert(shares.take(n as int) =~= shares);
            assert forall|i: int| 0 <= i < members.len() implies #[trigger] p.shares[members[i]] == shares[i] by {
                lemma_distinct_shares(members, shares, n, i);
            }
        }
    }
}

/// A pool can be settled exactly while it is open and unexpired and every
/// listed member, the creator among them if listed, is recorded as having
/// deposited.
pub proof fn law_settle_check_iff(pool: PoolView, now: u64)
    ensures
        settle_check(pool, now) is Ok <==> (!pool.settled && now < pool.expiry && forall|i: int|
            0 <= i < pool.members.len() ==> #[trigger] pool.deposited.contains_key(pool.members[i])
                && pool.deposited[pool.members[i]]),
{
    law_all_deposited_iff(pool);
}

/// A member, the creator among them if listed, may claim a refund exactly
/// when the pool is open, has expired, holds a share for them and records
/// their deposit; the refund is their share.
pub proof fn law_refund_check_iff(pool: PoolView, member: Seq<u8>, now: u64)
    ensures
        (!pool.settled && now >= pool.expiry && pool.deposited.contains_key(member) && pool.deposited[member]
            && pool.shares.contains_key(member)) ==> refund_check(pool, member, now) == Ok::<i128, SettlementError>(
            pool.shares[member],
        ),
        refund_check(pool, member, now) is Ok ==> (!pool.settled && now >= pool.expiry
            && pool.deposited.contains_key(member) && pool.deposited[member] && pool.shares.contains_key(member)),
{
}

} // verus!
