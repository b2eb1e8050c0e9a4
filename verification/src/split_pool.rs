use vstd::prelude::*;

use crate::address::{copy_bytes, Address, PoolId};
use crate::bytes_map::BytesMap;
use crate::host_map::{DepositMap, ShareMap};
use crate::token_router::{
    refunds_outcome, lemma_refunds_err_persists, Direction, RouterError, TokenRouter, TokenRouterView,
    Transfer, TransferView,
};

verus! {

/// Why a pool operation was refused.
#[derive(Debug, Clone, Copy, PartialEq, Eq)]
pub enum PoolError {
    /// The token router was already set.
    TokenRouterAlreadySet,
    /// The token router was never set.
    TokenRouterNotSet,
    /// A pool needs at least one member.
    NoMembers,
    /// `members` and `shares` differ in length.
    LengthMismatch,
    /// The expiry is not later than the current ledger time.
    ExpiryNotInFuture,
    /// A share is zero or negative.
    NonPositiveShare,
    /// The shares add up to more than the largest `i128`.
    TotalOverflow,
    /// Every pool identifier the counter can give has been given.
    PoolIdsExhausted,
    /// No pool has this identifier.
    PoolNotFound,
    /// The pool was settled or cancelled.
    AlreadySettled,
    /// The pool's expiry has passed.
    PoolExpired,
    /// The member has already deposited their share.
    AlreadyDeposited,
    /// The address holds no share in the pool.
    NotMember,
    /// Only the pool's creator may cancel it.
    NotCreator,
    /// The settlement contract was already set.
    SettlementAlreadySet,
    /// The caller is not the settlement contract.
    NotSettlement,
    /// The member has no deposit recorded in the pool.
    NotDeposited,
    /// The token router refused the transfer.
    Router(RouterError),
}

/// The state of one payment pool.
pub struct PoolState {
    pub creator: Address,
    pub members: Vec<Address>,
    pub shares: ShareMap,
    pub deposited: DepositMap,
    pub token: Address,
    pub recipient: Address,
    pub total_amount: i128,
    pub settled: bool,
    pub expiry: u64,
}

/// What a `PoolState` stands for: addresses as their bytes.
pub struct PoolView {
    pub creator: Seq<u8>,
    pub members: Seq<Seq<u8>>,
    pub shares: Map<Seq<u8>, i128>,
    pub deposited: Map<Seq<u8>, bool>,
    pub token: Seq<u8>,
    pub recipient: Seq<u8>,
    pub total_amount: i128,
    pub settled: bool,
    pub expiry: u64,
}

/// The bytes of each address in `s`.
pub open spec fn address_views(s: Seq<Address>) -> Seq<Seq<u8>> {
    s.map_values(|a: Address| a@)
}

impl View for PoolState {
    type V = PoolView;

    open spec fn view(&self) -> PoolView {
        PoolView {
            creator: self.creator@,
            members: address_views(self.members@),
            shares: self.shares@,
            deposited: self.deposited@,
            token: self.token@,
            recipient: self.recipient@,
            total_amount: self.total_amount,
            settled: self.settled,
            expiry: self.expiry,
        }
    }
}

/// A deposit to give back when a pool is cancelled.
#[derive(Debug, PartialEq, Eq)]
pub struct Refund {
    pub member: Address,
    pub amount: i128,
}

impl View for Refund {
    type V = (Seq<u8>, i128);

    open spec fn view(&self) -> (Seq<u8>, i128) {
        (self.member@, self.amount)
    }
}

/// The sum of `shares`.
pub open spec fn sum_shares(shares: Seq<i128>) -> int
    decreases shares.len(),
{
    if shares.len() == 0 {
        0
    } else {
        sum_shares(shares.drop_last()) + shares.last()
    }
}

/// The running total of the first `n` members' shares, taken in order: a
/// member listed again replaces their earlier share in the total. Refuses a
/// share that is not positive and a total that leaves the range of `i128`.
pub open spec fn share_tally(members: Seq<Seq<u8>>, shares: Seq<i128>, n: nat) -> Result<int, PoolError>
    decreases n,
{
    if n == 0 {
        Ok(0)
    } else {
        match share_tally(members, shares, (n - 1) as nat) {
            Err(e) => Err(e),
            Ok(t) => {
                let assigned = assign_shares(members, shares, (n - 1) as nat);
                let m = members[n - 1];
                let s = shares[n - 1];
                let base = if assigned.contains_key(m) {
                    t - assigned[m]
                } else {
                    t
                };
                if s <= 0 {
                    Err(PoolError::NonPositiveShare)
                } else if base + s > i128::MAX {
                    Err(PoolError::TotalOverflow)
                } else {
                    Ok(base + s)
                }
            },
        }
    }
}

/// The shares of the first `n` members: each member's share is the one given
/// at their last occurrence among them.
pub open spec fn assign_shares(members: Seq<Seq<u8>>, shares: Seq<i128>, n: nat) -> Map<Seq<u8>, i128>
    decreases n,
{
    if n == 0 {
        Map::empty()
    } else {
        assign_shares(members, shares, (n - 1) as nat).insert(members[n - 1], shares[n - 1])
    }
}

/// Each of the first `n` members, recorded as not having deposited.
pub open spec fn none_deposited(members: Seq<Seq<u8>>, n: nat) -> Map<Seq<u8>, bool>
    decreases n,
{
    if n == 0 {
        Map::empty()
    } else {
        none_deposited(members, (n - 1) as nat).insert(members[n - 1], false)
    }
}

/// The shares of the first `n` members, each member counted once, at their
/// first occurrence.
pub open spec fn share_total(members: Seq<Seq<u8>>, shares: Map<Seq<u8>, i128>, n: nat) -> int
    decreases n,
{
    if n == 0 {
        0
    } else {
        share_total(members, shares, (n - 1) as nat) + if members.take(n - 1).contains(members[n - 1]) {
            0
        } else {
            shares[members[n - 1]] as int
        }
    }
}

/// The pool that `create_pool` builds from its arguments, or why it refuses.
pub open spec fn pool_outcome(
    creator: Seq<u8>,
    members: Seq<Seq<u8>>,
    shares: Seq<i128>,
    token: Seq<u8>,
    recipient: Seq<u8>,
    expiry: u64,
    now: u64,
) -> Result<PoolView, PoolError> {
    if members.len() == 0 {
        Err(PoolError::NoMembers)
    } else if members.len() != shares.len() {
        Err(PoolError::LengthMismatch)
    } else if expiry <= now {
        Err(PoolError::ExpiryNotInFuture)
    } else {
        match share_tally(members, shares, members.len()) {
            Err(e) => Err(e),
            Ok(t) => Ok(
                PoolView {
                    creator,
                    members,
                    shares: assign_shares(members, shares, members.len()),
                    deposited: none_deposited(members, members.len()),
                    token,
                    recipient,
                    total_amount: t as i128,
                    settled: false,
                    expiry,
                },
            ),
        }
    }
}

/// The refunds owed by cancelling `pool`, among its first `n` members: one
/// per member who has deposited, at their first occurrence, of their share.
pub open spec fn cancel_refunds(pool: PoolView, n: nat) -> Seq<(Seq<u8>, i128)>
    decreases n,
{
    if n == 0 {
        Seq::empty()
    } else {
        let prev = cancel_refunds(pool, (n - 1) as nat);
        let m = pool.members[n - 1];
        if pool.has_deposited(m) && !pool.members.take(n - 1).contains(m) {
            prev.push((m, pool.shares[m]))
        } else {
            prev
        }
    }
}

impl PoolView {
    /// Whether `member` is recorded as having deposited.
    pub open spec fn has_deposited(self, member: Seq<u8>) -> bool {
        self.deposited.contains_key(member) && self.deposited[member]
    }

    /// Whether every member is recorded as having deposited.
    pub open spec fn all_deposited(self) -> bool {
        forall|i: int| 0 <= i < self.members.len() ==> self.has_deposited(#[trigger] self.members[i])
    }

    /// The share that `member` deposits at time `now`, or why they may not.
    pub open spec fn deposit_outcome(self, member: Seq<u8>, now: u64) -> Result<i128, PoolError> {
        if self.settled {
            Err(PoolError::AlreadySettled)
        } else if now >= self.expiry {
            Err(PoolError::PoolExpired)
        } else if self.has_deposited(member) {
            Err(PoolError::AlreadyDeposited)
        } else if !self.shares.contains_key(member) {
            Err(PoolError::NotMember)
        } else {
            Ok(self.shares[member])
        }
    }

    /// The pool with `member` recorded as having deposited.
    pub open spec fn with_deposit(self, member: Seq<u8>) -> Self {
        PoolView { deposited: self.deposited.insert(member, true), ..self }
    }

    /// The pool with `member` recorded as not having deposited, once refunded.
    pub open spec fn with_refund(self, member: Seq<u8>) -> Self {
        PoolView { deposited: self.deposited.insert(member, false), ..self }
    }

    /// The members are exactly the shareholders, every share is positive, the
    /// total is the sum of the shares of the members, each counted once, and
    /// deposits are recorded for exactly the shareholders.
    pub open spec fn wf(self) -> bool {
        &&& forall|k: Seq<u8>| #[trigger] self.shares.contains_key(k) <==> self.members.contains(k)
        &&& forall|k: Seq<u8>| #[trigger] self.shares.contains_key(k) ==> self.shares[k] > 0
        &&& self.total_amount > 0
        &&& self.total_amount == share_total(self.members, self.shares, self.members.len())
        &&& self.deposited.dom() == self.shares.dom()
    }

    /// Whether `creator` may cancel the pool.
    pub open spec fn cancel_check(self, creator: Seq<u8>) -> Result<(), PoolError> {
        if creator != self.creator {
            Err(PoolError::NotCreator)
        } else if self.settled {
            Err(PoolError::AlreadySettled)
        } else {
            Ok(())
        }
    }

    /// Whether some member who has deposited holds no share.
    pub open spec fn missing_share(self) -> bool {
        exists|i: int|
            0 <= i < self.members.len() && self.has_deposited(#[trigger] self.members[i])
                && !self.shares.contains_key(self.members[i])
    }

    /// The refunds that cancelling the pool pays, in the order of the members.
    pub open spec fn refunds_due(self) -> Seq<(Seq<u8>, i128)> {
        cancel_refunds(self, self.members.len())
    }

    /// The pool once cancelled: no member recorded as having deposited, and
    /// closed to further deposits.
    pub open spec fn cancelled(self) -> Self {
        PoolView {
            deposited: Map::new(
                |k: Seq<u8>| self.deposited.contains_key(k),
                |k: Seq<u8>| self.deposited[k] && !self.members.contains(k),
            ),
            settled: true,
            ..self
        }
    }

    /// Whether `other` has the same terms: everything but the deposits and
    /// whether the pool is closed.
    pub open spec fn same_terms(self, other: Self) -> bool {
        &&& self.creator == other.creator
        &&& self.members == other.members
        &&& self.shares == other.shares
        &&& self.token == other.token
        &&& self.recipient == other.recipient
        &&& self.total_amount == other.total_amount
        &&& self.expiry == other.expiry
    }
}

/// Once the running total fails, it fails the same way for every longer
/// prefix of the members.
proof fn lemma_tally_err_persists(members: Seq<Seq<u8>>, shares: Seq<i128>, k: nat, n: nat)
    requires
        k <= n,
        share_tally(members, shares, k) is Err,
    ensures
        share_tally(members, shares, n) == share_tally(members, shares, k),
    decreases n - k,
{
    if n > k {
        lemma_tally_err_persists(members, shares, k, (n - 1) as nat);
    }
}

impl PoolState {
    /// Whether `member` is recorded as having deposited.
    pub fn has_deposited(&self, member: &Address) -> (r: bool)
        ensures
            r == self@.has_deposited(member@),
    {
        match self.deposited.get(member.bytes.as_slice()) {
            Some(d) => d,
            None => false,
        }
    }

    /// The share that `member` deposits at time `now`, or why they may not.
    pub fn check_deposit(&self, member: &Address, now: u64) -> (r: Result<i128, PoolError>)
        ensures
            r == self@.deposit_outcome(member@, now),
    {
        if self.settled {
            return Err(PoolError::AlreadySettled);
        }
        if now >= self.expiry {
            return Err(PoolError::PoolExpired);
        }
        if self.has_deposited(member) {
            return Err(PoolError::AlreadyDeposited);
        }
        match self.shares.get(member.bytes.as_slice()) {
            Some(s) => Ok(s),
            None => Err(PoolError::NotMember),
        }
    }

    /// Records that `member` has deposited.
    pub fn record_deposit(&mut self, member: &Address)
        ensures
            final(self)@ == old(self)@.with_deposit(member@),
    {
        self.deposited.set(member.bytes.as_slice(), true);
    }

    /// Takes the deposit of `member` at time `now`: hands back their share
    /// and records that they have deposited, or says why they may not.
    pub fn deposit(&mut self, member: &Address, now: u64) -> (r: Result<i128, PoolError>)
        ensures
            r == old(self)@.deposit_outcome(member@, now),
            r is Ok ==> final(self)@ == old(self)@.with_deposit(member@),
            r is Err ==> final(self)@ == old(self)@,
    {
        let share = match self.check_deposit(member, now) {
            Ok(s) => s,
            Err(e) => {
                return Err(e);
            },
        };
        self.record_deposit(member);
        Ok(share)
    }

    /// Records that `member`, who had deposited, was refunded.
    pub fn record_refund(&mut self, member: &Address) -> (r: Result<(), PoolError>)
        ensures
            !old(self)@.has_deposited(member@) ==> r == Err::<(), PoolError>(PoolError::NotDeposited)
                && final(self)@ == old(self)@,
            old(self)@.has_deposited(member@) ==> r is Ok && final(self)@ == old(self)@.with_refund(
                member@,
            ),
    {
        if !self.has_deposited(member) {
            return Err(PoolError::NotDeposited);
        }
        self.deposited.set(member.bytes.as_slice(), false);
        Ok(())
    }

    /// A copy of the pool, to work on without touching the original.
    pub(crate) fn snapshot(&self) -> (r: Self)
        ensures
            r@ == self@,
    {
        let n = self.members.len();
        let mut members: Vec<Address> = Vec::new();
        let mut i: usize = 0;
        while i < n
            invariant
                n == self.members@.len(),
                i <= n,
                members@.len() == i,
                forall|j: int| 0 <= j < i ==> (#[trigger] members@[j])@ == self.members@[j]@,
            decreases n - i,
        {
            members.push(self.members[i].clone());
            i += 1;
        }
        assert(address_views(members@) =~= address_views(self.members@));
        PoolState {
            creator: self.creator.clone(),
            members,
            shares: self.shares.copy(),
            deposited: self.deposited.copy(),
            token: self.token.clone(),
            recipient: self.recipient.clone(),
            total_amount: self.total_amount,
            settled: self.settled,
            expiry: self.expiry,
        }
    }

    /// Whether `creator` may cancel the pool.
    pub fn check_cancel(&self, creator: &Address) -> (r: Result<(), PoolError>)
        ensures
            r == self@.cancel_check(creator@),
    {
        if !self.creator.same_as(creator) {
            return Err(PoolError::NotCreator);
        }
        if self.settled {
            return Err(PoolError::AlreadySettled);
        }
        Ok(())
    }

    /// Cancels the pool at the request of `creator`, who must have created
    /// it, while it is open: hands back the refunds to pay, as `close` does.
    pub fn cancel(&mut self, creator: &Address) -> (r: Result<Vec<Refund>, PoolError>)
        ensures
            old(self)@.cancel_check(creator@) matches Err(e) ==> r == Err::<Vec<Refund>, PoolError>(e)
                && final(self)@ == old(self)@,
            old(self)@.cancel_check(creator@) is Ok && old(self)@.missing_share() ==> r == Err::<
                Vec<Refund>,
                PoolError,
            >(PoolError::NotMember) && final(self)@ == old(self)@,
            old(self)@.cancel_check(creator@) is Ok && !old(self)@.missing_share() ==> (r matches Ok(refunds)
                && final(self)@ == old(self)@.cancelled() && refunds@.map_values(|f: Refund| f@) == old(
                self,
            )@.refunds_due()),
    {
        match self.check_cancel(creator) {
            Ok(_) => self.close(),
            Err(e) => Err(e),
        }
    }

    /// Marks the pool settled, once.
    pub fn mark_settled(&mut self) -> (r: Result<(), PoolError>)
        ensures
            old(self)@.settled ==> r == Err::<(), PoolError>(PoolError::AlreadySettled) && final(self)@
                == old(self)@,
            !old(self)@.settled ==> r is Ok && final(self)@ == (PoolView { settled: true, ..old(self)@ }),
    {
        if self.settled {
            return Err(PoolError::AlreadySettled);
        }
        self.settled = true;
        Ok(())
    }

    /// Cancels the pool: every member who has deposited is recorded as not
    /// having deposited, and the pool is closed. Hands back the refunds to
    /// pay, in the order of the members; refuses where a member who has
    /// deposited holds no share.
    pub fn close(&mut self) -> (r: Result<Vec<Refund>, PoolError>)
        ensures
            old(self)@.missing_share() ==> r == Err::<Vec<Refund>, PoolError>(PoolError::NotMember)
                && final(self)@ == old(self)@,
            !old(self)@.missing_share() ==> (r matches Ok(refunds) && final(self)@ == old(self)@.cancelled() && refunds@.map_values(|f: Refund| f@) == old(self)@.refunds_due()),
    {
        let ghost p = self@;
        let n = self.members.len();
        let mut i: usize = 0;
        while i < n
            invariant
                self@ == p,
                n == p.members.len(),
                i <= n,
                forall|j: int|
                    0 <= j < i ==> !(p.has_deposited(#[trigger] p.members[j]) && !p.shares.contains_key(
                        p.members[j],
                    )),
            decreases n - i,
        {
            if self.has_deposited(&self.members[i]) && !self.shares.contains_key(
                self.members[i].bytes.as_slice(),
            ) {
                assert(p.has_deposited(p.members[i as int]) && !p.shares.contains_key(p.members[i as int]));
                return Err(PoolError::NotMember);
            }
            i += 1;
        }
        let mut refunds: Vec<Refund> = Vec::new();
        let mut i: usize = 0;
        while i < n
            invariant
                n == p.members.len(),
                i <= n,
                !p.missing_share(),
                self@.same_terms(p),
                self@.settled == p.settled,
                self@.deposited.dom() == p.deposited.dom(),
                forall|k: Seq<u8>| #[trigger]
                    self@.deposited.contains_key(k) ==> self@.deposited[k] == (p.deposited[k]
                        && !p.members.take(i as int).contains(k)),
                refunds@.map_values(|f: Refund| f@) == cancel_refunds(p, i as nat),
            decreases n - i,
        {
            let member = self.members[i].clone();
            let ghost m = p.members[i as int];
            assert(member@ == m);
            assert(p.members.take(i as int + 1) =~= p.members.take(i as int).push(m));
            if self.has_deposited(&member) {
                assert(p.has_deposited(m) && !p.members.take(i as int).contains(m));
                assert(p.shares.contains_key(m));
                let share = match self.shares.get(member.bytes.as_slice()) {
                    Some(s) => s,
                    None => 0,
                };
                self.deposited.set(member.bytes.as_slice(), false);
                let ghost before = refunds@;
                refunds.push(Refund { member, amount: share });
                assert(refunds@.map_values(|f: Refund| f@) =~= before.map_values(|f: Refund| f@).push(
                    (m, p.shares[m]),
                ));
            } else {
                assert(!(p.has_deposited(m) && !p.members.take(i as int).contains(m)));
            }
            assert forall|k: Seq<u8>| #[trigger]
                self@.deposited.contains_key(k) implies self@.deposited[k] == (p.deposited[k]
                && !p.members.take(i as int + 1).contains(k)) by {
                if k != m {
                    assert(p.members.take(i as int + 1).contains(k) ==> p.members.take(
                        i as int,
                    ).contains(k));
                } else {
                    assert(p.members.take(i as int + 1)[i as int] == m);
                }
            }
            i += 1;
        }
        self.settled = true;
        proof {
            assert(p.members.take(n as int) =~= p.members);
            assert(self@.deposited =~= p.cancelled().deposited);
            assert(self@.members == p.members);
        }
        Ok(refunds)
    }
}

/// The identifier byte of `x` at position `i`, counting from the most
/// significant of its eight bytes.
pub open spec fn be_byte(x: u64, i: int) -> u8 {
    ((x >> (((7 - i) * 8) as u64)) & 0xff) as u8
}

/// The identifier of the pool created as the `count`-th pool during the
/// ledger `ledger_sequence`: the sequence number as eight big-endian bytes,
/// the count as eight big-endian bytes, then sixteen zero bytes.
pub open spec fn pool_id_bytes(ledger_sequence: u32, count: u64) -> Seq<u8> {
    Seq::new(
        32,
        |i: int|
            if i < 8 {
                be_byte(ledger_sequence as u64, i)
            } else if i < 16 {
                be_byte(count, i - 8)
            } else {
                0u8
            },
    )
}

/// Eight big-endian bytes determine the number they encode.
proof fn lemma_be_bytes_injective(x: u64, y: u64)
    requires
        ((x >> 56u64) & 0xff) as u8 == ((y >> 56u64) & 0xff) as u8,
        ((x >> 48u64) & 0xff) as u8 == ((y >> 48u64) & 0xff) as u8,
        ((x >> 40u64) & 0xff) as u8 == ((y >> 40u64) & 0xff) as u8,
        ((x >> 32u64) & 0xff) as u8 == ((y >> 32u64) & 0xff) as u8,
        ((x >> 24u64) & 0xff) as u8 == ((y >> 24u64) & 0xff) as u8,
        ((x >> 16u64) & 0xff) as u8 == ((y >> 16u64) & 0xff) as u8,
        ((x >> 8u64) & 0xff) as u8 == ((y >> 8u64) & 0xff) as u8,
        ((x >> 0u64) & 0xff) as u8 == ((y >> 0u64) & 0xff) as u8,
    ensures
        x == y,
{
    assert(x == y) by (bit_vector)
        requires
            ((x >> 56u64) & 0xff) as u8 == ((y >> 56u64) & 0xff) as u8,
            ((x >> 48u64) & 0xff) as u8 == ((y >> 48u64) & 0xff) as u8,
            ((x >> 40u64) & 0xff) as u8 == ((y >> 40u64) & 0xff) as u8,
            ((x >> 32u64) & 0xff) as u8 == ((y >> 32u64) & 0xff) as u8,
            ((x >> 24u64) & 0xff) as u8 == ((y >> 24u64) & 0xff) as u8,
            ((x >> 16u64) & 0xff) as u8 == ((y >> 16u64) & 0xff) as u8,
            ((x >> 8u64) & 0xff) as u8 == ((y >> 8u64) & 0xff) as u8,
            ((x >> 0u64) & 0xff) as u8 == ((y >> 0u64) & 0xff) as u8,
    ;
}

/// Pools created with different counts get different identifiers.
pub proof fn law_pool_ids_distinct(s1: u32, c1: u64, s2: u32, c2: u64)
    requires
        c1 != c2,
    ensures
        pool_id_bytes(s1, c1) != pool_id_bytes(s2, c2),
{
    if pool_id_bytes(s1, c1) == pool_id_bytes(s2, c2) {
        let a = pool_id_bytes(s1, c1);
        let b = pool_id_bytes(s2, c2);
        assert(a[8] == b[8]);
        assert(a[9] == b[9]);
        assert(a[10] == b[10]);
        assert(a[11] == b[11]);
        assert(a[12] == b[12]);
        assert(a[13] == b[13]);
        assert(a[14] == b[14]);
        assert(a[15] == b[15]);
        lemma_be_bytes_injective(c1, c2);
    }
}

/// The identifier of the next pool, made from the ledger sequence and the
/// count of pools created before, together with the count to keep; `None`
/// once the count cannot grow.
pub fn next_pool_id(ledger_sequence: u32, count: u64) -> (r: Option<(PoolId, u64)>)
    ensures
        count == u64::MAX ==> r is None,
        count < u64::MAX ==> (r matches Some((id, next)) && id@ == pool_id_bytes(ledger_sequence, count)
            && next == count + 1),
{
    if count == u64::MAX {
        return None;
    }
    let s = ledger_sequence as u64;
    let c = count;
    let id: PoolId = [
        ((s >> 56u64) & 0xff) as u8,
        ((s >> 48u64) & 0xff) as u8,
        ((s >> 40u64) & 0xff) as u8,
        ((s >> 32u64) & 0xff) as u8,
        ((s >> 24u64) & 0xff) as u8,
        ((s >> 16u64) & 0xff) as u8,
        ((s >> 8u64) & 0xff) as u8,
        ((s >> 0u64) & 0xff) as u8,
        ((c >> 56u64) & 0xff) as u8,
        ((c >> 48u64) & 0xff) as u8,
        ((c >> 40u64) & 0xff) as u8,
        ((c >> 32u64) & 0xff) as u8,
        ((c >> 24u64) & 0xff) as u8,
        ((c >> 16u64) & 0xff) as u8,
        ((c >> 8u64) & 0xff) as u8,
        ((c >> 0u64) & 0xff) as u8,
        0u8,
        0u8,
        0u8,
        0u8,
        0u8,
        0u8,
        0u8,
        0u8,
        0u8,
        0u8,
        0u8,
        0u8,
        0u8,
        0u8,
        0u8,
        0u8,
    ];
    assert(id@ =~= pool_id_bytes(ledger_sequence, count));
    Some((id, count + 1))
}

/// The first `n` members are exactly the keys of both their shares and their
/// deposit records.
pub proof fn lemma_assigned_keys(members: Seq<Seq<u8>>, shares: Seq<i128>, n: nat)
    requires
        n <= members.len(),
    ensures
        forall|k: Seq<u8>| #[trigger] assign_shares(members, shares, n).contains_key(k) <==> members.take(
            n as int,
        ).contains(k),
        forall|k: Seq<u8>| #[trigger] none_deposited(members, n).contains_key(k) <==> members.take(
            n as int,
        ).contains(k),
        forall|k: Seq<u8>| #[trigger]
            none_deposited(members, n).contains_key(k) ==> !none_deposited(members, n)[k],
    decreases n,
{
    if n > 0 {
        let n0 = (n - 1) as nat;
        lemma_assigned_keys(members, shares, n0);
        let t = members.take(n as int);
        let t0 = members.take(n0 as int);
        assert(t =~= t0.push(members[n - 1]));
        assert(assign_shares(members, shares, n) == assign_shares(members, shares, n0).insert(
            members[n - 1],
            shares[n - 1],
        ));
        assert(none_deposited(members, n) == none_deposited(members, n0).insert(members[n - 1], false));
        assert forall|k: Seq<u8>| t.contains(k) <==> (t0.contains(k) || k == members[n - 1]) by {
            if t.contains(k) {
                let j = choose|j: int| 0 <= j < t.len() && t[j] == k;
                if j < n - 1 {
                    assert(t0[j] == k);
                }
            }
            if t0.contains(k) {
                let j = choose|j: int| 0 <= j < t0.len() && t0[j] == k;
                assert(t[j] == k);
            }
            if k == members[n - 1] {
                assert(t[n - 1] == k);
            }
        }
    }
}

/// Among the first `k` elements of `s`, `y` occurs exactly where it occurs
/// among the first `k - 1` or is the `k`-th.
pub proof fn lemma_take_contains(s: Seq<Seq<u8>>, k: int, y: Seq<u8>)
    requires
        0 < k <= s.len(),
    ensures
        s.take(k).contains(y) <==> (s.take(k - 1).contains(y) || s[k - 1] == y),
{
    let t = s.take(k);
    let t0 = s.take(k - 1);
    if t.contains(y) {
        let j = choose|j: int| 0 <= j < t.len() && t[j] == y;
        if j < k - 1 {
            assert(t0[j] == y);
        }
    }
    if t0.contains(y) {
        let j = choose|j: int| 0 <= j < t0.len() && t0[j] == y;
        assert(t[j] == y);
    }
    if s[k - 1] == y {
        assert(t[k - 1] == y);
    }
}

/// Where the first `n` shares are positive, so are the members' assigned
/// shares.
proof fn lemma_assigned_positive(members: Seq<Seq<u8>>, shares: Seq<i128>, n: nat)
    requires
        n <= members.len(),
        n <= shares.len(),
        forall|j: int| 0 <= j < n ==> shares[j] > 0,
    ensures
        forall|k: Seq<u8>| #[trigger]
            assign_shares(members, shares, n).contains_key(k) ==> assign_shares(members, shares, n)[k] > 0,
    decreases n,
{
    if n > 0 {
        lemma_assigned_positive(members, shares, (n - 1) as nat);
        assert(shares[n - 1] > 0);
        assert(assign_shares(members, shares, n) == assign_shares(members, shares, (n - 1) as nat).insert(
            members[n - 1],
            shares[n - 1],
        ));
    }
}

/// Changing one member's share changes the total by the difference, once,
/// where that member is among the first `k`.
proof fn lemma_total_update(members: Seq<Seq<u8>>, a: Map<Seq<u8>, i128>, m: Seq<u8>, v: i128, k: nat)
    requires
        k <= members.len(),
    ensures
        share_total(members, a.insert(m, v), k) == share_total(members, a, k) + if members.take(
            k as int,
        ).contains(m) {
            v - a[m]
        } else {
            0
        },
    decreases k,
{
    if k > 0 {
        lemma_total_update(members, a, m, v, (k - 1) as nat);
        lemma_take_contains(members, k as int, m);
    }
}

/// A total of positive shares of listed members is not negative, and is
/// positive where there is a member.
proof fn lemma_total_positive(members: Seq<Seq<u8>>, a: Map<Seq<u8>, i128>, k: nat)
    requires
        k <= members.len(),
        forall|j: int| 0 <= j < k ==> a.contains_key(#[trigger] members[j]) && a[members[j]] > 0,
    ensures
        share_total(members, a, k) >= 0,
        k > 0 ==> share_total(members, a, k) > 0,
    decreases k,
{
    if k > 0 {
        lemma_total_positive(members, a, (k - 1) as nat);
        if k == 1 {
            assert(members.take(0) =~= Seq::<Seq<u8>>::empty());
            assert(a[members[0]] > 0);
        }
    }
}

/// A running total that is accepted is the total of the members' assigned
/// shares, every share so far being positive.
proof fn lemma_tally_total(members: Seq<Seq<u8>>, shares: Seq<i128>, n: nat)
    requires
        n <= members.len(),
        n <= shares.len(),
        share_tally(members, shares, n) is Ok,
    ensures
        share_tally(members, shares, n)->Ok_0 == share_total(members, assign_shares(members, shares, n), n),
        forall|j: int| 0 <= j < n ==> shares[j] > 0,
    decreases n,
{
    if n > 0 {
        let n0 = (n - 1) as nat;
        lemma_tally_total(members, shares, n0);
        let a = assign_shares(members, shares, n0);
        let m = members[n - 1];
        let v = shares[n - 1];
        lemma_assigned_keys(members, shares, n0);
        lemma_total_update(members, a, m, v, n0);
        assert(assign_shares(members, shares, n) == a.insert(m, v));
    }
}

/// Where every share is positive and their sum fits in an `i128`, the running
/// total is accepted and is at most that sum.
proof fn lemma_tally_bounded(members: Seq<Seq<u8>>, shares: Seq<i128>, n: nat)
    requires
        n <= members.len(),
        n <= shares.len(),
        forall|j: int| 0 <= j < n ==> shares[j] > 0,
        sum_shares(shares.take(n as int)) <= i128::MAX,
    ensures
        share_tally(members, shares, n) is Ok,
        share_tally(members, shares, n)->Ok_0 <= sum_shares(shares.take(n as int)),
    decreases n,
{
    if n > 0 {
        let n0 = (n - 1) as nat;
        assert(shares.take(n as int).drop_last() =~= shares.take(n0 as int));
        lemma_tally_bounded(members, shares, n0);
        lemma_assigned_positive(members, shares, n0);
    }
}

/// A share that is not positive makes the running total fail.
proof fn lemma_tally_nonpositive(members: Seq<Seq<u8>>, shares: Seq<i128>, n: nat, j: int)
    requires
        0 <= j < n,
        shares[j] <= 0,
    ensures
        share_tally(members, shares, n) is Err,
    decreases n,
{
    if j < n - 1 {
        lemma_tally_nonpositive(members, shares, (n - 1) as nat, j);
    }
}

/// The running total of the shares is accepted exactly when every share is
/// positive and every running total fits in an `i128`, which holds wherever
/// the sum of all the shares fits. Once accepted, it is the sum of the
/// members' shares, each member counted once with the share given at their
/// last occurrence.
pub proof fn law_share_tally(members: Seq<Seq<u8>>, shares: Seq<i128>)
    requires
        members.len() == shares.len(),
    ensures
        share_tally(members, shares, members.len()) is Ok ==> (forall|i: int|
            0 <= i < shares.len() ==> shares[i] > 0),
        share_tally(members, shares, members.len()) is Ok ==> share_tally(
            members,
            shares,
            members.len(),
        )->Ok_0 == share_total(members, assign_shares(members, shares, members.len()), members.len()),
        (forall|i: int| 0 <= i < shares.len() ==> shares[i] > 0) && sum_shares(shares) <= i128::MAX
            ==> share_tally(members, shares, members.len()) is Ok,
        (exists|i: int| 0 <= i < shares.len() && shares[i] <= 0) ==> share_tally(
            members,
            shares,
            members.len(),
        ) is Err,
{
    let n = members.len();
    if share_tally(members, shares, n) is Ok {
        lemma_tally_total(members, shares, n);
    }
    assert(shares.take(n as int) =~= shares);
    if (forall|i: int| 0 <= i < shares.len() ==> shares[i] > 0) && sum_shares(shares) <= i128::MAX {
        lemma_tally_bounded(members, shares, n);
    }
    if exists|i: int| 0 <= i < shares.len() && shares[i] <= 0 {
        let j = choose|j: int| 0 <= j < shares.len() && shares[j] <= 0;
        lemma_tally_nonpositive(members, shares, n, j);
    }
}

/// A newly created pool is not ready: none of its members has deposited.
pub proof fn law_new_pool_not_all_deposited(
    creator: Seq<u8>,
    members: Seq<Seq<u8>>,
    shares: Seq<i128>,
    token: Seq<u8>,
    recipient: Seq<u8>,
    expiry: u64,
    now: u64,
)
    requires
        pool_outcome(creator, members, shares, token, recipient, expiry, now) is Ok,
    ensures
        ({
            let p = pool_outcome(creator, members, shares, token, recipient, expiry, now)->Ok_0;
            &&& forall|i: int| 0 <= i < p.members.len() ==> !p.has_deposited(#[trigger] p.members[i])
            &&& forall|i: int| 0 <= i < p.members.len() ==> p.shares.contains_key(#[trigger] p.members[i])
            &&& !p.all_deposited()
            &&& p.total_amount == share_total(p.members, p.shares, p.members.len())
            &&& p.total_amount > 0
        }),
{
    let p = pool_outcome(creator, members, shares, token, recipient, expiry, now)->Ok_0;
    let n = members.len();
    lemma_assigned_keys(members, shares, n);
    lemma_tally_total(members, shares, n);
    lemma_assigned_positive(members, shares, n);
    assert(members.take(n as int) =~= members);
    assert forall|i: int| 0 <= i < p.members.len() implies p.shares.contains_key(
        #[trigger] p.members[i],
    ) && !p.has_deposited(p.members[i]) by {
        assert(members.take(n as int).contains(members[i]));
    }
    assert(!p.has_deposited(p.members[0]));
    assert forall|j: int| 0 <= j < n implies p.shares.contains_key(#[trigger] members[j]) && p.shares[members[j]]
        > 0 by {
        assert(members.take(n as int).contains(members[j]));
    }
    lemma_total_positive(members, p.shares, n);
}

/// Every pool that `create_pool` builds is well formed.
pub proof fn law_created_pool_wf(
    creator: Seq<u8>,
    members: Seq<Seq<u8>>,
    shares: Seq<i128>,
    token: Seq<u8>,
    recipient: Seq<u8>,
    expiry: u64,
    now: u64,
)
    requires
        pool_outcome(creator, members, shares, token, recipient, expiry, now) is Ok,
    ensures
        pool_outcome(creator, members, shares, token, recipient, expiry, now)->Ok_0.wf(),
{
    let p = pool_outcome(creator, members, shares, token, recipient, expiry, now)->Ok_0;
    let n = members.len();
    law_new_pool_not_all_deposited(creator, members, shares, token, recipient, expiry, now);
    lemma_assigned_keys(members, shares, n);
    lemma_tally_total(members, shares, n);
    lemma_assigned_positive(members, shares, n);
    assert(members.take(n as int) =~= members);
    assert(p.deposited.dom() =~= p.shares.dom());
}

/// The pool contract: the pools created so far, each under its identifier,
/// the count of pools created, and the token router it deposits through.
pub struct SplitPool {
    token_router: Option<Address>,
    settlement: Option<Address>,
    pool_count: u64,
    pools: BytesMap<PoolState>,
}

/// What a `SplitPool` stands for.
pub struct SplitPoolView {
    pub token_router: Option<Seq<u8>>,
    pub settlement: Option<Seq<u8>>,
    pub pool_count: u64,
    pub pools: Map<Seq<u8>, PoolView>,
}

impl SplitPoolView {
    /// Every stored pool is kept under the identifier of a count below the
    /// pool count, and is well formed.
    pub open spec fn wf(self) -> bool {
        &&& forall|k: Seq<u8>| #[trigger]
            self.pools.contains_key(k) ==> exists|s: u32, c: u64|
                c < self.pool_count && k == #[trigger] pool_id_bytes(s, c)
        &&& forall|k: Seq<u8>| #[trigger] self.pools.contains_key(k) ==> self.pools[k].wf()
    }

    /// Whether `caller` is the settlement contract.
    pub open spec fn is_settlement(self, caller: Seq<u8>) -> bool {
        self.settlement == Some(caller)
    }

    /// The contract with the pool under `pool_id` replaced by `pool`.
    pub open spec fn with_pool(self, pool_id: Seq<u8>, pool: PoolView) -> Self {
        SplitPoolView { pools: self.pools.insert(pool_id, pool), ..self }
    }
}

impl View for SplitPool {
    type V = SplitPoolView;

    closed spec fn view(&self) -> SplitPoolView {
        SplitPoolView {
            token_router: match self.token_router {
                Some(a) => Some(a@),
                None => None,
            },
            settlement: match self.settlement {
                Some(a) => Some(a@),
                None => None,
            },
            pool_count: self.pool_count,
            pools: self.pools@.map_values(|p: PoolState| p@),
        }
    }
}

impl SplitPool {
    #[verifier::type_invariant]
    pub open spec fn inv(&self) -> bool {
        self@.wf()
    }

    /// Stores `pool` under the identifier `key`.
    fn store_pool(&mut self, key: &[u8], pool: PoolState)
        requires
            old(self)@.with_pool(key@, pool@).wf(),
        ensures
            final(self)@ == old(self)@.with_pool(key@, pool@),
    {
        proof {
            use_type_invariant(&*self);
        }
        let ghost old_view = self@;
        let ghost pv = pool@;
        let mut pools: BytesMap<PoolState> = BytesMap::new();
        std::mem::swap(&mut pools, &mut self.pools);
        pools.set(copy_bytes(key), pool);
        proof {
            assert(pools@.map_values(|p: PoolState| p@) =~= old_view.pools.insert(key@, pv));
        }
        self.pools = pools;
    }

    /// A freshly deployed pool contract: no router set, no pools.
    pub fn new() -> (r: Self)
        ensures
            r@.token_router is None,
            r@.settlement is None,
            r@.pool_count == 0,
            r@.pools == Map::<Seq<u8>, PoolView>::empty(),
            r@.wf(),
    {
        let r = SplitPool { token_router: None, settlement: None, pool_count: 0, pools: BytesMap::new() };
        assert(r@.pools =~= Map::<Seq<u8>, PoolView>::empty());
        r
    }

    /// Sets the token router that deposits go through; only once.
    pub fn set_token_router(&mut self, token_router: Address) -> (r: Result<(), PoolError>)
        ensures
            old(self)@.token_router is Some ==> r == Err::<(), PoolError>(
                PoolError::TokenRouterAlreadySet,
            ) && final(self)@ == old(self)@,
            old(self)@.token_router is None ==> r is Ok && final(self)@ == (SplitPoolView {
                token_router: Some(token_router@),
                ..old(self)@
            }),
    {
        proof {
            use_type_invariant(&*self);
        }
        if self.token_router.is_some() {
            return Err(PoolError::TokenRouterAlreadySet);
        }
        self.token_router = Some(token_router);
        Ok(())
    }

    /// Sets the settlement contract, the only caller that may close a pool
    /// as settled or record a refund; only once.
    pub fn set_settlement(&mut self, settlement: Address) -> (r: Result<(), PoolError>)
        ensures
            old(self)@.settlement is Some ==> r == Err::<(), PoolError>(
                PoolError::SettlementAlreadySet,
            ) && final(self)@ == old(self)@,
            old(self)@.settlement is None ==> r is Ok && final(self)@ == (SplitPoolView {
                settlement: Some(settlement@),
                ..old(self)@
            }),
    {
        proof {
            use_type_invariant(&*self);
        }
        if self.settlement.is_some() {
            return Err(PoolError::SettlementAlreadySet);
        }
        self.settlement = Some(settlement);
        Ok(())
    }

    /// Whether `caller` is the configured settlement contract.
    pub fn check_settlement_caller(settlement: &Option<Address>, caller: &Address) -> (r: Result<
        (),
        PoolError,
    >)
        ensures
            r is Ok <==> (settlement matches Some(s) && s@ == caller@),
            r is Err ==> r == Err::<(), PoolError>(PoolError::NotSettlement),
    {
        match settlement {
            Some(s) => if s.same_as(caller) {
                Ok(())
            } else {
                Err(PoolError::NotSettlement)
            },
            None => Err(PoolError::NotSettlement),
        }
    }

    /// Builds a pool from its terms at ledger time `now`, or says why not:
    /// no members, `members` and `shares` of different lengths, an expiry
    /// not in the future, a share that is not positive, or shares whose total
    /// leaves the range of `i128`. A member listed again takes the share
    /// given last, and counts once in the total.
    pub fn build_pool(
        env: &soroban_sdk::Env,
        creator: Address,
        members: Vec<Address>,
        shares: Vec<i128>,
        token: Address,
        recipient: Address,
        expiry: u64,
        now: u64,
    ) -> (r: Result<PoolState, PoolError>)
        ensures
            match pool_outcome(
                creator@,
                address_views(members@),
                shares@,
                token@,
                recipient@,
                expiry,
                now,
            ) {
                Ok(v) => r matches Ok(p) && p@ == v,
                Err(e) => r == Err::<PoolState, PoolError>(e),
            },
    {
        let ghost mv = address_views(members@);
        if members.len() == 0 {
            return Err(PoolError::NoMembers);
        }
        if members.len() != shares.len() {
            return Err(PoolError::LengthMismatch);
        }
        if expiry <= now {
            return Err(PoolError::ExpiryNotInFuture);
        }
        let n = members.len();
        let mut share_map = ShareMap::new(env);
        let mut deposited_map = DepositMap::new(env);
        let mut total: i128 = 0;
        let mut i: usize = 0;
        assert(share_map@ =~= assign_shares(mv, shares@, 0));
        assert(deposited_map@ =~= none_deposited(mv, 0));
        while i < n
            invariant
                n == members@.len(),
                n == shares@.len(),
                mv == address_views(members@),
                n > 0,
                expiry > now,
                i <= n,
                share_tally(mv, shares@, i as nat) == Ok::<int, PoolError>(total as int),
                total >= 0,
                forall|k: Seq<u8>| #[trigger] share_map@.contains_key(k) ==> share_map@[k] > 0,
                share_map@ == assign_shares(mv, shares@, i as nat),
                deposited_map@ == none_deposited(mv, i as nat),
            decreases n - i,
        {
            let share = shares[i];
            assert(members@[i as int]@ == mv[i as int]);
            if share <= 0 {
                proof {
                    lemma_tally_err_persists(mv, shares@, (i + 1) as nat, n as nat);
                }
                return Err(PoolError::NonPositiveShare);
            }
            let replaced: i128 = match share_map.get(members[i].bytes.as_slice()) {
                Some(o) => o,
                None => 0,
            };
            let base = total - replaced;
            if base > i128::MAX - share {
                proof {
                    lemma_tally_err_persists(mv, shares@, (i + 1) as nat, n as nat);
                }
                return Err(PoolError::TotalOverflow);
            }
            share_map.set(members[i].bytes.as_slice(), share);
            deposited_map.set(members[i].bytes.as_slice(), false);
            total = base + share;
            i += 1;
            proof {
                lemma_tally_total(mv, shares@, i as nat);
                lemma_assigned_positive(mv, shares@, i as nat);
                lemma_assigned_keys(mv, shares@, i as nat);
                assert forall|j: int| 0 <= j < i implies share_map@.contains_key(#[trigger] mv[j])
                    && share_map@[mv[j]] > 0 by {
                    assert(mv.take(i as int)[j] == mv[j]);
                    assert(mv.take(i as int).contains(mv[j]));
                }
                lemma_total_positive(mv, share_map@, i as nat);
            }
        }
        Ok(
            PoolState {
                creator,
                members,
                shares: share_map,
                deposited: deposited_map,
                token,
                recipient,
                total_amount: total,
                settled: false,
                expiry,
            },
        )
    }

    /// Creates a pool at ledger time `now` during ledger `ledger_sequence`,
    /// stores it under a fresh identifier, and hands the identifier back.
    pub fn create_pool(
        &mut self,
        env: &soroban_sdk::Env,
        creator: Address,
        members: Vec<Address>,
        shares: Vec<i128>,
        token: Address,
        recipient: Address,
        expiry: u64,
        now: u64,
        ledger_sequence: u32,
    ) -> (r: Result<PoolId, PoolError>)
        ensures
            final(self)@.wf(),
            match pool_outcome(
                creator@,
                address_views(members@),
                shares@,
                token@,
                recipient@,
                expiry,
                now,
            ) {
                Err(e) => r == Err::<PoolId, PoolError>(e) && final(self)@ == old(self)@,
                Ok(v) => if old(self)@.pool_count == u64::MAX {
                    r == Err::<PoolId, PoolError>(PoolError::PoolIdsExhausted) && final(self)@ == old(self)@
                } else {
                    r matches Ok(id) && id@ == pool_id_bytes(ledger_sequence, old(self)@.pool_count)
                        && !old(self)@.pools.contains_key(id@) && final(self)@ == (SplitPoolView {
                        pool_count: (old(self)@.pool_count + 1) as u64,
                        pools: old(self)@.pools.insert(id@, v),
                        ..old(self)@
                    })
                },
            },
    {
        proof {
            use_type_invariant(&*self);
        }
        let ghost old_view = self@;
        let ghost mv = address_views(members@);
        let ghost sv = shares@;
        let ghost cv = creator@;
        let ghost tv = token@;
        let ghost rv = recipient@;
        let pool = match SplitPool::build_pool(
            env,
            creator,
            members,
            shares,
            token,
            recipient,
            expiry,
            now,
        ) {
            Ok(p) => p,
            Err(e) => {
                return Err(e);
            },
        };
        let (pool_id, next) = match next_pool_id(ledger_sequence, self.pool_count) {
            Some(x) => x,
            None => {
                return Err(PoolError::PoolIdsExhausted);
            },
        };
        proof {
            let k = pool_id@;
            if old_view.pools.contains_key(k) {
                let (s, c) = choose|s: u32, c: u64|
                    c < old_view.pool_count && k == #[trigger] pool_id_bytes(s, c);
                law_pool_ids_distinct(s, c, ledger_sequence, old_view.pool_count);
            }
            law_created_pool_wf(cv, mv, sv, tv, rv, expiry, now);
        }
        self.pool_count = next;
        self.store_pool(pool_id.as_slice(), pool);
        Ok(pool_id)
    }
}

/// The token transfers that pay `refunds` out of the escrow in `token`.
pub open spec fn refund_transfers(token: Seq<u8>, refunds: Seq<(Seq<u8>, i128)>) -> Seq<TransferView> {
    refunds.map_values(
        |f: (Seq<u8>, i128)|
            TransferView { token, direction: Direction::OutOfEscrow, party: f.0, amount: f.1 },
    )
}

impl SplitPoolView {
    /// What a deposit by `member` into the pool `pool_id` at time `now` leads
    /// to: the pool contract and the router afterwards, or why it is refused.
    pub open spec fn deposit_outcome(
        self,
        router: TokenRouterView,
        pool_id: Seq<u8>,
        member: Seq<u8>,
        now: u64,
    ) -> Result<(SplitPoolView, TokenRouterView), PoolError> {
        if !self.pools.contains_key(pool_id) {
            Err(PoolError::PoolNotFound)
        } else {
            let pool = self.pools[pool_id];
            match pool.deposit_outcome(member, now) {
                Err(e) => Err(e),
                Ok(share) => if self.token_router is None {
                    Err(PoolError::TokenRouterNotSet)
                } else {
                    match router.transfer_in_outcome(pool_id, pool.token, share) {
                        Err(e) => Err(PoolError::Router(e)),
                        Ok(rv) => Ok((self.with_pool(pool_id, pool.with_deposit(member)), rv)),
                    }
                },
            }
        }
    }

    /// What cancelling the pool `pool_id` by `creator` leads to: the pool
    /// contract and the router afterwards, or why it is refused.
    pub open spec fn cancel_outcome(
        self,
        router: TokenRouterView,
        caller: Seq<u8>,
        pool_id: Seq<u8>,
        creator: Seq<u8>,
    ) -> Result<(SplitPoolView, TokenRouterView), PoolError> {
        if !self.pools.contains_key(pool_id) {
            Err(PoolError::PoolNotFound)
        } else {
            let pool = self.pools[pool_id];
            match pool.cancel_check(creator) {
                Err(e) => Err(e),
                Ok(_) => if self.token_router is None {
                    Err(PoolError::TokenRouterNotSet)
                } else {
                    match refunds_outcome(router, caller, pool_id, pool.token, pool.refunds_due()) {
                        Err(e) => Err(PoolError::Router(e)),
                        Ok(rv) => Ok((self.with_pool(pool_id, pool.cancelled()), rv)),
                    }
                },
            }
        }
    }
}

impl SplitPool {
    /// Whether every member of `pool` has deposited.
    pub fn all_deposited_internal(pool: &PoolState) -> (r: bool)
        ensures
            r == pool@.all_deposited(),
    {
        let n = pool.members.len();
        let mut i: usize = 0;
        while i < n
            invariant
                n == pool.members@.len(),
                i <= n,
                forall|j: int| 0 <= j < i ==> pool@.has_deposited(#[trigger] pool@.members[j]),
            decreases n - i,
        {
            if !pool.has_deposited(&pool.members[i]) {
                assert(!pool@.has_deposited(pool@.members[i as int]));
                return false;
            }
            i += 1;
        }
        true
    }

    /// The pool stored under `pool_id`.
    pub fn get_pool(&self, pool_id: &PoolId) -> (r: Result<&PoolState, PoolError>)
        ensures
            self@.pools.contains_key(pool_id@) ==> (r matches Ok(p) && p@ == self@.pools[pool_id@]),
            !self@.pools.contains_key(pool_id@) ==> r is Err && r->Err_0 == PoolError::PoolNotFound,
    {
        match self.pools.get(pool_id.as_slice()) {
            Some(p) => Ok(p),
            None => Err(PoolError::PoolNotFound),
        }
    }

    /// Whether every member of the pool `pool_id` has deposited.
    pub fn all_deposited(&self, pool_id: &PoolId) -> (r: Result<bool, PoolError>)
        ensures
            self@.pools.contains_key(pool_id@) ==> r == Ok::<bool, PoolError>(
                self@.pools[pool_id@].all_deposited(),
            ),
            !self@.pools.contains_key(pool_id@) ==> r == Err::<bool, PoolError>(PoolError::PoolNotFound),
    {
        match self.get_pool(pool_id) {
            Ok(p) => Ok(SplitPool::all_deposited_internal(p)),
            Err(e) => Err(e),
        }
    }

    /// Marks the pool `pool_id` settled, once, at the request of `caller`,
    /// who must be the settlement contract.
    pub fn mark_settled(&mut self, caller: &Address, pool_id: &PoolId) -> (r: Result<(), PoolError>)
        ensures
            final(self)@.wf(),
            !old(self)@.is_settlement(caller@) ==> r == Err::<(), PoolError>(PoolError::NotSettlement)
                && final(self)@ == old(self)@,
            old(self)@.is_settlement(caller@) && !old(self)@.pools.contains_key(pool_id@) ==> r == Err::<
                (),
                PoolError,
            >(PoolError::PoolNotFound) && final(self)@ == old(self)@,
            old(self)@.is_settlement(caller@) && old(self)@.pools.contains_key(pool_id@) && old(self)@.pools[pool_id@].settled ==> r == Err::<(), PoolError>(PoolError::AlreadySettled) && final(self)@ == old(self)@,
            old(self)@.is_settlement(caller@) && old(self)@.pools.contains_key(pool_id@) && !old(self)@.pools[pool_id@].settled ==> r is Ok && final(self)@ == old(self)@.with_pool(
                pool_id@,
                PoolView { settled: true, ..old(self)@.pools[pool_id@] },
            ),
    {
        proof {
            use_type_invariant(&*self);
        }
        let ghost old_view = self@;
        if let Err(e) = SplitPool::check_settlement_caller(&self.settlement, caller) {
            return Err(e);
        }
        let mut pool = match self.pools.get(pool_id.as_slice()) {
            Some(p) => p.snapshot(),
            None => {
                return Err(PoolError::PoolNotFound);
            },
        };
        let r = pool.mark_settled();
        if r.is_err() {
            return r;
        }
        proof {
            assert(old_view.pools.contains_key(pool_id@));
            let p0 = old_view.pools[pool_id@];
            assert(p0.wf());
            assert(pool@ == PoolView { settled: true, ..p0 });
            assert(pool@.wf());
            assert(old_view.with_pool(pool_id@, pool@).wf());
        }
        self.store_pool(pool_id.as_slice(), pool);
        r
    }

    /// Records that `member` was refunded from the pool `pool_id`, at the
    /// request of `caller`, who must be the settlement contract.
    pub fn record_refund(&mut self, caller: &Address, pool_id: &PoolId, member: &Address) -> (r: Result<
        (),
        PoolError,
    >)
        ensures
            final(self)@.wf(),
            !old(self)@.is_settlement(caller@) ==> r == Err::<(), PoolError>(PoolError::NotSettlement)
                && final(self)@ == old(self)@,
            old(self)@.is_settlement(caller@) && !old(self)@.pools.contains_key(pool_id@) ==> r == Err::<
                (),
                PoolError,
            >(PoolError::PoolNotFound) && final(self)@ == old(self)@,
            old(self)@.is_settlement(caller@) && old(self)@.pools.contains_key(pool_id@) && !old(self)@.pools[pool_id@].has_deposited(member@) ==> r == Err::<(), PoolError>(
                PoolError::NotDeposited,
            ) && final(self)@ == old(self)@,
            old(self)@.is_settlement(caller@) && old(self)@.pools.contains_key(pool_id@) && old(self)@.pools[pool_id@].has_deposited(member@) ==> r is Ok && final(self)@ == old(self)@.with_pool(pool_id@, old(self)@.pools[pool_id@].with_refund(member@)),
    {
        proof {
            use_type_invariant(&*self);
        }
        let ghost old_view = self@;
        if let Err(e) = SplitPool::check_settlement_caller(&self.settlement, caller) {
            return Err(e);
        }
        let mut pool = match self.pools.get(pool_id.as_slice()) {
            Some(p) => p.snapshot(),
            None => {
                return Err(PoolError::PoolNotFound);
            },
        };
        let r = pool.record_refund(member);
        if r.is_err() {
            return r;
        }
        proof {
            assert(old_view.pools.contains_key(pool_id@));
            let p0 = old_view.pools[pool_id@];
            assert(p0.wf());
            assert(p0.with_refund(member@).deposited.dom() =~= p0.deposited.dom());
            assert(pool@ == p0.with_refund(member@));
            assert(pool@.wf());
            assert(old_view.with_pool(pool_id@, pool@).wf());
        }
        self.store_pool(pool_id.as_slice(), pool);
        r
    }

    /// Records the deposit of `member` into the pool `pool_id` at ledger time
    /// `now`: the router takes the member's share into escrow. Hands back
    /// whether every member has now deposited, and the transfer to make.
    pub fn deposit(&mut self, router: &mut TokenRouter, pool_id: &PoolId, member: &Address, now: u64) -> (r:
        Result<(bool, Transfer), PoolError>)
        ensures
            final(self)@.wf(),
            final(router)@.wf(),
            match old(self)@.deposit_outcome(old(router)@, pool_id@, member@, now) {
                Err(e) => r == Err::<(bool, Transfer), PoolError>(e) && final(self)@ == old(self)@
                    && final(router)@ == old(router)@,
                Ok((sv, rv)) => r matches Ok((all, t)) && final(self)@ == sv && final(router)@ == rv
                    && all == sv.pools[pool_id@].all_deposited() && t@ == (TransferView {
                    token: old(self)@.pools[pool_id@].token,
                    direction: Direction::IntoEscrow,
                    party: member@,
                    amount: old(self)@.pools[pool_id@].shares[member@],
                }),
            },
    {
        proof {
            use_type_invariant(&*router);
        }
        proof {
            use_type_invariant(&*self);
        }
        let ghost old_view = self@;
        let mut pool = match self.pools.get(pool_id.as_slice()) {
            None => {
                return Err(PoolError::PoolNotFound);
            },
            Some(p) => p.snapshot(),
        };
        let share = match pool.deposit(member, now) {
            Ok(share) => share,
            Err(e) => {
                return Err(e);
            },
        };
        if self.token_router.is_none() {
            return Err(PoolError::TokenRouterNotSet);
        }
        let transfer = match router.transfer_in(member.clone(), pool_id, pool.token.clone(), share) {
            Ok(t) => t,
            Err(e) => {
                return Err(PoolError::Router(e));
            },
        };
        let all = SplitPool::all_deposited_internal(&pool);
        proof {
            let p0 = old_view.pools[pool_id@];
            assert(p0.with_deposit(member@).deposited.dom() =~= p0.shares.dom());
            assert(old_view.with_pool(pool_id@, pool@).wf());
        }
        self.store_pool(pool_id.as_slice(), pool);
        Ok((all, transfer))
    }

    /// Cancels the pool `pool_id` at the request of `creator`: every member
    /// who has deposited is refunded their share from escrow, and the pool is
    /// closed. The refunds are asked of the router by `self_address`, the
    /// pool contract's own address. Hands back the transfers to make, in the
    /// order of the members.
    pub fn cancel_pool(
        &mut self,
        self_address: &Address,
        router: &mut TokenRouter,
        pool_id: &PoolId,
        creator: &Address,
    ) -> (r: Result<Vec<Transfer>, PoolError>)
        ensures
            final(self)@.wf(),
            final(router)@.wf(),
            match old(self)@.cancel_outcome(old(router)@, self_address@, pool_id@, creator@) {
                Err(e) => r == Err::<Vec<Transfer>, PoolError>(e) && final(self)@ == old(self)@
                    && final(router)@ == old(router)@,
                Ok((sv, rv)) => r matches Ok(ts) && final(self)@ == sv && final(router)@ == rv
                    && ts@.map_values(|t: Transfer| t@) == refund_transfers(
                    old(self)@.pools[pool_id@].token,
                    old(self)@.pools[pool_id@].refunds_due(),
                ),
            },
    {
        proof {
            use_type_invariant(&*router);
        }
        proof {
            use_type_invariant(&*self);
        }
        let ghost old_view = self@;
        let ghost r0 = router@;
        let mut working = match self.pools.get(pool_id.as_slice()) {
            None => {
                return Err(PoolError::PoolNotFound);
            },
            Some(pool) => pool.snapshot(),
        };
        let ghost p0 = working@;
        proof {
            if p0.missing_share() {
                let i = choose|i: int|
                    0 <= i < p0.members.len() && p0.has_deposited(#[trigger] p0.members[i])
                        && !p0.shares.contains_key(p0.members[i]);
                assert(p0.deposited.contains_key(p0.members[i]));
            }
        }
        let refunds = match working.cancel(creator) {
            Ok(r) => r,
            Err(e) => {
                return Err(e);
            },
        };
        if self.token_router.is_none() {
            return Err(PoolError::TokenRouterNotSet);
        }
        let ghost due = p0.refunds_due();
        let snapshot = router.snapshot();
        let n = refunds.len();
        let mut transfers: Vec<Transfer> = Vec::new();
        let mut i: usize = 0;
        assert(due.take(0) =~= Seq::<(Seq<u8>, i128)>::empty());
        assert(transfers@.map_values(|t: Transfer| t@) =~= refund_transfers(p0.token, due.take(0)));
        while i < n
            invariant
                n == refunds@.len(),
                refunds@.map_values(|f: Refund| f@) == due,
                i <= n,
                snapshot@ == r0,
                working@.token == p0.token,
                refunds_outcome(r0, self_address@, pool_id@, p0.token, due.take(i as int)) == Ok::<
                    TokenRouterView,
                    RouterError,
                >(router@),
                router@.wf(),
                transfers@.map_values(|t: Transfer| t@) == refund_transfers(p0.token, due.take(i as int)),
                self@ == old(self)@,
                old(self)@.wf(),
                r0 == old(router)@,
                r0.wf(),
                old(self)@.pools.contains_key(pool_id@),
                old(self)@.pools[pool_id@] == p0,
                p0.cancel_check(creator@) is Ok,
                old(self)@.token_router is Some,
                due == p0.refunds_due(),
                working@ == p0.cancelled(),
            decreases n - i,
        {
            let ghost before = transfers@;
            assert(due[i as int] == refunds@[i as int]@);
            assert(due.take(i as int + 1).drop_last() =~= due.take(i as int));
            let member = refunds[i].member.clone();
            match router.refund(self_address, pool_id, member, working.token.clone(), refunds[i].amount) {
                Ok(t) => {
                    let ghost tv = t@;
                    assert(tv == (TransferView {
                        token: p0.token,
                        direction: Direction::OutOfEscrow,
                        party: due[i as int].0,
                        amount: due[i as int].1,
                    }));
                    transfers.push(t);
                    assert(transfers@.map_values(|t: Transfer| t@) =~= before.map_values(
                        |t: Transfer| t@,
                    ).push(tv));
                    assert(refund_transfers(p0.token, due.take(i as int + 1)) =~= refund_transfers(
                        p0.token,
                        due.take(i as int),
                    ).push(tv));
                },
                Err(e) => {
                    proof {
                        lemma_refunds_err_persists(r0, self_address@, pool_id@, p0.token, due, i + 1, n as int);
                        assert(due.take(n as int) =~= due);
                    }
                    *router = snapshot;
                    return Err(PoolError::Router(e));
                },
            }
            i += 1;
        }
        proof {
            assert(due.take(n as int) =~= due);
        }
        proof {
            assert(p0.cancelled().deposited.dom() =~= p0.deposited.dom());
            assert(old_view.with_pool(pool_id@, working@).wf());
        }
        self.store_pool(pool_id.as_slice(), working);
        Ok(transfers)
    }
}

} // verus!
