use stellar_split::address::{Address, PoolId};
use stellar_split::settlement::{Settlement, SettlementError};
use soroban_sdk::{Bytes, Env};
use stellar_split::host_map::{DepositMap, ShareMap};
use stellar_split::split_pool::{next_pool_id, PoolError, PoolState, Refund, SplitPool};
use stellar_split::token_router::{credit, debit, Direction, RouterError, TokenRouter, Transfer};

fn addr(n: u8) -> Address {
    Address::new(vec![n; 32])
}

/// A router, a pool contract wired to it, and a settlement contract wired to both.
fn deploy() -> (TokenRouter, SplitPool, Settlement) {
    let mut router = TokenRouter::new();
    router.initialize(addr(1), addr(2), addr(3)).unwrap();
    router.set_callers(settlement_at(), pools_at()).unwrap();
    let mut pools = SplitPool::new();
    pools.set_token_router(addr(10)).unwrap();
    pools.set_settlement(settlement_at()).unwrap();
    let mut settlement = Settlement::new();
    settlement.initialize(pools_at(), addr(10)).unwrap();
    (router, pools, settlement)
}

/// The address of the settlement contract.
fn settlement_at() -> Address {
    addr(11)
}

/// The address of the pool contract.
fn pools_at() -> Address {
    addr(12)
}

/// A router, initialised, that lets the settlement and pool contracts pay out.
fn wired_router() -> TokenRouter {
    let mut router = TokenRouter::new();
    router.initialize(addr(1), addr(2), addr(3)).unwrap();
    router.set_callers(settlement_at(), pools_at()).unwrap();
    router
}

/// A pool of alice (500) and bob (500) in token 3, paying carol, expiring at 9999.
fn alice_bob_pool(pools: &mut SplitPool) -> PoolId {
    pools
        .create_pool(&Env::default(), addr(20), vec![addr(21), addr(22)], vec![500, 500], addr(3), addr(23), 9999, 1000, 7)
        .unwrap()
}

fn transfer(token: u8, direction: Direction, party: u8, amount: i128) -> Transfer {
    Transfer { token: addr(token), direction, party: addr(party), amount }
}

// ── Initialisation and queries ──────────────────────────────────────────────

#[test]
fn test_initialize() {
    let mut settlement = Settlement::new();
    let split_pool = addr(5);
    let token_router = addr(6);
    settlement.initialize(split_pool.clone(), token_router.clone()).unwrap();
    assert_eq!(settlement.split_pool(), split_pool);
    assert_eq!(settlement.token_router(), token_router);
}

#[test]
fn test_double_initialize_panics() {
    let mut settlement = Settlement::new();
    assert_eq!(settlement.initialize(addr(5), addr(6)), Ok(()));
    assert_eq!(settlement.initialize(addr(5), addr(6)), Err(SettlementError::AlreadyInitialized));
}

#[test]
fn test_is_ready_false_without_pool() {
    let mut router = TokenRouter::new();
    let admin = addr(1);
    router.initialize(admin.clone(), addr(2), addr(3)).unwrap();
    let router_id = addr(10);
    let pool_contract = addr(11);
    let mut pools = SplitPool::new();
    pools.set_token_router(router_id.clone()).unwrap();
    let mut settlement = Settlement::new();
    settlement.initialize(pool_contract.clone(), router_id).unwrap();
    assert_eq!(settlement.split_pool(), pool_contract);
    assert_eq!(settlement.is_ready(&pools, &[9u8; 32], 1000), Err(SettlementError::PoolNotFound));
}

#[test]
fn test_create_pool() {
    let (_router, mut pools, _settlement) = deploy();
    let creator = addr(20);
    let pool_id = pools
        .create_pool(&Env::default(),
            creator.clone(),
            vec![addr(21), addr(22)],
            vec![500_i128, 500_i128],
            addr(3),
            creator,
            9999,
            1000,
            0,
        )
        .unwrap();
    let pool = pools.get_pool(&pool_id).unwrap();
    assert_eq!(pool.total_amount, 1000);
    assert!(!pool.settled);
    assert_eq!(pool.members.len(), 2);
}

#[test]
fn test_create_pool_length_mismatch() {
    let mut pools = SplitPool::new();
    let creator = addr(20);
    let r = pools.create_pool(&Env::default(),
        creator.clone(),
        vec![addr(21)],
        vec![500_i128, 500_i128],
        addr(4),
        creator,
        9999,
        1000,
        0,
    );
    assert_eq!(r, Err(PoolError::LengthMismatch));
}

#[test]
fn test_all_deposited_false_initially() {
    let (_router, mut pools, _settlement) = deploy();
    let creator = addr(20);
    let pool_id = pools
        .create_pool(&Env::default(), creator.clone(), vec![addr(21)], vec![1000_i128], addr(3), creator, 9999, 1000, 0)
        .unwrap();
    assert_eq!(pools.all_deposited(&pool_id), Ok(false));
}

#[test]
fn lib_test_initialize() {
    let mut router = TokenRouter::new();
    let admin = addr(1);
    let xlm_sac = addr(2);
    let usdc = addr(3);
    router.initialize(admin.clone(), xlm_sac.clone(), usdc.clone()).unwrap();
    assert_eq!(router.admin(), admin);
    assert_eq!(router.xlm_sac(), xlm_sac);
    assert_eq!(router.usdc_contract(), usdc);
}

#[test]
fn lib_test_double_initialize_panics() {
    let mut router = TokenRouter::new();
    assert_eq!(router.initialize(addr(1), addr(2), addr(3)), Ok(()));
    assert_eq!(router.initialize(addr(1), addr(2), addr(3)), Err(RouterError::AlreadyInitialized));
    assert_eq!(router.admin(), addr(1));
}

#[test]
fn test_escrow_balance_default_zero() {
    let mut router = TokenRouter::new();
    router.initialize(addr(1), addr(2), addr(3)).unwrap();
    let pool_id: PoolId = [0x5a; 32];
    assert_eq!(router.escrow_balance(&pool_id, &addr(4)), 0);
}

// ── Pool creation ───────────────────────────────────────────────────────────

#[test]
fn create_pool_refusals() {
    let mut pools = SplitPool::new();
    let c = addr(20);
    assert_eq!(
        pools.create_pool(&Env::default(), c.clone(), vec![], vec![], addr(3), c.clone(), 9999, 1000, 0),
        Err(PoolError::NoMembers)
    );
    assert_eq!(
        pools.create_pool(&Env::default(), c.clone(), vec![addr(21)], vec![5], addr(3), c.clone(), 1000, 1000, 0),
        Err(PoolError::ExpiryNotInFuture)
    );
    assert_eq!(
        pools.create_pool(&Env::default(), c.clone(), vec![addr(21), addr(22)], vec![5, 0], addr(3), c.clone(), 9999, 1000, 0),
        Err(PoolError::NonPositiveShare)
    );
    assert_eq!(
        pools.create_pool(&Env::default(),
            c.clone(),
            vec![addr(21), addr(22)],
            vec![i128::MAX, 1],
            addr(3),
            c.clone(),
            9999,
            1000,
            0
        ),
        Err(PoolError::TotalOverflow)
    );
    // A repeated member's earlier share leaves the total, so this pool fits.
    assert!(pools
        .create_pool(&Env::default(), c.clone(), vec![addr(21), addr(21)], vec![i128::MAX, 1], addr(3), c.clone(), 9999, 1000, 0)
        .is_ok());
    // The overflow comes before a later share that is not positive.
    assert_eq!(
        pools.create_pool(&Env::default(),
            c.clone(),
            vec![addr(21), addr(22), addr(23)],
            vec![i128::MAX, 1, -1],
            addr(3),
            c.clone(),
            9999,
            1000,
            0
        ),
        Err(PoolError::TotalOverflow)
    );
    // Nothing was created by the refusals: the next pool gets count 1.
    let id = pools.create_pool(&Env::default(), c.clone(), vec![addr(21)], vec![5], addr(3), c, 9999, 1000, 3).unwrap();
    assert_eq!(id, next_pool_id(3, 1).unwrap().0);
}

#[test]
fn pool_ids_encode_sequence_and_count() {
    let (id, next) = next_pool_id(0x0102_0304, 0x0a0b_0c0d_0e0f_1011).unwrap();
    let mut expected = [0u8; 32];
    expected[..8].copy_from_slice(&[0, 0, 0, 0, 1, 2, 3, 4]);
    expected[8..16].copy_from_slice(&[0x0a, 0x0b, 0x0c, 0x0d, 0x0e, 0x0f, 0x10, 0x11]);
    assert_eq!(id, expected);
    assert_eq!(next, 0x0a0b_0c0d_0e0f_1012);
    assert_eq!(next_pool_id(5, u64::MAX), None);
}

#[test]
fn successive_pools_get_distinct_ids() {
    let mut pools = SplitPool::new();
    let a = alice_bob_pool(&mut pools);
    let b = alice_bob_pool(&mut pools);
    assert_ne!(a, b);
    assert_eq!(a, next_pool_id(7, 0).unwrap().0);
    assert_eq!(b, next_pool_id(7, 1).unwrap().0);
    assert!(pools.get_pool(&a).is_ok());
    assert!(pools.get_pool(&b).is_ok());
}

#[test]
fn repeated_member_takes_last_share_and_counts_once() {
    let mut pools = SplitPool::new();
    let c = addr(20);
    let id = pools
        .create_pool(&Env::default(), c.clone(), vec![addr(21), addr(22), addr(21)], vec![300, 100, 200], addr(3), c, 9999, 1000, 0)
        .unwrap();
    let pool = pools.get_pool(&id).unwrap();
    assert_eq!(pool.total_amount, 300);
    let env = pool.shares.map.env();
    assert_eq!(pool.shares.map.get(Bytes::from_slice(env, &addr(21).bytes)), Some(200));
    assert_eq!(pool.shares.map.get(Bytes::from_slice(env, &addr(22).bytes)), Some(100));
    assert_eq!(pool.shares.map.len(), 2);
    assert_eq!(pool.members.len(), 3);
}

#[test]
fn repeated_member_pool_settles_once_fully_deposited() {
    let (mut router, mut pools, settlement) = deploy();
    let c = addr(20);
    let id = pools
        .create_pool(&Env::default(), c.clone(), vec![addr(21), addr(21)], vec![100, 300], addr(3), addr(23), 9999, 1000, 0)
        .unwrap();
    let (all, t) = pools.deposit(&mut router, &id, &addr(21), 2000).unwrap();
    assert!(all);
    assert_eq!(t, transfer(3, Direction::IntoEscrow, 21, 300));
    assert_eq!(
        settlement.settle(&settlement_at(), &mut pools, &mut router, &id, 2000),
        Ok(transfer(3, Direction::OutOfEscrow, 23, 300))
    );
    assert_eq!(router.escrow_balance(&id, &addr(3)), 0);
}

#[test]
fn cancel_refunds_a_repeated_member_once() {
    let (mut router, mut pools, _settlement) = deploy();
    let c = addr(20);
    let id = pools
        .create_pool(&Env::default(), c.clone(), vec![addr(21), addr(22), addr(21)], vec![100, 200, 300], addr(3), c.clone(), 9999, 1000, 0)
        .unwrap();
    pools.deposit(&mut router, &id, &addr(21), 2000).unwrap();
    pools.deposit(&mut router, &id, &addr(22), 2000).unwrap();
    assert_eq!(router.escrow_balance(&id, &addr(3)), 500);
    let ts = pools.cancel_pool(&pools_at(), &mut router, &id, &c).unwrap();
    assert_eq!(
        ts,
        vec![transfer(3, Direction::OutOfEscrow, 21, 300), transfer(3, Direction::OutOfEscrow, 22, 200)]
    );
    assert_eq!(router.escrow_balance(&id, &addr(3)), 0);
}

// ── Deposits ────────────────────────────────────────────────────────────────

#[test]
fn deposits_then_settlement() {
    let (mut router, mut pools, settlement) = deploy();
    let id = alice_bob_pool(&mut pools);
    assert_eq!(settlement.is_ready(&pools, &id, 2000), Ok(false));

    let (all, t) = pools.deposit(&mut router, &id, &addr(21), 2000).unwrap();
    assert!(!all);
    assert_eq!(t, transfer(3, Direction::IntoEscrow, 21, 500));
    assert_eq!(router.escrow_balance(&id, &addr(3)), 500);
    assert_eq!(settlement.settle(&settlement_at(), &mut pools, &mut router, &id, 2000), Err(SettlementError::NotAllDeposited));

    let (all, t) = pools.deposit(&mut router, &id, &addr(22), 2001).unwrap();
    assert!(all);
    assert_eq!(t, transfer(3, Direction::IntoEscrow, 22, 500));
    assert_eq!(router.escrow_balance(&id, &addr(3)), 1000);
    assert_eq!(pools.all_deposited(&id), Ok(true));
    assert_eq!(settlement.is_ready(&pools, &id, 2002), Ok(true));
    assert_eq!(settlement.is_ready(&pools, &id, 9999), Ok(false));

    let t = settlement.settle(&settlement_at(), &mut pools, &mut router, &id, 2002).unwrap();
    assert_eq!(t, transfer(3, Direction::OutOfEscrow, 23, 1000));
    assert_eq!(router.escrow_balance(&id, &addr(3)), 0);
    assert!(pools.get_pool(&id).unwrap().settled);

    // A settled pool is final.
    assert_eq!(settlement.settle(&settlement_at(), &mut pools, &mut router, &id, 2003), Err(SettlementError::AlreadySettled));
    assert_eq!(pools.deposit(&mut router, &id, &addr(21), 2003), Err(PoolError::AlreadySettled));
    assert_eq!(pools.cancel_pool(&pools_at(), &mut router, &id, &addr(20)), Err(PoolError::AlreadySettled));
    assert_eq!(
        settlement.claim_refund(&settlement_at(), &mut pools, &mut router, &id, &addr(21), 10_000),
        Err(SettlementError::AlreadySettled)
    );
    assert_eq!(settlement.is_ready(&pools, &id, 2003), Ok(false));
}

#[test]
fn deposit_refusals() {
    let (mut router, mut pools, _settlement) = deploy();
    let id = alice_bob_pool(&mut pools);
    assert_eq!(pools.deposit(&mut router, &[0u8; 32], &addr(21), 2000), Err(PoolError::PoolNotFound));
    assert_eq!(pools.deposit(&mut router, &id, &addr(99), 2000), Err(PoolError::NotMember));
    assert_eq!(pools.deposit(&mut router, &id, &addr(21), 9999), Err(PoolError::PoolExpired));
    pools.deposit(&mut router, &id, &addr(21), 2000).unwrap();
    assert_eq!(pools.deposit(&mut router, &id, &addr(21), 2000), Err(PoolError::AlreadyDeposited));
    assert_eq!(router.escrow_balance(&id, &addr(3)), 500);

    // Without a router, nothing is recorded.
    let mut bare = SplitPool::new();
    let id2 = alice_bob_pool(&mut bare);
    assert_eq!(bare.deposit(&mut router, &id2, &addr(21), 2000), Err(PoolError::TokenRouterNotSet));
    assert_eq!(bare.all_deposited(&id2), Ok(false));
    assert_eq!(bare.set_token_router(addr(10)), Ok(()));
    assert_eq!(bare.set_token_router(addr(10)), Err(PoolError::TokenRouterAlreadySet));
}

#[test]
fn deposit_refused_by_router_leaves_pool_unchanged() {
    let (mut router, mut pools, _settlement) = deploy();
    let id = alice_bob_pool(&mut pools);
    // Fill the escrow so that the share no longer fits.
    router.transfer_in(addr(40), &id, addr(3), i128::MAX - 100).unwrap();
    assert_eq!(
        pools.deposit(&mut router, &id, &addr(21), 2000),
        Err(PoolError::Router(RouterError::BalanceOverflow))
    );
    assert_eq!(pools.all_deposited(&id), Ok(false));
    assert!(!pools.get_pool(&id).unwrap().has_deposited(&addr(21)));
}

// ── Cancelling ──────────────────────────────────────────────────────────────

#[test]
fn cancel_refunds_depositors() {
    let (mut router, mut pools, _settlement) = deploy();
    let id = alice_bob_pool(&mut pools);
    pools.deposit(&mut router, &id, &addr(22), 2000).unwrap();
    assert_eq!(pools.cancel_pool(&pools_at(), &mut router, &id, &addr(21)), Err(PoolError::NotCreator));
    let ts = pools.cancel_pool(&pools_at(), &mut router, &id, &addr(20)).unwrap();
    assert_eq!(ts, vec![transfer(3, Direction::OutOfEscrow, 22, 500)]);
    assert_eq!(router.escrow_balance(&id, &addr(3)), 0);
    let pool = pools.get_pool(&id).unwrap();
    assert!(pool.settled);
    assert!(!pool.has_deposited(&addr(22)));
    assert_eq!(pools.cancel_pool(&pools_at(), &mut router, &id, &addr(20)), Err(PoolError::AlreadySettled));
    assert_eq!(pools.deposit(&mut router, &id, &addr(21), 2000), Err(PoolError::AlreadySettled));
}

#[test]
fn close_refunds_a_repeated_member_once() {
    let env = Env::default();
    let key = |a: &Address| Bytes::from_slice(&env, &a.bytes);
    let mut shares = soroban_sdk::Map::new(&env);
    shares.set(key(&addr(21)), 300_i128);
    shares.set(key(&addr(22)), 200_i128);
    let mut deposited = soroban_sdk::Map::new(&env);
    deposited.set(key(&addr(21)), true);
    deposited.set(key(&addr(22)), true);
    let (shares, deposited) = (ShareMap { map: shares }, DepositMap { map: deposited });
    let mut pool = PoolState {
        creator: addr(20),
        members: vec![addr(21), addr(22), addr(21)],
        shares,
        deposited,
        token: addr(3),
        recipient: addr(23),
        total_amount: 500,
        settled: false,
        expiry: 9999,
    };
    let refunds = pool.close().unwrap();
    assert_eq!(
        refunds,
        vec![Refund { member: addr(21), amount: 300 }, Refund { member: addr(22), amount: 200 }]
    );
    assert!(pool.settled);
    assert!(!pool.has_deposited(&addr(21)));
    assert!(!pool.has_deposited(&addr(22)));
}

#[test]
fn cancel_refused_by_router_changes_nothing() {
    let (mut router, mut pools, settlement) = deploy();
    let id = alice_bob_pool(&mut pools);
    pools.deposit(&mut router, &id, &addr(21), 2000).unwrap();
    pools.deposit(&mut router, &id, &addr(22), 2000).unwrap();
    // After expiry alice claims her refund, which drains half of the escrow.
    settlement.claim_refund(&settlement_at(), &mut pools, &mut router, &id, &addr(21), 9999).unwrap();
    router.release(&settlement_at(), &id, addr(50), addr(3), 500).unwrap();
    assert_eq!(router.escrow_balance(&id, &addr(3)), 0);
    assert_eq!(
        pools.cancel_pool(&pools_at(), &mut router, &id, &addr(20)),
        Err(PoolError::Router(RouterError::InsufficientEscrow))
    );
    let pool = pools.get_pool(&id).unwrap();
    assert!(!pool.settled);
    assert!(!pool.has_deposited(&addr(21)));
    assert!(pool.has_deposited(&addr(22)));
    assert_eq!(router.escrow_balance(&id, &addr(3)), 0);
}

#[test]
fn pool_level_close_lists_refunds() {
    let (mut router, mut pools, _settlement) = deploy();
    let id = alice_bob_pool(&mut pools);
    pools.deposit(&mut router, &id, &addr(21), 2000).unwrap();
    let mut copy = SplitPool::build_pool(&Env::default(), addr(20), vec![addr(21), addr(22)], vec![500, 500], addr(3), addr(23), 9999, 1000)
        .unwrap();
    copy.record_deposit(&addr(21));
    assert_eq!(copy.check_cancel(&addr(22)), Err(PoolError::NotCreator));
    assert_eq!(copy.check_cancel(&addr(20)), Ok(()));
    let refunds = copy.close().unwrap();
    assert_eq!(refunds, vec![Refund { member: addr(21), amount: 500 }]);
    assert!(copy.settled);
    assert_eq!(copy.mark_settled(), Err(PoolError::AlreadySettled));
}

// ── Settlement and refunds ──────────────────────────────────────────────────

#[test]
fn settlement_refusals() {
    let (mut router, mut pools, settlement) = deploy();
    let id = alice_bob_pool(&mut pools);
    let fresh = Settlement::new();
    assert_eq!(fresh.settle(&settlement_at(), &mut pools, &mut router, &id, 2000), Err(SettlementError::NotInitialized));
    assert_eq!(fresh.is_ready(&pools, &id, 2000), Err(SettlementError::NotInitialized));
    assert_eq!(
        settlement.settle(&settlement_at(), &mut pools, &mut router, &[1u8; 32], 2000),
        Err(SettlementError::PoolNotFound)
    );
    pools.deposit(&mut router, &id, &addr(21), 2000).unwrap();
    pools.deposit(&mut router, &id, &addr(22), 2000).unwrap();
    assert_eq!(settlement.settle(&settlement_at(), &mut pools, &mut router, &id, 9999), Err(SettlementError::PoolExpired));
    // The escrow was drained by a direct release: settlement is refused and nothing changes.
    router.release(&settlement_at(), &id, addr(50), addr(3), 1).unwrap();
    assert_eq!(
        settlement.settle(&settlement_at(), &mut pools, &mut router, &id, 2000),
        Err(SettlementError::Router(RouterError::InsufficientEscrow))
    );
    assert!(!pools.get_pool(&id).unwrap().settled);
    assert_eq!(router.escrow_balance(&id, &addr(3)), 999);
}

#[test]
fn settlement_needs_the_configured_callers() {
    let (mut router, mut pools, settlement) = deploy();
    let id = alice_bob_pool(&mut pools);
    pools.deposit(&mut router, &id, &addr(21), 2000).unwrap();
    pools.deposit(&mut router, &id, &addr(22), 2000).unwrap();
    // Settling from any other address: the router refuses the release.
    assert_eq!(
        settlement.settle(&addr(99), &mut pools, &mut router, &id, 2000),
        Err(SettlementError::Router(RouterError::Unauthorized))
    );
    // A router that lets this address release, beside a pool contract that does not know it:
    // the pool contract refuses, and the release is undone.
    let mut other = TokenRouter::new();
    other.initialize(addr(1), addr(2), addr(3)).unwrap();
    other.set_callers(addr(98), pools_at()).unwrap();
    other.transfer_in(addr(21), &id, addr(3), 1000).unwrap();
    assert_eq!(
        settlement.settle(&addr(98), &mut pools, &mut other, &id, 2000),
        Err(SettlementError::Pool(PoolError::NotSettlement))
    );
    assert_eq!(other.escrow_balance(&id, &addr(3)), 1000);
    assert!(!pools.get_pool(&id).unwrap().settled);
    // Nobody but the settlement contract closes a pool or records a refund.
    assert_eq!(pools.mark_settled(&addr(20), &id), Err(PoolError::NotSettlement));
    assert_eq!(pools.record_refund(&addr(21), &id, &addr(21)), Err(PoolError::NotSettlement));
    assert_eq!(pools.record_refund(&settlement_at(), &id, &addr(99)), Err(PoolError::NotDeposited));
    assert_eq!(pools.mark_settled(&settlement_at(), &[0u8; 32]), Err(PoolError::PoolNotFound));
    assert_eq!(pools.set_settlement(addr(97)), Err(PoolError::SettlementAlreadySet));
    assert_eq!(pools.mark_settled(&settlement_at(), &id), Ok(()));
    assert_eq!(pools.mark_settled(&settlement_at(), &id), Err(PoolError::AlreadySettled));
}

#[test]
fn router_pays_out_only_to_configured_callers() {
    let mut router = TokenRouter::new();
    assert_eq!(router.set_callers(settlement_at(), pools_at()), Err(RouterError::NotInitialized));
    router.initialize(addr(1), addr(2), addr(3)).unwrap();
    let p: PoolId = [7u8; 32];
    router.transfer_in(addr(30), &p, addr(3), 100).unwrap();
    assert_eq!(router.release(&settlement_at(), &p, addr(31), addr(3), 10), Err(RouterError::Unauthorized));
    router.set_callers(settlement_at(), pools_at()).unwrap();
    assert_eq!(router.set_callers(addr(40), addr(41)), Err(RouterError::CallersAlreadySet));
    assert_eq!(router.release(&pools_at(), &p, addr(31), addr(3), 10), Err(RouterError::Unauthorized));
    assert_eq!(router.release(&addr(30), &p, addr(31), addr(3), 10), Err(RouterError::Unauthorized));
    assert_eq!(router.refund(&addr(30), &p, addr(30), addr(3), 10), Err(RouterError::Unauthorized));
    assert_eq!(router.escrow_balance(&p, &addr(3)), 100);
    assert_eq!(router.refund(&pools_at(), &p, addr(30), addr(3), 10), Ok(transfer(3, Direction::OutOfEscrow, 30, 10)));
    assert_eq!(router.release(&settlement_at(), &p, addr(31), addr(3), 90), Ok(transfer(3, Direction::OutOfEscrow, 31, 90)));
    assert_eq!(router.escrow_balance(&p, &addr(3)), 0);
}

#[test]
fn refund_claims() {
    let (mut router, mut pools, settlement) = deploy();
    let id = alice_bob_pool(&mut pools);
    pools.deposit(&mut router, &id, &addr(21), 2000).unwrap();
    assert_eq!(
        settlement.claim_refund(&settlement_at(), &mut pools, &mut router, &id, &addr(21), 9998),
        Err(SettlementError::NotExpired)
    );
    assert_eq!(
        settlement.claim_refund(&settlement_at(), &mut pools, &mut router, &id, &addr(22), 9999),
        Err(SettlementError::NotDeposited)
    );
    assert_eq!(
        settlement.claim_refund(&settlement_at(), &mut pools, &mut router, &[3u8; 32], &addr(21), 9999),
        Err(SettlementError::PoolNotFound)
    );
    let t = settlement.claim_refund(&settlement_at(), &mut pools, &mut router, &id, &addr(21), 9999).unwrap();
    assert_eq!(t, transfer(3, Direction::OutOfEscrow, 21, 500));
    assert_eq!(router.escrow_balance(&id, &addr(3)), 0);
    assert!(!pools.get_pool(&id).unwrap().has_deposited(&addr(21)));
    assert_eq!(
        settlement.claim_refund(&settlement_at(), &mut pools, &mut router, &id, &addr(21), 10_000),
        Err(SettlementError::NotDeposited)
    );
}

// ── The router ──────────────────────────────────────────────────────────────

#[test]
fn router_moves() {
    let mut router = wired_router();
    let p: PoolId = [7u8; 32];
    let q: PoolId = [8u8; 32];
    assert_eq!(router.transfer_in(addr(30), &p, addr(3), 0), Err(RouterError::NonPositiveAmount));
    assert_eq!(router.transfer_in(addr(30), &p, addr(3), -5), Err(RouterError::NonPositiveAmount));
    assert_eq!(router.transfer_in(addr(30), &p, addr(3), 250), Ok(transfer(3, Direction::IntoEscrow, 30, 250)));
    assert_eq!(router.transfer_in(addr(30), &q, addr(3), 40), Ok(transfer(3, Direction::IntoEscrow, 30, 40)));
    assert_eq!(router.transfer_in(addr(30), &p, addr(4), 7), Ok(transfer(4, Direction::IntoEscrow, 30, 7)));
    assert_eq!(router.escrow_balance(&p, &addr(3)), 250);
    assert_eq!(router.escrow_balance(&q, &addr(3)), 40);
    assert_eq!(router.escrow_balance(&p, &addr(4)), 7);
    assert_eq!(router.release(&settlement_at(), &p, addr(31), addr(3), 251), Err(RouterError::InsufficientEscrow));
    assert_eq!(router.release(&settlement_at(), &p, addr(31), addr(3), 0), Err(RouterError::NonPositiveAmount));
    assert_eq!(router.refund(&settlement_at(), &p, addr(30), addr(3), 50), Ok(transfer(3, Direction::OutOfEscrow, 30, 50)));
    assert_eq!(router.release(&settlement_at(), &p, addr(31), addr(3), 200), Ok(transfer(3, Direction::OutOfEscrow, 31, 200)));
    assert_eq!(router.escrow_balance(&p, &addr(3)), 0);
    assert_eq!(router.escrow_balance(&q, &addr(3)), 40);
    assert_eq!(router.escrow_balance(&p, &addr(4)), 7);
    assert_eq!(router.transfer_in(addr(30), &q, addr(3), i128::MAX - 40), Ok(transfer(3, Direction::IntoEscrow, 30, i128::MAX - 40)));
    assert_eq!(router.transfer_in(addr(30), &q, addr(3), 1), Err(RouterError::BalanceOverflow));
    assert_eq!(router.escrow_balance(&q, &addr(3)), i128::MAX);
}

#[test]
fn release_undoes_transfer_in() {
    let mut router = wired_router();
    let p: PoolId = [7u8; 32];
    router.transfer_in(addr(30), &p, addr(3), 90).unwrap();
    router.transfer_in(addr(31), &p, addr(3), 10).unwrap();
    router.refund(&settlement_at(), &p, addr(31), addr(3), 10).unwrap();
    assert_eq!(router.escrow_balance(&p, &addr(3)), 90);
}

#[test]
fn addresses_compare_by_bytes() {
    assert!(addr(1).same_as(&Address::new(vec![1; 32])));
    assert!(!addr(1).same_as(&addr(2)));
    assert!(!Address::new(vec![1, 2]).same_as(&Address::new(vec![1, 2, 3])));
}

#[test]
fn each_member_is_refunded_once() {
    let (mut router, mut pools, settlement) = deploy();
    let id = alice_bob_pool(&mut pools);
    pools.deposit(&mut router, &id, &addr(21), 2000).unwrap();
    pools.deposit(&mut router, &id, &addr(22), 2000).unwrap();
    assert_eq!(
        settlement.claim_refund(&settlement_at(), &mut pools, &mut router, &id, &addr(21), 9999),
        Ok(transfer(3, Direction::OutOfEscrow, 21, 500))
    );
    assert_eq!(
        settlement.claim_refund(&settlement_at(), &mut pools, &mut router, &id, &addr(21), 9999),
        Err(SettlementError::NotDeposited)
    );
    assert_eq!(router.escrow_balance(&id, &addr(3)), 500);
    assert_eq!(
        settlement.claim_refund(&settlement_at(), &mut pools, &mut router, &id, &addr(22), 10_000),
        Ok(transfer(3, Direction::OutOfEscrow, 22, 500))
    );
    assert_eq!(router.escrow_balance(&id, &addr(3)), 0);
    assert_eq!(pools.deposit(&mut router, &id, &addr(21), 10_000), Err(PoolError::PoolExpired));
}

#[test]
fn settle_and_refund_never_both_allowed() {
    let mut pool = SplitPool::build_pool(&Env::default(), addr(20), vec![addr(21)], vec![70], addr(3), addr(23), 5000, 1000).unwrap();
    pool.record_deposit(&addr(21));
    assert_eq!(Settlement::check_settle(&pool, 4999), Ok(()));
    assert!(Settlement::ready(&pool, 4999));
    assert_eq!(Settlement::check_refund(&pool, &addr(21), 4999), Err(SettlementError::NotExpired));
    assert_eq!(Settlement::check_settle(&pool, 5000), Err(SettlementError::PoolExpired));
    assert!(!Settlement::ready(&pool, 5000));
    assert_eq!(Settlement::check_refund(&pool, &addr(21), 5000), Ok(70));
    assert_eq!(Settlement::check_refund(&pool, &addr(22), 5000), Err(SettlementError::NotDeposited));
    pool.mark_settled().unwrap();
    assert_eq!(Settlement::check_settle(&pool, 10), Err(SettlementError::AlreadySettled));
    assert_eq!(Settlement::check_refund(&pool, &addr(21), 6000), Err(SettlementError::AlreadySettled));
}

#[test]
fn escrow_arithmetic() {
    assert_eq!(credit(10, 5), Ok(15));
    assert_eq!(credit(10, 0), Err(RouterError::NonPositiveAmount));
    assert_eq!(credit(i128::MAX, 1), Err(RouterError::BalanceOverflow));
    assert_eq!(credit(i128::MAX - 1, 1), Ok(i128::MAX));
    assert_eq!(debit(10, 10), Ok(0));
    assert_eq!(debit(10, 11), Err(RouterError::InsufficientEscrow));
    assert_eq!(debit(10, -1), Err(RouterError::NonPositiveAmount));
}

#[test]
fn pool_check_deposit_answers() {
    let mut pool = SplitPool::build_pool(&Env::default(), addr(20), vec![addr(21), addr(22)], vec![5, 6], addr(3), addr(23), 5000, 1000)
        .unwrap();
    assert_eq!(pool.total_amount, 11);
    assert_eq!(pool.check_deposit(&addr(22), 1000), Ok(6));
    assert_eq!(pool.check_deposit(&addr(24), 1000), Err(PoolError::NotMember));
    assert_eq!(pool.check_deposit(&addr(22), 5000), Err(PoolError::PoolExpired));
    pool.record_deposit(&addr(22));
    assert_eq!(pool.check_deposit(&addr(22), 1000), Err(PoolError::AlreadyDeposited));
    assert!(!SplitPool::all_deposited_internal(&pool));
    pool.record_deposit(&addr(21));
    assert!(SplitPool::all_deposited_internal(&pool));
    assert_eq!(pool.mark_settled(), Ok(()));
    assert_eq!(pool.check_deposit(&addr(21), 1000), Err(PoolError::AlreadySettled));
}

#[test]
fn depositors_of_an_expired_pool_all_reclaim() {
    let (mut router, mut pools, settlement) = deploy();
    let first = alice_bob_pool(&mut pools);
    let second = pools
        .create_pool(&Env::default(), addr(30), vec![addr(21), addr(31), addr(32)], vec![100, 200, 300], addr(3), addr(33), 5000, 1000, 8)
        .unwrap();
    assert_ne!(first, second);
    pools.deposit(&mut router, &first, &addr(21), 2000).unwrap();
    pools.deposit(&mut router, &second, &addr(21), 2000).unwrap();
    pools.deposit(&mut router, &second, &addr(31), 2100).unwrap();
    pools.deposit(&mut router, &first, &addr(22), 2200).unwrap();
    assert_eq!(router.escrow_balance(&first, &addr(3)), 1000);
    assert_eq!(router.escrow_balance(&second, &addr(3)), 300);

    // Settling the first pool leaves the escrow of the second untouched.
    settlement.settle(&settlement_at(), &mut pools, &mut router, &first, 2300).unwrap();
    assert_eq!(router.escrow_balance(&first, &addr(3)), 0);
    assert_eq!(router.escrow_balance(&second, &addr(3)), 300);

    // The second expires with one member short: each depositor reclaims once.
    assert_eq!(
        settlement.claim_refund(&settlement_at(), &mut pools, &mut router, &second, &addr(31), 5000),
        Ok(transfer(3, Direction::OutOfEscrow, 31, 200))
    );
    assert_eq!(
        settlement.claim_refund(&settlement_at(), &mut pools, &mut router, &second, &addr(21), 6000),
        Ok(transfer(3, Direction::OutOfEscrow, 21, 100))
    );
    assert_eq!(
        settlement.claim_refund(&settlement_at(), &mut pools, &mut router, &second, &addr(32), 6000),
        Err(SettlementError::NotDeposited)
    );
    assert_eq!(router.escrow_balance(&second, &addr(3)), 0);
    assert_eq!(
        settlement.claim_refund(&settlement_at(), &mut pools, &mut router, &first, &addr(21), 10_000),
        Err(SettlementError::AlreadySettled)
    );
}

#[test]
fn cancelled_pool_keeps_other_escrow() {
    let (mut router, mut pools, _settlement) = deploy();
    let first = alice_bob_pool(&mut pools);
    let second = pools
        .create_pool(&Env::default(), addr(30), vec![addr(31)], vec![40], addr(3), addr(33), 5000, 1000, 8)
        .unwrap();
    pools.deposit(&mut router, &first, &addr(21), 2000).unwrap();
    pools.deposit(&mut router, &second, &addr(31), 2000).unwrap();
    let ts = pools.cancel_pool(&pools_at(), &mut router, &first, &addr(20)).unwrap();
    assert_eq!(ts, vec![transfer(3, Direction::OutOfEscrow, 21, 500)]);
    assert_eq!(router.escrow_balance(&first, &addr(3)), 0);
    assert_eq!(router.escrow_balance(&second, &addr(3)), 40);
}

#[test]
fn restored_escrow_is_paid_out() {
    let mut router = wired_router();
    let id = [4u8; 32];
    router.restore_escrow(&id, &addr(3), 700);
    assert_eq!(router.escrow_balance(&id, &addr(3)), 700);
    assert_eq!(router.escrow_balance(&[5u8; 32], &addr(3)), 0);
    assert_eq!(
        router.release(&settlement_at(), &id, addr(23), addr(3), 700),
        Ok(transfer(3, Direction::OutOfEscrow, 23, 700))
    );
    assert_eq!(router.escrow_balance(&id, &addr(3)), 0);
}

#[test]
fn pool_level_deposit_and_cancel() {
    let mut pool = SplitPool::build_pool(&Env::default(), addr(20), vec![addr(21), addr(22)], vec![30, 50], addr(3), addr(23), 5000, 1000).unwrap();
    assert_eq!(pool.deposit(&addr(21), 4999), Ok(30));
    assert!(pool.has_deposited(&addr(21)));
    assert_eq!(pool.deposit(&addr(21), 4999), Err(PoolError::AlreadyDeposited));
    assert_eq!(pool.deposit(&addr(24), 4999), Err(PoolError::NotMember));
    assert_eq!(pool.deposit(&addr(22), 5000), Err(PoolError::PoolExpired));
    assert!(!pool.has_deposited(&addr(22)));
    assert!(matches!(pool.cancel(&addr(21)), Err(PoolError::NotCreator)));
    let refunds = pool.cancel(&addr(20)).unwrap();
    assert_eq!(refunds.len(), 1);
    assert_eq!(refunds[0].member, addr(21));
    assert_eq!(refunds[0].amount, 30);
    assert!(pool.settled);
    assert!(!pool.has_deposited(&addr(21)));
    assert!(matches!(pool.cancel(&addr(20)), Err(PoolError::AlreadySettled)));
}
