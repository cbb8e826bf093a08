use receipts::pool::QueryStatus;
use receipts::sender::{CommitError, PoolConfig, ReceiptBorrow, TransferPool, BORROWED_RECEIPT_LEN};
use receipts::u256::U256;

fn sign_digest(key: &[u8; 32], digest: &[u8; 32]) -> ([u8; 64], i32) {
    let mut c = [0u8; 64];
    c[..32].copy_from_slice(digest);
    c[32..].copy_from_slice(key);
    (c, 0)
}

fn tid(n: u8) -> [u8; 32] {
    [n; 32]
}

fn u(v: u128) -> U256 {
    U256::from_u128(v)
}

fn commit(pool: &mut TransferPool, fee: u128) -> Result<ReceiptBorrow, CommitError> {
    pool.commit(u(fee), 0, &sign_digest)
}

fn standard_pool() -> TransferPool {
    TransferPool::new(PoolConfig::standard())
}

#[test]
fn happy_path() {
    let mut pool = standard_pool();
    pool.add_transfer([1; 32], u(60), tid(1));
    for i in 1..=10u128 {
        let b = commit(&mut pool, i).unwrap();
        assert_eq!(b.commitment.len(), BORROWED_RECEIPT_LEN);
        pool.release(&b.commitment, QueryStatus::Success);
    }
    assert_eq!(pool.known_unlocked_fees(&tid(1)), Some(u(55)));
    assert_eq!(pool.remaining_collateral(&tid(1)), Some(u(5)));
    assert_eq!(commit(&mut pool, 6).err(), Some(CommitError::InsufficientCollateral));
}

#[test]
fn failure_returns_collateral() {
    let mut pool = standard_pool();
    pool.add_transfer([1; 32], u(10), tid(1));
    let b3 = commit(&mut pool, 3).unwrap();
    let b2 = commit(&mut pool, 2).unwrap();
    pool.release(&b3.commitment, QueryStatus::Failure);
    assert_eq!(pool.remaining_collateral(&tid(1)), Some(u(8)));
    let _b4 = commit(&mut pool, 4).unwrap();
    assert_eq!(pool.remaining_collateral(&tid(1)), Some(u(4)));
    pool.release(&b2.commitment, QueryStatus::Success);
    assert_eq!(pool.remaining_collateral(&tid(1)), Some(u(4)));
    assert_eq!(pool.known_unlocked_fees(&tid(1)), Some(u(2)));
}

#[test]
fn id_exhaustion_mid_collateral() {
    let config = PoolConfig { max_receipt_id: 3, low_receipt_capacity: 2, unknown_is_failure: true };
    let mut pool = TransferPool::new(config);
    pool.add_transfer([1; 32], u(100), tid(1));
    let borrows: Vec<ReceiptBorrow> = (0..3).map(|_| commit(&mut pool, 1).unwrap()).collect();
    assert_eq!(commit(&mut pool, 1).err(), Some(CommitError::InsufficientCollateral));
    assert_eq!(pool.remaining_collateral(&tid(1)), Some(u(97)));
    for b in &borrows {
        pool.release(&b.commitment, QueryStatus::Success);
    }
    assert_eq!(pool.known_unlocked_fees(&tid(1)), Some(u(3)));
    // With receipts cached again, ids are recycled.
    assert!(commit(&mut pool, 1).is_ok());
}

#[test]
fn uninstall_drops_pending() {
    let mut pool = standard_pool();
    pool.add_transfer([1; 32], u(10), tid(1));
    let b = commit(&mut pool, 3).unwrap();
    pool.remove_transfer(&tid(1));
    pool.release(&b.commitment, QueryStatus::Success);
    assert_eq!(pool.transfer_count(), 0);
    assert_eq!(pool.remaining_collateral(&tid(1)), None);
}

#[test]
fn selection_is_greedy_least() {
    let mut pool = standard_pool();
    for (i, c) in [4u128, 3, 1, 2, 2, 1, 3, 4].iter().enumerate() {
        pool.add_transfer([i as u8; 32], u(*c), tid(i as u8));
    }
    for fee in [2u128, 4, 3, 1, 2, 3, 1, 4] {
        assert!(commit(&mut pool, fee).is_ok(), "fee {}", fee);
    }
    assert_eq!(commit(&mut pool, 1).err(), Some(CommitError::InsufficientCollateral));
}

#[test]
fn add_transfer_is_idempotent() {
    let mut pool = standard_pool();
    pool.add_transfer([1; 32], u(10), tid(1));
    pool.add_transfer([2; 32], u(99), tid(1));
    assert_eq!(pool.transfer_count(), 1);
    assert_eq!(pool.remaining_collateral(&tid(1)), Some(u(10)));
}

#[test]
fn no_sharing_across_transfers() {
    let mut pool = standard_pool();
    pool.add_transfer([1; 32], u(3), tid(1));
    pool.add_transfer([2; 32], u(3), tid(2));
    assert!(!pool.has_collateral_for(u(5)));
    assert_eq!(commit(&mut pool, 5).err(), Some(CommitError::InsufficientCollateral));
    assert!(pool.has_collateral_for(u(3)));
    assert!(commit(&mut pool, 3).is_ok());
}

#[test]
fn low_collateral_warning_fires_once() {
    let mut pool = standard_pool();
    pool.add_transfer([1; 32], u(8), tid(1));
    let a = commit(&mut pool, 5).unwrap();
    assert!(!a.low_collateral_warning);
    let b = commit(&mut pool, 2).unwrap();
    assert!(b.low_collateral_warning);
    pool.release(&a.commitment, QueryStatus::Failure);
    pool.release(&b.commitment, QueryStatus::Failure);
    assert_eq!(pool.remaining_collateral(&tid(1)), Some(u(8)));
    let c = commit(&mut pool, 7).unwrap();
    assert!(!c.low_collateral_warning);
}

#[test]
fn id_capacity_warning() {
    let config = PoolConfig { max_receipt_id: 10, low_receipt_capacity: 2, unknown_is_failure: true };
    let mut pool = TransferPool::new(config);
    pool.add_transfer([1; 32], u(100), tid(1));
    assert!(!commit(&mut pool, 1).unwrap().low_collateral_warning);
    assert!(!commit(&mut pool, 1).unwrap().low_collateral_warning);
    assert!(commit(&mut pool, 1).unwrap().low_collateral_warning);
    assert!(!commit(&mut pool, 1).unwrap().low_collateral_warning);
}

#[test]
fn commitment_layout() {
    let mut pool = standard_pool();
    pool.add_transfer([5; 32], u(1000), tid(3));
    let b = commit(&mut pool, 0x0203).unwrap();
    let c = &b.commitment;
    assert_eq!(c.len(), 165);
    assert_eq!(&c[0..32], &tid(3));
    assert_eq!(c[62], 2);
    assert_eq!(c[63], 3);
    assert_eq!(&c[64..68], &[0, 0, 0, 1]);
    assert_eq!(&c[100..132], &[5u8; 32]);
    assert_eq!(c[132], 27);
    assert_eq!(&c[133..165], &[0u8; 32]);
}

#[test]
fn unknown_can_abandon_the_receipt() {
    let config = PoolConfig { max_receipt_id: 10, low_receipt_capacity: 9, unknown_is_failure: false };
    let mut pool = TransferPool::new(config);
    pool.add_transfer([1; 32], u(10), tid(1));
    let b = commit(&mut pool, 4).unwrap();
    pool.release(&b.commitment, QueryStatus::Unknown);
    assert_eq!(pool.remaining_collateral(&tid(1)), Some(u(6)));
    assert_eq!(pool.known_unlocked_fees(&tid(1)), Some(u(0)));
    let next = commit(&mut pool, 1).unwrap();
    assert_eq!(&next.commitment[64..68], &[0, 0, 0, 2]);
}

#[test]
fn recommended_collateral_doubles_use() {
    let mut pool = standard_pool();
    pool.add_transfer([1; 32], u(10), tid(1));
    pool.add_transfer([2; 32], u(20), tid(2));
    commit(&mut pool, 3).unwrap();
    commit(&mut pool, 15).unwrap();
    assert_eq!(pool.recommended_collateral(), u(36));
}
