use receipts::codec::{signature_from_parts, SignError};
use receipts::pool::{BorrowFail, QueryStatus, ReceiptPool, BORROWED_RECEIPT_LEN};
use receipts::u256::U256;
use tiny_keccak::{Hasher, Keccak};

fn bytes(n: u8) -> [u8; 20] {
    [n; 20]
}

fn test_signer() -> [u8; 32] {
    [7u8; 32]
}

/// Stands in for ECDSA: the compact signature is the digest followed by the key.
fn sign_digest(key: &[u8; 32], digest: &[u8; 32]) -> ([u8; 64], i32) {
    let mut c = [0u8; 64];
    c[..32].copy_from_slice(digest);
    c[32..].copy_from_slice(key);
    (c, 1)
}

fn keccak(data: &[u8]) -> [u8; 32] {
    let mut h = Keccak::v256();
    h.update(data);
    let mut out = [0u8; 32];
    h.finalize(&mut out);
    out
}

fn assert_successful_borrow(pool: &mut ReceiptPool, fee: u128, nonce: u8) -> Vec<u8> {
    pool.commit(&test_signer(), U256::from_u128(fee), [nonce; 15], nonce as usize, &sign_digest)
        .expect("Should be able to borrow")
}

// Simple happy-path case of paying for requests in a loop.
#[test]
pub fn can_pay_for_requests() {
    let mut pool = ReceiptPool::new(bytes(1));

    for i in 1..=10u32 {
        let borrow = assert_successful_borrow(&mut pool, i as u128, i as u8);
        pool.release(&borrow, QueryStatus::Success);
        // All the fees are unlocked
        let unlocked: u32 = (0..=i).sum();
        assert_eq!(U256::from_u128(unlocked as u128), pool.known_unlocked_fees());
    }
}

// Modes for returning collateral
#[test]
fn collateral_return() {
    let mut pool = ReceiptPool::new(bytes(2));

    let borrow3 = assert_successful_borrow(&mut pool, 3, 1);
    assert_eq!(pool.known_unlocked_fees(), U256::from_u128(0));

    let borrow2 = assert_successful_borrow(&mut pool, 2, 2);
    assert_eq!(pool.known_unlocked_fees(), U256::from_u128(0));

    pool.release(&borrow3, QueryStatus::Failure);
    assert_eq!(pool.known_unlocked_fees(), U256::from_u128(0));

    let borrow4 = assert_successful_borrow(&mut pool, 4, 3);
    assert_eq!(pool.known_unlocked_fees(), U256::from_u128(0));

    pool.release(&borrow2, QueryStatus::Success);
    assert_eq!(pool.known_unlocked_fees(), U256::from_u128(2));

    pool.release(&borrow4, QueryStatus::Unknown);
    assert_eq!(pool.known_unlocked_fees(), U256::from_u128(2));
}

#[test]
fn commitment_layout_and_signature() {
    let mut pool = ReceiptPool::new(bytes(9));
    let c = assert_successful_borrow(&mut pool, 0x0102, 4);
    assert_eq!(c.len(), BORROWED_RECEIPT_LEN);
    assert_eq!(c.len(), 164);
    assert_eq!(&c[0..20], &[9u8; 20]);
    let mut fee = [0u8; 32];
    fee[30] = 1;
    fee[31] = 2;
    assert_eq!(&c[20..52], &fee);
    assert_eq!(&c[52..67], &[4u8; 15]);
    // Signed over allocation || fee || receipt id; raw recovery id 1 becomes 28.
    assert_eq!(&c[67..99], &keccak(&c[0..67]));
    assert_eq!(&c[99..131], &test_signer());
    assert_eq!(c[131], 28);
    assert_eq!(&c[132..164], &[0u8; 32]);
}

#[test]
fn recycled_receipt_keeps_its_id_and_settled_fee() {
    let mut pool = ReceiptPool::new(bytes(3));
    let first = assert_successful_borrow(&mut pool, 5, 8);
    pool.release(&first, QueryStatus::Success);
    let second = assert_successful_borrow(&mut pool, 2, 9);
    assert_eq!(&second[52..67], &[8u8; 15]);
    assert_eq!(second[51], 7);
    assert_eq!(second[163], 5);
    assert_eq!(pool.known_unlocked_fees(), U256::from_u128(0));
}

#[test]
fn bad_recovery_id_leaves_pool_unchanged() {
    let mut pool = ReceiptPool::new(bytes(4));
    let first = assert_successful_borrow(&mut pool, 5, 8);
    pool.release(&first, QueryStatus::Success);
    let bad = |_k: &[u8; 32], _d: &[u8; 32]| ([0u8; 64], 2);
    let r = pool.commit(&test_signer(), U256::from_u128(1), [1; 15], 0, &bad);
    assert_eq!(r, Err(BorrowFail::InvalidRecoveryId));
    assert_eq!(pool.known_unlocked_fees(), U256::from_u128(5));
    assert_eq!(BorrowFail::from(SignError::InvalidRecoveryId), BorrowFail::InvalidRecoveryId);
    assert_eq!(BorrowFail::NoAllocation.message(), "No allocation");
}

#[test]
fn recovery_ids_are_normalized() {
    let c = [5u8; 64];
    assert_eq!(signature_from_parts(&c, 0).unwrap()[64], 27);
    assert_eq!(signature_from_parts(&c, 1).unwrap()[64], 28);
    assert_eq!(signature_from_parts(&c, 27).unwrap()[64], 27);
    assert_eq!(signature_from_parts(&c, 28).unwrap()[64], 28);
    assert_eq!(&signature_from_parts(&c, 0).unwrap()[..64], &c[..]);
    assert_eq!(signature_from_parts(&c, 2), Err(SignError::InvalidRecoveryId));
    assert_eq!(signature_from_parts(&c, 29), Err(SignError::InvalidRecoveryId));
}
