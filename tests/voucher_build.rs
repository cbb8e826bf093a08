use receipts::u256::U256;
use receipts::voucher::{aggregate_receipts, receipts_to_voucher, SignatureCheck, VoucherError, RECORD_LEN};
use tiny_keccak::{Hasher, Keccak};

const ALLOCATION: [u8; 20] = [0xaa; 20];
const ALLOCATION_KEY: [u8; 32] = [1; 32];
const VOUCHER_KEY: [u8; 32] = [2; 32];

fn keccak(data: &[u8]) -> [u8; 32] {
    let mut h = Keccak::v256();
    h.update(data);
    let mut out = [0u8; 32];
    h.finalize(&mut out);
    out
}

/// Stands in for ECDSA: the compact signature is the digest followed by the key.
fn sign_digest(key: &[u8; 32], digest: &[u8; 32]) -> ([u8; 64], i32) {
    let mut c = [0u8; 64];
    c[..32].copy_from_slice(digest);
    c[32..].copy_from_slice(key);
    (c, 0)
}

fn check_allocation_signature(digest: &[u8; 32], sig: &[u8]) -> SignatureCheck {
    if sig.len() != 64 {
        SignatureCheck::Malformed
    } else if &sig[..32] == digest && sig[32..] == ALLOCATION_KEY {
        SignatureCheck::Valid
    } else {
        SignatureCheck::Mismatch
    }
}

fn record(id: u8, pay: u128) -> Vec<u8> {
    let mut r = U256::from_u128(pay).to_be_bytes().to_vec();
    let mut rid = [0u8; 15];
    rid[14] = id;
    r.extend_from_slice(&rid);
    let mut msg = ALLOCATION.to_vec();
    msg.extend_from_slice(&r);
    let (c, _) = sign_digest(&ALLOCATION_KEY, &keccak(&msg));
    r.extend_from_slice(&c);
    r.push(27);
    r
}

fn build(data: &[u8]) -> Result<Vec<u8>, VoucherError> {
    receipts_to_voucher(&ALLOCATION, &check_allocation_signature, &VOUCHER_KEY, &sign_digest, data)
}

#[test]
fn voucher_aggregation() {
    let data: Vec<u8> = [record(1, 10), record(2, 20), record(5, 30)].concat();
    let v = build(&data).unwrap();
    assert_eq!(v.len(), 117);
    assert_eq!(&v[0..20], &ALLOCATION);
    assert_eq!(&v[20..52], &U256::from_u128(60).to_be_bytes());
    assert_eq!(&v[52..84], &keccak(&v[0..52]));
    assert_eq!(&v[84..116], &VOUCHER_KEY);
    assert_eq!(v[116], 27);
}

#[test]
fn voucher_rejects_unordered() {
    let data: Vec<u8> = [record(1, 10), record(5, 30), record(2, 20)].concat();
    assert_eq!(build(&data), Err(VoucherError::UnorderedReceipts));
}

#[test]
fn voucher_rejects_duplicates_and_zero_id() {
    let data: Vec<u8> = [record(1, 10), record(1, 10)].concat();
    assert_eq!(build(&data), Err(VoucherError::UnorderedReceipts));
    assert_eq!(build(&record(0, 10)), Err(VoucherError::UnorderedReceipts));
}

#[test]
fn voucher_rejects_bad_length() {
    let mut data = record(1, 10);
    data.push(0);
    assert_eq!(build(&data), Err(VoucherError::InvalidData));
    assert_eq!(RECORD_LEN, 112);
}

#[test]
fn voucher_rejects_foreign_signature() {
    let mut data = record(1, 10);
    data[0] = 1;
    assert_eq!(build(&data), Err(VoucherError::InvalidSignature));
    let other = [0xbbu8; 20];
    let r = receipts_to_voucher(&other, &check_allocation_signature, &VOUCHER_KEY, &sign_digest, &record(1, 10));
    assert_eq!(r, Err(VoucherError::InvalidSignature));
}

#[test]
fn voucher_rejects_no_value() {
    assert_eq!(build(&[]), Err(VoucherError::NoValue));
    assert_eq!(build(&record(3, 0)), Err(VoucherError::NoValue));
}

#[test]
fn aggregate_follows_checks_in_order() {
    let data: Vec<u8> = [record(1, 10), record(2, 20)].concat();
    let valid = [SignatureCheck::Valid, SignatureCheck::Valid];
    assert_eq!(aggregate_receipts(&data, &valid), Ok(U256::from_u128(30)));
    let malformed = [SignatureCheck::Valid, SignatureCheck::Malformed];
    assert_eq!(aggregate_receipts(&data, &malformed), Err(VoucherError::InvalidData));
    let mismatch = [SignatureCheck::Mismatch, SignatureCheck::Malformed];
    assert_eq!(aggregate_receipts(&data, &mismatch), Err(VoucherError::InvalidSignature));
    let swapped: Vec<u8> = [record(2, 20), record(1, 10)].concat();
    let bad_second = [SignatureCheck::Valid, SignatureCheck::Mismatch];
    assert_eq!(aggregate_receipts(&swapped, &bad_second), Err(VoucherError::UnorderedReceipts));
}

#[test]
fn voucher_total_saturates() {
    let max = U256::max_value();
    let mut a = max.to_be_bytes().to_vec();
    a.extend_from_slice(&record(1, 0)[32..]);
    let data: Vec<u8> = [a, record(2, 5)].concat();
    let valid = [SignatureCheck::Valid, SignatureCheck::Valid];
    assert_eq!(aggregate_receipts(&data, &valid), Ok(max));
}

#[test]
fn voucher_stops_at_first_failing_record() {
    let calls = std::cell::Cell::new(0u32);
    let counting = |d: &[u8; 32], s: &[u8]| {
        calls.set(calls.get() + 1);
        check_allocation_signature(d, s)
    };
    let mut bad = record(2, 20);
    bad[0] = 9;
    let data: Vec<u8> = [record(1, 10), bad, record(3, 30)].concat();
    let r = receipts_to_voucher(&ALLOCATION, &counting, &VOUCHER_KEY, &sign_digest, &data);
    assert_eq!(r, Err(VoucherError::InvalidSignature));
    assert_eq!(calls.get(), 2);

    calls.set(0);
    let unordered: Vec<u8> = [record(5, 10), record(4, 20), record(6, 30)].concat();
    let r = receipts_to_voucher(&ALLOCATION, &counting, &VOUCHER_KEY, &sign_digest, &unordered);
    assert_eq!(r, Err(VoucherError::UnorderedReceipts));
    assert_eq!(calls.get(), 1);
}

#[test]
fn voucher_signer_refusal_is_reported() {
    let refusing = |_k: &[u8; 32], _d: &[u8; 32]| ([0u8; 64], 3);
    let r = receipts_to_voucher(&ALLOCATION, &check_allocation_signature, &VOUCHER_KEY, &refusing, &record(1, 10));
    assert_eq!(r, Err(VoucherError::InvalidRecoveryId));
}
