//! The receiving side: totals a batch of receipts signed for one allocation
//! and signs the total as a voucher.
use vstd::prelude::*;

use crate::codec::{append_bytes, bytes15_at, keccak256, sign, signing_refused, signs, keccak, ADDRESS_LEN, COMPACT_SIGNATURE_LEN, RECEIPT_ID_LEN, SIGNATURE_LEN, U256_LEN};
use crate::u256::{be_value, sat_add, U256};

verus! {

#[derive(Debug, Clone, Copy, PartialEq, Eq, Structural)]
pub enum VoucherError {
    InvalidData,
    InvalidSignature,
    UnorderedReceipts,
    NoValue,
    InvalidRecoveryId,
}

impl VoucherError {
    pub fn message(&self) -> (r: &'static str)
        ensures
            *self == VoucherError::InvalidData ==> r@ == "Invalid receipts data"@,
            *self == VoucherError::InvalidSignature ==> r@ == "Receipts are not signed for the given allocation"@,
            *self == VoucherError::UnorderedReceipts ==> r@ == "Unordered receipts"@,
            *self == VoucherError::NoValue ==> r@ == "Receipts have no value"@,
            *self == VoucherError::InvalidRecoveryId ==> r@ == "Invalid recovery id"@,
    {
        match self {
            VoucherError::InvalidData => "Invalid receipts data",
            VoucherError::InvalidSignature => "Receipts are not signed for the given allocation",
            VoucherError::UnorderedReceipts => "Unordered receipts",
            VoucherError::NoValue => "Receipts have no value",
            VoucherError::InvalidRecoveryId => "Invalid recovery id",
        }
    }
}

/// What checking one receipt's signature against the allocation signer found.
#[derive(Debug, Clone, Copy, PartialEq, Eq, Structural)]
pub enum SignatureCheck {
    Valid,
    /// The compact signature does not parse.
    Malformed,
    /// It parses but was not made by the allocation signer over this receipt.
    Mismatch,
}

pub const PAYMENT_START: usize = 0;
pub const PAYMENT_END: usize = PAYMENT_START + U256_LEN;
pub const RECEIPT_ID_START: usize = PAYMENT_END;
pub const RECEIPT_ID_END: usize = RECEIPT_ID_START + RECEIPT_ID_LEN;
pub const SIGNATURE_START: usize = RECEIPT_ID_END;
pub const SIGNATURE_END: usize = SIGNATURE_START + SIGNATURE_LEN;
/// `payment || receipt_id || signature`.
pub const RECORD_LEN: usize = SIGNATURE_END;
/// `allocation_id || total || signature`.
pub const VOUCHER_LEN: usize = ADDRESS_LEN + U256_LEN + SIGNATURE_LEN;

/// Record `i` of `data`.
pub open spec fn record(data: Seq<u8>, i: int) -> Seq<u8> {
    data.subrange(i * RECORD_LEN, (i + 1) * RECORD_LEN)
}

pub open spec fn record_id(data: Seq<u8>, i: int) -> Seq<u8> {
    record(data, i).subrange(RECEIPT_ID_START as int, RECEIPT_ID_END as int)
}

pub open spec fn record_payment(data: Seq<u8>, i: int) -> nat {
    be_value(record(data, i).subrange(PAYMENT_START as int, PAYMENT_END as int))
}

/// The compact `(r, s)` of record `i`.
pub open spec fn record_signature(data: Seq<u8>, i: int) -> Seq<u8> {
    record(data, i).subrange(SIGNATURE_START as int, SIGNATURE_START + COMPACT_SIGNATURE_LEN)
}

/// What the allocation signer signs for record `i`: Keccak-256 of
/// `allocation_id || payment || receipt_id`.
pub open spec fn record_digest(allocation: Seq<u8>, data: Seq<u8>, i: int) -> Seq<u8> {
    keccak256(allocation + record(data, i).subrange(PAYMENT_START as int, RECEIPT_ID_END as int))
}

/// `a` comes strictly before `b` in byte order.
pub open spec fn lex_less(a: Seq<u8>, b: Seq<u8>) -> bool {
    exists|k: int| 0 <= k < a.len() && k < b.len() && a[k] < b[k] && forall|j: int| 0 <= j < k ==> a[j] == b[j]
}

/// The outcome of reading records `i..` of `data`, after an id `prev` and a
/// running total `total`.
pub open spec fn scan(data: Seq<u8>, checks: Seq<SignatureCheck>, i: nat, prev: Seq<u8>, total: nat) -> Result<nat, VoucherError>
    decreases checks.len() - i,
{
    if i >= checks.len() {
        if total == 0 {
            Err(VoucherError::NoValue)
        } else {
            Ok(total)
        }
    } else if !lex_less(prev, record_id(data, i as int)) {
        Err(VoucherError::UnorderedReceipts)
    } else if checks[i as int] == SignatureCheck::Malformed {
        Err(VoucherError::InvalidData)
    } else if checks[i as int] == SignatureCheck::Mismatch {
        Err(VoucherError::InvalidSignature)
    } else {
        scan(data, checks, i + 1, record_id(data, i as int), sat_add(total, record_payment(data, i as int)))
    }
}

/// The total of a batch whose record `i` had its signature found `checks[i]`:
/// ids strictly ascending from above zero, each signature valid, a total above zero.
pub open spec fn batch_total(data: Seq<u8>, checks: Seq<SignatureCheck>) -> Result<nat, VoucherError> {
    scan(data, checks, 0, Seq::new(RECEIPT_ID_LEN as nat, |j: int| 0u8), 0)
}

/// The id that record `k` must exceed: the one before it, or all zeros.
pub open spec fn id_before(data: Seq<u8>, k: int) -> Seq<u8> {
    if k == 0 {
        Seq::new(RECEIPT_ID_LEN as nat, |j: int| 0u8)
    } else {
        record_id(data, k - 1)
    }
}

/// The saturating sum of the payments of the first `n` records.
pub open spec fn payments_total(data: Seq<u8>, n: nat) -> nat
    decreases n,
{
    if n == 0 {
        0
    } else {
        sat_add(payments_total(data, (n - 1) as nat), record_payment(data, n - 1))
    }
}

/// Every signature of the batch checked out.
pub open spec fn all_valid(checks: Seq<SignatureCheck>) -> bool {
    forall|i: int| 0 <= i < checks.len() ==> checks[i] == SignatureCheck::Valid
}

proof fn lemma_scan_unordered(data: Seq<u8>, checks: Seq<SignatureCheck>, k: int, i: nat, total: nat)
    requires
        all_valid(checks),
        0 <= k < checks.len(),
        !lex_less(id_before(data, k), record_id(data, k)),
        i <= k,
    ensures
        scan(data, checks, i, id_before(data, i as int), total) == Err::<nat, VoucherError>(VoucherError::UnorderedReceipts),
    decreases k - i,
{
    if lex_less(id_before(data, i as int), record_id(data, i as int)) {
        assert(checks[i as int] == SignatureCheck::Valid);
        lemma_scan_unordered(data, checks, k, i + 1, sat_add(total, record_payment(data, i as int)));
    }
}

/// A batch whose ids are not strictly ascending from above zero is refused
/// as unordered, when its signatures check out.
pub proof fn lemma_unordered_refused(data: Seq<u8>, checks: Seq<SignatureCheck>, k: int)
    requires
        all_valid(checks),
        0 <= k < checks.len(),
        !lex_less(id_before(data, k), record_id(data, k)),
    ensures
        batch_total(data, checks) == Err::<nat, VoucherError>(VoucherError::UnorderedReceipts),
{
    lemma_scan_unordered(data, checks, k, 0, 0);
}

proof fn lemma_scan_total(data: Seq<u8>, checks: Seq<SignatureCheck>, i: nat)
    requires
        all_valid(checks),
        forall|k: int| 0 <= k < checks.len() ==> #[trigger] lex_less(id_before(data, k), record_id(data, k)),
        i <= checks.len(),
    ensures
        scan(data, checks, i, id_before(data, i as int), payments_total(data, i)) == if payments_total(data, checks.len()) == 0 {
            Err::<nat, VoucherError>(VoucherError::NoValue)
        } else {
            Ok(payments_total(data, checks.len()))
        },
    decreases checks.len() - i,
{
    if i < checks.len() {
        assert(lex_less(id_before(data, i as int), record_id(data, i as int)));
        assert(checks[i as int] == SignatureCheck::Valid);
        lemma_scan_total(data, checks, i + 1);
    }
}

/// A batch of validly signed receipts with strictly ascending ids totals the
/// sum of its payments (saturating), and is refused only when that is zero.
pub proof fn lemma_batch_total(data: Seq<u8>, checks: Seq<SignatureCheck>)
    requires
        all_valid(checks),
        forall|k: int| 0 <= k < checks.len() ==> #[trigger] lex_less(id_before(data, k), record_id(data, k)),
    ensures
        batch_total(data, checks) == if payments_total(data, checks.len()) == 0 {
            Err::<nat, VoucherError>(VoucherError::NoValue)
        } else {
            Ok(payments_total(data, checks.len()))
        },
{
    lemma_scan_total(data, checks, 0);
}

fn bytes_less(a: &[u8; 15], b: &[u8; 15]) -> (r: bool)
    ensures
        r == lex_less(a@, b@),
{
    let mut i: usize = 0;
    while i < 15
        invariant
            0 <= i <= 15,
            forall|j: int| 0 <= j < i ==> a@[j] == b@[j],
        decreases 15 - i,
    {
        if a[i] != b[i] {
            let r = a[i] < b[i];
            proof {
                if !r {
                    assert forall|k: int| 0 <= k < 15 && a@[k] < b@[k] implies exists|j: int| 0 <= j < k && a@[j] != b@[j] by {
                        assert(a@[i as int] != b@[i as int]);
                        assert(k > i);
                    }
                } else {
                    assert(a@[i as int] < b@[i as int]);
                }
            }
            return r;
        }
        i += 1;
    }
    false
}

/// Totals the records of `data`, given the outcome `checks[i]` of checking
/// the signature of record `i`.
pub fn aggregate_receipts(data: &[u8], checks: &[SignatureCheck]) -> (r: Result<U256, VoucherError>)
    requires
        data@.len() == checks@.len() * RECORD_LEN,
    ensures
        match batch_total(data@, checks@) {
            Ok(t) => r matches Ok(v) && v.value() == t,
            Err(e) => r == Err::<U256, VoucherError>(e),
        },
{
    let n = checks.len();
    let data_len = data.len();
    let mut prev = [0u8; 15];
    let mut total = U256::zero();
    let mut i: usize = 0;
    assert(prev@ =~= Seq::new(RECEIPT_ID_LEN as nat, |j: int| 0u8));
    while i < n
        invariant
            n == checks@.len(),
            data_len == data@.len(),
            data@.len() == n * RECORD_LEN,
            0 <= i <= n,
            batch_total(data@, checks@) == scan(data@, checks@, i as nat, prev@, total.value()),
        decreases n - i,
    {
        assert(i * RECORD_LEN + RECORD_LEN <= data@.len()) by (nonlinear_arith)
            requires
                i < n,
                data@.len() == n * RECORD_LEN,
        ;
        let start = i * RECORD_LEN;
        let id = bytes15_at(data, start + RECEIPT_ID_START);
        proof {
            assert(RECORD_LEN == 112);
            assert((i as int + 1) * 112 == start + 112) by (nonlinear_arith)
                requires
                    start == i * 112,
            ;
            assert(record(data@, i as int) =~= data@.subrange(start as int, start + RECORD_LEN));
            assert(id@ =~= record_id(data@, i as int));
        }
        if !bytes_less(&prev, &id) {
            return Err(VoucherError::UnorderedReceipts);
        }
        match checks[i] {
            SignatureCheck::Malformed => {
                return Err(VoucherError::InvalidData);
            },
            SignatureCheck::Mismatch => {
                return Err(VoucherError::InvalidSignature);
            },
            SignatureCheck::Valid => {},
        }
        let payment = U256::from_be_bytes(data, start + PAYMENT_START);
        proof {
            assert(data@.subrange(start + PAYMENT_START, start + PAYMENT_START + 32)
                =~= record(data@, i as int).subrange(PAYMENT_START as int, PAYMENT_END as int));
        }
        total = total.saturating_add(payment);
        prev = id;
        i += 1;
    }
    if total.is_zero() {
        return Err(VoucherError::NoValue);
    }
    Ok(total)
}

/// `v` is the voucher for `allocation` with total `total`.
pub open spec fn is_voucher(v: Seq<u8>, allocation: Seq<u8>, total: nat) -> bool {
    &&& v.len() == VOUCHER_LEN
    &&& v.subrange(0, ADDRESS_LEN as int) == allocation
    &&& be_value(v.subrange(ADDRESS_LEN as int, (ADDRESS_LEN + U256_LEN) as int)) == total
    &&& (v[VOUCHER_LEN - 1] == 27 || v[VOUCHER_LEN - 1] == 28)
}

/// `r` is what building the voucher gives when the signature checks come out as `checks`.
pub open spec fn voucher_outcome(allocation: Seq<u8>, data: Seq<u8>, checks: Seq<SignatureCheck>, r: Result<Vec<u8>, VoucherError>) -> bool {
    match batch_total(data, checks) {
        Err(e) => r == Err::<Vec<u8>, VoucherError>(e),
        Ok(t) => r == Err::<Vec<u8>, VoucherError>(VoucherError::InvalidRecoveryId) || (r matches Ok(v) && is_voucher(v@, allocation, t)),
    }
}

/// `c` is what `check` found of the signature of record `i`, handed the
/// record's digest and compact signature.
pub open spec fn checked_as<V: Fn(&[u8; 32], &[u8]) -> SignatureCheck>(
    check: V,
    allocation: Seq<u8>,
    data: Seq<u8>,
    i: int,
    c: SignatureCheck,
) -> bool {
    exists|d: &[u8; 32], s: &[u8]|
        d@ == record_digest(allocation, data, i) && s@ == record_signature(data, i) && #[trigger] check.ensures((d, s), c)
}

/// The scan of a batch reaches the signature of record `i`: every record
/// before it is in order and validly signed, and record `i` is in order.
pub open spec fn reaches(data: Seq<u8>, checks: Seq<SignatureCheck>, i: int) -> bool {
    &&& forall|k: int| 0 <= k < i ==> lex_less(id_before(data, k), record_id(data, k)) && #[trigger] checks[k] == SignatureCheck::Valid
    &&& lex_less(id_before(data, i), record_id(data, i))
}

/// Signing the voucher of `allocation` for `total` with `key` can be
/// refused: the signed message is `allocation || be32(total)`.
pub open spec fn voucher_signing_refused<F: Fn(&[u8; 32], &[u8; 32]) -> ([u8; 64], i32)>(
    sign_digest: F,
    key: Seq<u8>,
    allocation: Seq<u8>,
    total: nat,
) -> bool {
    exists|m: Seq<u8>|
        m.len() == ADDRESS_LEN + U256_LEN && m.subrange(0, ADDRESS_LEN as int) == allocation && be_value(
            m.subrange(ADDRESS_LEN as int, (ADDRESS_LEN + U256_LEN) as int),
        ) == total && #[trigger] signing_refused(sign_digest, key, m)
}

/// A batch of validly signed receipts with strictly ascending ids and a
/// positive total gives the voucher of that total, unless the voucher
/// signer refuses it: the outcome that `receipts_to_voucher` states.
pub proof fn lemma_voucher_round_trip<F: Fn(&[u8; 32], &[u8; 32]) -> ([u8; 64], i32)>(
    allocation: Seq<u8>,
    data: Seq<u8>,
    checks: Seq<SignatureCheck>,
    sign_digest: F,
    key: Seq<u8>,
    r: Result<Vec<u8>, VoucherError>,
)
    requires
        all_valid(checks),
        forall|k: int| 0 <= k < checks.len() ==> #[trigger] lex_less(id_before(data, k), record_id(data, k)),
        payments_total(data, checks.len()) > 0,
        !voucher_signing_refused(sign_digest, key, allocation, payments_total(data, checks.len())),
        voucher_outcome(allocation, data, checks, r),
        r == Err::<Vec<u8>, VoucherError>(VoucherError::InvalidRecoveryId) ==> (batch_total(data, checks) matches Ok(t)
            && voucher_signing_refused(sign_digest, key, allocation, t)),
    ensures
        r matches Ok(v) && is_voucher(v@, allocation, payments_total(data, checks.len())),
{
    lemma_batch_total(data, checks);
}

proof fn lemma_scan_prefix(data: Seq<u8>, checks: Seq<SignatureCheck>, i: nat, j: nat)
    requires
        j <= i <= checks.len(),
        forall|k: int| 0 <= k < i ==> lex_less(id_before(data, k), record_id(data, k)) && #[trigger] checks[k] == SignatureCheck::Valid,
    ensures
        scan(data, checks, j, id_before(data, j as int), payments_total(data, j)) == scan(
            data,
            checks,
            i,
            id_before(data, i as int),
            payments_total(data, i),
        ),
    decreases i - j,
{
    if j < i {
        assert(lex_less(id_before(data, j as int), record_id(data, j as int)) && checks[j as int] == SignatureCheck::Valid);
        lemma_scan_prefix(data, checks, i, j + 1);
    }
}

/// Builds the voucher of `allocation_id` from the concatenated records of
/// `data`, reading them in order and stopping at the first that fails.
/// `check_signature` checks a compact signature over a digest against the
/// allocation signer; `sign_digest` signs for the key `voucher_signer`.
///
/// The voucher signer and the allocation signer sign messages of two
/// distinct lengths only, so one key may serve both.
pub fn receipts_to_voucher<V: Fn(&[u8; 32], &[u8]) -> SignatureCheck, F: Fn(&[u8; 32], &[u8; 32]) -> ([u8; 64], i32)>(
    allocation_id: &[u8; 20],
    check_signature: &V,
    voucher_signer: &[u8; 32],
    sign_digest: &F,
    data: &[u8],
) -> (r: Result<Vec<u8>, VoucherError>)
    requires
        forall|d: &[u8; 32], s: &[u8]| check_signature.requires((d, s)),
        forall|k: &[u8; 32], d: &[u8; 32]| sign_digest.requires((k, d)),
    ensures
        data@.len() % (RECORD_LEN as nat) != 0 ==> r == Err::<Vec<u8>, VoucherError>(VoucherError::InvalidData),
        data@.len() % (RECORD_LEN as nat) == 0 ==> exists|checks: Seq<SignatureCheck>|
            {
                &&& checks.len() * RECORD_LEN == data@.len()
                &&& forall|i: int| 0 <= i < checks.len() && reaches(data@, checks, i)
                    ==> checked_as(*check_signature, allocation_id@, data@, i, #[trigger] checks[i])
                &&& #[trigger] voucher_outcome(allocation_id@, data@, checks, r)
                &&& r == Err::<Vec<u8>, VoucherError>(VoucherError::InvalidRecoveryId) ==> (batch_total(data@, checks) matches Ok(t)
                    && voucher_signing_refused(*sign_digest, voucher_signer@, allocation_id@, t))
            },
        r matches Ok(v) ==> signs(
            *sign_digest,
            voucher_signer@,
            v@.subrange(0, (ADDRESS_LEN + U256_LEN) as int),
            v@.subrange((ADDRESS_LEN + U256_LEN) as int, VOUCHER_LEN as int),
        ),
{
    let data_len = data.len();
    if data_len % RECORD_LEN != 0 {
        return Err(VoucherError::InvalidData);
    }
    let n = data_len / RECORD_LEN;
    assert(n * RECORD_LEN == data_len) by (nonlinear_arith)
        requires
            n == data_len / 112,
            data_len % 112 == 0,
    ;
    let ghost mut checks: Seq<SignatureCheck> = Seq::empty();
    let mut prev = [0u8; 15];
    let mut total = U256::zero();
    let mut i: usize = 0;
    assert(prev@ =~= id_before(data@, 0));
    while i < n
        invariant
            data_len == data@.len(),
            n * RECORD_LEN == data_len,
            data_len % RECORD_LEN == 0,
            0 <= i <= n,
            checks.len() == i,
            forall|d: &[u8; 32], s: &[u8]| check_signature.requires((d, s)),
            forall|k: int| 0 <= k < i ==> lex_less(id_before(data@, k), record_id(data@, k)) && #[trigger] checks[k] == SignatureCheck::Valid,
            forall|k: int| 0 <= k < i ==> checked_as(*check_signature, allocation_id@, data@, k, #[trigger] checks[k]),
            prev@ == id_before(data@, i as int),
            total.value() == payments_total(data@, i as nat),
        decreases n - i,
    {
        assert(i * RECORD_LEN + RECORD_LEN <= data_len) by (nonlinear_arith)
            requires
                i < n,
                data_len == n * RECORD_LEN,
        ;
        let start = i * RECORD_LEN;
        proof {
            assert((i as int + 1) * 112 == start + 112) by (nonlinear_arith)
                requires
                    start == i * 112,
            ;
            assert(record(data@, i as int) =~= data@.subrange(start as int, start + RECORD_LEN));
        }
        let id = bytes15_at(data, start + RECEIPT_ID_START);
        assert(id@ =~= record_id(data@, i as int));
        if !bytes_less(&prev, &id) {
            proof {
                let full = checks + Seq::new((n - i) as nat, |k: int| SignatureCheck::Valid);
                assert forall|k: int| 0 <= k < i implies lex_less(id_before(data@, k), record_id(data@, k)) && #[trigger] full[k]
                    == SignatureCheck::Valid by {
                    assert(full[k] == checks[k]);
                }
                lemma_scan_prefix(data@, full, i as nat, 0);
                assert(id_before(data@, 0) =~= Seq::new(RECEIPT_ID_LEN as nat, |j: int| 0u8));
                assert forall|k: int| 0 <= k < full.len() && reaches(data@, full, k) implies checked_as(
                    *check_signature,
                    allocation_id@,
                    data@,
                    k,
                    #[trigger] full[k],
                ) by {
                    if k >= i {
                        if k > i {
                            assert(lex_less(id_before(data@, i as int), record_id(data@, i as int)));
                        }
                    } else {
                        assert(full[k] == checks[k]);
                    }
                }
                let r = Err::<Vec<u8>, VoucherError>(VoucherError::UnorderedReceipts);
                assert(voucher_outcome(allocation_id@, data@, full, r));
            }
            return Err(VoucherError::UnorderedReceipts);
        }
        let mut message: Vec<u8> = Vec::new();
        append_bytes(&mut message, allocation_id);
        append_bytes(&mut message, vstd::slice::slice_subrange(data, start + PAYMENT_START, start + RECEIPT_ID_END));
        let digest = keccak(message.as_slice());
        let signature = vstd::slice::slice_subrange(data, start + SIGNATURE_START, start + SIGNATURE_START + COMPACT_SIGNATURE_LEN);
        let c = check_signature(&digest, signature);
        proof {
            assert(message@ =~= allocation_id@ + record(data@, i as int).subrange(PAYMENT_START as int, RECEIPT_ID_END as int));
            assert(signature@ =~= record_signature(data@, i as int));
            assert(check_signature.ensures((&digest, signature), c));
            assert(checked_as(*check_signature, allocation_id@, data@, i as int, c));
        }
        if c != SignatureCheck::Valid {
            let e = if c == SignatureCheck::Malformed {
                VoucherError::InvalidData
            } else {
                VoucherError::InvalidSignature
            };
            proof {
                let full = checks.push(c) + Seq::new((n - i - 1) as nat, |k: int| SignatureCheck::Valid);
                assert(full[i as int] == c);
                assert forall|k: int| 0 <= k < i implies lex_less(id_before(data@, k), record_id(data@, k)) && #[trigger] full[k]
                    == SignatureCheck::Valid by {
                    assert(full[k] == checks[k]);
                }
                lemma_scan_prefix(data@, full, i as nat, 0);
                assert(id_before(data@, 0) =~= Seq::new(RECEIPT_ID_LEN as nat, |j: int| 0u8));
                assert forall|k: int| 0 <= k < full.len() && reaches(data@, full, k) implies checked_as(
                    *check_signature,
                    allocation_id@,
                    data@,
                    k,
                    #[trigger] full[k],
                ) by {
                    if k > i {
                        assert(full[i as int] == c);
                    } else if k < i {
                        assert(full[k] == checks[k]);
                    }
                }
                assert(voucher_outcome(allocation_id@, data@, full, Err::<Vec<u8>, VoucherError>(e)));
            }
            return Err(e);
        }
        let payment = U256::from_be_bytes(data, start + PAYMENT_START);
        proof {
            assert(data@.subrange(start + PAYMENT_START, start + PAYMENT_START + 32)
                =~= record(data@, i as int).subrange(PAYMENT_START as int, PAYMENT_END as int));
        }
        total = total.saturating_add(payment);
        prev = id;
        proof {
            let old_checks = checks;
            checks = checks.push(c);
            assert forall|k: int| 0 <= k < i + 1 implies checked_as(*check_signature, allocation_id@, data@, k, #[trigger] checks[k]) by {
                if k < i {
                    assert(checks[k] == old_checks[k]);
                }
            }
            assert forall|k: int| 0 <= k < i + 1 implies lex_less(id_before(data@, k), record_id(data@, k)) && #[trigger] checks[k]
                == SignatureCheck::Valid by {
                if k < i {
                    assert(checks[k] == old_checks[k]);
                }
            }
        }
        i += 1;
    }
    proof {
        lemma_scan_prefix(data@, checks, n as nat, 0);
        assert(id_before(data@, 0) =~= Seq::new(RECEIPT_ID_LEN as nat, |j: int| 0u8));
    }
    if total.is_zero() {
        assert(voucher_outcome(allocation_id@, data@, checks, Err::<Vec<u8>, VoucherError>(VoucherError::NoValue)));
        return Err(VoucherError::NoValue);
    }
    let total_bytes = total.to_be_bytes();
    let mut voucher: Vec<u8> = Vec::new();
    append_bytes(&mut voucher, allocation_id);
    append_bytes(&mut voucher, &total_bytes);
    assert(voucher@ =~= allocation_id@ + total_bytes@);
    let signature = match sign(voucher.as_slice(), voucher_signer, sign_digest) {
        Ok(s) => s,
        Err(_) => {
            let r = Err(VoucherError::InvalidRecoveryId);
            proof {
                let m = voucher@;
                assert(m.subrange(0, ADDRESS_LEN as int) =~= allocation_id@);
                assert(m.subrange(ADDRESS_LEN as int, (ADDRESS_LEN + U256_LEN) as int) =~= total_bytes@);
                assert(voucher_signing_refused(*sign_digest, voucher_signer@, allocation_id@, total.value()));
                assert(voucher_outcome(allocation_id@, data@, checks, r));
            }
            return r;
        },
    };
    append_bytes(&mut voucher, &signature);
    proof {
        let v = voucher@;
        assert(v.subrange(0, ADDRESS_LEN as int) =~= allocation_id@);
        assert(v.subrange(ADDRESS_LEN as int, (ADDRESS_LEN + U256_LEN) as int) =~= total_bytes@);
        assert(v[VOUCHER_LEN - 1] == signature@[64]);
        assert(v.subrange(0, (ADDRESS_LEN + U256_LEN) as int) =~= allocation_id@ + total_bytes@);
        assert(v.subrange((ADDRESS_LEN + U256_LEN) as int, VOUCHER_LEN as int) =~= signature@);
    }
    let r = Ok(voucher);
    assert(voucher_outcome(allocation_id@, data@, checks, r));
    r
}

} // verus!
