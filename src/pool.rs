//! A per-allocation pool of receipts with random 15-byte ids.
use vstd::prelude::*;

use crate::codec::{append_bytes, bytes15_at, sign, signing_refused, signs, SignError, ADDRESS_LEN, RECEIPT_ID_LEN, SIGNATURE_LEN, U256_LEN};
use crate::sender::swap_removed;
use crate::u256::{be_value, sat_add, U256};

verus! {

pub const ALLOCATION_ID_START: usize = 0;
pub const ALLOCATION_ID_END: usize = ALLOCATION_ID_START + ADDRESS_LEN;
pub const FEE_START: usize = ALLOCATION_ID_END;
pub const FEE_END: usize = FEE_START + U256_LEN;
pub const RECEIPT_ID_START: usize = FEE_END;
pub const RECEIPT_ID_END: usize = RECEIPT_ID_START + RECEIPT_ID_LEN;
pub const SIGNATURE_START: usize = RECEIPT_ID_END;
pub const SIGNATURE_END: usize = SIGNATURE_START + SIGNATURE_LEN;
pub const UNLOCKED_FEE_START: usize = SIGNATURE_END;
pub const UNLOCKED_FEE_END: usize = UNLOCKED_FEE_START + U256_LEN;
/// `allocation_id || fee || receipt_id || signature || unlocked_fee`.
pub const BORROWED_RECEIPT_LEN: usize = UNLOCKED_FEE_END;

/// What became of the query that a borrowed receipt paid for.
#[derive(Copy, Clone, PartialEq, Eq, Structural, Debug)]
pub enum QueryStatus {
    Success,
    Failure,
    Unknown,
}

/// An id whose earlier fees are settled: the next borrow of it locks more on top.
#[derive(Eq, PartialEq, Debug, Clone, Copy)]
pub struct PooledReceipt {
    pub unlocked_fee: U256,
    pub receipt_id: [u8; 15],
}

#[derive(Eq, PartialEq, Debug, Clone, Copy)]
pub enum BorrowFail {
    NoAllocation,
    InvalidRecoveryId,
}

impl BorrowFail {
    pub fn message(&self) -> (r: &'static str)
        ensures
            *self == BorrowFail::NoAllocation ==> r@ == "No allocation"@,
            *self == BorrowFail::InvalidRecoveryId ==> r@ == "Invalid recovery id"@,
    {
        match self {
            BorrowFail::NoAllocation => "No allocation",
            BorrowFail::InvalidRecoveryId => "Invalid recovery id",
        }
    }
}

impl From<SignError> for BorrowFail {
    fn from(err: SignError) -> (r: BorrowFail) {
        match err {
            SignError::InvalidRecoveryId => BorrowFail::InvalidRecoveryId,
        }
    }
}

impl vstd::std_specs::convert::FromSpecImpl<SignError> for BorrowFail {
    open spec fn obeys_from_spec() -> bool {
        true
    }

    open spec fn from_spec(err: SignError) -> BorrowFail {
        match err {
            SignError::InvalidRecoveryId => BorrowFail::InvalidRecoveryId,
        }
    }
}

/// The sum of the unlocked fees in `s`.
pub open spec fn sum_unlocked(s: Seq<PooledReceipt>) -> nat
    decreases s.len(),
{
    if s.len() == 0 {
        0
    } else {
        sum_unlocked(s.drop_last()) + s.last().unlocked_fee.value()
    }
}

/// `c` is the commitment of allocation `allocation` for receipt `id`, worth
/// `fee` in all, of which `unlocked` was settled before.
pub open spec fn is_allocation_commitment(c: Seq<u8>, allocation: Seq<u8>, fee: nat, id: Seq<u8>, unlocked: nat) -> bool {
    &&& c.len() == BORROWED_RECEIPT_LEN
    &&& c.subrange(ALLOCATION_ID_START as int, ALLOCATION_ID_END as int) == allocation
    &&& be_value(c.subrange(FEE_START as int, FEE_END as int)) == fee
    &&& c.subrange(RECEIPT_ID_START as int, RECEIPT_ID_END as int) == id
    &&& (c[SIGNATURE_END - 1] == 27 || c[SIGNATURE_END - 1] == 28)
    &&& be_value(c.subrange(UNLOCKED_FEE_START as int, UNLOCKED_FEE_END as int)) == unlocked
}

/// A per-allocation collection that can borrow or generate receipts.
#[derive(Debug, PartialEq, Eq)]
pub struct ReceiptPool {
    pub allocation: [u8; 20],
    /// Receipts whose history the indexer and the gateway agree on. Any
    /// content is valid: the pool keeps no invariant over it.
    pub receipt_cache: Vec<PooledReceipt>,
}

impl ReceiptPool {
    pub open spec fn cache(&self) -> Seq<PooledReceipt> {
        self.receipt_cache@
    }

    /// The allocation id, as bytes: the public field `allocation`.
    pub open spec fn allocation_id(&self) -> Seq<u8> {
        self.allocation@
    }

    pub fn new(allocation: [u8; 20]) -> (r: ReceiptPool)
        ensures
            r.allocation_id() == allocation@,
            r.cache() == Seq::<PooledReceipt>::empty(),
    {
        let r = ReceiptPool { allocation, receipt_cache: Vec::new() };
        assert(r.cache() =~= Seq::<PooledReceipt>::empty());
        r
    }

    /// The fees settled on the cached receipts, saturating. A lower bound:
    /// receipts out on loan are not counted.
    pub fn known_unlocked_fees(&self) -> (r: U256)
        ensures
            r.value() == sat_add(sum_unlocked(self.cache()), 0),
    {
        let n = self.receipt_cache.len();
        let mut result = U256::zero();
        let mut i: usize = 0;
        assert(sum_unlocked(self.cache().take(0)) == 0);
        while i < n
            invariant
                n == self.cache().len(),
                0 <= i <= n,
                result.value() == sat_add(sum_unlocked(self.cache().take(i as int)), 0),
            decreases n - i,
        {
            result = result.saturating_add(self.receipt_cache[i].unlocked_fee);
            assert(self.cache().take(i + 1).drop_last() =~= self.cache().take(i as int));
            i += 1;
        }
        assert(self.cache().take(n as int) =~= self.cache());
        result
    }

    /// Borrows a receipt worth `locked_fee` more than it settled before: a
    /// cached one, chosen by `pick`, or else a fresh one with id `fresh_id`.
    /// The commitment is signed over `allocation || fee || receipt_id` with
    /// `signer` (see `codec::sign`). On failure nothing changes.
    pub fn commit<F: Fn(&[u8; 32], &[u8; 32]) -> ([u8; 64], i32)>(
        &mut self,
        signer: &[u8; 32],
        locked_fee: U256,
        fresh_id: [u8; 15],
        pick: usize,
        sign_digest: &F,
    ) -> (r: Result<Vec<u8>, BorrowFail>)
        requires
            forall|k: &[u8; 32], d: &[u8; 32]| sign_digest.requires((k, d)),
        ensures
            final(self).allocation_id() == old(self).allocation_id(),
            r is Err ==> r == Err::<Vec<u8>, BorrowFail>(BorrowFail::InvalidRecoveryId) && *final(self) == *old(self),
            ({
                let cache = old(self).cache();
                let k = if cache.len() > 0 { (pick as nat % cache.len()) as int } else { 0 };
                let id = if cache.len() > 0 { cache[k].receipt_id@ } else { fresh_id@ };
                let unlocked = if cache.len() > 0 { cache[k].unlocked_fee.value() } else { 0 };
                &&& r is Err ==> exists|m: Seq<u8>|
                    m.len() == 67 && m.subrange(0, 20) == old(self).allocation_id() && be_value(m.subrange(20, 52)) == sat_add(
                        unlocked,
                        locked_fee.value(),
                    ) && m.subrange(52, 67) == id && #[trigger] signing_refused(*sign_digest, signer@, m)
                &&& r matches Ok(c) ==> {
                    &&& final(self).cache() == if cache.len() > 0 { swap_removed(cache, k) } else { cache }
                    &&& is_allocation_commitment(c@, old(self).allocation_id(), sat_add(unlocked, locked_fee.value()), id, unlocked)
                    &&& signs(
                        *sign_digest,
                        signer@,
                        c@.subrange(ALLOCATION_ID_START as int, RECEIPT_ID_END as int),
                        c@.subrange(SIGNATURE_START as int, SIGNATURE_END as int),
                    )
                }
            }),
    {
        let n = self.receipt_cache.len();
        let k: usize = if n > 0 { pick % n } else { 0 };
        let receipt = if n > 0 {
            self.receipt_cache[k]
        } else {
            PooledReceipt { receipt_id: fresh_id, unlocked_fee: U256::zero() }
        };
        let fee = receipt.unlocked_fee.saturating_add(locked_fee);
        let fee_bytes = fee.to_be_bytes();
        let unlocked_bytes = receipt.unlocked_fee.to_be_bytes();
        let mut commitment: Vec<u8> = Vec::new();
        append_bytes(&mut commitment, &self.allocation);
        append_bytes(&mut commitment, &fee_bytes);
        append_bytes(&mut commitment, &receipt.receipt_id);
        let message = vstd::slice::slice_subrange(commitment.as_slice(), ALLOCATION_ID_START, RECEIPT_ID_END);
        let signature = match sign(message, signer, sign_digest) {
            Ok(s) => s,
            Err(e) => {
                proof {
                    let m = message@;
                    assert(m =~= self.allocation@ + fee_bytes@ + receipt.receipt_id@);
                    assert(m.subrange(0, 20) =~= self.allocation@);
                    assert(m.subrange(20, 52) =~= fee_bytes@);
                    assert(m.subrange(52, 67) =~= receipt.receipt_id@);
                    assert(signing_refused(*sign_digest, signer@, m));
                }
                return Err(BorrowFail::from(e));
            },
        };
        append_bytes(&mut commitment, &signature);
        append_bytes(&mut commitment, &unlocked_bytes);
        let ghost c = commitment@;
        proof {
            assert(c.subrange(ALLOCATION_ID_START as int, ALLOCATION_ID_END as int) =~= self.allocation@);
            assert(c.subrange(FEE_START as int, FEE_END as int) =~= fee_bytes@);
            assert(c.subrange(RECEIPT_ID_START as int, RECEIPT_ID_END as int) =~= receipt.receipt_id@);
            assert(c[SIGNATURE_END - 1] == signature@[64]);
            assert(c.subrange(UNLOCKED_FEE_START as int, UNLOCKED_FEE_END as int) =~= unlocked_bytes@);
            assert(c.subrange(ALLOCATION_ID_START as int, RECEIPT_ID_END as int) =~= message@);
            assert(c.subrange(SIGNATURE_START as int, SIGNATURE_END as int) =~= signature@);
        }
        if n > 0 {
            self.receipt_cache.swap_remove(k);
        }
        Ok(commitment)
    }

    /// Takes back a commitment with the outcome of its query: on success its
    /// whole fee is settled, otherwise only what was settled before it.
    pub fn release(&mut self, bytes: &[u8], status: QueryStatus)
        requires
            bytes@.len() == BORROWED_RECEIPT_LEN,
        ensures
            final(self).allocation_id() == old(self).allocation_id(),
            final(self).cache().len() == old(self).cache().len() + 1,
            final(self).cache().drop_last() == old(self).cache(),
            final(self).cache().last().receipt_id@ == bytes@.subrange(RECEIPT_ID_START as int, RECEIPT_ID_END as int),
            final(self).cache().last().unlocked_fee.value() == if status == QueryStatus::Success {
                be_value(bytes@.subrange(FEE_START as int, FEE_END as int))
            } else {
                be_value(bytes@.subrange(UNLOCKED_FEE_START as int, UNLOCKED_FEE_END as int))
            },
    {
        let unlocked_fee = if status == QueryStatus::Success {
            U256::from_be_bytes(bytes, FEE_START)
        } else {
            U256::from_be_bytes(bytes, UNLOCKED_FEE_START)
        };
        let receipt = PooledReceipt { unlocked_fee, receipt_id: bytes15_at(bytes, RECEIPT_ID_START) };
        self.receipt_cache.push(receipt);
        assert(self.cache().drop_last() =~= old(self).cache());
    }
}

} // verus!
