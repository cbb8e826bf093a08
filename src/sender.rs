//! The sending side: a pool of transfers, each with its own key, collateral
//! and range of `u32` receipt ids.
use vstd::prelude::*;

use crate::codec::{append_bytes, bytes32_at, sign, signing_refused, signs, u32_from_be_bytes, u32_to_be_bytes, BYTES32_LEN, SHORT_RECEIPT_ID_LEN, SIGNATURE_LEN, U256_LEN};
use crate::ledger::sum_cached;
use crate::pool::QueryStatus;
use crate::u256::{be_value, sat_add, u256_modulus, U256};

verus! {

pub const MAX_RECEIPT_ID: u32 = 200_000;
pub const LOW_RECEIPT_CAPACITY: u32 = 170_000;

pub const TRANSFER_ID_START: usize = 0;
pub const TRANSFER_ID_END: usize = TRANSFER_ID_START + BYTES32_LEN;
pub const FEE_START: usize = TRANSFER_ID_END;
pub const FEE_END: usize = FEE_START + U256_LEN;
pub const RECEIPT_ID_START: usize = FEE_END;
pub const RECEIPT_ID_END: usize = RECEIPT_ID_START + SHORT_RECEIPT_ID_LEN;
pub const SIGNATURE_START: usize = RECEIPT_ID_END;
pub const SIGNATURE_END: usize = SIGNATURE_START + SIGNATURE_LEN;
pub const UNLOCKED_FEE_START: usize = SIGNATURE_END;
pub const UNLOCKED_FEE_END: usize = UNLOCKED_FEE_START + U256_LEN;
/// `transfer_id || fee || receipt_id || signature || unlocked_fee`.
pub const BORROWED_RECEIPT_LEN: usize = UNLOCKED_FEE_END;

#[derive(Clone, Copy, PartialEq, Eq, Debug)]
pub enum CommitError {
    /// No transfer can lock the fee, or the one chosen has no receipt id left.
    InsufficientCollateral,
    InvalidRecoveryId,
}

/// Options of a pool.
#[derive(Clone, Copy, PartialEq, Eq, Debug)]
pub struct PoolConfig {
    pub max_receipt_id: u32,
    pub low_receipt_capacity: u32,
    /// Whether a query of unknown outcome returns its collateral (as a
    /// failure does) rather than abandoning its receipt id.
    pub unknown_is_failure: bool,
}

impl PoolConfig {
    pub fn standard() -> (r: PoolConfig)
        ensures
            r.max_receipt_id == MAX_RECEIPT_ID,
            r.low_receipt_capacity == LOW_RECEIPT_CAPACITY,
            r.unknown_is_failure,
    {
        PoolConfig { max_receipt_id: MAX_RECEIPT_ID, low_receipt_capacity: LOW_RECEIPT_CAPACITY, unknown_is_failure: true }
    }
}

/// An id whose earlier fees are settled: the next borrow of it locks more on top.
#[derive(Clone, Copy, PartialEq, Eq, Debug)]
pub struct CachedReceipt {
    pub receipt_id: u32,
    pub unlocked_fee: U256,
}

pub struct Transfer {
    signer: [u8; 32],
    transfer_id: [u8; 32],
    initial_collateral: U256,
    remaining_collateral: U256,
    low_collateral_threshold: U256,
    prev_receipt_id: u32,
    receipt_cache: Vec<CachedReceipt>,
}

/// A transfer as numbers; a cached receipt is `(receipt_id, unlocked_fee)`.
pub ghost struct TransferView {
    /// The secret key that signs the transfer's commitments.
    pub signer: Seq<u8>,
    pub transfer_id: Seq<u8>,
    pub initial: nat,
    pub remaining: nat,
    pub threshold: nat,
    pub prev_id: nat,
    pub cache: Seq<(nat, nat)>,
}

pub open spec fn cached_view(c: CachedReceipt) -> (nat, nat) {
    (c.receipt_id as nat, c.unlocked_fee.value())
}

impl View for Transfer {
    type V = TransferView;

    closed spec fn view(&self) -> TransferView {
        TransferView {
            signer: self.signer@,
            transfer_id: self.transfer_id@,
            initial: self.initial_collateral.value(),
            remaining: self.remaining_collateral.value(),
            threshold: self.low_collateral_threshold.value(),
            prev_id: self.prev_receipt_id as nat,
            cache: self.receipt_cache@.map_values(|c: CachedReceipt| cached_view(c)),
        }
    }
}

/// A signed commitment and whether the transfer it drew on just ran low.
pub struct ReceiptBorrow {
    pub commitment: Vec<u8>,
    pub low_collateral_warning: bool,
}

pub struct TransferPool {
    transfers: Vec<Transfer>,
    config: PoolConfig,
}

/// `s` with its element at `k` replaced by its last one, and shortened by one.
pub open spec fn swap_removed<A>(s: Seq<A>, k: int) -> Seq<A> {
    s.update(k, s.last()).drop_last()
}

/// Transfer `i` is the one a borrow of `fee` draws on: the least remaining
/// collateral that covers the fee, the first such on a tie.
pub open spec fn is_selected(ts: Seq<TransferView>, fee: nat, i: int) -> bool {
    &&& 0 <= i < ts.len()
    &&& ts[i].remaining >= fee
    &&& forall|j: int| 0 <= j < ts.len() && ts[j].remaining >= fee ==> ts[i].remaining <= ts[j].remaining
    &&& forall|j: int| 0 <= j < i && ts[j].remaining >= fee ==> ts[i].remaining < ts[j].remaining
}

/// Some single transfer has `fee` left.
pub open spec fn covers(ts: Seq<TransferView>, fee: nat) -> bool {
    exists|i: int| 0 <= i < ts.len() && ts[i].remaining >= fee
}

/// The transfer has no receipt to recycle and no fresh id below `max_id`.
pub open spec fn ids_exhausted(t: TransferView, max_id: nat) -> bool {
    t.cache.len() == 0 && t.prev_id >= max_id
}

/// The receipt a borrow takes: the cached one at `pick`, else a fresh id.
pub open spec fn drawn(t: TransferView, pick: int) -> (nat, nat) {
    if t.cache.len() > 0 {
        t.cache[pick]
    } else {
        (t.prev_id + 1, 0)
    }
}

/// Whether locking `fee` crosses the low-collateral edge, or takes the id at the capacity warning.
pub open spec fn commit_warns(t: TransferView, fee: nat, low_capacity: nat) -> bool {
    let low_before = t.remaining < t.threshold;
    let low_now = t.remaining - fee < t.threshold || (t.cache.len() == 0 && t.prev_id == low_capacity);
    low_before != low_now
}

/// The transfer after a borrow of `fee` that takes the receipt `drawn(t, pick)`.
pub open spec fn after_commit(t: TransferView, fee: nat, pick: int, low_capacity: nat) -> TransferView {
    TransferView {
        remaining: (t.remaining - fee) as nat,
        threshold: if commit_warns(t, fee, low_capacity) { 0 } else { t.threshold },
        prev_id: if t.cache.len() > 0 { t.prev_id } else { t.prev_id + 1 },
        cache: if t.cache.len() > 0 { swap_removed(t.cache, pick) } else { t.cache },
        ..t
    }
}

/// `c` is the commitment for receipt `id` of transfer `tid`, worth `fee`
/// in all, of which `unlocked` was settled before.
pub open spec fn is_commitment(c: Seq<u8>, tid: Seq<u8>, fee: nat, id: nat, unlocked: nat) -> bool {
    &&& c.len() == BORROWED_RECEIPT_LEN
    &&& c.subrange(TRANSFER_ID_START as int, TRANSFER_ID_END as int) == tid
    &&& be_value(c.subrange(FEE_START as int, FEE_END as int)) == fee
    &&& be_value(c.subrange(RECEIPT_ID_START as int, RECEIPT_ID_END as int)) == id
    &&& (c[SIGNATURE_END - 1] == 27 || c[SIGNATURE_END - 1] == 28)
    &&& be_value(c.subrange(UNLOCKED_FEE_START as int, UNLOCKED_FEE_END as int)) == unlocked
}

/// The transfer after the receipt `id`, worth `fee` of which `unlocked` was
/// settled before, comes back with `status`.
pub open spec fn after_release(t: TransferView, id: nat, fee: nat, unlocked: nat, status: QueryStatus, unknown_is_failure: bool) -> TransferView {
    let locked = (fee - unlocked) as nat;
    match status {
        QueryStatus::Success => TransferView { cache: t.cache.push((id, fee)), ..t },
        QueryStatus::Failure => TransferView { remaining: sat_add(t.remaining, locked), cache: t.cache.push((id, unlocked)), ..t },
        QueryStatus::Unknown => if unknown_is_failure {
            TransferView { remaining: sat_add(t.remaining, locked), cache: t.cache.push((id, unlocked)), ..t }
        } else {
            t
        },
    }
}

/// Some transfer has the id `tid`.
pub open spec fn has_transfer(ts: Seq<TransferView>, tid: Seq<u8>) -> bool {
    exists|i: int| 0 <= i < ts.len() && ts[i].transfer_id == tid
}

/// Collateral in use: what was put in and is no longer left.
pub open spec fn used(t: TransferView) -> nat {
    if t.remaining <= t.initial { (t.initial - t.remaining) as nat } else { 0 }
}

pub open spec fn total_used(ts: Seq<TransferView>) -> nat
    decreases ts.len(),
{
    if ts.len() == 0 { 0 } else { total_used(ts.drop_last()) + used(ts.last()) }
}

/// Some transfer covers `fee` and can still hand out a receipt.
pub open spec fn can_commit(ts: Seq<TransferView>, fee: nat, max_id: nat) -> bool {
    exists|i: int| 0 <= i < ts.len() && ts[i].remaining >= fee && !ids_exhausted(ts[i], max_id)
}

/// The transfers after `add_transfer(tid, collateral)`.
pub open spec fn after_add(ts: Seq<TransferView>, signer: Seq<u8>, tid: Seq<u8>, collateral: nat) -> Seq<TransferView> {
    if has_transfer(ts, tid) {
        ts
    } else {
        ts.push(fresh_transfer(signer, tid, collateral))
    }
}

/// The transfer that `add_transfer` installs.
pub open spec fn fresh_transfer(signer: Seq<u8>, tid: Seq<u8>, collateral: nat) -> TransferView {
    TransferView { signer, transfer_id: tid, initial: collateral, remaining: collateral, threshold: collateral / 4, prev_id: 0, cache: Seq::empty() }
}

/// Signing a commitment for receipt `id` worth `fee` in all, with `key`,
/// can be refused: the signed message is `be32(fee) || be4(id)`.
pub open spec fn commit_signing_refused<F: Fn(&[u8; 32], &[u8; 32]) -> ([u8; 64], i32)>(sign_digest: F, key: Seq<u8>, fee: nat, id: nat) -> bool {
    exists|m: Seq<u8>|
        m.len() == 36 && be_value(m.subrange(0, 32)) == fee && be_value(m.subrange(32, 36)) == id && #[trigger] signing_refused(
            sign_digest,
            key,
            m,
        )
}

/// Which cached receipt a borrow takes, given a pick drawn at random.
pub open spec fn pick_index(t: TransferView, pick: nat) -> int {
    if t.cache.len() > 0 { (pick % t.cache.len()) as int } else { 0 }
}

fn bytes32_eq(a: &[u8; 32], b: &[u8; 32]) -> (r: bool)
    ensures
        r == (a@ == b@),
{
    let mut i: usize = 0;
    while i < 32
        invariant
            0 <= i <= 32,
            a@.len() == 32 && b@.len() == 32,
            forall|k: int| 0 <= k < i ==> a@[k] == b@[k],
        decreases 32 - i,
    {
        if a[i] != b[i] {
            return false;
        }
        i += 1;
    }
    assert(a@ =~= b@);
    true
}

impl TransferPool {
    pub closed spec fn view(&self) -> Seq<TransferView> {
        self.transfers@.map_values(|t: Transfer| t@)
    }

    pub closed spec fn config(&self) -> PoolConfig {
        self.config
    }

    /// Transfer ids are unique and no transfer has handed out an id past the maximum.
    pub closed spec fn wf(&self) -> bool {
        &&& forall|i: int, j: int| 0 <= i < self.view().len() && 0 <= j < self.view().len() && i != j
            ==> self.view()[i].transfer_id != self.view()[j].transfer_id
        &&& forall|i: int| 0 <= i < self.view().len() ==> self.view()[i].prev_id <= self.config.max_receipt_id
    }

    pub fn new(config: PoolConfig) -> (r: TransferPool)
        ensures
            r.wf(),
            r.view().len() == 0,
            r.config() == config,
    {
        let r = TransferPool { transfers: Vec::new(), config };
        assert(r.view() =~= Seq::<TransferView>::empty());
        r
    }

    fn find_transfer(&self, transfer_id: &[u8; 32]) -> (r: Option<usize>)
        ensures
            r is None <==> !has_transfer(self.view(), transfer_id@),
            r matches Some(i) ==> i < self.view().len() && self.view()[i as int].transfer_id == transfer_id@,
    {
        let n = self.transfers.len();
        let mut i: usize = 0;
        while i < n
            invariant
                n == self.view().len(),
                0 <= i <= n,
                forall|k: int| 0 <= k < i ==> self.view()[k].transfer_id != transfer_id@,
            decreases n - i,
        {
            assert(self.view()[i as int] == self.transfers@[i as int]@);
            if bytes32_eq(&self.transfers[i].transfer_id, transfer_id) {
                return Some(i);
            }
            i += 1;
        }
        None
    }

    /// Installs a transfer, unless one with the same id is there already
    /// (then nothing changes, whatever the collateral).
    pub fn add_transfer(&mut self, signer: [u8; 32], collateral: U256, transfer_id: [u8; 32])
        requires
            old(self).wf(),
        ensures
            final(self).wf(),
            final(self).config() == old(self).config(),
            final(self).view() == after_add(old(self).view(), signer@, transfer_id@, collateral.value()),
    {
        if self.find_transfer(&transfer_id).is_some() {
            return;
        }
        let threshold = collateral.quarter();
        let t = Transfer {
            signer,
            transfer_id,
            initial_collateral: collateral,
            remaining_collateral: collateral,
            low_collateral_threshold: threshold,
            prev_receipt_id: 0,
            receipt_cache: Vec::new(),
        };
        let ghost before = self.view();
        self.transfers.push(t);
        proof {
            assert(t@.cache =~= Seq::<(nat, nat)>::empty());
            assert(t@ == fresh_transfer(signer@, transfer_id@, collateral.value()));
            assert(self.view() =~= before.push(t@));
        }
    }

    /// Uninstalls the transfer with this id, if there is one; the last
    /// transfer takes its place.
    pub fn remove_transfer(&mut self, transfer_id: &[u8; 32])
        requires
            old(self).wf(),
        ensures
            final(self).wf(),
            final(self).config() == old(self).config(),
            !has_transfer(old(self).view(), transfer_id@) ==> final(self).view() == old(self).view(),
            forall|i: int| 0 <= i < old(self).view().len() && old(self).view()[i].transfer_id == transfer_id@
                ==> final(self).view() == swap_removed(old(self).view(), i),
    {
        let ghost before = self.view();
        match self.find_transfer(transfer_id) {
            None => {},
            Some(i) => {
                self.transfers.swap_remove(i);
                proof {
                    assert(self.view() =~= swap_removed(before, i as int));
                    let after = self.view();
                    assert forall|a: int, b: int| 0 <= a < after.len() && 0 <= b < after.len() && a != b
                        implies after[a].transfer_id != after[b].transfer_id by {
                        let sa = if a == i as int { before.len() - 1 } else { a };
                        let sb = if b == i as int { before.len() - 1 } else { b };
                        assert(after[a] == before[sa]);
                        assert(after[b] == before[sb]);
                    }
                    assert forall|a: int| 0 <= a < after.len() implies after[a].prev_id <= self.config.max_receipt_id by {
                        let sa = if a == i as int { before.len() - 1 } else { a };
                        assert(after[a] == before[sa]);
                    }
                }
            },
        }
    }

    /// The transfer a borrow of `fee` draws on, if any covers it.
    fn select(&self, fee: U256) -> (r: Option<usize>)
        ensures
            r is None <==> !covers(self.view(), fee.value()),
            r matches Some(i) ==> is_selected(self.view(), fee.value(), i as int),
    {
        let n = self.transfers.len();
        let mut best: Option<usize> = None;
        let mut i: usize = 0;
        while i < n
            invariant
                n == self.view().len(),
                0 <= i <= n,
                best is None ==> forall|k: int| 0 <= k < i ==> self.view()[k].remaining < fee.value(),
                best matches Some(b) ==> {
                    &&& b < i
                    &&& self.view()[b as int].remaining >= fee.value()
                    &&& forall|k: int| 0 <= k < i && self.view()[k].remaining >= fee.value()
                        ==> self.view()[b as int].remaining <= self.view()[k].remaining
                    &&& forall|k: int| 0 <= k < b && self.view()[k].remaining >= fee.value()
                        ==> self.view()[b as int].remaining < self.view()[k].remaining
                },
            decreases n - i,
        {
            let t = &self.transfers[i];
            assert(self.view()[i as int] == t@);
            if !t.remaining_collateral.lt(fee) {
                match best {
                    None => {
                        best = Some(i);
                    },
                    Some(b) => {
                        assert(self.view()[b as int] == self.transfers@[b as int]@);
                        if t.remaining_collateral.lt(self.transfers[b].remaining_collateral) {
                            best = Some(i);
                        }
                    },
                }
            }
            i += 1;
        }
        best
    }

    /// Borrows a receipt worth `locked_fee` more than it settled before.
    /// `pick` chooses among the cached receipts of the transfer drawn on, and
    /// `sign_digest` signs for the transfer's key (see `codec::sign`).
    pub fn commit<F: Fn(&[u8; 32], &[u8; 32]) -> ([u8; 64], i32)>(&mut self, locked_fee: U256, pick: usize, sign_digest: &F) -> (r: Result<ReceiptBorrow, CommitError>)
        requires
            old(self).wf(),
            forall|k: &[u8; 32], d: &[u8; 32]| sign_digest.requires((k, d)),
        ensures
            final(self).wf(),
            final(self).config() == old(self).config(),
            r is Err ==> final(self).view() == old(self).view(),
            !covers(old(self).view(), locked_fee.value()) ==> r == Err::<ReceiptBorrow, CommitError>(CommitError::InsufficientCollateral),
            forall|i: int| #[trigger] is_selected(old(self).view(), locked_fee.value(), i) ==> {
                let t = old(self).view()[i];
                let k = pick_index(t, pick as nat);
                let (id, unlocked) = drawn(t, k);
                &&& ids_exhausted(t, old(self).config().max_receipt_id as nat)
                    ==> r == Err::<ReceiptBorrow, CommitError>(CommitError::InsufficientCollateral)
                &&& !ids_exhausted(t, old(self).config().max_receipt_id as nat) ==> (
                    (r == Err::<ReceiptBorrow, CommitError>(CommitError::InvalidRecoveryId) && commit_signing_refused(
                        *sign_digest,
                        t.signer,
                        sat_add(unlocked, locked_fee.value()),
                        id,
                    )) || (r matches Ok(b) && {
                        &&& final(self).view() == old(self).view().update(i, after_commit(t, locked_fee.value(), k, old(self).config().low_receipt_capacity as nat))
                        &&& is_commitment(b.commitment@, t.transfer_id, sat_add(unlocked, locked_fee.value()), id, unlocked)
                        &&& b.low_collateral_warning == commit_warns(t, locked_fee.value(), old(self).config().low_receipt_capacity as nat)
                        &&& signs(
                            *sign_digest,
                            t.signer,
                            b.commitment@.subrange(FEE_START as int, RECEIPT_ID_END as int),
                            b.commitment@.subrange(SIGNATURE_START as int, SIGNATURE_END as int),
                        )
                    }))
            },
    {
        let s = match self.select(locked_fee) {
            None => {
                return Err(CommitError::InsufficientCollateral);
            },
            Some(s) => s,
        };
        let ghost old_v = self.view();
        let ghost tv = old_v[s as int];
        proof {
            assert forall|i: int| #[trigger] is_selected(old_v, locked_fee.value(), i) implies i == s as int by {
                if i < s as int {
                    assert(old_v[s as int].remaining < old_v[i].remaining);
                } else if i > s as int {
                    assert(old_v[i].remaining < old_v[s as int].remaining);
                }
            }
        }
        let t = &self.transfers[s];
        assert(tv == t@);
        let cache_len = t.receipt_cache.len();
        let from_cache = cache_len > 0;
        if !from_cache && t.prev_receipt_id >= self.config.max_receipt_id {
            return Err(CommitError::InsufficientCollateral);
        }
        let k: usize = if from_cache { pick % cache_len } else { 0 };
        let receipt = if from_cache {
            t.receipt_cache[k]
        } else {
            CachedReceipt { receipt_id: t.prev_receipt_id + 1, unlocked_fee: U256::zero() }
        };
        assert(cached_view(receipt) == drawn(tv, k as int));
        let remaining = match t.remaining_collateral.checked_sub(locked_fee) {
            Some(d) => d,
            None => {
                return Err(CommitError::InsufficientCollateral);
            },
        };
        let low_before = t.remaining_collateral.lt(t.low_collateral_threshold);
        let low_now = remaining.lt(t.low_collateral_threshold) || (!from_cache && t.prev_receipt_id
            == self.config.low_receipt_capacity);
        let warning = low_before != low_now;
        let fee = receipt.unlocked_fee.saturating_add(locked_fee);
        let id_bytes = u32_to_be_bytes(receipt.receipt_id);
        let mut commitment: Vec<u8> = Vec::new();
        append_bytes(&mut commitment, &t.transfer_id);
        let fee_bytes = fee.to_be_bytes();
        let unlocked_bytes = receipt.unlocked_fee.to_be_bytes();
        append_bytes(&mut commitment, &fee_bytes);
        append_bytes(&mut commitment, &id_bytes);
        let message = vstd::slice::slice_subrange(commitment.as_slice(), FEE_START, RECEIPT_ID_END);
        let signature = match sign(message, &t.signer, sign_digest) {
            Ok(sig) => sig,
            Err(_) => {
                proof {
                    let m = message@;
                    assert(m =~= fee_bytes@ + id_bytes@);
                    assert(m.subrange(0, 32) =~= fee_bytes@);
                    assert(m.subrange(32, 36) =~= id_bytes@);
                    assert(commit_signing_refused(*sign_digest, tv.signer, fee.value(), receipt.receipt_id as nat));
                }
                return Err(CommitError::InvalidRecoveryId);
            },
        };
        append_bytes(&mut commitment, &signature);
        append_bytes(&mut commitment, &unlocked_bytes);
        let ghost c = commitment@;
        proof {
            assert(c.subrange(TRANSFER_ID_START as int, TRANSFER_ID_END as int) =~= tv.transfer_id);
            assert(c.subrange(FEE_START as int, FEE_END as int) =~= fee_bytes@);
            assert(c.subrange(RECEIPT_ID_START as int, RECEIPT_ID_END as int) =~= id_bytes@);
            assert(c[SIGNATURE_END - 1] == signature@[64]);
            assert(c.subrange(UNLOCKED_FEE_START as int, UNLOCKED_FEE_END as int) =~= unlocked_bytes@);
            assert(c.subrange(FEE_START as int, RECEIPT_ID_END as int) =~= message@);
            assert(c.subrange(SIGNATURE_START as int, SIGNATURE_END as int) =~= signature@);
        }
        self.transfers[s].remaining_collateral = remaining;
        if warning {
            self.transfers[s].low_collateral_threshold = U256::zero();
        }
        if from_cache {
            self.transfers[s].receipt_cache.swap_remove(k);
        } else {
            self.transfers[s].prev_receipt_id = receipt.receipt_id;
        }
        proof {
            let after = after_commit(tv, locked_fee.value(), k as int, self.config.low_receipt_capacity as nat);
            let nt = self.transfers@[s as int];
            assert(nt@.cache =~= after.cache);
            assert(nt@ == after);
            assert(self.view() =~= old_v.update(s as int, after));
        }
        Ok(ReceiptBorrow { commitment, low_collateral_warning: warning })
    }

    /// Takes back a commitment that `commit` handed out, with the outcome of
    /// its query. A commitment of a transfer no longer installed is dropped,
    /// and so is one whose settled part exceeds its fee, which `commit`
    /// never hands out.
    pub fn release(&mut self, commitment: &[u8], status: QueryStatus)
        requires
            old(self).wf(),
            commitment@.len() == BORROWED_RECEIPT_LEN,
        ensures
            final(self).wf(),
            final(self).config() == old(self).config(),
            ({
                let c = commitment@;
                let tid = c.subrange(TRANSFER_ID_START as int, TRANSFER_ID_END as int);
                let fee = be_value(c.subrange(FEE_START as int, FEE_END as int));
                let id = be_value(c.subrange(RECEIPT_ID_START as int, RECEIPT_ID_END as int));
                let unlocked = be_value(c.subrange(UNLOCKED_FEE_START as int, UNLOCKED_FEE_END as int));
                &&& !has_transfer(old(self).view(), tid) || unlocked > fee ==> final(self).view() == old(self).view()
                &&& forall|i: int| 0 <= i < old(self).view().len() && old(self).view()[i].transfer_id == tid && unlocked <= fee
                    ==> final(self).view() == old(self).view().update(
                    i,
                    after_release(old(self).view()[i], id, fee, unlocked, status, old(self).config().unknown_is_failure),
                )
            }),
    {
        let transfer_id = bytes32_at(commitment, TRANSFER_ID_START);
        let s = match self.find_transfer(&transfer_id) {
            None => {
                return;
            },
            Some(s) => s,
        };
        let ghost old_v = self.view();
        proof {
            assert forall|i: int| 0 <= i < old_v.len() && old_v[i].transfer_id == transfer_id@ implies i == s as int by {
                if i != s as int {
                    assert(old_v[i].transfer_id != old_v[s as int].transfer_id);
                }
            }
        }
        let fee = U256::from_be_bytes(commitment, FEE_START);
        let unlocked = U256::from_be_bytes(commitment, UNLOCKED_FEE_START);
        let receipt_id = u32_from_be_bytes(vstd::slice::slice_subrange(commitment, RECEIPT_ID_START, RECEIPT_ID_END));
        let locked = match fee.checked_sub(unlocked) {
            Some(d) => d,
            None => {
                return;
            },
        };
        let returns_collateral = match status {
            QueryStatus::Success => false,
            QueryStatus::Failure => true,
            QueryStatus::Unknown => self.config.unknown_is_failure,
        };
        if status == QueryStatus::Success {
            self.transfers[s].receipt_cache.push(CachedReceipt { receipt_id, unlocked_fee: fee });
        } else if returns_collateral {
            let remaining = self.transfers[s].remaining_collateral.saturating_add(locked);
            self.transfers[s].remaining_collateral = remaining;
            self.transfers[s].receipt_cache.push(CachedReceipt { receipt_id, unlocked_fee: unlocked });
        }
        proof {
            let after = after_release(old_v[s as int], receipt_id as nat, fee.value(), unlocked.value(), status, self.config.unknown_is_failure);
            let nt = self.transfers@[s as int];
            assert(nt@.cache =~= after.cache);
            assert(nt@ == after);
            assert(self.view() =~= old_v.update(s as int, after));
        }
    }

    /// Every transfer's amounts are below 2^256, as the conservation laws
    /// of `ledger` ask.
    pub proof fn lemma_amounts_bounded(&self)
        ensures
            forall|i: int| 0 <= i < self.view().len() ==> #[trigger] self.view()[i].initial < u256_modulus()
                && self.view()[i].remaining < u256_modulus(),
    {
        assert forall|i: int| 0 <= i < self.view().len() implies #[trigger] self.view()[i].initial < u256_modulus()
            && self.view()[i].remaining < u256_modulus() by {
            let t = self.transfers@[i];
            t.initial_collateral.lemma_value_bound();
            t.remaining_collateral.lemma_value_bound();
            assert(self.view()[i] == t@);
        }
    }

    pub fn transfer_count(&self) -> (r: usize)
        ensures
            r == self.view().len(),
    {
        self.transfers.len()
    }

    /// The collateral left on the transfer with this id.
    pub fn remaining_collateral(&self, transfer_id: &[u8; 32]) -> (r: Option<U256>)
        ensures
            r is None <==> !has_transfer(self.view(), transfer_id@),
            r matches Some(v) ==> exists|i: int| 0 <= i < self.view().len() && self.view()[i].transfer_id
                == transfer_id@ && v.value() == self.view()[i].remaining,
    {
        match self.find_transfer(transfer_id) {
            None => None,
            Some(i) => {
                assert(self.view()[i as int] == self.transfers@[i as int]@);
                Some(self.transfers[i].remaining_collateral)
            },
        }
    }

    /// The fees settled on the cached receipts of the transfer with this id, saturating.
    pub fn known_unlocked_fees(&self, transfer_id: &[u8; 32]) -> (r: Option<U256>)
        ensures
            r is None <==> !has_transfer(self.view(), transfer_id@),
            r matches Some(v) ==> exists|i: int| 0 <= i < self.view().len() && self.view()[i].transfer_id
                == transfer_id@ && v.value() == sat_add(sum_cached(self.view()[i].cache) as nat, 0),
    {
        match self.find_transfer(transfer_id) {
            None => None,
            Some(i) => {
                let t = &self.transfers[i];
                let ghost tv = self.view()[i as int];
                assert(tv == t@);
                let n = t.receipt_cache.len();
                let mut acc = U256::zero();
                let mut k: usize = 0;
                assert(sum_cached(tv.cache.take(0)) == 0);
                while k < n
                    invariant
                        n == tv.cache.len(),
                        tv == t@,
                        0 <= k <= n,
                        acc.value() == sat_add(sum_cached(tv.cache.take(k as int)) as nat, 0),
                    decreases n - k,
                {
                    acc = acc.saturating_add(t.receipt_cache[k].unlocked_fee);
                    proof {
                        assert(tv.cache.take(k + 1).drop_last() =~= tv.cache.take(k as int));
                        assert(tv.cache[k as int] == cached_view(t.receipt_cache@[k as int]));
                        crate::ledger::lemma_sum_cached_nonneg(tv.cache.take(k as int));
                    }
                    k += 1;
                }
                assert(tv.cache.take(n as int) =~= tv.cache);
                Some(acc)
            },
        }
    }

    /// Whether some transfer could lock `locked_fee` and still hand out a receipt.
    pub fn has_collateral_for(&self, locked_fee: U256) -> (r: bool)
        requires
            self.wf(),
        ensures
            r == can_commit(self.view(), locked_fee.value(), self.config().max_receipt_id as nat),
    {
        let n = self.transfers.len();
        let mut i: usize = 0;
        while i < n
            invariant
                n == self.view().len(),
                0 <= i <= n,
                forall|k: int| 0 <= k < i ==> !(self.view()[k].remaining >= locked_fee.value()
                    && !ids_exhausted(self.view()[k], self.config.max_receipt_id as nat)),
            decreases n - i,
        {
            let t = &self.transfers[i];
            if !t.remaining_collateral.lt(locked_fee)
                && (t.receipt_cache.len() > 0 || t.prev_receipt_id < self.config.max_receipt_id) {
                assert(self.view()[i as int] == t@);
                return true;
            }
            i += 1;
        }
        false
    }

    /// Twice the collateral in use over all transfers, saturating.
    pub fn recommended_collateral(&self) -> (r: U256)
        ensures
            r.value() == sat_add(total_used(self.view()), total_used(self.view())),
    {
        let n = self.transfers.len();
        let mut acc = U256::zero();
        let mut i: usize = 0;
        assert(total_used(self.view().take(0)) == 0);
        while i < n
            invariant
                n == self.view().len(),
                0 <= i <= n,
                acc.value() == sat_add(total_used(self.view().take(i as int)), 0),
            decreases n - i,
        {
            let t = &self.transfers[i];
            let in_use = match t.initial_collateral.checked_sub(t.remaining_collateral) {
                Some(d) => d,
                None => U256::zero(),
            };
            acc = acc.saturating_add(in_use);
            proof {
                let v = self.view();
                assert(v.take(i + 1).drop_last() =~= v.take(i as int));
                assert(v[i as int] == t@);
            }
            i += 1;
        }
        assert(self.view().take(n as int) =~= self.view());
        acc.saturating_add(acc)
    }
}

} // verus!
