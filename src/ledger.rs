//! Laws of the sending side, stated over the transfer model of `sender`.
//!
//! A borrowed receipt still out is `(receipt_id, fee, unlocked_fee)`, as its
//! commitment spells them.
use vstd::prelude::*;

use crate::pool::QueryStatus;
use crate::sender::{
    after_add, after_commit, after_release, fresh_transfer, commit_warns, covers, drawn, has_transfer, ids_exhausted,
    is_selected, swap_removed, TransferView,
};
use crate::u256::{sat_add, u256_modulus};

verus! {

/// Installing a transfer id a second time, with any key and collateral, changes nothing.
pub proof fn lemma_add_transfer_idempotent(
    ts: Seq<TransferView>,
    tid: Seq<u8>,
    first_signer: Seq<u8>,
    first: nat,
    second_signer: Seq<u8>,
    second: nat,
)
    ensures
        after_add(after_add(ts, first_signer, tid, first), second_signer, tid, second) == after_add(ts, first_signer, tid, first),
        has_transfer(after_add(ts, first_signer, tid, first), tid),
{
    if !has_transfer(ts, tid) {
        let v = after_add(ts, first_signer, tid, first);
        assert(v[ts.len() as int].transfer_id == tid);
    }
}

proof fn lemma_selected_exists(ts: Seq<TransferView>, fee: nat)
    requires
        covers(ts, fee),
    ensures
        exists|i: int| is_selected(ts, fee, i),
    decreases ts.len(),
{
    let w = ts.drop_last();
    let last = ts.len() - 1;
    if covers(w, fee) {
        lemma_selected_exists(w, fee);
        let j = choose|j: int| is_selected(w, fee, j);
        if ts[last].remaining >= fee && ts[last].remaining < w[j].remaining {
            assert forall|k: int| 0 <= k < ts.len() && ts[k].remaining >= fee implies ts[last].remaining <= ts[k].remaining by {
                if k < last {
                    assert(w[k] == ts[k]);
                }
            }
            assert forall|k: int| 0 <= k < last && ts[k].remaining >= fee implies ts[last].remaining < ts[k].remaining by {
                assert(w[k] == ts[k]);
            }
            assert(is_selected(ts, fee, last));
        } else {
            assert forall|k: int| 0 <= k < ts.len() && ts[k].remaining >= fee implies ts[j].remaining <= ts[k].remaining by {
                if k < last {
                    assert(w[k] == ts[k]);
                }
            }
            assert forall|k: int| 0 <= k < j && ts[k].remaining >= fee implies ts[j].remaining < ts[k].remaining by {
                assert(w[k] == ts[k]);
            }
            assert(is_selected(ts, fee, j));
        }
    } else {
        let i = choose|i: int| 0 <= i < ts.len() && ts[i].remaining >= fee;
        if i < last {
            assert(w[i].remaining >= fee);
        }
        assert forall|k: int| 0 <= k < last implies ts[k].remaining < fee by {
            assert(w[k] == ts[k]);
        }
        assert(is_selected(ts, fee, last));
    }
}

/// Transfers do not pool collateral: while no transfer has run out of ids,
/// a borrow of `fee` finds a transfer to draw on exactly when one single
/// transfer has `fee` left.
pub proof fn lemma_no_sharing(ts: Seq<TransferView>, fee: nat, max_id: nat)
    requires
        forall|i: int| 0 <= i < ts.len() ==> !ids_exhausted(#[trigger] ts[i], max_id),
    ensures
        covers(ts, fee) <==> exists|i: int| #[trigger] is_selected(ts, fee, i) && !ids_exhausted(ts[i], max_id),
{
    if covers(ts, fee) {
        lemma_selected_exists(ts, fee);
        let i = choose|i: int| is_selected(ts, fee, i);
        assert(is_selected(ts, fee, i) && !ids_exhausted(ts[i], max_id));
    }
}

/// After a transfer's low-collateral warning has fired (its threshold is
/// cleared), a later borrow warns only at the id-capacity mark, which ids
/// pass once, and releases leave the threshold cleared. The first firing
/// clears it.
pub proof fn lemma_warning_latched(
    t: TransferView,
    fee: nat,
    pick: int,
    low_capacity: nat,
    id: nat,
    fee_field: nat,
    unlocked: nat,
    status: QueryStatus,
    unknown_is_failure: bool,
)
    requires
        t.remaining >= fee,
    ensures
        commit_warns(t, fee, low_capacity) ==> after_commit(t, fee, pick, low_capacity).threshold == 0,
        t.threshold == 0 && commit_warns(t, fee, low_capacity) ==> t.cache.len() == 0 && t.prev_id == low_capacity,
        after_commit(t, fee, pick, low_capacity).prev_id >= t.prev_id,
        t.cache.len() == 0 ==> after_commit(t, fee, pick, low_capacity).prev_id > t.prev_id,
        t.threshold == 0 ==> after_commit(t, fee, pick, low_capacity).threshold == 0,
        after_release(t, id, fee_field, unlocked, status, unknown_is_failure).threshold == t.threshold,
        after_release(t, id, fee_field, unlocked, status, unknown_is_failure).prev_id == t.prev_id,
{
}

/// What the outstanding receipts lock: each one's fee less what was settled before it.
pub open spec fn sum_locked(out: Seq<(nat, nat, nat)>) -> int
    decreases out.len(),
{
    if out.len() == 0 {
        0
    } else {
        sum_locked(out.drop_last()) + out.last().1 - out.last().2
    }
}

/// What the cached receipts have settled.
pub open spec fn sum_cached(c: Seq<(nat, nat)>) -> int
    decreases c.len(),
{
    if c.len() == 0 {
        0
    } else {
        sum_cached(c.drop_last()) + c.last().1
    }
}

/// The collateral of `t` is all accounted for, given the receipts `out`
/// that are out on loan.
pub open spec fn conserved(t: TransferView, out: Seq<(nat, nat, nat)>) -> bool {
    t.remaining + sum_locked(out) + sum_cached(t.cache) == t.initial
}

/// Each outstanding commitment's fee includes what was settled before it.
pub open spec fn well_formed_out(out: Seq<(nat, nat, nat)>) -> bool {
    forall|i: int| 0 <= i < out.len() ==> (#[trigger] out[i]).2 <= out[i].1
}

proof fn lemma_sums_nonneg(out: Seq<(nat, nat, nat)>, c: Seq<(nat, nat)>)
    requires
        well_formed_out(out),
    ensures
        sum_locked(out) >= 0,
        sum_cached(c) >= 0,
    decreases out.len() + c.len(),
{
    if out.len() > 0 {
        assert(out.last() == out[out.len() - 1]);
        lemma_sums_nonneg(out.drop_last(), c);
    } else if c.len() > 0 {
        lemma_sums_nonneg(out, c.drop_last());
    }
}

pub proof fn lemma_sum_cached_nonneg(c: Seq<(nat, nat)>)
    ensures
        sum_cached(c) >= 0,
    decreases c.len(),
{
    if c.len() > 0 {
        lemma_sum_cached_nonneg(c.drop_last());
    }
}

proof fn lemma_sum_cached_update(c: Seq<(nat, nat)>, k: int, x: (nat, nat))
    requires
        0 <= k < c.len(),
    ensures
        sum_cached(c.update(k, x)) == sum_cached(c) - c[k].1 + x.1,
    decreases c.len(),
{
    if k == c.len() - 1 {
        assert(c.update(k, x).drop_last() =~= c.drop_last());
    } else {
        assert(c.update(k, x).drop_last() =~= c.drop_last().update(k, x));
        lemma_sum_cached_update(c.drop_last(), k, x);
    }
}

proof fn lemma_sum_cached_swap_removed(c: Seq<(nat, nat)>, k: int)
    requires
        0 <= k < c.len(),
    ensures
        sum_cached(swap_removed(c, k)) == sum_cached(c) - c[k].1,
{
    lemma_sum_cached_update(c, k, c.last());
}

/// Collateral is conserved by a borrow: the transfer's remaining collateral,
/// what the receipts out on loan lock and what the cached receipts have
/// settled add up to the initial collateral before and after. Stated for a
/// borrow that takes a receipt with nothing settled on it yet; a recycled
/// receipt carries its settled fee into the commitment, which the sum does
/// not count.
pub proof fn lemma_commit_conserves(t: TransferView, out: Seq<(nat, nat, nat)>, fee: nat, pick: int, low_capacity: nat)
    requires
        conserved(t, out),
        t.remaining >= fee,
        fee < u256_modulus(),
        t.cache.len() > 0 ==> 0 <= pick < t.cache.len(),
        drawn(t, pick).1 == 0,
    ensures
        conserved(
            after_commit(t, fee, pick, low_capacity),
            out.push((drawn(t, pick).0, sat_add(drawn(t, pick).1, fee), drawn(t, pick).1)),
        ),
{
    let e = (drawn(t, pick).0, sat_add(drawn(t, pick).1, fee), drawn(t, pick).1);
    assert(out.push(e).drop_last() =~= out);
    if t.cache.len() > 0 {
        lemma_sum_cached_swap_removed(t.cache, pick);
    }
}

/// Collateral is conserved when a receipt out on loan comes back, whatever
/// the outcome, where an unknown outcome returns the collateral. Stated,
/// as for a borrow, for a receipt with nothing settled before it.
pub proof fn lemma_release_conserves(
    t: TransferView,
    out: Seq<(nat, nat, nat)>,
    e: (nat, nat, nat),
    status: QueryStatus,
    unknown_is_failure: bool,
)
    requires
        conserved(t, out.push(e)),
        well_formed_out(out.push(e)),
        t.initial < u256_modulus(),
        e.2 == 0,
        status == QueryStatus::Unknown ==> unknown_is_failure,
    ensures
        conserved(after_release(t, e.0, e.1, e.2, status, unknown_is_failure), out),
{
    assert(out.push(e).drop_last() =~= out);
    assert(out.push(e)[out.len() as int] == e);
    assert(well_formed_out(out)) by {
        assert forall|i: int| 0 <= i < out.len() implies (#[trigger] out[i]).2 <= out[i].1 by {
            assert(out.push(e)[i] == out[i]);
        }
    }
    lemma_sums_nonneg(out, t.cache);
    let c = t.cache;
    assert(c.push((e.0, e.1)).drop_last() =~= c);
    assert(c.push((e.0, e.2)).drop_last() =~= c);
}

/// The fees of the receipts out on loan, settled parts included.
pub open spec fn sum_fees(out: Seq<(nat, nat, nat)>) -> int
    decreases out.len(),
{
    if out.len() == 0 {
        0
    } else {
        sum_fees(out.drop_last()) + out.last().1
    }
}

/// The collateral of `t` is all accounted for: what is left, the whole fee
/// of each receipt out on loan `out`, and what the cached receipts settled.
pub open spec fn balanced(t: TransferView, out: Seq<(nat, nat, nat)>) -> bool {
    t.remaining + sum_fees(out) + sum_cached(t.cache) == t.initial
}

proof fn lemma_sum_fees_nonneg(out: Seq<(nat, nat, nat)>)
    ensures
        sum_fees(out) >= 0,
    decreases out.len(),
{
    if out.len() > 0 {
        lemma_sum_fees_nonneg(out.drop_last());
    }
}

proof fn lemma_cached_le_sum(c: Seq<(nat, nat)>, k: int)
    requires
        0 <= k < c.len(),
    ensures
        c[k].1 <= sum_cached(c),
    decreases c.len(),
{
    lemma_sum_cached_nonneg(c.drop_last());
    if k < c.len() - 1 {
        lemma_cached_le_sum(c.drop_last(), k);
    }
}

/// Collateral is conserved by every borrow: what is left, the fees of the
/// receipts out on loan and what the cached receipts settled add up to the
/// initial collateral before and after. The borrowed receipt's fee, its
/// settled part plus the fee locked now, does not saturate.
pub proof fn lemma_commit_balances(t: TransferView, out: Seq<(nat, nat, nat)>, fee: nat, pick: int, low_capacity: nat)
    requires
        balanced(t, out),
        t.remaining >= fee,
        t.initial < u256_modulus(),
        t.cache.len() > 0 ==> 0 <= pick < t.cache.len(),
    ensures
        drawn(t, pick).1 + fee < u256_modulus(),
        balanced(
            after_commit(t, fee, pick, low_capacity),
            out.push((drawn(t, pick).0, sat_add(drawn(t, pick).1, fee), drawn(t, pick).1)),
        ),
{
    let e = (drawn(t, pick).0, sat_add(drawn(t, pick).1, fee), drawn(t, pick).1);
    assert(out.push(e).drop_last() =~= out);
    lemma_sum_fees_nonneg(out);
    lemma_sum_cached_nonneg(t.cache);
    if t.cache.len() > 0 {
        lemma_cached_le_sum(t.cache, pick);
        lemma_sum_cached_swap_removed(t.cache, pick);
    }
}

/// Collateral is conserved by every release of a receipt out on loan,
/// where an unknown outcome returns the collateral: a success settles the
/// whole fee into the cache; a failure returns the locked part and caches
/// the settled part.
pub proof fn lemma_release_balances(
    t: TransferView,
    out: Seq<(nat, nat, nat)>,
    e: (nat, nat, nat),
    status: QueryStatus,
    unknown_is_failure: bool,
)
    requires
        balanced(t, out.push(e)),
        e.2 <= e.1,
        t.initial < u256_modulus(),
        status == QueryStatus::Unknown ==> unknown_is_failure,
    ensures
        balanced(after_release(t, e.0, e.1, e.2, status, unknown_is_failure), out),
{
    assert(out.push(e).drop_last() =~= out);
    lemma_sum_fees_nonneg(out);
    lemma_sum_cached_nonneg(t.cache);
    let c = t.cache;
    assert(c.push((e.0, e.1)).drop_last() =~= c);
    assert(c.push((e.0, e.2)).drop_last() =~= c);
}

/// The ids of the receipts out on loan, then of the cached ones.
pub open spec fn all_ids(out: Seq<(nat, nat, nat)>, c: Seq<(nat, nat)>) -> Seq<nat> {
    out.map_values(|e: (nat, nat, nat)| e.0) + c.map_values(|e: (nat, nat)| e.0)
}

/// No two receipts of `t`, out on loan or cached, share an id, and every
/// id lies in `1..=prev_id`, with `prev_id` at most `max_id`.
pub open spec fn ids_sound(t: TransferView, out: Seq<(nat, nat, nat)>, max_id: nat) -> bool {
    let ids = all_ids(out, t.cache);
    &&& t.prev_id <= max_id
    &&& forall|p: int, q: int| 0 <= p < ids.len() && 0 <= q < ids.len() && p != q ==> ids[p] != ids[q]
    &&& forall|p: int| 0 <= p < ids.len() ==> 1 <= #[trigger] ids[p] <= t.prev_id
}

/// A freshly added transfer, with nothing out on loan, is balanced and its
/// ids are sound: the laws above hold of every transfer from the start.
pub proof fn lemma_fresh_transfer(signer: Seq<u8>, tid: Seq<u8>, collateral: nat, max_id: nat)
    ensures
        balanced(fresh_transfer(signer, tid, collateral), Seq::empty()),
        ids_sound(fresh_transfer(signer, tid, collateral), Seq::empty(), max_id),
{
    let t = fresh_transfer(signer, tid, collateral);
    let out = Seq::<(nat, nat, nat)>::empty();
    assert(all_ids(out, t.cache) =~= Seq::<nat>::empty());
}

/// Receipt ids stay distinct and in range across a borrow: the borrowed
/// receipt's id is fresh, or leaves the cache for the loan.
pub proof fn lemma_commit_keeps_ids(
    t: TransferView,
    out: Seq<(nat, nat, nat)>,
    fee: nat,
    pick: int,
    low_capacity: nat,
    max_id: nat,
)
    requires
        ids_sound(t, out, max_id),
        !ids_exhausted(t, max_id),
        t.cache.len() > 0 ==> 0 <= pick < t.cache.len(),
    ensures
        ids_sound(
            after_commit(t, fee, pick, low_capacity),
            out.push((drawn(t, pick).0, sat_add(drawn(t, pick).1, fee), drawn(t, pick).1)),
            max_id,
        ),
{
    let e = (drawn(t, pick).0, sat_add(drawn(t, pick).1, fee), drawn(t, pick).1);
    let t2 = after_commit(t, fee, pick, low_capacity);
    let out2 = out.push(e);
    let c = t.cache;
    let a = out.len() as int;
    let m = c.len() as int;
    let ids = all_ids(out, c);
    let ids2 = all_ids(out2, t2.cache);
    assert(ids.len() == a + m);
    if m == 0 {
        assert(ids2 =~= ids.push(t.prev_id + 1)) by {
            assert(out2.map_values(|e: (nat, nat, nat)| e.0) =~= out.map_values(|e: (nat, nat, nat)| e.0).push(t.prev_id + 1));
        }
        assert forall|p: int| 0 <= p < ids2.len() implies 1 <= #[trigger] ids2[p] <= t2.prev_id by {
            if p < ids.len() {
                assert(ids2[p] == ids[p]);
            }
        }
        assert forall|p: int, q: int| 0 <= p < ids2.len() && 0 <= q < ids2.len() && p != q implies ids2[p] != ids2[q] by {
            if p < ids.len() {
                assert(ids2[p] == ids[p]);
                assert(1 <= ids[p] <= t.prev_id);
            }
            if q < ids.len() {
                assert(ids2[q] == ids[q]);
                assert(1 <= ids[q] <= t.prev_id);
            }
        }
    } else {
        let src = |p: int| -> int {
            if p < a {
                p
            } else if p == a {
                a + pick
            } else if p - a - 1 == pick {
                a + m - 1
            } else {
                p - 1
            }
        };
        assert(ids2.len() == ids.len());
        assert forall|p: int| 0 <= p < ids2.len() implies ids2[p] == ids[src(p)] && 0 <= src(p) < ids.len() by {
            if p < a {
                assert(ids2[p] == out2[p].0);
                assert(out2[p] == out[p]);
            } else if p == a {
                assert(ids2[p] == out2[p].0);
                assert(ids[a + pick] == c[pick].0);
            } else {
                let q = p - a - 1;
                assert(ids2[p] == t2.cache[q].0);
                if q == pick {
                    assert(ids[a + m - 1] == c[m - 1].0);
                } else {
                    assert(ids[a + q] == c[q].0);
                }
            }
        }
        assert forall|p: int| 0 <= p < ids2.len() implies 1 <= #[trigger] ids2[p] <= t2.prev_id by {
            assert(ids2[p] == ids[src(p)]);
        }
        assert forall|p: int, q: int| 0 <= p < ids2.len() && 0 <= q < ids2.len() && p != q implies ids2[p] != ids2[q] by {
            assert(ids2[p] == ids[src(p)]);
            assert(ids2[q] == ids[src(q)]);
            assert(src(p) != src(q));
        }
    }
}

/// Receipt ids stay distinct and in range when a receipt out on loan comes
/// back: its id moves to the cache, or is abandoned.
pub proof fn lemma_release_keeps_ids(
    t: TransferView,
    out: Seq<(nat, nat, nat)>,
    e: (nat, nat, nat),
    status: QueryStatus,
    unknown_is_failure: bool,
    max_id: nat,
)
    requires
        ids_sound(t, out.push(e), max_id),
    ensures
        ids_sound(after_release(t, e.0, e.1, e.2, status, unknown_is_failure), out, max_id),
{
    let t2 = after_release(t, e.0, e.1, e.2, status, unknown_is_failure);
    let a = out.len() as int;
    let m = t.cache.len() as int;
    let ids = all_ids(out.push(e), t.cache);
    let ids2 = all_ids(out, t2.cache);
    let kept = t2.cache.len() == m + 1;
    let src = |p: int| -> int {
        if p < a {
            p
        } else if p < a + m {
            p + 1
        } else {
            a
        }
    };
    assert forall|p: int| 0 <= p < ids2.len() implies ids2[p] == ids[src(p)] && 0 <= src(p) < ids.len() by {
        if p < a {
            assert(ids2[p] == out[p].0);
            assert(ids[p] == out.push(e)[p].0);
        } else if p < a + m {
            assert(ids2[p] == t2.cache[p - a].0);
            assert(ids[p + 1] == t.cache[p - a].0);
        } else {
            assert(ids2[p] == t2.cache[m].0);
            assert(ids[a] == out.push(e)[a].0);
        }
    }
    assert forall|p: int| 0 <= p < ids2.len() implies 1 <= #[trigger] ids2[p] <= t2.prev_id by {
        assert(ids2[p] == ids[src(p)]);
    }
    assert forall|p: int, q: int| 0 <= p < ids2.len() && 0 <= q < ids2.len() && p != q implies ids2[p] != ids2[q] by {
        assert(ids2[p] == ids[src(p)]);
        assert(ids2[q] == ids[src(q)]);
    }
}

} // verus!
