use vstd::prelude::*;

use super::receipt::{null_receipt, Receipt, ID};

verus! {

#[derive(Debug, PartialEq, Eq)]
pub enum Error {
    DuplicateID,
    InvalidID,
}

/// Some receipt of `s` carries `id`.
pub open spec fn has_id(s: Seq<Receipt>, id: ID) -> bool {
    exists|i: int| 0 <= i < s.len() && s[i].id == id
}

/// No two receipts of `s` share an id.
pub open spec fn unique_ids(s: Seq<Receipt>) -> bool {
    forall|i: int, j: int| 0 <= i < s.len() && 0 <= j < s.len() && i != j ==> s[i].id != s[j].id
}

/// The ids of `s` strictly decrease.
pub open spec fn descending(s: Seq<Receipt>) -> bool {
    forall|i: int, j: int| 0 <= i < j < s.len() ==> s[i].id > s[j].id
}

/// `a` and `b` hold the same receipts.
pub open spec fn same_receipts(a: Seq<Receipt>, b: Seq<Receipt>) -> bool {
    &&& a.len() == b.len()
    &&& forall|r: Receipt| a.contains(r) <==> b.contains(r)
}

/// The row for `id`: the receipt of `s` that carries it, else the placeholder.
pub open spec fn row(s: Seq<Receipt>, id: ID) -> Receipt {
    if has_id(s, id) {
        s[choose|i: int| 0 <= i < s.len() && s[i].id == id]
    } else {
        null_receipt(id)
    }
}

proof fn lemma_row_at(s: Seq<Receipt>, i: int)
    requires
        unique_ids(s),
        0 <= i < s.len(),
    ensures
        row(s, s[i].id) == s[i],
{
    assert(has_id(s, s[i].id));
}

/// Two receipts of `s` trade places.
proof fn lemma_swap(s: Seq<Receipt>, a: int, b: int)
    requires
        0 <= a < s.len(),
        0 <= b < s.len(),
    ensures
        same_receipts(s.update(a, s[b]).update(b, s[a]), s),
        unique_ids(s) ==> unique_ids(s.update(a, s[b]).update(b, s[a])),
{
    let t = s.update(a, s[b]).update(b, s[a]);
    assert forall|p: int| 0 <= p < t.len() implies t[p] == s[if p == a { b } else if p == b { a } else { p }] by {}
    assert forall|r: Receipt| t.contains(r) <==> s.contains(r) by {
        if t.contains(r) {
            let p = choose|p: int| 0 <= p < t.len() && t[p] == r;
            let q = if p == a { b } else if p == b { a } else { p };
            assert(s[q] == r);
        }
        if s.contains(r) {
            let p = choose|p: int| 0 <= p < s.len() && s[p] == r;
            let q = if p == a { b } else if p == b { a } else { p };
            assert(t[q] == r);
        }
    }
    if unique_ids(s) {
        assert forall|p: int, q: int| 0 <= p < t.len() && 0 <= q < t.len() && p != q implies t[p].id != t[q].id by {
            let sp = if p == a { b } else if p == b { a } else { p };
            let sq = if q == a { b } else if q == b { a } else { q };
            assert(t[p] == s[sp]);
            assert(t[q] == s[sq]);
        }
    }
}

/// Orders receipts with distinct ids by id, largest first.
fn sort_descending(v: &mut Vec<Receipt>)
    requires
        unique_ids(old(v)@),
    ensures
        unique_ids(final(v)@),
        descending(final(v)@),
        same_receipts(final(v)@, old(v)@),
{
    let n = v.len();
    let mut i: usize = 0;
    while i < n
        invariant
            n == v@.len(),
            0 <= i <= n,
            unique_ids(v@),
            same_receipts(v@, old(v)@),
            forall|a: int, b: int| 0 <= a < b < i ==> v@[a].id > v@[b].id,
            forall|a: int, b: int| 0 <= a < i <= b < n ==> v@[a].id > v@[b].id,
        decreases n - i,
    {
        let mut m: usize = i;
        let mut k: usize = i + 1;
        while k < n
            invariant
                n == v@.len(),
                i < n,
                i <= m < n,
                i + 1 <= k <= n,
                forall|q: int| i <= q < k ==> v@[m as int].id >= v@[q].id,
            decreases n - k,
        {
            if v[k].id > v[m].id {
                m = k;
            }
            k += 1;
        }
        let ghost before = v@;
        let a = v[i];
        let b = v[m];
        v.set(i, b);
        v.set(m, a);
        proof {
            assert(v@ =~= before.update(i as int, before[m as int]).update(m as int, before[i as int]));
            lemma_swap(before, i as int, m as int);
            let after = v@;
            assert forall|p: int| 0 <= p < n implies after[p] == before[if p == i { m as int } else if p == m { i as int } else { p }] by {}
            assert forall|x: int, y: int| 0 <= x < y < i + 1 implies after[x].id > after[y].id by {
                if y == i {
                    assert(after[y] == before[m as int]);
                }
            }
            assert forall|x: int, y: int| 0 <= x < i + 1 <= y < n implies after[x].id > after[y].id by {
                let sy = if y == m { i as int } else { y };
                assert(after[y] == before[sy]);
                if x == i {
                    assert(after[x] == before[m as int]);
                    assert(before[m as int].id >= before[sy].id);
                    assert(sy != m as int);
                }
            }
        }
        i += 1;
    }
}

/// Validates the receipts and orders them for the rows `0, 1, ...,
/// MAX_ID - 1`: by id, largest first, so that the next row's receipt, if
/// any, is the last.
pub fn rows(receipts: Vec<Receipt>) -> (r: Result<RowIterator, Error>)
    ensures
        (exists|i: int| 0 <= i < receipts@.len() && receipts@[i].id > Receipt::MAX_ID) ==> r
            == Err::<RowIterator, Error>(Error::InvalidID),
        (forall|i: int| 0 <= i < receipts@.len() ==> receipts@[i].id <= Receipt::MAX_ID) ==> (
        r == Err::<RowIterator, Error>(Error::DuplicateID) <==> !unique_ids(receipts@)),
        r is Ok <==> (forall|i: int| 0 <= i < receipts@.len() ==> receipts@[i].id <= Receipt::MAX_ID)
            && unique_ids(receipts@),
        r matches Ok(it) ==> {
            &&& it.wf()
            &&& it.cursor() == 0
            &&& descending(it.pending())
            &&& same_receipts(it.pending(), receipts@)
        },
{
    let n = receipts.len();
    let mut i: usize = 0;
    while i < n
        invariant
            n == receipts@.len(),
            0 <= i <= n,
            forall|k: int| 0 <= k < i ==> receipts@[k].id <= Receipt::MAX_ID,
        decreases n - i,
    {
        if receipts[i].id > Receipt::MAX_ID {
            return Err(Error::InvalidID);
        }
        i += 1;
    }
    let mut i: usize = 0;
    while i < n
        invariant
            n == receipts@.len(),
            0 <= i <= n,
            forall|k: int| 0 <= k < n ==> receipts@[k].id <= Receipt::MAX_ID,
            forall|a: int, b: int| 0 <= a < i && 0 <= b < n && a != b ==> receipts@[a].id != receipts@[b].id,
        decreases n - i,
    {
        let mut j: usize = 0;
        while j < n
            invariant
                n == receipts@.len(),
                0 <= i < n,
                0 <= j <= n,
                forall|k: int| 0 <= k < n ==> receipts@[k].id <= Receipt::MAX_ID,
                forall|a: int, b: int| 0 <= a < i && 0 <= b < n && a != b ==> receipts@[a].id != receipts@[b].id,
                forall|b: int| 0 <= b < j && b != i ==> receipts@[i as int].id != receipts@[b].id,
            decreases n - j,
        {
            if j != i && receipts[i].id == receipts[j].id {
                return Err(Error::DuplicateID);
            }
            j += 1;
        }
        i += 1;
    }
    let mut receipts = receipts;
    sort_descending(&mut receipts);
    Ok(RowIterator { id: 0, receipts })
}

/// Walks the rows in ascending id order.
#[derive(Debug, PartialEq, Eq)]
pub struct RowIterator {
    id: ID,
    receipts: Vec<Receipt>,
}

impl RowIterator {
    /// The id of the next row.
    pub closed spec fn cursor(&self) -> ID {
        self.id
    }

    /// The receipts not handed out yet, by id, largest first.
    pub closed spec fn pending(&self) -> Seq<Receipt> {
        self.receipts@
    }

    pub closed spec fn wf(&self) -> bool {
        &&& self.id <= Receipt::MAX_ID
        &&& unique_ids(self.receipts@)
        &&& descending(self.receipts@)
        &&& forall|k: int| 0 <= k < self.receipts@.len() ==> self.receipts@[k].id >= self.id
    }

    /// Hands out the row at the cursor and moves past it; `None` once the
    /// cursor reaches `MAX_ID`. The row is the last pending receipt when it
    /// carries the cursor's id, which then leaves; else a placeholder.
    pub fn next(&mut self) -> (r: Option<Receipt>)
        requires
            old(self).wf(),
        ensures
            final(self).wf(),
            old(self).cursor() == Receipt::MAX_ID ==> r is None && *final(self) == *old(self),
            old(self).cursor() < Receipt::MAX_ID ==> {
                let p = old(self).pending();
                &&& r == Some(row(p, old(self).cursor()))
                &&& final(self).cursor() == old(self).cursor() + 1
                &&& if p.len() > 0 && p.last().id == old(self).cursor() {
                    r == Some(p.last()) && final(self).pending() == p.drop_last()
                } else {
                    r == Some(null_receipt(old(self).cursor())) && final(self).pending() == p
                }
            },
    {
        let id = self.id;
        if id == Receipt::MAX_ID {
            return None;
        }
        self.id = id + 1;
        let ghost before = self.receipts@;
        let n = self.receipts.len();
        if n > 0 && self.receipts[n - 1].id == id {
            let found = self.receipts.pop().unwrap();
            proof {
                lemma_row_at(before, n - 1);
                assert(self.receipts@ =~= before.drop_last());
            }
            Some(found)
        } else {
            proof {
                assert forall|k: int| 0 <= k < n implies before[k].id != id by {
                    if k < n - 1 {
                        assert(before[k].id > before[n - 1].id);
                    }
                }
                assert(!has_id(before, id));
            }
            Some(Receipt::null(id))
        }
    }

    /// The number of rows left to hand out.
    pub fn count(self) -> (r: usize)
        requires
            self.wf(),
        ensures
            r == Receipt::MAX_ID - self.cursor(),
    {
        (Receipt::MAX_ID - self.id) as usize
    }
}

} // verus!
