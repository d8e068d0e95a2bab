//! Transactional persistence of payout records.
//!
//! The store is modelled as the ordered sequence of rows; the unique
//! constraint on the idempotency key and the monotonic identifier counter
//! are invariants (`wf`). `insert_batch` is the conflict-safe upsert: an
//! item whose `(batch_id, external_id)` pair already has a row resolves to
//! the existing row's identifier instead of creating a second row.
//! `update_status` only applies transitions that the lifecycle allows, so
//! a stale writer can never move a record backwards.

use vstd::prelude::*;
use crate::models::{item_key, make_idempotency_key, BatchSummary, PayoutBatch, PayoutItem, PayoutRecord};
use crate::status::{can_transition, PayoutStatus};

verus! {

/// The record is the row of this batch item.
pub open spec fn rec_matches(r: PayoutRecord, bid: Seq<char>, eid: Seq<char>) -> bool {
    r.batch_id@ == bid && r.external_id@ == eid
}

/// The first (and, under `wf`, the only) row keyed by `(bid, eid)`.
pub open spec fn find_record(s: Seq<PayoutRecord>, bid: Seq<char>, eid: Seq<char>)
    -> Option<PayoutRecord>
    decreases s.len(),
{
    if s.len() == 0 {
        None
    } else if rec_matches(s[0], bid, eid) {
        Some(s[0])
    } else {
        find_record(s.subrange(1, s.len() as int), bid, eid)
    }
}

pub proof fn lemma_find_record_chars(s: Seq<PayoutRecord>, bid: Seq<char>, eid: Seq<char>)
    ensures
        match find_record(s, bid, eid) {
            None => forall|i: int| 0 <= i < s.len() ==> !rec_matches(#[trigger] s[i], bid, eid),
            Some(r) => rec_matches(r, bid, eid)
                && exists|i: int| 0 <= i < s.len() && s[i] == r,
        },
    decreases s.len(),
{
    if s.len() > 0 && !rec_matches(s[0], bid, eid) {
        let rest = s.subrange(1, s.len() as int);
        lemma_find_record_chars(rest, bid, eid);
        match find_record(s, bid, eid) {
            None => {
                assert forall|i: int| 0 <= i < s.len() implies !rec_matches(
                    #[trigger] s[i], bid, eid,
                ) by {
                    if i > 0 {
                        assert(rest[i - 1] == s[i]);
                    }
                }
            },
            Some(r) => {
                let i = choose|i: int| 0 <= i < rest.len() && rest[i] == r;
                assert(s[i + 1] == r);
            },
        }
    }
}

/// Appending a row never changes an already-found row.
pub proof fn lemma_find_record_push(
    s: Seq<PayoutRecord>,
    r: PayoutRecord,
    bid: Seq<char>,
    eid: Seq<char>,
)
    ensures
        find_record(s.push(r), bid, eid) == (if find_record(s, bid, eid) is Some {
            find_record(s, bid, eid)
        } else if rec_matches(r, bid, eid) {
            Some(r)
        } else {
            None
        }),
    decreases s.len(),
{
    let p = s.push(r);
    assert(p.len() == s.len() + 1);
    if s.len() == 0 {
        assert(p[0] == r);
        if rec_matches(r, bid, eid) {
            assert(find_record(p, bid, eid) == Some(r));
        } else {
            assert(p.subrange(1, p.len() as int) =~= Seq::<PayoutRecord>::empty());
            assert(find_record(p, bid, eid) == find_record(p.subrange(1, p.len() as int), bid, eid));
            assert(find_record(p, bid, eid) is None);
        }
    } else {
        assert(p[0] == s[0]);
        if rec_matches(s[0], bid, eid) {
            assert(find_record(p, bid, eid) == Some(s[0]));
            assert(find_record(s, bid, eid) == Some(s[0]));
        } else {
            assert(p.subrange(1, p.len() as int) =~= s.subrange(1, s.len() as int).push(r));
            lemma_find_record_push(s.subrange(1, s.len() as int), r, bid, eid);
            assert(find_record(p, bid, eid)
                == find_record(s.subrange(1, s.len() as int).push(r), bid, eid));
            assert(find_record(s, bid, eid)
                == find_record(s.subrange(1, s.len() as int), bid, eid));
        }
    }
}

/// A row found in a prefix is the row found in any extension.
pub proof fn lemma_find_record_prefix(
    s1: Seq<PayoutRecord>,
    s2: Seq<PayoutRecord>,
    bid: Seq<char>,
    eid: Seq<char>,
)
    requires
        find_record(s1, bid, eid) is Some,
    ensures
        find_record(s1 + s2, bid, eid) == find_record(s1, bid, eid),
    decreases s2.len(),
{
    if s2.len() == 0 {
        assert(s1 + s2 =~= s1);
    } else {
        lemma_find_record_prefix(s1, s2.drop_last(), bid, eid);
        assert(s1 + s2 =~= (s1 + s2.drop_last()).push(s2.last()));
        lemma_find_record_push(s1 + s2.drop_last(), s2.last(), bid, eid);
    }
}

/// The rows of one batch, in creation order.
pub open spec fn by_batch(s: Seq<PayoutRecord>, bid: Seq<char>) -> Seq<PayoutRecord>
    decreases s.len(),
{
    if s.len() == 0 {
        Seq::empty()
    } else {
        by_batch(s.drop_last(), bid) + (if s.last().batch_id@ == bid {
            seq![s.last()]
        } else {
            Seq::empty()
        })
    }
}

/// How many rows of the batch carry the given status.
pub open spec fn count_status(s: Seq<PayoutRecord>, bid: Seq<char>, st: PayoutStatus) -> nat
    decreases s.len(),
{
    if s.len() == 0 {
        0
    } else {
        count_status(s.drop_last(), bid, st) + (if s.last().batch_id@ == bid
            && s.last().status == st {
            1nat
        } else {
            0
        })
    }
}

/// A batch's row count is exactly the sum of its per-status counts: the
/// four statuses partition the batch.
pub proof fn lemma_summary_partition(s: Seq<PayoutRecord>, bid: Seq<char>)
    ensures
        by_batch(s, bid).len() == count_status(s, bid, PayoutStatus::Pending)
            + count_status(s, bid, PayoutStatus::Processing)
            + count_status(s, bid, PayoutStatus::Completed)
            + count_status(s, bid, PayoutStatus::Failed),
    decreases s.len(),
{
    if s.len() > 0 {
        lemma_summary_partition(s.drop_last(), bid);
    }
}

pub struct PayoutRepository {
    /// The rows, in creation order.
    pub records: Vec<PayoutRecord>,
    /// The next identifier to assign; all existing identifiers are below it.
    pub next_id: u64,
}

/// One item's fields, as they were persisted into a fresh row.
pub open spec fn item_fields_match(it: PayoutItem, r: PayoutRecord) -> bool {
    &&& r.external_id@ == it.external_id@
    &&& r.user_id@ == it.user_id@
    &&& r.amount_cents == it.amount_cents
    &&& r.pix_key@ == it.pix_key@
}

/// What one `insert_batch` call did: old rows kept verbatim, new rows
/// appended for this batch only, and every item resolved to the unique
/// row carrying its key.
pub open spec fn insert_batch_post(
    pre: PayoutRepository,
    post: PayoutRepository,
    bid: Seq<char>,
    items: Seq<PayoutItem>,
    now: u64,
    ids: Seq<u64>,
) -> bool {
    &&& post.records@.len() >= pre.records@.len()
    &&& post.records@.subrange(0, pre.records@.len() as int) == pre.records@
    &&& ids.len() == items.len()
    &&& pre.next_id <= post.next_id <= pre.next_id + items.len()
    &&& forall|i: int| pre.records@.len() <= i < post.records@.len() ==> {
            let r = #[trigger] post.records@[i];
            &&& r.batch_id@ == bid
            &&& r.status == PayoutStatus::Pending
            &&& r.created_at == now
            &&& r.updated_at == now
            &&& exists|k: int| 0 <= k < items.len() && item_fields_match(items[k], r)
        }
    &&& forall|k: int| 0 <= k < items.len() ==> (
            find_record(post.records@, bid, (#[trigger] items[k]).external_id@) matches Some(r)
                && ids[k] == r.id
        )
    &&& forall|k: int| 0 <= k < items.len() ==> (
            find_record(pre.records@, bid, (#[trigger] items[k]).external_id@) matches Some(r0)
                ==> ids[k] == r0.id
        )
}

/// Item-level uniqueness: two items of a batch sharing an `external_id`
/// resolve to the same persisted identifier, never to two rows.
pub proof fn lemma_item_level_uniqueness(
    pre: PayoutRepository,
    post: PayoutRepository,
    bid: Seq<char>,
    items: Seq<PayoutItem>,
    now: u64,
    ids: Seq<u64>,
    k1: int,
    k2: int,
)
    requires
        insert_batch_post(pre, post, bid, items, now, ids),
        0 <= k1 < items.len(),
        0 <= k2 < items.len(),
        items[k1].external_id@ == items[k2].external_id@,
    ensures
        ids[k1] == ids[k2],
{
    assert(find_record(post.records@, bid, items[k1].external_id@)
        == find_record(post.records@, bid, items[k2].external_id@));
}

impl PayoutRepository {
    /// The unique constraint on `(batch_id, external_id)`, the key-column
    /// derivation, and the monotone identifier counter.
    pub open spec fn wf(self) -> bool {
        &&& forall|i: int, j: int| 0 <= i < j < self.records@.len() ==> !(
                (#[trigger] self.records@[i]).batch_id@ == (#[trigger] self.records@[j]).batch_id@
                && self.records@[i].external_id@ == self.records@[j].external_id@
            )
        &&& forall|i: int| 0 <= i < self.records@.len() ==> (#[trigger] self.records@[i]).id
                < self.next_id
        &&& forall|i: int, j: int| 0 <= i < j < self.records@.len() ==> (
                #[trigger] self.records@[i]).id < (#[trigger] self.records@[j]).id
        &&& forall|i: int| 0 <= i < self.records@.len() ==> (
                #[trigger] self.records@[i]).idempotency_key@
                == item_key(self.records@[i].batch_id@, self.records@[i].external_id@)
    }

    pub fn new() -> (r: Self)
        ensures
            r.wf(),
            r.records@.len() == 0,
            r.next_id == 0,
    {
        PayoutRepository { records: Vec::new(), next_id: 0 }
    }

    /// The identifier of the row keyed by `(batch_id, external_id)`, if
    /// such a row exists.
    fn find_by_key(&self, batch_id: &String, external_id: &String) -> (r: Option<u64>)
        ensures
            match r {
                Some(id) => find_record(self.records@, batch_id@, external_id@) matches Some(rec)
                    && rec.id == id,
                None => find_record(self.records@, batch_id@, external_id@) is None,
            },
    {
        let n = self.records.len();
        let mut i: usize = 0;
        proof {
            assert(self.records@.subrange(0, n as int) =~= self.records@);
        }
        while i < n
            invariant
                i <= n,
                n == self.records@.len(),
                find_record(self.records@, batch_id@, external_id@)
                    == find_record(self.records@.subrange(i as int, n as int), batch_id@,
                        external_id@),
            decreases n - i,
        {
            let rec = &self.records[i];
            let ghost suffix = self.records@.subrange(i as int, n as int);
            proof {
                assert(suffix[0] == self.records@[i as int]);
                assert(suffix.subrange(1, suffix.len() as int)
                    =~= self.records@.subrange(i + 1 as int, n as int));
            }
            if rec.batch_id == *batch_id && rec.external_id == *external_id {
                return Some(rec.id);
            }
            i = i + 1;
        }
        proof {
            assert(self.records@.subrange(n as int, n as int) =~= Seq::<PayoutRecord>::empty());
        }
        None
    }

    /// Inserts the batch as one all-or-nothing unit: each item is upserted
    /// on its idempotency key, so re-submitting a batch returns the same
    /// identifiers instead of erroring or duplicating rows.
    pub fn insert_batch(&mut self, batch: &PayoutBatch, now: u64) -> (ids: Vec<u64>)
        requires
            old(self).wf(),
            old(self).next_id + batch.items@.len() <= u64::MAX,
        ensures
            final(self).wf(),
            insert_batch_post(*old(self), *final(self), batch.batch_id@, batch.items@, now, ids@),
    {
        let ghost pre = *self;
        let mut ids: Vec<u64> = Vec::new();
        let mut k: usize = 0;
        let n_items = batch.items.len();
        while k < n_items
            invariant
                self.wf(),
                k <= n_items,
                n_items == batch.items@.len(),
                ids@.len() == k,
                self.next_id + (n_items - k) <= u64::MAX,
                pre.next_id <= self.next_id <= pre.next_id + k,
                self.records@.len() >= pre.records@.len(),
                self.records@.subrange(0, pre.records@.len() as int) == pre.records@,
                forall|i: int| pre.records@.len() <= i < self.records@.len() ==> {
                    let r = #[trigger] self.records@[i];
                    &&& r.batch_id@ == batch.batch_id@
                    &&& r.status == PayoutStatus::Pending
                    &&& r.created_at == now
                    &&& r.updated_at == now
                    &&& exists|kk: int| 0 <= kk < n_items
                        && item_fields_match(batch.items@[kk], r)
                },
                forall|kk: int| 0 <= kk < k ==> (
                    find_record(self.records@, batch.batch_id@,
                        (#[trigger] batch.items@[kk]).external_id@) matches Some(r)
                        && ids@[kk] == r.id
                ),
                forall|kk: int| 0 <= kk < k ==> (
                    find_record(pre.records@, batch.batch_id@,
                        (#[trigger] batch.items@[kk]).external_id@) matches Some(r0)
                        ==> ids@[kk] == r0.id
                ),
            decreases n_items - k,
        {
            let item = &batch.items[k];
            proof {
                if find_record(pre.records@, batch.batch_id@, item.external_id@) is Some {
                    lemma_find_record_prefix(
                        pre.records@,
                        self.records@.subrange(pre.records@.len() as int,
                            self.records@.len() as int),
                        batch.batch_id@,
                        item.external_id@,
                    );
                    assert(pre.records@ + self.records@.subrange(pre.records@.len() as int,
                        self.records@.len() as int) =~= self.records@);
                }
            }
            match self.find_by_key(&batch.batch_id, &item.external_id) {
                Some(id) => {
                    ids.push(id);
                },
                None => {
                    proof {
                        lemma_find_record_chars(self.records@, batch.batch_id@,
                            item.external_id@);
                    }
                    let id = self.next_id;
                    self.next_id = self.next_id + 1;
                    let rec = PayoutRecord {
                        id,
                        batch_id: batch.batch_id.clone(),
                        external_id: item.external_id.clone(),
                        user_id: item.user_id.clone(),
                        amount_cents: item.amount_cents,
                        pix_key: item.pix_key.clone(),
                        status: PayoutStatus::Pending,
                        created_at: now,
                        updated_at: now,
                        idempotency_key: make_idempotency_key(batch.batch_id.as_str(),
                            item.external_id.as_str()),
                    };
                    let ghost before = self.records@;
                    self.records.push(rec);
                    proof {
                        assert(self.records@.drop_last() =~= before);
                        assert(self.records@.subrange(0, pre.records@.len() as int)
                            =~= before.subrange(0, pre.records@.len() as int));
                        assert forall|kk: int| 0 <= kk < k + 1 implies (
                            find_record(self.records@, batch.batch_id@,
                                (#[trigger] batch.items@[kk]).external_id@) matches Some(r)
                                && ids@.push(id as u64)[kk] == r.id
                        ) by {
                            lemma_find_record_push(before, rec, batch.batch_id@,
                                batch.items@[kk].external_id@);
                        }
                    }
                    ids.push(id);
                },
            }
            k = k + 1;
        }
        ids
    }

    /// Applies `status` to the record `id` only if the lifecycle allows
    /// the transition from the record's current status; otherwise the
    /// record is left untouched and `false` is returned.
    pub fn update_status(&mut self, id: u64, status: PayoutStatus, now: u64) -> (applied: bool)
        requires
            old(self).wf(),
        ensures
            final(self).wf(),
            final(self).next_id == old(self).next_id,
            final(self).records@.len() == old(self).records@.len(),
            forall|i: int| 0 <= i < old(self).records@.len()
                && (#[trigger] old(self).records@[i]).id != id
                ==> final(self).records@[i] == old(self).records@[i],
            forall|i: int| 0 <= i < old(self).records@.len()
                && (#[trigger] old(self).records@[i]).id == id
                ==> updated_record(old(self).records@[i], final(self).records@[i], status, now),
            applied == exists|i: int| 0 <= i < old(self).records@.len()
                && (#[trigger] old(self).records@[i]).id == id
                && can_transition(old(self).records@[i].status, status),
    {
        let n = self.records.len();
        let mut i: usize = 0;
        while i < n
            invariant
                i <= n,
                n == self.records@.len(),
                self.wf(),
                self.records@ == old(self).records@,
                self.next_id == old(self).next_id,
                forall|j: int| 0 <= j < i ==> (#[trigger] self.records@[j]).id != id,
            decreases n - i,
        {
            if self.records[i].id == id {
                let allowed = self.records[i].status.allows_transition_to(status);
                if allowed {
                    let ghost before = self.records@;
                    let mut rec = self.records.remove(i);
                    rec.status = status;
                    rec.updated_at = now;
                    self.records.insert(i, rec);
                    proof {
                        assert(self.records@ =~= before.update(i as int, self.records@[i as int]));
                    }
                    return true;
                } else {
                    return false;
                }
            }
            i = i + 1;
        }
        false
    }

    /// All rows of the batch, in creation order.
    pub fn list_by_batch(&self, batch_id: &str) -> (r: Vec<PayoutRecord>)
        ensures
            r@ == by_batch(self.records@, batch_id@),
    {
        let key = batch_id.to_owned();
        let n = self.records.len();
        let mut out: Vec<PayoutRecord> = Vec::new();
        let mut i: usize = 0;
        while i < n
            invariant
                i <= n,
                n == self.records@.len(),
                key@ == batch_id@,
                out@ == by_batch(self.records@.take(i as int), batch_id@),
            decreases n - i,
        {
            proof {
                assert(self.records@.take(i + 1 as int).drop_last()
                    =~= self.records@.take(i as int));
                assert(self.records@.take(i + 1 as int).last() == self.records@[i as int]);
            }
            if self.records[i].batch_id == key {
                out.push(self.records[i].clone());
                proof {
                    assert(out@ =~= by_batch(self.records@.take(i + 1 as int), batch_id@));
                }
            } else {
                proof {
                    assert(out@ =~= by_batch(self.records@.take(i + 1 as int), batch_id@));
                }
            }
            i = i + 1;
        }
        proof {
            assert(self.records@.take(n as int) =~= self.records@);
        }
        out
    }

    /// The batch's rows together with the derived summary: one aggregate
    /// pass counting rows per status.
    pub fn get_batch_with_summary(&self, batch_id: &str) -> (r: (Vec<PayoutRecord>, BatchSummary))
        ensures
            r.0@ == by_batch(self.records@, batch_id@),
            r.1.total == by_batch(self.records@, batch_id@).len(),
            r.1.pending == count_status(self.records@, batch_id@, PayoutStatus::Pending),
            r.1.processing == count_status(self.records@, batch_id@, PayoutStatus::Processing),
            r.1.completed == count_status(self.records@, batch_id@, PayoutStatus::Completed),
            r.1.failed == count_status(self.records@, batch_id@, PayoutStatus::Failed),
            r.1.total == r.1.pending + r.1.processing + r.1.completed + r.1.failed,
    {
        let payouts = self.list_by_batch(batch_id);
        let key = batch_id.to_owned();
        let n = self.records.len();
        let mut pending: usize = 0;
        let mut processing: usize = 0;
        let mut completed: usize = 0;
        let mut failed: usize = 0;
        let mut i: usize = 0;
        while i < n
            invariant
                i <= n,
                n == self.records@.len(),
                key@ == batch_id@,
                pending == count_status(self.records@.take(i as int), batch_id@,
                    PayoutStatus::Pending),
                processing == count_status(self.records@.take(i as int), batch_id@,
                    PayoutStatus::Processing),
                completed == count_status(self.records@.take(i as int), batch_id@,
                    PayoutStatus::Completed),
                failed == count_status(self.records@.take(i as int), batch_id@,
                    PayoutStatus::Failed),
                pending <= i && processing <= i && completed <= i && failed <= i,
            decreases n - i,
        {
            proof {
                assert(self.records@.take(i + 1 as int).drop_last()
                    =~= self.records@.take(i as int));
                assert(self.records@.take(i + 1 as int).last() == self.records@[i as int]);
            }
            if self.records[i].batch_id == key {
                match self.records[i].status {
                    PayoutStatus::Pending => { pending = pending + 1; },
                    PayoutStatus::Processing => { processing = processing + 1; },
                    PayoutStatus::Completed => { completed = completed + 1; },
                    PayoutStatus::Failed => { failed = failed + 1; },
                }
            }
            i = i + 1;
        }
        proof {
            assert(self.records@.take(n as int) =~= self.records@);
            lemma_summary_partition(self.records@, batch_id@);
        }
        let total = payouts.len();
        (payouts, BatchSummary { total, completed, failed, processing, pending })
    }
}

/// The conditional-update outcome for the targeted record: the new status
/// and a fresh `updated_at` when the transition is allowed, the untouched
/// record when it is not.
pub open spec fn updated_record(r0: PayoutRecord, r1: PayoutRecord, status: PayoutStatus, now: u64)
    -> bool {
    if can_transition(r0.status, status) {
        &&& r1.status == status
        &&& r1.updated_at == now
        &&& r1.id == r0.id
        &&& r1.batch_id == r0.batch_id
        &&& r1.external_id == r0.external_id
        &&& r1.user_id == r0.user_id
        &&& r1.amount_cents == r0.amount_cents
        &&& r1.pix_key == r0.pix_key
        &&& r1.created_at == r0.created_at
        &&& r1.idempotency_key == r0.idempotency_key
    } else {
        r1 == r0
    }
}

} // verus!
