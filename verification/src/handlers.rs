//! Batch ingestion and batch status: the two request-facing operations.
//!
//! `receive_batch` is the deduplicating write path: a submission whose
//! response is still cached is replayed byte for byte; a submission whose
//! lock another request holds is refused as a conflict; only a fresh
//! submission inserts rows, publishes one creation event per row, and
//! caches its response. `get_batch_status` is the pure read path.

use vstd::prelude::*;
use crate::codec::{encode_batch_response, event_json, response_json};
use crate::idempotency::IdempotencyService;
use crate::models::{
    batch_key, BatchStatusResponse, PayoutBatch, LOCK_TTL_SECONDS, RESULT_TTL_SECONDS,
};
use crate::pubsub::PubSubService;
use crate::repository::{by_batch, count_status, insert_batch_post, PayoutRepository};
use crate::status::PayoutStatus;
use crate::text::json_safe;

verus! {

/// Every service the pipeline runs against, built once at startup and
/// handed to each request and worker.
pub struct AppState {
    pub idempotency: IdempotencyService,
    pub repository: PayoutRepository,
    pub pubsub: PubSubService,
}

impl AppState {
    pub open spec fn wf(self) -> bool {
        self.repository.wf() && self.pubsub.wf()
    }

    pub fn new() -> (r: Self)
        ensures
            r.wf(),
            r.repository.records@.len() == 0,
            r.repository.next_id == 0,
            r.pubsub.entries@.len() == 0,
            !r.pubsub.group_created,
            r.idempotency.locks_view() == Map::<Seq<char>, u64>::empty(),
            r.idempotency.results_view() == Map::<Seq<char>, (Seq<char>, u64)>::empty(),
    {
        AppState {
            idempotency: IdempotencyService::new(),
            repository: PayoutRepository::new(),
            pubsub: PubSubService::new(),
        }
    }
}

/// The three outcomes of a batch submission.
pub enum IngestResponse {
    /// First acceptance: the body was built, cached, and returned with a
    /// "created" status.
    Created { body: String, payout_ids: Vec<u64> },
    /// Idempotent replay: the stored body of the earlier acceptance,
    /// returned verbatim with a success status.
    Replayed { body: String },
    /// A submission of the same batch is in flight elsewhere.
    Conflict,
}

/// Ingests one batch submission, deduplicated at the request level by
/// the batch's idempotency key.
pub fn receive_batch(state: &mut AppState, batch: &PayoutBatch, now: u64)
    -> (r: IngestResponse)
    requires
        old(state).wf(),
        now + RESULT_TTL_SECONDS <= u64::MAX,
        old(state).repository.next_id + batch.items@.len() <= u64::MAX,
    ensures
        final(state).wf(),
        match r {
            IngestResponse::Replayed { body } => {
                &&& old(state).idempotency.cached(batch_key(batch.batch_id@), now)
                    == Some(body@)
                &&& *final(state) == *old(state)
            },
            IngestResponse::Conflict => {
                &&& old(state).idempotency.cached(batch_key(batch.batch_id@), now) is None
                &&& old(state).idempotency.lock_active(batch_key(batch.batch_id@), now)
                &&& final(state).idempotency.locks_view()
                    == old(state).idempotency.locks_view()
                &&& final(state).idempotency.results_view()
                    == old(state).idempotency.results_view()
                &&& final(state).repository == old(state).repository
                &&& final(state).pubsub == old(state).pubsub
            },
            IngestResponse::Created { body, payout_ids } => {
                &&& old(state).idempotency.cached(batch_key(batch.batch_id@), now) is None
                &&& !old(state).idempotency.lock_active(batch_key(batch.batch_id@), now)
                &&& insert_batch_post(old(state).repository, final(state).repository,
                    batch.batch_id@, batch.items@, now, payout_ids@)
                &&& body@ == response_json(batch.batch_id@, payout_ids@)
                &&& final(state).idempotency.locks_view()
                    == old(state).idempotency.locks_view().insert(batch_key(batch.batch_id@),
                        (now + LOCK_TTL_SECONDS) as u64)
                &&& final(state).idempotency.results_view()
                    == old(state).idempotency.results_view().insert(batch_key(batch.batch_id@),
                        (body@, (now + RESULT_TTL_SECONDS) as u64))
                &&& final(state).idempotency.cached(batch_key(batch.batch_id@), now)
                    == Some(body@)
                &&& final(state).pubsub.entries@.len()
                    == old(state).pubsub.entries@.len() + payout_ids@.len()
                &&& forall|i: int| 0 <= i < old(state).pubsub.entries@.len()
                    ==> final(state).pubsub.entries@[i] == old(state).pubsub.entries@[i]
                &&& exists|tss: Seq<Seq<char>>| #[trigger] tss.len() == payout_ids@.len()
                    && forall|k: int| 0 <= k < payout_ids@.len()
                        ==> json_safe(#[trigger] tss[k])
                            && final(state).pubsub.entries@[
                                old(state).pubsub.entries@.len() + k]@
                                == event_json(payout_ids@[k], "payout.created"@, tss[k])
                &&& final(state).pubsub.group_created == old(state).pubsub.group_created
                &&& final(state).pubsub.next_delivery == old(state).pubsub.next_delivery
                &&& final(state).pubsub.pending@ == old(state).pubsub.pending@
            },
        },
{
    let key = crate::models::make_batch_key(batch.batch_id.as_str());
    if let Some(cached) = state.idempotency.get_result(key.as_str(), now) {
        return IngestResponse::Replayed { body: cached };
    }
    if !state.idempotency.check_and_lock(key.as_str(), LOCK_TTL_SECONDS, now) {
        return IngestResponse::Conflict;
    }
    let ids = state.repository.insert_batch(batch, now);
    let ghost mid = *state;
    let ghost mut stamps: Seq<Seq<char>> = Seq::empty();
    let n = ids.len();
    let mut k: usize = 0;
    while k < n
        invariant
            k <= n,
            n == ids@.len(),
            state.repository == mid.repository,
            state.idempotency == mid.idempotency,
            state.pubsub.entries@.len() == mid.pubsub.entries@.len() + k,
            forall|i: int| 0 <= i < mid.pubsub.entries@.len()
                ==> #[trigger] state.pubsub.entries@[i] == mid.pubsub.entries@[i],
            stamps.len() == k,
            forall|t: int| 0 <= t < k ==> json_safe(#[trigger] stamps[t])
                && state.pubsub.entries@[mid.pubsub.entries@.len() + t]@
                    == event_json(ids@[t], "payout.created"@, stamps[t]),
            state.pubsub.group_created == mid.pubsub.group_created,
            state.pubsub.next_delivery == mid.pubsub.next_delivery,
            state.pubsub.pending@ == mid.pubsub.pending@,
            state.pubsub.wf(),
        decreases n - k,
    {
        state.pubsub.publish_payout_event(ids[k], "payout.created");
        proof {
            let ts = choose|ts: Seq<char>| json_safe(ts)
                && state.pubsub.entries@.last()@
                    == event_json(ids@[k as int], "payout.created"@, ts);
            stamps = stamps.push(ts);
        }
        k = k + 1;
    }
    let ghost done = *state;
    let body = encode_batch_response(batch.batch_id.as_str(), &ids);
    state.idempotency.store_result(key.as_str(), body.as_str(), RESULT_TTL_SECONDS, now);
    proof {
        assert(state.pubsub == done.pubsub);
        assert(mid.pubsub.entries@.len() == old(state).pubsub.entries@.len());
        assert forall|t: int| 0 <= t < ids@.len() implies json_safe(#[trigger] stamps[t])
            && state.pubsub.entries@[old(state).pubsub.entries@.len() + t]@
                == event_json(ids@[t], "payout.created"@, stamps[t]) by {
            assert(json_safe(stamps[t])
                && done.pubsub.entries@[mid.pubsub.entries@.len() + t]@
                    == event_json(ids@[t], "payout.created"@, stamps[t]));
            assert(state.pubsub.entries@[old(state).pubsub.entries@.len() + t]
                == done.pubsub.entries@[mid.pubsub.entries@.len() + t]);
        }
        assert(stamps.len() == ids@.len());
    }
    IngestResponse::Created { body, payout_ids: ids }
}

/// The read-only view of one batch: its rows in creation order and the
/// derived summary. Safe to retry indefinitely.
pub fn get_batch_status(state: &AppState, batch_id: &str) -> (r: BatchStatusResponse)
    ensures
        r.batch_id@ == batch_id@,
        r.payouts@ == by_batch(state.repository.records@, batch_id@),
        r.summary.total == by_batch(state.repository.records@, batch_id@).len(),
        r.summary.pending == count_status(state.repository.records@, batch_id@,
            PayoutStatus::Pending),
        r.summary.processing == count_status(state.repository.records@, batch_id@,
            PayoutStatus::Processing),
        r.summary.completed == count_status(state.repository.records@, batch_id@,
            PayoutStatus::Completed),
        r.summary.failed == count_status(state.repository.records@, batch_id@,
            PayoutStatus::Failed),
        r.summary.total == r.summary.pending + r.summary.processing + r.summary.completed
            + r.summary.failed,
{
    let (payouts, summary) = state.repository.get_batch_with_summary(batch_id);
    BatchStatusResponse { batch_id: batch_id.to_owned(), payouts, summary }
}

/// Once an accepted submission's body sits in the result cache, any
/// identical submission before the cache entry expires observes exactly
/// that body: together with the `Replayed` arm of `receive_batch`, the
/// second submission returns it byte for byte and touches nothing.
pub proof fn lemma_replay_window(s: AppState, bid: Seq<char>, body: Seq<char>, expiry: u64,
    now2: u64)
    requires
        s.idempotency.results_view().contains_key(batch_key(bid)),
        s.idempotency.results_view()[batch_key(bid)] == (body, expiry),
        now2 < expiry,
    ensures
        s.idempotency.cached(batch_key(bid), now2) == Some(body),
{
}

/// From the instant one submission of a never-before-seen batch takes
/// the lock until the lock expires, the lock stays observably active:
/// in that window — and before the first submission caches its result —
/// the `Conflict` arm of `receive_batch` is the only one open to a
/// concurrent identical submission, so exactly one of the two proceeds
/// to insertion.
pub proof fn lemma_conflict_window(s: AppState, bid: Seq<char>, expiry: u64, now2: u64)
    requires
        s.idempotency.locks_view().contains_key(batch_key(bid)),
        s.idempotency.locks_view()[batch_key(bid)] == expiry,
        now2 < expiry,
    ensures
        s.idempotency.lock_active(batch_key(bid), now2),
{
}

} // verus!
