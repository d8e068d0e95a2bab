//! The worker side of the pipeline: claim stream entries, process each
//! event idempotently, acknowledge what was handled.
//!
//! Processing is deduplicated by the event's processing key: whoever
//! takes the lock advances the payout, everyone else treats the event as
//! already handled. Either way the entry is acknowledged, and a record
//! that already reached a terminal status is never touched again. A
//! claimed entry that does not decode is left pending, unacknowledged.

use vstd::prelude::*;
use crate::codec::{canonical_fields, is_canonical_event, parse_payout_event};
use crate::handlers::AppState;
use crate::models::{
    lemma_process_key_injective, process_key, PayoutEvent, PayoutRecord, LOCK_TTL_SECONDS,
    READ_BATCH_SIZE,
};
use crate::pubsub::{lemma_stale_pending_chars, stale_pending, PubSubService};
use crate::status::{can_transition, PayoutStatus};
use crate::repository::updated_record;

verus! {

/// What one event delivery came to.
#[derive(Debug, PartialEq, Eq, Structural)]
pub enum ProcessOutcome {
    /// This delivery took the processing lock and advanced the payout.
    Processed,
    /// Another delivery of the same event already holds the lock; the
    /// entry is acknowledged without reprocessing.
    AlreadyHandled,
}

/// What event processing does to the targeted record: a payout still in
/// flight is driven to `Completed`; a record already terminal is left
/// exactly as it was.
pub open spec fn processed_record(r0: PayoutRecord, r1: PayoutRecord, now: u64) -> bool {
    if r0.status == PayoutStatus::Pending || r0.status == PayoutStatus::Processing {
        &&& r1.status == PayoutStatus::Completed
        &&& r1.updated_at == now
        &&& r1.id == r0.id
        &&& r1.batch_id == r0.batch_id
        &&& r1.external_id == r0.external_id
        &&& r1.user_id == r0.user_id
        &&& r1.amount_cents == r0.amount_cents
        &&& r1.pix_key == r0.pix_key
        &&& r1.created_at == r0.created_at
        &&& r1.idempotency_key == r0.idempotency_key
    } else {
        r1 == r0
    }
}

/// What one worker step of one cycle may do to any record: leave it
/// exactly alone, or process it.
pub open spec fn untouched_or_processed(r0: PayoutRecord, r1: PayoutRecord, now: u64) -> bool {
    r1 == r0 || processed_record(r0, r1, now)
}

pub proof fn lemma_untouched_or_processed_trans(
    r0: PayoutRecord,
    r1: PayoutRecord,
    r2: PayoutRecord,
    now: u64,
)
    requires
        untouched_or_processed(r0, r1, now),
        untouched_or_processed(r1, r2, now),
    ensures
        untouched_or_processed(r0, r2, now),
{
}

/// Once a record was processed, later steps of the cycle cannot move it
/// any further.
pub proof fn lemma_processed_stays(r0: PayoutRecord, r1: PayoutRecord, r2: PayoutRecord, now: u64)
    requires
        processed_record(r0, r1, now),
        untouched_or_processed(r1, r2, now),
    ensures
        processed_record(r0, r2, now),
{
}

pub proof fn lemma_step_then_processed(
    r0: PayoutRecord,
    r1: PayoutRecord,
    r2: PayoutRecord,
    now: u64,
)
    requires
        untouched_or_processed(r0, r1, now),
        processed_record(r1, r2, now),
    ensures
        processed_record(r0, r2, now),
{
}

/// Status reachability along the lifecycle: what any number of allowed
/// transitions can do to a record over time.
pub open spec fn status_reach(a: PayoutStatus, b: PayoutStatus) -> bool {
    ||| a == b
    ||| can_transition(a, b)
    ||| (a == PayoutStatus::Pending && b == PayoutStatus::Completed)
}

/// One record's identity and payload survive worker processing; only
/// its status may move forward.
pub open spec fn record_advanced(r0: PayoutRecord, r1: PayoutRecord) -> bool {
    &&& r1.id == r0.id
    &&& r1.batch_id == r0.batch_id
    &&& r1.external_id == r0.external_id
    &&& r1.user_id == r0.user_id
    &&& r1.amount_cents == r0.amount_cents
    &&& r1.pix_key == r0.pix_key
    &&& r1.created_at == r0.created_at
    &&& r1.idempotency_key == r0.idempotency_key
    &&& status_reach(r0.status, r1.status)
}

/// How many of the stream entries in `[lo, hi)` are canonical event
/// payloads — the ones a worker read cycle over that range processes.
pub open spec fn canonical_count(entries: Seq<String>, lo: int, hi: int) -> nat
    decreases hi - lo,
{
    if lo >= hi {
        0
    } else {
        canonical_count(entries, lo, hi - 1) + (if is_canonical_event(entries[hi - 1]@) {
            1nat
        } else {
            0nat
        })
    }
}

/// How many of the stream entries at the given positions are canonical
/// event payloads.
pub open spec fn canonical_count_at(entries: Seq<String>, idxs: Seq<usize>) -> nat
    decreases idxs.len(),
{
    if idxs.len() == 0 {
        0
    } else {
        canonical_count_at(entries, idxs.drop_last()) + (if is_canonical_event(
            entries[idxs.last() as int]@,
        ) {
            1nat
        } else {
            0nat
        })
    }
}

/// How many entries one read cycle claims from the stream: a full batch
/// when enough new entries exist, the remainder otherwise.
pub open spec fn claim_len(p: PubSubService) -> int {
    if p.entries@.len() - p.next_delivery >= READ_BATCH_SIZE {
        READ_BATCH_SIZE as int
    } else {
        p.entries@.len() - p.next_delivery
    }
}

/// Handles one decoded lifecycle event, exactly once per processing key:
/// a replay of an event whose lock is still held — in particular, of an
/// event whose payout already completed — changes nothing.
pub fn process_payout_event(state: &mut AppState, event: &PayoutEvent, now: u64)
    -> (r: ProcessOutcome)
    requires
        old(state).wf(),
        now + LOCK_TTL_SECONDS <= u64::MAX,
    ensures
        final(state).wf(),
        final(state).pubsub == old(state).pubsub,
        final(state).idempotency.results_view() == old(state).idempotency.results_view(),
        (r == ProcessOutcome::AlreadyHandled) == old(state).idempotency.lock_active(
            process_key(event.payout_id, event.event_type@), now),
        r == ProcessOutcome::AlreadyHandled ==> final(state).repository
            == old(state).repository
            && final(state).idempotency.locks_view() == old(state).idempotency.locks_view(),
        r == ProcessOutcome::Processed ==> {
            &&& final(state).idempotency.locks_view()
                == old(state).idempotency.locks_view().insert(
                    process_key(event.payout_id, event.event_type@),
                    (now + LOCK_TTL_SECONDS) as u64)
            &&& final(state).repository.next_id == old(state).repository.next_id
            &&& final(state).repository.records@.len()
                == old(state).repository.records@.len()
            &&& forall|i: int| 0 <= i < old(state).repository.records@.len()
                && (#[trigger] old(state).repository.records@[i]).id != event.payout_id
                ==> final(state).repository.records@[i] == old(state).repository.records@[i]
            &&& forall|i: int| 0 <= i < old(state).repository.records@.len()
                && (#[trigger] old(state).repository.records@[i]).id == event.payout_id
                ==> processed_record(old(state).repository.records@[i],
                    final(state).repository.records@[i], now)
        },
        forall|i: int| 0 <= i < old(state).repository.records@.len()
            ==> untouched_or_processed(#[trigger] old(state).repository.records@[i],
                final(state).repository.records@[i], now),
    {
    let key = crate::models::make_process_key(event.payout_id, event.event_type.as_str());
    if !state.idempotency.check_and_lock(key.as_str(), LOCK_TTL_SECONDS, now) {
        return ProcessOutcome::AlreadyHandled;
    }
    let ghost mid = *state;
    state.repository.update_status(event.payout_id, PayoutStatus::Processing, now);
    let ghost half = *state;
    state.repository.update_status(event.payout_id, PayoutStatus::Completed, now);
    proof {
        assert forall|i: int| 0 <= i < old(state).repository.records@.len()
            && (#[trigger] old(state).repository.records@[i]).id == event.payout_id
            implies processed_record(old(state).repository.records@[i],
                state.repository.records@[i], now) by {
            let r0 = old(state).repository.records@[i];
            let rm = half.repository.records@[i];
            assert(updated_record(r0, rm, PayoutStatus::Processing, now));
            assert(updated_record(rm, state.repository.records@[i], PayoutStatus::Completed,
                now));
        }
    }
    ProcessOutcome::Processed
}

/// Handles one claimed entry: a canonical payload is decoded, processed
/// and acknowledged; anything else is left pending, untouched.
fn handle_entry(state: &mut AppState, entry_index: usize, payload: &String, now: u64)
    -> (did: bool)
    requires
        old(state).wf(),
        now + LOCK_TTL_SECONDS <= u64::MAX,
    ensures
        final(state).wf(),
        final(state).pubsub.entries@ == old(state).pubsub.entries@,
        final(state).pubsub.group_created == old(state).pubsub.group_created,
        final(state).pubsub.next_delivery == old(state).pubsub.next_delivery,
        final(state).idempotency.results_view() == old(state).idempotency.results_view(),
        final(state).repository.next_id == old(state).repository.next_id,
        final(state).repository.records@.len() == old(state).repository.records@.len(),
        did == is_canonical_event(payload@),
        forall|i: int| 0 <= i < old(state).repository.records@.len()
            ==> untouched_or_processed(#[trigger] old(state).repository.records@[i],
                final(state).repository.records@[i], now),
        !did ==> final(state).pubsub.pending@ == old(state).pubsub.pending@
            && final(state).idempotency.locks_view() == old(state).idempotency.locks_view()
            && final(state).repository == old(state).repository,
        did ==> forall|j: int| 0 <= j < final(state).pubsub.pending@.len()
            ==> (#[trigger] final(state).pubsub.pending@[j]).0 != entry_index,
        did ==> forall|p: (usize, u64)| old(state).pubsub.pending@.contains(p)
            && p.0 != entry_index ==> final(state).pubsub.pending@.contains(p),
        did ==> forall|p: (usize, u64)| final(state).pubsub.pending@.contains(p)
            ==> old(state).pubsub.pending@.contains(p),
        did && old(state).idempotency.lock_active(process_key(canonical_fields(payload@).0,
            canonical_fields(payload@).1), now)
            ==> final(state).idempotency.locks_view() == old(state).idempotency.locks_view()
                && final(state).repository == old(state).repository,
        did && !old(state).idempotency.lock_active(process_key(canonical_fields(payload@).0,
            canonical_fields(payload@).1), now)
            ==> final(state).idempotency.locks_view()
                == old(state).idempotency.locks_view().insert(
                    process_key(canonical_fields(payload@).0, canonical_fields(payload@).1),
                    (now + LOCK_TTL_SECONDS) as u64)
                && forall|i: int| 0 <= i < old(state).repository.records@.len()
                    && (#[trigger] old(state).repository.records@[i]).id
                        == canonical_fields(payload@).0
                    ==> processed_record(old(state).repository.records@[i],
                        final(state).repository.records@[i], now),
{
    match parse_payout_event(payload.as_str()) {
        Some(event) => {
            proof {
                assert(is_canonical_event(payload@)) by {
                    assert(payload@ == crate::codec::event_json(event.payout_id,
                        event.event_type@, event.timestamp@));
                }
                let (p0, e0, t0) = canonical_fields(payload@);
                assert(payload@ == crate::codec::event_json(p0, e0, t0)
                    && crate::text::json_safe(e0) && crate::text::json_safe(t0));
                // the parser's completeness ties the parsed fields to the
                // canonical ones
                assert(event.payout_id == p0 && event.event_type@ == e0);
            }
            process_payout_event(state, &event, now);
            state.pubsub.ack(entry_index);
            true
        },
        None => {
            proof {
                if is_canonical_event(payload@) {
                    let (p0, e0, t0) = canonical_fields(payload@);
                    assert(payload@ == crate::codec::event_json(p0, e0, t0)
                        && crate::text::json_safe(e0) && crate::text::json_safe(t0));
                    assert(false);
                }
            }
            false
        },
    }
}

/// One read cycle of one worker: claim up to `READ_BATCH_SIZE` new
/// entries, process and acknowledge every claimed entry that decodes,
/// and leave malformed entries pending without acknowledgement. Returns
/// how many entries were processed and acknowledged.
#[verifier::rlimit(80)]
pub fn process_batch(state: &mut AppState, _consumer_name: &str, now: u64) -> (processed: usize)
    requires
        old(state).wf(),
        old(state).pubsub.group_created,
        now + LOCK_TTL_SECONDS <= u64::MAX,
    ensures
        final(state).wf(),
        final(state).pubsub.group_created,
        final(state).pubsub.entries@ == old(state).pubsub.entries@,
        final(state).idempotency.results_view() == old(state).idempotency.results_view(),
        final(state).repository.next_id == old(state).repository.next_id,
        final(state).repository.records@.len() == old(state).repository.records@.len(),
        // the cycle claims exactly the next batch of new entries
        final(state).pubsub.next_delivery
            == old(state).pubsub.next_delivery + claim_len(old(state).pubsub),
        // the return value counts exactly the claimed entries that decode
        processed == canonical_count(old(state).pubsub.entries@,
            old(state).pubsub.next_delivery as int,
            old(state).pubsub.next_delivery + claim_len(old(state).pubsub)),
        processed <= READ_BATCH_SIZE,
        // nothing pending before this cycle is lost
        forall|j: int| 0 <= j < old(state).pubsub.pending@.len()
            ==> final(state).pubsub.pending@.contains(#[trigger] old(state).pubsub.pending@[j]),
        // a claimed entry is acknowledged exactly when it decodes; a
        // malformed one stays pending, claimed at `now`
        forall|t: int| 0 <= t < claim_len(old(state).pubsub)
            && is_canonical_event((#[trigger] old(state).pubsub.entries@[
                old(state).pubsub.next_delivery + t])@)
            ==> forall|j: int| 0 <= j < final(state).pubsub.pending@.len()
                ==> (#[trigger] final(state).pubsub.pending@[j]).0
                    != old(state).pubsub.next_delivery + t,
        forall|t: int| 0 <= t < claim_len(old(state).pubsub)
            && !is_canonical_event((#[trigger] old(state).pubsub.entries@[
                old(state).pubsub.next_delivery + t])@)
            ==> final(state).pubsub.pending@.contains(
                (((old(state).pubsub.next_delivery + t) as usize), now)),
        // every record is either untouched or processed by this cycle
        forall|i: int| 0 <= i < old(state).repository.records@.len()
            ==> untouched_or_processed(#[trigger] old(state).repository.records@[i],
                final(state).repository.records@[i], now),
        forall|i: int| 0 <= i < old(state).repository.records@.len()
            ==> record_advanced(#[trigger] old(state).repository.records@[i],
                final(state).repository.records@[i]),
        // a claimed event whose processing lock was free drives its
        // payout through the lifecycle
        forall|t: int, i: int|
            #![trigger old(state).pubsub.entries@[old(state).pubsub.next_delivery + t],
                old(state).repository.records@[i]]
            0 <= t < claim_len(old(state).pubsub)
            && 0 <= i < old(state).repository.records@.len()
            && is_canonical_event(old(state).pubsub.entries@[
                old(state).pubsub.next_delivery + t]@)
            && canonical_fields(old(state).pubsub.entries@[
                old(state).pubsub.next_delivery + t]@).0
                == old(state).repository.records@[i].id
            && !old(state).idempotency.lock_active(process_key(
                canonical_fields(old(state).pubsub.entries@[
                    old(state).pubsub.next_delivery + t]@).0,
                canonical_fields(old(state).pubsub.entries@[
                    old(state).pubsub.next_delivery + t]@).1), now)
            ==> processed_record(old(state).repository.records@[i],
                final(state).repository.records@[i], now),
{
    let ghost base = old(state).pubsub.next_delivery as int;
    let claimed = state.pubsub.read_new(READ_BATCH_SIZE, now);
    let n = claimed.len();
    proof {
        assert(n as int == claim_len(old(state).pubsub));
        assert forall|j: int| 0 <= j < old(state).pubsub.pending@.len()
            implies state.pubsub.pending@.contains(#[trigger] old(state).pubsub.pending@[j]) by {
            assert(state.pubsub.pending@[j] == old(state).pubsub.pending@[j]);
        }
        assert forall|t: int| 0 <= t < n
            implies state.pubsub.pending@.contains(
                (((#[trigger] claimed@[t]).0), now)) by {
            assert(state.pubsub.pending@[old(state).pubsub.pending@.len() + t]
                == (((base + t) as usize), now));
        }
    }
    let mut processed: usize = 0;
    let mut k: usize = 0;
    while k < n
        invariant
            k <= n,
            n == claimed@.len(),
            n <= READ_BATCH_SIZE,
            n as int == claim_len(old(state).pubsub),
            base == old(state).pubsub.next_delivery as int,
            now + LOCK_TTL_SECONDS <= u64::MAX,
            old(state).wf(),
            state.wf(),
            state.pubsub.group_created,
            state.pubsub.entries@ == old(state).pubsub.entries@,
            state.pubsub.next_delivery == base + n,
            state.idempotency.results_view() == old(state).idempotency.results_view(),
            state.repository.next_id == old(state).repository.next_id,
            state.repository.records@.len() == old(state).repository.records@.len(),
            processed == canonical_count(old(state).pubsub.entries@, base, base + k),
            processed <= k,
            forall|t: int| 0 <= t < n ==> (#[trigger] claimed@[t]).0 == base + t
                && claimed@[t].1 == old(state).pubsub.entries@[base + t],
            forall|i: int| 0 <= i < old(state).repository.records@.len()
                ==> untouched_or_processed(#[trigger] old(state).repository.records@[i],
                    state.repository.records@[i], now),
            forall|j: int| 0 <= j < old(state).pubsub.pending@.len()
                ==> state.pubsub.pending@.contains(#[trigger] old(state).pubsub.pending@[j]),
            forall|t: int| 0 <= t < k
                && is_canonical_event((#[trigger] old(state).pubsub.entries@[base + t])@)
                ==> forall|j: int| 0 <= j < state.pubsub.pending@.len()
                    ==> (#[trigger] state.pubsub.pending@[j]).0 != base + t,
            forall|t: int| 0 <= t < k
                && !is_canonical_event((#[trigger] old(state).pubsub.entries@[base + t])@)
                ==> state.pubsub.pending@.contains((((base + t) as usize), now)),
            forall|t: int| k <= t < n
                ==> state.pubsub.pending@.contains((((#[trigger] claimed@[t]).0), now)),
            forall|pid: u64, et: Seq<char>| #![trigger process_key(pid, et)]
                state.idempotency.lock_active(process_key(pid, et), now)
                && !old(state).idempotency.lock_active(process_key(pid, et), now)
                ==> exists|t: int| 0 <= t < k
                    && is_canonical_event((#[trigger] old(state).pubsub.entries@[base + t])@)
                    && canonical_fields(old(state).pubsub.entries@[base + t]@).0 == pid
                    && canonical_fields(old(state).pubsub.entries@[base + t]@).1 == et,
            forall|t: int, i: int|
                #![trigger old(state).pubsub.entries@[base + t],
                    old(state).repository.records@[i]]
                0 <= t < k
                && 0 <= i < old(state).repository.records@.len()
                && is_canonical_event(old(state).pubsub.entries@[base + t]@)
                && canonical_fields(old(state).pubsub.entries@[base + t]@).0
                    == old(state).repository.records@[i].id
                && !old(state).idempotency.lock_active(process_key(
                    canonical_fields(old(state).pubsub.entries@[base + t]@).0,
                    canonical_fields(old(state).pubsub.entries@[base + t]@).1), now)
                ==> processed_record(old(state).repository.records@[i],
                    state.repository.records@[i], now),
        decreases n - k,
    {
        let ghost before = *state;
        let entry = &claimed[k];
        let did = handle_entry(state, entry.0, &entry.1, now);
        proof {
            let payload = old(state).pubsub.entries@[base + k];
            assert(entry.1@ == payload@);
            assert(did == is_canonical_event(payload@));
            // record chaining
            assert forall|i: int| 0 <= i < old(state).repository.records@.len()
                implies untouched_or_processed(#[trigger] old(state).repository.records@[i],
                    state.repository.records@[i], now) by {
                lemma_untouched_or_processed_trans(old(state).repository.records@[i],
                    before.repository.records@[i], state.repository.records@[i], now);
            }
            // previously settled processed_record conclusions survive
            assert forall|t: int, i: int|
                #![trigger old(state).pubsub.entries@[base + t],
                    old(state).repository.records@[i]]
                0 <= t < k + 1
                && 0 <= i < old(state).repository.records@.len()
                && is_canonical_event(old(state).pubsub.entries@[base + t]@)
                && canonical_fields(old(state).pubsub.entries@[base + t]@).0
                    == old(state).repository.records@[i].id
                && !old(state).idempotency.lock_active(process_key(
                    canonical_fields(old(state).pubsub.entries@[base + t]@).0,
                    canonical_fields(old(state).pubsub.entries@[base + t]@).1), now)
                implies processed_record(old(state).repository.records@[i],
                    state.repository.records@[i], now) by {
                let f = canonical_fields(old(state).pubsub.entries@[base + t]@);
                if t < k {
                    lemma_processed_stays(old(state).repository.records@[i],
                        before.repository.records@[i], state.repository.records@[i], now);
                } else {
                    // t == k: this very step handled the entry
                    if before.idempotency.lock_active(process_key(f.0, f.1), now) {
                        // an earlier step of this cycle took the lock and
                        // already drove the record
                        let t2 = choose|t2: int| 0 <= t2 < k
                            && is_canonical_event(
                                (#[trigger] old(state).pubsub.entries@[base + t2])@)
                            && canonical_fields(old(state).pubsub.entries@[base + t2]@).0 == f.0
                            && canonical_fields(old(state).pubsub.entries@[base + t2]@).1 == f.1;
                        assert(processed_record(old(state).repository.records@[i],
                            before.repository.records@[i], now));
                        lemma_processed_stays(old(state).repository.records@[i],
                            before.repository.records@[i], state.repository.records@[i], now);
                    } else {
                        assert(processed_record(before.repository.records@[i],
                            state.repository.records@[i], now));
                        lemma_step_then_processed(old(state).repository.records@[i],
                            before.repository.records@[i], state.repository.records@[i], now);
                    }
                }
            }
            // lock provenance
            assert forall|pid: u64, et: Seq<char>| #![trigger process_key(pid, et)]
                state.idempotency.lock_active(process_key(pid, et), now)
                && !old(state).idempotency.lock_active(process_key(pid, et), now)
                implies exists|t: int| 0 <= t < k + 1
                    && is_canonical_event((#[trigger] old(state).pubsub.entries@[base + t])@)
                    && canonical_fields(old(state).pubsub.entries@[base + t]@).0 == pid
                    && canonical_fields(old(state).pubsub.entries@[base + t]@).1 == et by {
                if !before.idempotency.lock_active(process_key(pid, et), now) {
                    // this step inserted it: its key names the same event
                    let f = canonical_fields(payload@);
                    assert(did);
                    assert(!before.idempotency.lock_active(process_key(f.0, f.1), now));
                    lemma_process_key_injective(pid, et, f.0, f.1);
                    assert(is_canonical_event((old(state).pubsub.entries@[base + k])@));
                }
            }
            // pending bookkeeping
            if did {
                assert forall|j: int| 0 <= j < old(state).pubsub.pending@.len()
                    implies state.pubsub.pending@.contains(
                        #[trigger] old(state).pubsub.pending@[j]) by {
                    assert(old(state).pubsub.pending@[j].0 < base);
                    assert(old(state).pubsub.pending@[j].0 != base + k);
                }
                assert forall|t: int| 0 <= t < k + 1
                    && is_canonical_event((#[trigger] old(state).pubsub.entries@[base + t])@)
                    implies forall|j: int| 0 <= j < state.pubsub.pending@.len()
                        ==> (#[trigger] state.pubsub.pending@[j]).0 != base + t by {
                    if t < k {
                        assert forall|j: int| 0 <= j < state.pubsub.pending@.len()
                            implies (#[trigger] state.pubsub.pending@[j]).0 != base + t by {
                            assert(before.pubsub.pending@.contains(state.pubsub.pending@[j]));
                            let w = choose|w: int| 0 <= w < before.pubsub.pending@.len()
                                && before.pubsub.pending@[w] == state.pubsub.pending@[j];
                            assert(before.pubsub.pending@[w].0 != base + t);
                        }
                    }
                }
                assert forall|t: int| 0 <= t < k + 1
                    && !is_canonical_event((#[trigger] old(state).pubsub.entries@[base + t])@)
                    implies state.pubsub.pending@.contains((((base + t) as usize), now)) by {
                    assert(((base + t) as usize) != base + k);
                }
                assert forall|t: int| k + 1 <= t < n
                    implies state.pubsub.pending@.contains(
                        (((#[trigger] claimed@[t]).0), now)) by {
                    assert(claimed@[t].0 == base + t);
                    assert(base + t != base + k);
                }
            }
        }
        processed = if did { processed + 1 } else { processed };
        k = k + 1;
    }
    processed
}

/// The periodic recovery pass: entries claimed but never acknowledged —
/// left behind by a crashed or stalled worker — are re-claimed once
/// their last claim is `age_seconds` old, and handled like a fresh
/// delivery. Each event keeps its processing key, so redoing one is an
/// idempotent no-op whenever its work already happened.
#[verifier::rlimit(80)]
pub fn reclaim_pending(state: &mut AppState, age_seconds: u64, now: u64) -> (processed: usize)
    requires
        old(state).wf(),
        old(state).pubsub.group_created,
        now + LOCK_TTL_SECONDS <= u64::MAX,
    ensures
        final(state).wf(),
        final(state).pubsub.group_created,
        final(state).pubsub.entries@ == old(state).pubsub.entries@,
        final(state).pubsub.next_delivery == old(state).pubsub.next_delivery,
        final(state).idempotency.results_view() == old(state).idempotency.results_view(),
        final(state).repository.next_id == old(state).repository.next_id,
        final(state).repository.records@.len() == old(state).repository.records@.len(),
        // the return value counts exactly the stale entries that decode
        processed == canonical_count_at(old(state).pubsub.entries@,
            stale_pending(old(state).pubsub.pending@, age_seconds, now)),
        // entries whose claim is not yet stale are left exactly as they were
        forall|t: int| 0 <= t < old(state).pubsub.pending@.len()
            && (#[trigger] old(state).pubsub.pending@[t]).1 + age_seconds > now
            ==> final(state).pubsub.pending@.contains(old(state).pubsub.pending@[t]),
        // a re-claimed entry is acknowledged exactly when it decodes; a
        // malformed one stays pending, claimed afresh at `now`
        forall|j: int| 0 <= j < stale_pending(old(state).pubsub.pending@, age_seconds, now).len()
            && is_canonical_event((#[trigger] old(state).pubsub.entries@[
                stale_pending(old(state).pubsub.pending@, age_seconds, now)[j] as int])@)
            ==> forall|jj: int| 0 <= jj < final(state).pubsub.pending@.len()
                ==> (#[trigger] final(state).pubsub.pending@[jj]).0
                    != stale_pending(old(state).pubsub.pending@, age_seconds, now)[j],
        forall|j: int| 0 <= j < stale_pending(old(state).pubsub.pending@, age_seconds, now).len()
            && !is_canonical_event((#[trigger] old(state).pubsub.entries@[
                stale_pending(old(state).pubsub.pending@, age_seconds, now)[j] as int])@)
            ==> final(state).pubsub.pending@.contains(
                (stale_pending(old(state).pubsub.pending@, age_seconds, now)[j], now)),
        // every record is either untouched or processed by this pass
        forall|i: int| 0 <= i < old(state).repository.records@.len()
            ==> untouched_or_processed(#[trigger] old(state).repository.records@[i],
                final(state).repository.records@[i], now),
        forall|i: int| 0 <= i < old(state).repository.records@.len()
            ==> record_advanced(#[trigger] old(state).repository.records@[i],
                final(state).repository.records@[i]),
        // a re-claimed event whose processing lock was free drives its
        // payout through the lifecycle
        forall|j: int, i: int|
            #![trigger stale_pending(old(state).pubsub.pending@, age_seconds, now)[j],
                old(state).repository.records@[i]]
            0 <= j < stale_pending(old(state).pubsub.pending@, age_seconds, now).len()
            && 0 <= i < old(state).repository.records@.len()
            && is_canonical_event(old(state).pubsub.entries@[
                stale_pending(old(state).pubsub.pending@, age_seconds, now)[j] as int]@)
            && canonical_fields(old(state).pubsub.entries@[
                stale_pending(old(state).pubsub.pending@, age_seconds, now)[j] as int]@).0
                == old(state).repository.records@[i].id
            && !old(state).idempotency.lock_active(process_key(
                canonical_fields(old(state).pubsub.entries@[
                    stale_pending(old(state).pubsub.pending@, age_seconds, now)[j] as int]@).0,
                canonical_fields(old(state).pubsub.entries@[
                    stale_pending(old(state).pubsub.pending@, age_seconds, now)[j] as int]@).1),
                now)
            ==> processed_record(old(state).repository.records@[i],
                final(state).repository.records@[i], now),
{
    let ghost stale = stale_pending(old(state).pubsub.pending@, age_seconds, now);
    proof {
        lemma_stale_pending_chars(old(state).pubsub.pending@, age_seconds, now);
    }
    let claimed = state.pubsub.reclaim_stale(age_seconds, now);
    let n = claimed.len();
    proof {
        assert forall|t: int| 0 <= t < old(state).pubsub.pending@.len()
            && (#[trigger] old(state).pubsub.pending@[t]).1 + age_seconds > now
            implies state.pubsub.pending@.contains(old(state).pubsub.pending@[t]) by {
            assert(state.pubsub.pending@[t] == old(state).pubsub.pending@[t]);
        }
        assert forall|j: int| 0 <= j < n
            implies state.pubsub.pending@.contains((((#[trigger] claimed@[j]).0), now)) by {
            let t = choose|t: int| 0 <= t < old(state).pubsub.pending@.len()
                && (#[trigger] old(state).pubsub.pending@[t]).0 == stale[j]
                && old(state).pubsub.pending@[t].1 + age_seconds <= now;
            assert(state.pubsub.pending@[t] == (stale[j], now));
        }
    }
    let mut processed: usize = 0;
    let mut k: usize = 0;
    while k < n
        invariant
            k <= n,
            n == claimed@.len(),
            n == stale.len(),
            stale == stale_pending(old(state).pubsub.pending@, age_seconds, now),
            now + LOCK_TTL_SECONDS <= u64::MAX,
            old(state).wf(),
            state.wf(),
            state.pubsub.group_created,
            state.pubsub.entries@ == old(state).pubsub.entries@,
            state.pubsub.next_delivery == old(state).pubsub.next_delivery,
            state.idempotency.results_view() == old(state).idempotency.results_view(),
            state.repository.next_id == old(state).repository.next_id,
            state.repository.records@.len() == old(state).repository.records@.len(),
            processed == canonical_count_at(old(state).pubsub.entries@, stale.take(k as int)),
            processed <= k,
            forall|j: int| 0 <= j < n ==> (#[trigger] claimed@[j]).0 == stale[j]
                && claimed@[j].1 == old(state).pubsub.entries@[stale[j] as int],
            forall|i: int| 0 <= i < old(state).repository.records@.len()
                ==> untouched_or_processed(#[trigger] old(state).repository.records@[i],
                    state.repository.records@[i], now),
            forall|t: int| 0 <= t < old(state).pubsub.pending@.len()
                && (#[trigger] old(state).pubsub.pending@[t]).1 + age_seconds > now
                ==> state.pubsub.pending@.contains(old(state).pubsub.pending@[t]),
            forall|j: int| 0 <= j < k
                && is_canonical_event((#[trigger] old(state).pubsub.entries@[stale[j] as int])@)
                ==> forall|jj: int| 0 <= jj < state.pubsub.pending@.len()
                    ==> (#[trigger] state.pubsub.pending@[jj]).0 != stale[j],
            forall|j: int| 0 <= j < k
                && !is_canonical_event((#[trigger] old(state).pubsub.entries@[stale[j] as int])@)
                ==> state.pubsub.pending@.contains((stale[j], now)),
            forall|j: int| k <= j < n
                ==> state.pubsub.pending@.contains((((#[trigger] claimed@[j]).0), now)),
            forall|pid: u64, et: Seq<char>| #![trigger process_key(pid, et)]
                state.idempotency.lock_active(process_key(pid, et), now)
                && !old(state).idempotency.lock_active(process_key(pid, et), now)
                ==> exists|j: int| 0 <= j < k
                    && is_canonical_event(
                        (#[trigger] old(state).pubsub.entries@[stale[j] as int])@)
                    && canonical_fields(old(state).pubsub.entries@[stale[j] as int]@).0 == pid
                    && canonical_fields(old(state).pubsub.entries@[stale[j] as int]@).1 == et,
            forall|j: int, i: int|
                #![trigger stale[j], old(state).repository.records@[i]]
                0 <= j < k
                && 0 <= i < old(state).repository.records@.len()
                && is_canonical_event(old(state).pubsub.entries@[stale[j] as int]@)
                && canonical_fields(old(state).pubsub.entries@[stale[j] as int]@).0
                    == old(state).repository.records@[i].id
                && !old(state).idempotency.lock_active(process_key(
                    canonical_fields(old(state).pubsub.entries@[stale[j] as int]@).0,
                    canonical_fields(old(state).pubsub.entries@[stale[j] as int]@).1), now)
                ==> processed_record(old(state).repository.records@[i],
                    state.repository.records@[i], now),
        decreases n - k,
    {
        let ghost before = *state;
        let entry = &claimed[k];
        let did = handle_entry(state, entry.0, &entry.1, now);
        proof {
            lemma_stale_pending_chars(old(state).pubsub.pending@, age_seconds, now);
            let payload = old(state).pubsub.entries@[stale[k as int] as int];
            assert(entry.1@ == payload@);
            assert(did == is_canonical_event(payload@));
            assert(stale.take(k + 1 as int).drop_last() =~= stale.take(k as int));
            assert(stale.take(k + 1 as int).last() == stale[k as int]);
            assert forall|i: int| 0 <= i < old(state).repository.records@.len()
                implies untouched_or_processed(#[trigger] old(state).repository.records@[i],
                    state.repository.records@[i], now) by {
                lemma_untouched_or_processed_trans(old(state).repository.records@[i],
                    before.repository.records@[i], state.repository.records@[i], now);
            }
            assert forall|j: int, i: int|
                #![trigger stale[j], old(state).repository.records@[i]]
                0 <= j < k + 1
                && 0 <= i < old(state).repository.records@.len()
                && is_canonical_event(old(state).pubsub.entries@[stale[j] as int]@)
                && canonical_fields(old(state).pubsub.entries@[stale[j] as int]@).0
                    == old(state).repository.records@[i].id
                && !old(state).idempotency.lock_active(process_key(
                    canonical_fields(old(state).pubsub.entries@[stale[j] as int]@).0,
                    canonical_fields(old(state).pubsub.entries@[stale[j] as int]@).1), now)
                implies processed_record(old(state).repository.records@[i],
                    state.repository.records@[i], now) by {
                let f = canonical_fields(old(state).pubsub.entries@[stale[j] as int]@);
                if j < k {
                    lemma_processed_stays(old(state).repository.records@[i],
                        before.repository.records@[i], state.repository.records@[i], now);
                } else {
                    if before.idempotency.lock_active(process_key(f.0, f.1), now) {
                        let j2 = choose|j2: int| 0 <= j2 < k
                            && is_canonical_event(
                                (#[trigger] old(state).pubsub.entries@[stale[j2] as int])@)
                            && canonical_fields(
                                old(state).pubsub.entries@[stale[j2] as int]@).0 == f.0
                            && canonical_fields(
                                old(state).pubsub.entries@[stale[j2] as int]@).1 == f.1;
                        assert(processed_record(old(state).repository.records@[i],
                            before.repository.records@[i], now));
                        lemma_processed_stays(old(state).repository.records@[i],
                            before.repository.records@[i], state.repository.records@[i], now);
                    } else {
                        assert(processed_record(before.repository.records@[i],
                            state.repository.records@[i], now));
                        lemma_step_then_processed(old(state).repository.records@[i],
                            before.repository.records@[i], state.repository.records@[i], now);
                    }
                }
            }
            assert forall|pid: u64, et: Seq<char>| #![trigger process_key(pid, et)]
                state.idempotency.lock_active(process_key(pid, et), now)
                && !old(state).idempotency.lock_active(process_key(pid, et), now)
                implies exists|j: int| 0 <= j < k + 1
                    && is_canonical_event(
                        (#[trigger] old(state).pubsub.entries@[stale[j] as int])@)
                    && canonical_fields(old(state).pubsub.entries@[stale[j] as int]@).0 == pid
                    && canonical_fields(old(state).pubsub.entries@[stale[j] as int]@).1 == et
                by {
                if !before.idempotency.lock_active(process_key(pid, et), now) {
                    let f = canonical_fields(payload@);
                    assert(did);
                    assert(!before.idempotency.lock_active(process_key(f.0, f.1), now));
                    lemma_process_key_injective(pid, et, f.0, f.1);
                    assert(is_canonical_event(
                        (old(state).pubsub.entries@[stale[k as int] as int])@));
                }
            }
            if did {
                assert forall|t: int| 0 <= t < old(state).pubsub.pending@.len()
                    && (#[trigger] old(state).pubsub.pending@[t]).1 + age_seconds > now
                    implies state.pubsub.pending@.contains(old(state).pubsub.pending@[t]) by {
                    // a non-stale entry's index is never a stale index
                    assert(old(state).pubsub.pending@[t].0 != stale[k as int]) by {
                        if old(state).pubsub.pending@[t].0 == stale[k as int] {
                            let t2 = choose|t2: int| 0 <= t2 < old(state).pubsub.pending@.len()
                                && (#[trigger] old(state).pubsub.pending@[t2]).0
                                    == stale[k as int]
                                && old(state).pubsub.pending@[t2].1 + age_seconds <= now;
                            if t < t2 {
                                assert(old(state).pubsub.pending@[t].0
                                    < old(state).pubsub.pending@[t2].0);
                            }
                            if t2 < t {
                                assert(old(state).pubsub.pending@[t2].0
                                    < old(state).pubsub.pending@[t].0);
                            }
                        }
                    }
                }
                assert forall|j: int| 0 <= j < k + 1
                    && is_canonical_event(
                        (#[trigger] old(state).pubsub.entries@[stale[j] as int])@)
                    implies forall|jj: int| 0 <= jj < state.pubsub.pending@.len()
                        ==> (#[trigger] state.pubsub.pending@[jj]).0 != stale[j] by {
                    if j < k {
                        assert forall|jj: int| 0 <= jj < state.pubsub.pending@.len()
                            implies (#[trigger] state.pubsub.pending@[jj]).0 != stale[j] by {
                            assert(before.pubsub.pending@.contains(state.pubsub.pending@[jj]));
                            let w = choose|w: int| 0 <= w < before.pubsub.pending@.len()
                                && before.pubsub.pending@[w] == state.pubsub.pending@[jj];
                            assert(before.pubsub.pending@[w].0 != stale[j]);
                        }
                    }
                }
                assert forall|j: int| 0 <= j < k + 1
                    && !is_canonical_event(
                        (#[trigger] old(state).pubsub.entries@[stale[j] as int])@)
                    implies state.pubsub.pending@.contains((stale[j], now)) by {
                    assert(stale[j] != stale[k as int]);
                }
                assert forall|j: int| k + 1 <= j < n
                    implies state.pubsub.pending@.contains(
                        (((#[trigger] claimed@[j]).0), now)) by {
                    assert(claimed@[j].0 == stale[j]);
                    assert(stale[j] != stale[k as int]);
                }
            }
        }
        processed = if did { processed + 1 } else { processed };
        k = k + 1;
    }
    proof {
        assert(stale.take(n as int) =~= stale);
    }
    processed
}

} // verus!
