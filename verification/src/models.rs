//! Data model of the payout pipeline.
//!
//! A `PayoutBatch` is the client's submission; one `PayoutRecord` is
//! persisted per item, keyed by the idempotency key
//! `batch_id + ":" + external_id`, which is what makes re-submission safe.
//! Record identifiers are assigned by the repository from a counter, so
//! their uniqueness is an invariant rather than a statistical assumption.

use vstd::prelude::*;
use crate::status::PayoutStatus;
use crate::text::dec_digits;

verus! {

/// How long a submission or processing lock may block others before it
/// is presumed crashed and expires.
pub const LOCK_TTL_SECONDS: u64 = 300;

/// How long a finished submission's response stays replayable.
pub const RESULT_TTL_SECONDS: u64 = 86400;

/// How many stream entries one worker read cycle claims at most.
pub const READ_BATCH_SIZE: usize = 10;

#[derive(Debug)]
pub struct PayoutItem {
    pub external_id: String,
    pub user_id: String,
    pub amount_cents: i64,
    pub pix_key: String,
}

#[derive(Debug)]
pub struct PayoutBatch {
    pub batch_id: String,
    pub items: Vec<PayoutItem>,
}

#[derive(Debug)]
pub struct PayoutEvent {
    pub payout_id: u64,
    pub event_type: String,
    pub timestamp: String,
}

#[derive(Debug)]
pub struct PayoutRecord {
    pub id: u64,
    pub batch_id: String,
    pub external_id: String,
    pub user_id: String,
    pub amount_cents: i64,
    pub pix_key: String,
    pub status: PayoutStatus,
    pub created_at: u64,
    pub updated_at: u64,
    pub idempotency_key: String,
}

#[derive(Debug)]
pub struct BatchSummary {
    pub total: usize,
    pub completed: usize,
    pub failed: usize,
    pub processing: usize,
    pub pending: usize,
}

#[derive(Debug)]
pub struct BatchStatusResponse {
    pub batch_id: String,
    pub payouts: Vec<PayoutRecord>,
    pub summary: BatchSummary,
}

/// Service configuration, read from the environment by the surrounding
/// program.
#[derive(Debug)]
pub struct Config {
    pub database_uri: String,
    pub redis_uri: String,
    pub http_addr: String,
    pub worker_count: i8,
}

/// Failures surfaced to the HTTP caller: a duplicate in-flight submission
/// is a conflict; anything else is internal.
#[derive(Debug)]
pub enum AppError {
    Internal(String),
    Conflict(String),
}

impl Clone for PayoutItem {
    fn clone(&self) -> (r: Self)
        ensures
            r == *self,
    {
        PayoutItem {
            external_id: self.external_id.clone(),
            user_id: self.user_id.clone(),
            amount_cents: self.amount_cents,
            pix_key: self.pix_key.clone(),
        }
    }
}

impl Clone for PayoutRecord {
    fn clone(&self) -> (r: Self)
        ensures
            r == *self,
    {
        PayoutRecord {
            id: self.id,
            batch_id: self.batch_id.clone(),
            external_id: self.external_id.clone(),
            user_id: self.user_id.clone(),
            amount_cents: self.amount_cents,
            pix_key: self.pix_key.clone(),
            status: self.status,
            created_at: self.created_at,
            updated_at: self.updated_at,
            idempotency_key: self.idempotency_key.clone(),
        }
    }
}

/// The persistence-layer dedupe anchor for one item of one batch.
pub open spec fn item_key(batch_id: Seq<char>, external_id: Seq<char>) -> Seq<char> {
    batch_id + seq![':'] + external_id
}

/// The request-level idempotency key of a batch submission.
pub open spec fn batch_key(batch_id: Seq<char>) -> Seq<char> {
    "batch:"@ + batch_id
}

/// The processing-level idempotency key of one event delivery.
pub open spec fn process_key(payout_id: u64, event_type: Seq<char>) -> Seq<char> {
    "process:"@ + dec_digits(payout_id as nat) + seq![':'] + event_type
}

/// Two distinct events never share a processing key: the decimal run
/// after the prefix ends at the first non-digit, so the key determines
/// the payout identifier and the event type.
pub proof fn lemma_process_key_injective(pid1: u64, et1: Seq<char>, pid2: u64, et2: Seq<char>)
    requires
        process_key(pid1, et1) == process_key(pid2, et2),
    ensures
        pid1 == pid2,
        et1 == et2,
{
    reveal_strlit("process:");
    let p = "process:"@;
    let d1 = dec_digits(pid1 as nat);
    let d2 = dec_digits(pid2 as nat);
    crate::text::lemma_dec_digits_shape(pid1 as nat);
    crate::text::lemma_dec_digits_shape(pid2 as nat);
    let k = process_key(pid1, et1);
    assert(p.len() == 8);
    assert(!crate::text::is_digit(':'));
    if d1.len() < d2.len() {
        assert(k[8 + d1.len() as int] == ':');
        assert(k[8 + d1.len() as int] == d2[d1.len() as int]);
        assert(crate::text::is_digit(d2[d1.len() as int]));
        assert(false);
    }
    if d2.len() < d1.len() {
        assert(k[8 + d2.len() as int] == d1[d2.len() as int]);
        assert(crate::text::is_digit(d1[d2.len() as int]));
        assert(k[8 + d2.len() as int] == ':');
        assert(false);
    }
    assert(d1 =~= d2) by {
        assert forall|i: int| 0 <= i < d1.len() implies d1[i] == d2[i] by {
            assert(k[8 + i] == d1[i]);
            assert(k[8 + i] == d2[i]);
        }
    }
    crate::text::lemma_dec_digits_val(pid1 as nat);
    crate::text::lemma_dec_digits_val(pid2 as nat);
    assert(pid1 == pid2);
    assert(k.len() == 8 + d1.len() + 1 + et1.len());
    assert(process_key(pid2, et2).len() == 8 + d2.len() + 1 + et2.len());
    assert(et1.len() == et2.len());
    assert(et1 =~= et2) by {
        assert forall|i: int| 0 <= i < et1.len() implies et1[i] == et2[i] by {
            assert(k[9 + d1.len() + i] == et1[i]);
            assert(k[9 + d2.len() + i] == et2[i]);
        }
    }
}

/// Builds the persistence idempotency key `batch_id + ":" + external_id`.
pub fn make_idempotency_key(batch_id: &str, external_id: &str) -> (r: String)
    ensures
        r@ == item_key(batch_id@, external_id@),
{
    proof {
        reveal_strlit(":");
    }
    let mut s = String::from_str(batch_id);
    s.append(":");
    s.append(external_id);
    proof {
        assert(":"@ =~= seq![':']);
        assert(s@ =~= item_key(batch_id@, external_id@));
    }
    s
}

/// Builds the request-level key `"batch:" + batch_id`.
pub fn make_batch_key(batch_id: &str) -> (r: String)
    ensures
        r@ == batch_key(batch_id@),
{
    let mut s = String::from_str("batch:");
    s.append(batch_id);
    proof {
        assert(s@ =~= batch_key(batch_id@));
    }
    s
}

/// Builds the processing-level key `"process:" + payout_id + ":" + event_type`.
pub fn make_process_key(payout_id: u64, event_type: &str) -> (r: String)
    ensures
        r@ == process_key(payout_id, event_type@),
{
    proof {
        reveal_strlit(":");
    }
    let mut s = String::from_str("process:");
    let digits = crate::text::u64_to_string(payout_id);
    s.append(digits.as_str());
    s.append(":");
    s.append(event_type);
    proof {
        assert(":"@ =~= seq![':']);
        assert(s@ =~= process_key(payout_id, event_type@));
    }
    s
}

} // verus!
