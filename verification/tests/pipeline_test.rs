use pix::handlers::{get_batch_status, receive_batch, AppState, IngestResponse};
use pix::models::{PayoutBatch, PayoutEvent, PayoutItem, LOCK_TTL_SECONDS, RESULT_TTL_SECONDS};
use pix::worker::{process_batch, process_payout_event, ProcessOutcome};

fn one_item_batch(batch_id: &str, external_id: &str) -> PayoutBatch {
    PayoutBatch {
        batch_id: batch_id.to_string(),
        items: vec![PayoutItem {
            external_id: external_id.to_string(),
            user_id: "u1".to_string(),
            amount_cents: 5000,
            pix_key: "a@b.com".to_string(),
        }],
    }
}

#[test]
fn idempotent_ingestion_replays_identical_body() {
    let mut state = AppState::new();
    let batch = one_item_batch("b1", "e1");

    let first = receive_batch(&mut state, &batch, 1000);
    let (body1, ids) = match first {
        IngestResponse::Created { body, payout_ids } => (body, payout_ids),
        _ => panic!("first submission must be created"),
    };
    assert_eq!(ids.len(), 1);
    let rows_after_first = state.repository.list_by_batch("b1").len();

    // still within the result-cache TTL: byte-identical replay, no new rows
    let second = receive_batch(&mut state, &batch, 1000 + RESULT_TTL_SECONDS - 1);
    match second {
        IngestResponse::Replayed { body } => assert_eq!(body, body1),
        _ => panic!("second submission must replay the cached body"),
    }
    assert_eq!(state.repository.list_by_batch("b1").len(), rows_after_first);
    assert_eq!(rows_after_first, 1);
}

#[test]
fn conflicting_in_flight_submission_is_refused() {
    let mut state = AppState::new();
    // another request for this exact batch is mid-flight: it holds the
    // lock and has cached nothing yet
    assert!(state
        .idempotency
        .check_and_lock("batch:b1", LOCK_TTL_SECONDS, 500));

    let outcome = receive_batch(&mut state, &one_item_batch("b1", "e1"), 600);
    assert!(matches!(outcome, IngestResponse::Conflict));
    assert_eq!(state.repository.list_by_batch("b1").len(), 0);
    assert_eq!(state.pubsub.entries.len(), 0);

    // once the lock has expired, the submission goes through
    let later = 500 + LOCK_TTL_SECONDS;
    let outcome = receive_batch(&mut state, &one_item_batch("b1", "e1"), later);
    assert!(matches!(outcome, IngestResponse::Created { .. }));
}

#[test]
fn created_response_body_is_exact() {
    let mut state = AppState::new();
    let outcome = receive_batch(&mut state, &one_item_batch("b-9", "e-9"), 0);
    match outcome {
        IngestResponse::Created { body, payout_ids } => {
            assert_eq!(payout_ids, vec![0]);
            assert_eq!(
                body,
                "{\"batch_id\":\"b-9\",\"payout_ids\":[0],\"received_items\":1}"
            );
        }
        _ => panic!("fresh submission must be created"),
    }
}

#[test]
fn event_replay_is_a_no_op() {
    let mut state = AppState::new();
    let batch = one_item_batch("b1", "e1");
    let ids = match receive_batch(&mut state, &batch, 0) {
        IngestResponse::Created { payout_ids, .. } => payout_ids,
        _ => panic!("fresh submission must be created"),
    };
    let event = PayoutEvent {
        payout_id: ids[0],
        event_type: "payout.created".to_string(),
        timestamp: "2021-01-01T00:00:00+00:00".to_string(),
    };

    let first = process_payout_event(&mut state, &event, 10);
    assert!(matches!(first, ProcessOutcome::Processed));
    let rows = state.repository.list_by_batch("b1");
    assert_eq!(rows[0].status, pix::status::PayoutStatus::Completed);
    let updated_at = rows[0].updated_at;

    // replaying the identical event against the completed record does no
    // further state work
    let second = process_payout_event(&mut state, &event, 20);
    assert!(matches!(second, ProcessOutcome::AlreadyHandled));
    let rows = state.repository.list_by_batch("b1");
    assert_eq!(rows[0].status, pix::status::PayoutStatus::Completed);
    assert_eq!(rows[0].updated_at, updated_at);

    // even after the processing lock expires, the terminal record stays
    // untouched
    let third = process_payout_event(&mut state, &event, 20 + LOCK_TTL_SECONDS);
    assert!(matches!(third, ProcessOutcome::Processed));
    let rows = state.repository.list_by_batch("b1");
    assert_eq!(rows[0].status, pix::status::PayoutStatus::Completed);
    assert_eq!(rows[0].updated_at, updated_at);
}

#[test]
fn end_to_end_single_payout() {
    let mut state = AppState::new();
    state.pubsub.ensure_group();

    let outcome = receive_batch(&mut state, &one_item_batch("b1", "e1"), 100);
    let ids = match outcome {
        IngestResponse::Created { payout_ids, .. } => payout_ids,
        _ => panic!("expected created"),
    };
    assert_eq!(ids.len(), 1);
    assert_eq!(state.pubsub.entries.len(), 1);

    let processed = process_batch(&mut state, "worker-0", 200);
    assert_eq!(processed, 1);

    let status = get_batch_status(&state, "b1");
    assert_eq!(status.batch_id, "b1");
    assert_eq!(status.summary.total, 1);
    assert_eq!(status.summary.completed, 1);
    assert_eq!(status.summary.failed, 0);
    assert_eq!(status.summary.processing, 0);
    assert_eq!(status.summary.pending, 0);
    assert_eq!(status.payouts.len(), 1);
    assert_eq!(status.payouts[0].user_id, "u1");
    assert_eq!(status.payouts[0].amount_cents, 5000);
    assert_eq!(status.payouts[0].pix_key, "a@b.com");
}

#[test]
fn unknown_batch_reads_back_empty() {
    let state = AppState::new();
    let status = get_batch_status(&state, "nowhere");
    assert_eq!(status.batch_id, "nowhere");
    assert_eq!(status.payouts.len(), 0);
    assert_eq!(status.summary.total, 0);
    assert_eq!(status.summary.pending, 0);
}

#[test]
fn batches_do_not_interfere() {
    let mut state = AppState::new();
    receive_batch(&mut state, &one_item_batch("b1", "e1"), 0);
    receive_batch(&mut state, &one_item_batch("b2", "e1"), 1);

    let s1 = get_batch_status(&state, "b1");
    let s2 = get_batch_status(&state, "b2");
    assert_eq!(s1.summary.total, 1);
    assert_eq!(s2.summary.total, 1);
    assert_ne!(s1.payouts[0].id, s2.payouts[0].id);
    assert_eq!(s1.payouts[0].idempotency_key, "b1:e1");
    assert_eq!(s2.payouts[0].idempotency_key, "b2:e1");
}

#[test]
fn worker_acknowledges_processed_entries_and_keeps_malformed_pending() {
    let mut state = AppState::new();
    state.pubsub.ensure_group();
    state.pubsub.publish_payout_event(7, "payout.created");
    // a malformed entry: decode fails, so it must stay pending
    state.pubsub.entries.push("not json".to_string());

    let processed = process_batch(&mut state, "worker-1", 50);
    assert_eq!(processed, 1);
    assert_eq!(state.pubsub.pending, vec![(1, 50)]);
    assert_eq!(state.pubsub.next_delivery, 2);
}

#[test]
fn stale_claims_are_reclaimed_and_reprocessed() {
    let mut state = AppState::new();
    state.pubsub.ensure_group();
    let ids = match receive_batch(&mut state, &one_item_batch("b1", "e1"), 0) {
        IngestResponse::Created { payout_ids, .. } => payout_ids,
        _ => panic!("expected created"),
    };

    // a worker claims the entry at t=5 and then dies before acknowledging
    let claimed = state.pubsub.read_new(10, 5);
    assert_eq!(claimed.len(), 1);
    assert_eq!(state.pubsub.pending, vec![(0, 5)]);

    // too early: the claim is not yet stale
    assert_eq!(pix::worker::reclaim_pending(&mut state, 60, 30), 0);
    assert_eq!(state.pubsub.pending, vec![(0, 5)]);

    // old enough: the entry is re-claimed, processed, and acknowledged
    assert_eq!(pix::worker::reclaim_pending(&mut state, 60, 100), 1);
    assert!(state.pubsub.pending.is_empty());
    let status = get_batch_status(&state, "b1");
    assert_eq!(status.summary.completed, 1);
    assert_eq!(ids.len(), 1);
}
