use pix::models::{make_idempotency_key, PayoutBatch, PayoutItem};
use pix::repository::PayoutRepository;
use pix::status::PayoutStatus;

fn item(external_id: &str, user_id: &str, amount_cents: i64, pix_key: &str) -> PayoutItem {
    PayoutItem {
        external_id: external_id.to_string(),
        user_id: user_id.to_string(),
        amount_cents,
        pix_key: pix_key.to_string(),
    }
}

#[test]
fn test_idempotency_key_format() {
    let batch_id = "batch-123";
    let external_id = "ext-456";
    let key = make_idempotency_key(batch_id, external_id);

    assert_eq!(key, "batch-123:ext-456");
}

#[test]
fn test_payout_status_variants() {
    let pending = PayoutStatus::Pending.label();
    let processing = PayoutStatus::Processing.label();
    let completed = PayoutStatus::Completed.label();
    let failed = PayoutStatus::Failed.label();

    assert_eq!(pending.as_str(), "Pending");
    assert_eq!(processing.as_str(), "Processing");
    assert_eq!(completed.as_str(), "Completed");
    assert_eq!(failed.as_str(), "Failed");
}

#[test]
fn insert_batch_assigns_one_row_per_item() {
    let mut repo = PayoutRepository::new();
    let batch = PayoutBatch {
        batch_id: "batch-001".to_string(),
        items: vec![
            item("ext-001", "user-001", 10000, "a@example.com"),
            item("ext-002", "user-002", 20000, "b@example.com"),
        ],
    };
    let ids = repo.insert_batch(&batch, 100);
    assert_eq!(ids.len(), 2);
    assert_ne!(ids[0], ids[1]);
    let rows = repo.list_by_batch("batch-001");
    assert_eq!(rows.len(), 2);
    assert_eq!(rows[0].status, PayoutStatus::Pending);
    assert_eq!(rows[0].idempotency_key, "batch-001:ext-001");
    assert_eq!(rows[0].created_at, 100);
}

#[test]
fn duplicate_items_resolve_to_same_identifier() {
    // item-level uniqueness: same (batch_id, external_id) never makes two rows
    let mut repo = PayoutRepository::new();
    let batch = PayoutBatch {
        batch_id: "batch-001".to_string(),
        items: vec![
            item("ext-001", "user-001", 10000, "a@example.com"),
            item("ext-001", "user-001", 10000, "a@example.com"),
        ],
    };
    let ids = repo.insert_batch(&batch, 5);
    assert_eq!(ids.len(), 2);
    assert_eq!(ids[0], ids[1]);
    assert_eq!(repo.list_by_batch("batch-001").len(), 1);

    // re-submitting the whole batch returns the same identifiers again
    let ids2 = repo.insert_batch(&batch, 6);
    assert_eq!(ids2, ids);
    assert_eq!(repo.list_by_batch("batch-001").len(), 1);
}

#[test]
fn update_status_only_moves_forward() {
    let mut repo = PayoutRepository::new();
    let batch = PayoutBatch {
        batch_id: "b".to_string(),
        items: vec![item("e", "u", 1, "k@example.com")],
    };
    let ids = repo.insert_batch(&batch, 0);
    let id = ids[0];

    assert!(repo.update_status(id, PayoutStatus::Processing, 1));
    assert!(repo.update_status(id, PayoutStatus::Completed, 2));
    // no transition leaves a terminal status
    assert!(!repo.update_status(id, PayoutStatus::Processing, 3));
    assert!(!repo.update_status(id, PayoutStatus::Pending, 3));
    assert!(!repo.update_status(id, PayoutStatus::Failed, 3));
    let rows = repo.list_by_batch("b");
    assert_eq!(rows[0].status, PayoutStatus::Completed);
    assert_eq!(rows[0].updated_at, 2);
    // a skipped stage is refused as well
    let ids2 = repo.insert_batch(
        &PayoutBatch { batch_id: "c".to_string(), items: vec![item("e", "u", 1, "k@e.com")] },
        0,
    );
    assert!(!repo.update_status(ids2[0], PayoutStatus::Completed, 1));
    assert_eq!(repo.list_by_batch("c")[0].status, PayoutStatus::Pending);
    // failure is reachable from either live status
    assert!(repo.update_status(ids2[0], PayoutStatus::Failed, 2));
    assert_eq!(repo.list_by_batch("c")[0].status, PayoutStatus::Failed);
}

#[test]
fn summary_counts_partition_the_batch() {
    let mut repo = PayoutRepository::new();
    let batch = PayoutBatch {
        batch_id: "mix".to_string(),
        items: vec![
            item("e1", "u", 1, "k@example.com"),
            item("e2", "u", 2, "k@example.com"),
            item("e3", "u", 3, "k@example.com"),
            item("e4", "u", 4, "k@example.com"),
        ],
    };
    let ids = repo.insert_batch(&batch, 0);
    repo.update_status(ids[0], PayoutStatus::Processing, 1);
    repo.update_status(ids[1], PayoutStatus::Processing, 1);
    repo.update_status(ids[1], PayoutStatus::Completed, 2);
    repo.update_status(ids[2], PayoutStatus::Failed, 1);

    let (rows, summary) = repo.get_batch_with_summary("mix");
    assert_eq!(rows.len(), 4);
    assert_eq!(summary.total, 4);
    assert_eq!(summary.pending, 1);
    assert_eq!(summary.processing, 1);
    assert_eq!(summary.completed, 1);
    assert_eq!(summary.failed, 1);
    assert_eq!(
        summary.total,
        summary.pending + summary.processing + summary.completed + summary.failed
    );
}
