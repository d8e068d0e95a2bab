use pix::models::{PayoutBatch, PayoutItem};

fn item(external_id: &str, user_id: &str, amount_cents: i64, pix_key: &str) -> PayoutItem {
    PayoutItem {
        external_id: external_id.to_string(),
        user_id: user_id.to_string(),
        amount_cents,
        pix_key: pix_key.to_string(),
    }
}

#[test]
fn test_payout_item_valid_amount() {
    let item = PayoutItem {
        external_id: "ext-001".to_string(),
        user_id: "user-001".to_string(),
        amount_cents: 10000,
        pix_key: "test@example.com".to_string(),
    };

    assert!(item.amount_cents > 0);
}

#[test]
fn test_batch_with_multiple_items() {
    let batch = PayoutBatch {
        batch_id: "batch-001".to_string(),
        items: vec![
            item("ext-001", "user-001", 10000, "test1@example.com"),
            item("ext-002", "user-002", 20000, "test2@example.com"),
        ],
    };

    assert_eq!(batch.items.len(), 2);
    assert!(batch.items.iter().all(|item| !item.external_id.is_empty()));
    assert!(batch.items.iter().all(|item| item.amount_cents > 0));
}

#[test]
fn test_external_ids_are_unique_in_batch() {
    let batch = PayoutBatch {
        batch_id: "batch-001".to_string(),
        items: vec![
            item("ext-001", "user-001", 10000, "test@example.com"),
            item("ext-002", "user-002", 20000, "test@example.com"),
        ],
    };

    let external_ids: Vec<&String> = batch.items.iter().map(|item| &item.external_id).collect();

    let unique_ids: std::collections::HashSet<_> = external_ids.iter().collect();

    assert_eq!(
        external_ids.len(),
        unique_ids.len(),
        "External IDs should be unique"
    );
}

#[test]
fn test_pix_key_formats() {
    let valid_keys = vec![
        "email@example.com",
        "+5511999999999",
        "12345678901",
        "550e8400-e29b-41d4-a716-446655440000",
    ];

    for key in valid_keys {
        let item = PayoutItem {
            external_id: "ext-001".to_string(),
            user_id: "user-001".to_string(),
            amount_cents: 10000,
            pix_key: key.to_string(),
        };

        assert!(!item.pix_key.is_empty());
    }
}
