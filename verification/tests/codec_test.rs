use pix::codec::{encode_batch_response, encode_payout_event, parse_payout_event};
use pix::idempotency::IdempotencyService;
use pix::text::{escape_json, u64_to_string};

#[test]
fn decimal_rendering_is_canonical() {
    assert_eq!(u64_to_string(0), "0");
    assert_eq!(u64_to_string(7), "7");
    assert_eq!(u64_to_string(10), "10");
    assert_eq!(u64_to_string(90210), "90210");
    assert_eq!(u64_to_string(u64::MAX), "18446744073709551615");
}

#[test]
fn json_escaping_covers_quotes_backslashes_and_controls() {
    assert_eq!(escape_json("plain"), "plain");
    assert_eq!(escape_json("say \"hi\""), "say \\\"hi\\\"");
    assert_eq!(escape_json("a\\b"), "a\\\\b");
    assert_eq!(escape_json("line\nbreak\ttab\rret"), "line\\nbreak\\ttab\\rret");
    assert_eq!(escape_json("\u{1}"), "\\u0001");
    assert_eq!(escape_json("\u{1f}"), "\\u001f");
}

#[test]
fn event_encoding_is_exact() {
    let payload = encode_payout_event(42, "payout.created", "2021-01-01T00:00:00+00:00");
    assert_eq!(
        payload,
        "{\"payout_id\":42,\"event_type\":\"payout.created\",\"timestamp\":\"2021-01-01T00:00:00+00:00\"}"
    );
}

#[test]
fn event_round_trips_through_the_codec() {
    let payload = encode_payout_event(42, "payout.created", "2021-01-01T00:00:00+00:00");
    let event = parse_payout_event(payload.as_str()).expect("canonical payload must parse");
    assert_eq!(event.payout_id, 42);
    assert_eq!(event.event_type, "payout.created");
    assert_eq!(event.timestamp, "2021-01-01T00:00:00+00:00");
}

#[test]
fn malformed_payloads_are_rejected() {
    assert!(parse_payout_event("").is_none());
    assert!(parse_payout_event("not json").is_none());
    assert!(parse_payout_event("{\"payout_id\":}").is_none());
    assert!(parse_payout_event("{\"payout_id\":01,\"event_type\":\"x\",\"timestamp\":\"t\"}")
        .is_none());
    assert!(parse_payout_event("{\"payout_id\":1,\"event_type\":\"x\",\"timestamp\":\"t\"")
        .is_none());
    // a value that cannot fit the identifier type
    assert!(parse_payout_event(
        "{\"payout_id\":18446744073709551616,\"event_type\":\"x\",\"timestamp\":\"t\"}"
    )
    .is_none());
}

#[test]
fn response_encoding_is_exact() {
    let body = encode_batch_response("batch-123", &vec![1, 2, 3]);
    assert_eq!(
        body,
        "{\"batch_id\":\"batch-123\",\"payout_ids\":[1,2,3],\"received_items\":3}"
    );
    let empty = encode_batch_response("b", &vec![]);
    assert_eq!(empty, "{\"batch_id\":\"b\",\"payout_ids\":[],\"received_items\":0}");
    let quoted = encode_batch_response("a\"b", &vec![0]);
    assert_eq!(quoted, "{\"batch_id\":\"a\\\"b\",\"payout_ids\":[0],\"received_items\":1}");
}

#[test]
fn locks_and_results_expire_by_ttl() {
    let mut kv = IdempotencyService::new();
    assert!(kv.check_and_lock("k", 300, 1000));
    // held while unexpired
    assert!(!kv.check_and_lock("k", 300, 1299));
    // re-acquirable at the expiry instant
    assert!(kv.check_and_lock("k", 300, 1300));

    kv.store_result("r", "body", 10, 0);
    assert_eq!(kv.get_result("r", 9), Some("body".to_string()));
    assert_eq!(kv.get_result("r", 10), None);
    assert_eq!(kv.get_result("other", 0), None);
    // a later write under the same key wins
    kv.store_result("r", "fresh", 10, 5);
    assert_eq!(kv.get_result("r", 9), Some("fresh".to_string()));
}

#[test]
fn published_events_carry_parseable_timestamps() {
    // drives the real clock through the publisher: the payload only
    // parses if the timestamp needed no escaping
    let mut pubsub = pix::pubsub::PubSubService::new();
    pubsub.publish_payout_event(3, "payout.created");
    let payload = &pubsub.entries[0];
    let event = parse_payout_event(payload.as_str()).expect("published payload must parse");
    assert_eq!(event.payout_id, 3);
    assert_eq!(event.event_type, "payout.created");
    assert!(!event.timestamp.is_empty());
}
