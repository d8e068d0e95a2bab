//! An idempotent, at-least-once payout pipeline.
//!
//! Batches of payout instructions are ingested once per `batch_id`
//! (duplicate submissions replay the cached response byte for byte, or
//! are refused while the first is in flight), persisted one row per
//! item under a unique idempotency key, and announced on an append-only
//! event stream. A pool of workers consumes the stream through one
//! shared consumer group and drives each payout forward through the
//! `Pending -> Processing -> Completed | Failed` lifecycle, deduplicated
//! per event by the same lock primitive, so delivering an event twice
//! never repeats its work.

pub mod codec;
pub mod handlers;
pub mod idempotency;
pub mod models;
pub mod pubsub;
pub mod repository;
pub mod status;
pub mod text;
pub mod worker;
