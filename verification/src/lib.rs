//! Incremental ingestion and fan-out engine for append-only event streams.
//!
//! The crate models the core of a streaming service: per-topic broadcast
//! channels with a lossy slow-consumer policy, a monotonic `(timestamp, id)`
//! cursor discipline for de-duplicated ingestion, an idempotent durable sink,
//! bucketed time aggregation with zero-filling, and the decision logic of the
//! polling, relay and session loops. All of it is verified; the surrounding
//! network and database plumbing lives outside the library and only hands
//! plain values in and out.

pub mod assoc;
pub mod bignum;
pub mod bucket;
pub mod dec;
pub mod frames;
pub mod hub;
pub mod metrics;
pub mod models;
pub mod poller;
pub mod relay;
pub mod session;
pub mod sink;
pub mod snapshot;
pub mod state;
pub mod text;
