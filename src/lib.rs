//! Verified core of a log ingestion pipeline: a segmenter that cuts a byte
//! stream into records, a classifier that turns records into start and finish
//! events, a batcher that deals batches to a pool of writers in turn, and an
//! aggregator of progress samples.

pub mod batch;
pub mod encode;
pub mod model;
pub mod pipeline;
pub mod progress;
pub mod record;
pub mod roundtrip;
pub mod segment;
