//! A distributed counter pipeline.
//!
//! The client side aggregates `increment` calls per counter and per
//! wall-clock minute and decides when to publish an update (on a minute
//! roll-over or when the in-minute count reaches a power of two). The
//! server side keeps, per counter, a cascade of five fixed-resolution
//! time buckets covering progressively longer history, into which
//! incoming samples are merged and out of which aged samples cascade.
//! Messages travel as length-delimited frames.

pub mod assoc;
pub mod bg;
pub mod codec;
pub mod counter;
pub mod counter_server;
pub mod counter_types;
pub mod logger;
pub mod series_laws;
pub mod time_bucket;
pub mod time_series;
