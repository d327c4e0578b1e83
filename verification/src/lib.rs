//! Sampling and statistics core of a message-broker topic monitor.
//!
//! The monitor polls a cluster for the high watermark of every partition and
//! shows how fast each topic is growing. This crate holds what it decides and
//! computes; talking to brokers, sleeping and drawing are left to the caller.
//!
//! - [`scrape`]: the sampler's schedule for a round of queries, the walk
//!   through it, and the quarantine that keeps failing brokers out of the way.
//! - [`stats`]: the store of offset histories, split into generations where
//!   a topic was reset, with base statistics and rate series.
//! - [`polls`] and [`bucket`]: one partition's history, and the sharing of its
//!   growth over time buckets.
//! - [`colors`], [`ui`], [`text`]: what the display needs to know.
//! - [`options`]: values from the command line.
//!
//! All times are nanoseconds on a clock of the caller's choosing.

pub mod bucket;
pub mod colors;
pub mod options;
pub mod polls;
pub mod scrape;
pub mod stats;
pub mod text;
pub mod ui;
