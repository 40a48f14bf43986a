//! A target-latency-aware work-stealing scheduler, written as a verified
//! state machine.
//!
//! A [`pool::Pool`] holds the whole scheduling state: the submitted requests
//! and their accounting, the global submission queue, one local queue and one
//! task slot per worker, the registry of workers protected from theft, and a
//! timestamped event log. Workers ask the pool what to do next
//! ([`pool::Pool::step`], [`pool::Pool::next`]), run the task they are
//! handed, and report its completion ([`pool::Pool::complete`]). Running the
//! work itself, threads and clocks are left to the caller; times are plain
//! ticks.
//!
//! Beside it stand two smaller verified pieces: [`storage::Storage`], a plain
//! work store whose owner takes the newest item and a thief the oldest, and
//! [`matrix::Matrix`], integer matrices with transposition, convolution and
//! linear combination.

pub mod events;
pub mod laws;
pub mod matrix;
pub mod pool;
mod random;
pub mod request;
pub mod storage;
pub mod task;
