//! A single-producer / single-consumer ring buffer whose index discipline,
//! two-slice views and endpoint operations are proved correct.
//!
//! - `index`: index arithmetic modulo twice the capacity.
//! - `storage`: the fixed slots that hold the items.
//! - `counter`: the pair of indices, plain or cache-line padded.
//! - `local`: the buffer itself and its operations.
//! - `producer`, `consumer`: the two endpoints, each in immediate or postponed mode.
//! - `laws`: properties of every run of operations.
//! - `observer`: queries shared by the buffer and its endpoints.

pub mod index;
pub mod storage;
pub mod counter;
pub mod local;
pub mod producer;
pub mod consumer;
pub mod laws;
pub mod observer;
