//! Deduplication of pulsar search candidates.
//!
//! Candidates that describe the same signal (same period up to a tolerance,
//! possibly at a harmonic, after reconciling trial accelerations) are grouped
//! into clusters, and each cluster keeps its highest-SNR member as pivot.
//!
//! All physical quantities are held as integers in fixed units (see
//! `candidate`), so every comparison below is exact.
pub mod candidate;
pub mod config;
pub mod matching;
pub mod index;
pub mod engine;
pub mod cross;
pub mod schema;
