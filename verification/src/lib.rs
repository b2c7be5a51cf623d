//! A verified channel store: it persists the observed state of a set of
//! payment channels as rows of a channel table and reconciles that table
//! against each freshly observed snapshot.
//!
//! The heart of the crate is the reconciliation pass `update_channels`:
//! every channel of the snapshot is upserted, then every stored row absent
//! from the snapshot is transitioned to the closed state. The first time a
//! row closes, its `closed_at` timestamp is written; it is never overwritten
//! or cleared afterwards.

pub mod channel;
pub mod laws;
pub mod store;
