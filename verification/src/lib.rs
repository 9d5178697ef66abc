//! Verified core of a book-splitting pipeline.
//!
//! Raw source files hold chapters separated by a delimiter line. Three
//! trigger paths (a startup reconciliation pass, a pending-file queue, and a
//! live publish/subscribe channel) all funnel into one idempotent splitting
//! transform. This crate holds the verified logic of that pipeline: the
//! chapter splitter itself, catalog key handling, trigger-message parsing,
//! the live-loop state machine, and the retry and queue-drain decisions.
//! The surrounding process (store round-trips, file reads and writes, the
//! event loop) supplies plain values to these functions and acts on what
//! they return.

pub mod book;
pub mod catalog;
pub mod config;
pub mod drain;
pub mod inflight;
pub mod reconcile;
pub mod retry;
pub mod splitter;
pub mod text;
pub mod trigger;
