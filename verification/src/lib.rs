//! Core engine of a personal task/time-tracking application.
//!
//! Tasks move through a Todo -> Running -> Finished lifecycle; every work
//! session is recorded in an append-only ledger of time entries, and
//! statistics (today / week / month views) are aggregated from that ledger.
//! The relational store of the surrounding application is modelled here as an
//! in-memory [`store::Store`] with a monotonic clock; persistence and the UI
//! bridge are collaborators outside this crate.

pub mod agg;
pub mod categories;
pub mod clock;
pub mod daily_focus;
pub mod date;
pub mod error;
pub mod laws;
pub mod statistics;
pub mod store;
pub mod task;
pub mod text;
pub mod types;
