//! Deterministic, single-threaded order matching engine core.
pub mod sbe;
pub mod types;
pub mod orders;
pub mod outcome;
pub mod book;
pub mod codec;
pub mod collections;
pub mod command;
pub mod engine;
pub mod snapshot;
