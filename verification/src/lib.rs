//! Deduplicated, rate-limited dispatch of short translation requests.
//!
//! A grid of cells is scanned once. Each textual cell is either copied as it
//! is, answered from a table of overrides, or registered under its normalized
//! key, so that one request serves every cell that shares the key. The pending
//! requests are then released in bounded bursts, and each outcome is written
//! back to every cell that waits for it.
pub mod text;
pub mod text_map;
pub mod overrides;
pub mod grid;
pub mod prompt;
pub mod registry;
pub mod scan;
pub mod worker;
pub mod collect;
pub mod dispatch;
pub mod laws;
