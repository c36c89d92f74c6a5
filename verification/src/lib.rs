//! Persistence and review-selection core of a personal study drill.
//!
//! The library keeps the durable record of exam questions, the append-only
//! log of answers, and the derived per-topic progress, and chooses which
//! question to present next.  The interactive terminal loop, command-line
//! parsing and the on-disk database are thin collaborators around this core.

pub mod args;
pub mod config;
pub mod model;
pub mod report;
pub mod store;
pub mod timestamp;
