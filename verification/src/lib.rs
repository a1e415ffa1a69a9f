//! MemoryKnight: the decision logic of a user-space memory watchdog.
//!
//! The library holds what the watchdog computes: byte-size parsing and
//! formatting, the resolved run configuration, the per-sample watch decision,
//! and the text of the post-mortem report. Spawning, sampling the operating
//! system and printing live in the program around it.

pub mod cli;
pub mod config;
pub mod decimal;
pub mod float;
pub mod monitor;
pub mod report;
pub mod size;
pub mod size_laws;
pub mod term;
pub mod text;
