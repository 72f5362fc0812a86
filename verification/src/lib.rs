//! Telemetry ingestion and incremental synchronisation for a power monitor.
//!
//! The monitor sends messages over a serial line. The `framer` cuts the
//! stream into candidate messages, `message` takes a reading from a
//! candidate, and `reading` writes the line that is appended to the log for
//! it. A synchronisation run reads the log back with `record` and decides
//! with `plan` which records go to the store.

pub mod clock;
pub mod config;
pub mod decimal;
pub mod framer;
pub mod message;
pub mod number_text;
pub mod plan;
pub mod reading;
pub mod record;
pub mod settings;
pub mod text;

pub use crate::config::{Config, ConnectConfig, DatabaseConfig};
pub use crate::reading::CurrentCostReading;
pub use crate::record::CurrentcostLine;
