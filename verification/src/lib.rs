//! A resilient polling engine for smart-metering devices: network discovery
//! with bounded retry, identity-stable device records, and a cycle scheduler
//! that isolates per-device failures.

pub mod cycle;
pub mod discovery;
pub mod identity;
pub mod store;
pub mod text;
