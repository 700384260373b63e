//! The remediator: reboots adapters that monitoring reports as stuck, within
//! safety limits.

pub mod config;
pub mod metrics;
pub mod poller;
pub mod prom;
pub mod runs;
pub mod state;
