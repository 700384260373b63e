//! What the operations of the library mean, stated of what goes in and what comes
//! out: how results read back, and how one result goes with another.

pub mod bits;
pub mod discovery;
pub mod documents;
pub mod metrics;
pub mod network;
pub mod page;
pub mod poll;
pub mod queries;
pub mod rates;
pub mod reboots;
pub mod scraping;
pub mod texts;
pub mod views;
pub mod wire;
