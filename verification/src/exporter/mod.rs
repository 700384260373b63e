//! The exporter: what was read from the adapters, as Prometheus metrics.

pub mod metrics;
pub mod scrape;
pub mod scrapes;
