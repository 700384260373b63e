//! Observing and remediating GoCoax MoCA adapters: the register protocol, its
//! decoders, the exporter's metrics and the remediator's decisions.

pub mod client;
pub mod config;
pub mod decode;
pub mod discover;
pub mod error;
pub mod exporter;
pub mod exposition;
pub mod json;
pub mod laws;
pub mod ms;
pub mod net;
pub mod phy;
pub mod reads;
pub mod remediator;
pub mod tables;
pub mod text;

pub use error::{Error, Result};
