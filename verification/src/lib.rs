//! Exact-match IP allow/deny filtering for a reverse-proxy filter chain.
//!
//! A configuration payload names either the addresses that may pass or the
//! addresses that may not. It is validated once into an immutable table; every
//! request is then decided against that table from its source address and port.

pub mod address;
pub mod config;
pub mod error;
pub mod filter;
pub mod json;
pub mod payload;
pub mod registration;

pub use config::{DecisionTable, FilterConfig, FilterConfigImpl};
pub use error::{AddressList, ConfigError};
pub use filter::{Decision, Filter, RejectReason};
pub use payload::RawFilterConfig;
