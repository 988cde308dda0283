//! What the host calls when it loads the module and when it reads a filter
//! configuration.

use crate::config::{builds, FilterConfig};
use crate::error::ConfigError;
use vstd::prelude::*;

verus! {

/// The name under which the host knows this filter.
pub open spec fn filter_name() -> Seq<char> {
    "ip_restriction"@
}

/// Runs once when the module is loaded, and tells the host whether the module
/// can run here. It always can.
pub fn init() -> (supported: bool)
    ensures
        supported,
{
    true
}

/// Whether `name` is the name of this filter.
pub fn is_known_filter(name: &str) -> (known: bool)
    ensures
        known == (name@ == filter_name()),
{
    let given: String = name.to_owned();
    let own: String = "ip_restriction".to_owned();
    given == own
}

/// Makes the configuration of a filter that the host names, from the payload
/// that the host gives for it. The host must name this filter: any other name
/// is a fault of the host's configuration that ends filter creation.
pub fn new_http_filter_config_fn(filter_name: &str, filter_config: &str) -> (outcome: Result<
    FilterConfig,
    ConfigError,
>)
    requires
        filter_name@ == self::filter_name(),
    ensures
        builds(filter_config@, outcome),
{
    FilterConfig::build(filter_config)
}

} // verus!
