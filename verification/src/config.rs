//! The analyzer's configuration: where cached layers live, how long they
//! live, and the CI policy thresholds, each with its default.  Ratios are
//! carried as integer percent or hundredths of a percent.

use vstd::prelude::*;

use crate::analyze::PolicyThresholds;

verus! {

/// The configurable knobs, each optional.
#[derive(Debug, PartialEq)]
pub struct DivingConfig {
    pub layer_path: Option<String>,
    pub layer_ttl: Option<String>,
    pub threads: Option<usize>,
    pub lowest_efficiency_percent: Option<u64>,
    pub highest_wasted_bytes: Option<u64>,
    pub highest_wasted_percent_hundredths: Option<u64>,
}

impl Default for DivingConfig {
    /// A configuration with nothing set: every getter yields its default.
    fn default() -> (r: Self)
        ensures
            r.layer_path is None,
            r.layer_ttl is None,
            r.threads is None,
            r.lowest_efficiency_percent is None,
            r.highest_wasted_bytes is None,
            r.highest_wasted_percent_hundredths is None,
    {
        DivingConfig {
            layer_path: None,
            layer_ttl: None,
            threads: None,
            lowest_efficiency_percent: None,
            highest_wasted_bytes: None,
            highest_wasted_percent_hundredths: None,
        }
    }
}

/// The highest wasted byte count the CI gate accepts, twenty mebibytes
/// unless configured.
pub fn get_highest_wasted_bytes(config: &DivingConfig) -> (r: u64)
    ensures
        r == match config.highest_wasted_bytes {
            Some(v) => v,
            None => (20 * 1024 * 1024) as u64,
        },
{
    match config.highest_wasted_bytes {
        Some(v) => v,
        None => 20 * 1024 * 1024,
    }
}

/// The lowest efficiency score the CI gate accepts, in percent;
/// ninety-five unless configured.
pub fn get_lowest_efficiency_percent(config: &DivingConfig) -> (r: u64)
    ensures
        r == match config.lowest_efficiency_percent {
            Some(v) => v,
            None => 95u64,
        },
{
    match config.lowest_efficiency_percent {
        Some(v) => v,
        None => 95,
    }
}

/// The highest wasted ratio the CI gate accepts, in hundredths of a
/// percent; twenty percent unless configured.
pub fn get_highest_wasted_percent_hundredths(config: &DivingConfig) -> (r: u64)
    ensures
        r == match config.highest_wasted_percent_hundredths {
            Some(v) => v,
            None => 2000u64,
        },
{
    match config.highest_wasted_percent_hundredths {
        Some(v) => v,
        None => 2000,
    }
}

/// The seconds a duration string denotes, when it parses.
pub uninterp spec fn duration_secs_of(s: Seq<char>) -> Option<u64>;

/// Relies on humantime::parse_duration: the seconds a human-readable
/// duration string denotes, from the characters alone.
#[verifier::external_body]
fn parse_duration_secs(s: &str) -> (r: Option<u64>)
    ensures
        r == duration_secs_of(s@),
{
    humantime::parse_duration(s).ok().map(|d| d.as_secs())
}

/// The blob cache's time to live in seconds: the configured duration, or
/// ninety days when absent or unreadable.
pub fn get_layer_ttl_seconds(config: &DivingConfig) -> (r: u64)
    ensures
        r == match config.layer_ttl {
            Some(ref s) => match duration_secs_of(s@) {
                Some(v) => v,
                None => (90 * 24 * 3600) as u64,
            },
            None => (90 * 24 * 3600) as u64,
        },
{
    match &config.layer_ttl {
        Some(s) => match parse_duration_secs(s.as_str()) {
            Some(v) => v,
            None => 90 * 24 * 3600,
        },
        None => 90 * 24 * 3600,
    }
}

/// The directory cached layers live in, relative to the configuration
/// directory; `layers` unless configured.
pub fn get_layer_path(config: &DivingConfig) -> (r: String)
    ensures
        r@ == match config.layer_path {
            Some(ref s) => s@,
            None => "layers"@,
        },
{
    match &config.layer_path {
        Some(s) => s.clone(),
        None => String::from_str("layers"),
    }
}

/// The CI thresholds a configuration stands for.
pub fn policy_thresholds(config: &DivingConfig) -> (r: PolicyThresholds)
    ensures
        r.lowest_efficiency_percent == match config.lowest_efficiency_percent {
            Some(v) => v,
            None => 95u64,
        },
        r.highest_wasted_bytes == match config.highest_wasted_bytes {
            Some(v) => v,
            None => (20 * 1024 * 1024) as u64,
        },
        r.highest_wasted_percent_hundredths == match config.highest_wasted_percent_hundredths {
            Some(v) => v,
            None => 2000u64,
        },
{
    PolicyThresholds {
        lowest_efficiency_percent: get_lowest_efficiency_percent(config),
        highest_wasted_bytes: get_highest_wasted_bytes(config),
        highest_wasted_percent_hundredths: get_highest_wasted_percent_hundredths(config),
    }
}

} // verus!
