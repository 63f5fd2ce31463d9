//! The configuration surface and its defaults.
//!
//! Loading from the environment is outer plumbing; the recognized options,
//! their types and their default values are the library's own and are
//! pinned here.
use vstd::prelude::*;
use vstd::string::StringExecFns;

verus! {

/// Static deployment labels attached to every counter series.
#[derive(Debug)]
pub struct PrometheusLabels {
    pub application: String,
    pub circuit: String,
    pub env: String,
    pub project: String,
}

/// Every recognized option.  `ch_url` and `ch_password` are required; the
/// rest default as the functions below state.
#[derive(Debug)]
pub struct Config {
    pub ch_url: String,
    pub ch_password: String,
    pub num_workers: u8,
    pub channel_buffer: u32,
    pub flush_interval: u8,
    pub batch_size: u16,
    pub ch_username: String,
    pub ch_table: String,
    pub ch_database: String,
    pub connection_timeout: u8,
    pub host: String,
    pub port: u16,
    pub labels: PrometheusLabels,
    pub prometheus_host: String,
    pub prometheus_port: u16,
}

pub fn default_username() -> (r: String)
    ensures
        r@ == "default"@,
{
    String::from_str("default")
}

pub fn default_table() -> (r: String)
    ensures
        r@ == "metrics"@,
{
    String::from_str("metrics")
}

pub fn default_database() -> (r: String)
    ensures
        r@ == "sleipnir"@,
{
    String::from_str("sleipnir")
}

pub fn default_host() -> (r: String)
    ensures
        r@ == "localhost"@,
{
    String::from_str("localhost")
}

pub fn default_flush_interval() -> (r: u8)
    ensures
        r == 5,
{
    5
}

pub fn default_batch_size() -> (r: u16)
    ensures
        r == 1000,
{
    1000
}

pub fn default_port() -> (r: u16)
    ensures
        r == 8080,
{
    8080
}

pub fn default_connection_timeout() -> (r: u8)
    ensures
        r == 30,
{
    30
}

pub fn default_channel_buffer() -> (r: u32)
    ensures
        r == 10000,
{
    10000
}

pub fn default_prometheus_labels() -> (r: PrometheusLabels)
    ensures
        r.application@ == "sleipnir"@,
        r.circuit@ == "unknown"@,
        r.env@ == "unknown"@,
        r.project@ == "unknown"@,
{
    PrometheusLabels {
        application: String::from_str("sleipnir"),
        circuit: String::from_str("unknown"),
        env: String::from_str("unknown"),
        project: String::from_str("unknown"),
    }
}

pub fn default_prometheus_host() -> (r: String)
    ensures
        r@ == "0.0.0.0"@,
{
    String::from_str("0.0.0.0")
}

pub fn default_prometheus_port() -> (r: u16)
    ensures
        r == 9090,
{
    9090
}

} // verus!
