//! The settings of a run and their validation.
use vstd::prelude::*;
use crate::error::SomeIPError;
use crate::output::parse_output_format;

verus! {

/// The settings of a run. Timeouts are in seconds.
#[derive(Debug, Clone)]
pub struct Config {
    pub pcap_file: String,
    pub matrix_file: Option<String>,
    pub sd_port: u16,
    pub vlan: Option<u16>,
    pub output_format: String,
    pub output_file: Option<String>,
    pub verbose: u8,
    pub request_timeout: u64,
    pub tp_timeout: u64,
    pub tcp_timeout: u64,
}

/// How much the run logs.
#[derive(Debug, Clone, Copy, PartialEq, Eq, Structural)]
pub enum LogLevel {
    Warn,
    Info,
    Debug,
    Trace,
}

pub open spec fn is_output_format_name(s: Seq<char>) -> bool {
    s == "text"@ || s == "json"@ || s == "yaml"@
}

impl Config {
    /// Checks the settings, given whether the capture file and the matrix
    /// file (if one is named) exist: both must, and the output format must be
    /// `text`, `json` or `yaml`.
    pub fn validate(&self, pcap_exists: bool, matrix_exists: bool) -> (r: Result<(), SomeIPError>)
        ensures
            r is Ok <==> pcap_exists && (self.matrix_file is Some ==> matrix_exists)
                && is_output_format_name(self.output_format@),
            r matches Err(e) ==> e == SomeIPError::ConfigError,
    {
        if !pcap_exists {
            return Err(SomeIPError::ConfigError);
        }
        if self.matrix_file.is_some() && !matrix_exists {
            return Err(SomeIPError::ConfigError);
        }
        match parse_output_format(self.output_format.as_str()) {
            Some(_) => Ok(()),
            None => Err(SomeIPError::ConfigError),
        }
    }
}

/// The log level for a verbosity count: none warns, one informs, two
/// debugs, more trace.
pub fn log_level(verbose: u8) -> (r: LogLevel)
    ensures
        r == (if verbose == 0 {
            LogLevel::Warn
        } else if verbose == 1 {
            LogLevel::Info
        } else if verbose == 2 {
            LogLevel::Debug
        } else {
            LogLevel::Trace
        }),
{
    match verbose {
        0 => LogLevel::Warn,
        1 => LogLevel::Info,
        2 => LogLevel::Debug,
        _ => LogLevel::Trace,
    }
}

} // verus!
