//! The decision layer of an update-graph distribution service.
//!
//! Given a client's request for an update graph, this library decides which
//! subset of the available update edges that client is permitted to see,
//! implementing a staged rollout: it derives a stable per-client wariness
//! value ([`wariness`]), tracks the approximate number of unique clients
//! seen ([`population`]), and filters the raw graph through rollout
//! throttling and dead-end pruning ([`policy`]). Every function here is a
//! total, verified computation on plain values; fetching the raw graph,
//! transport and metrics exposition belong to the surrounding process.

use vstd::prelude::*;

pub mod wariness;
pub mod policy;
pub mod population;

verus! {

/// Parts-per-million scale for wariness values: `1_000_000` stands for 1.0.
///
/// A wariness value is a per-client scalar in [0, 1] gating how readily the
/// client is exposed to new releases (higher means more cautious). It is kept
/// in fixed point, as a whole number of millionths, so that every derivation
/// and comparison is exact.
pub const WARINESS_SCALE: u64 = 1_000_000;

/// A wariness value is valid when it lies in [0.0, 1.0], i.e. [0, 1_000_000] ppm.
pub open spec fn valid_wariness(w: u64) -> bool {
    w <= WARINESS_SCALE
}

/// The view of an optional identifier string: absent means the empty string.
pub open spec fn opt_str_view(o: Option<String>) -> Seq<char> {
    match o {
        Some(s) => s@,
        None => Seq::empty(),
    }
}

/// A client's query for an update graph: four optional string fields taken
/// from the request surface.
pub struct GraphQuery {
    pub basearch: Option<String>,
    pub stream: Option<String>,
    pub rollout_wariness: Option<String>,
    pub node_uuid: Option<String>,
}

/// Log verbosity classes, ordered from quietest to most verbose.
#[derive(Clone, Copy, PartialEq, Eq, Structural, Debug)]
pub enum LogLevel {
    Warn,
    Info,
    Debug,
    Trace,
}

/// Command-line configuration options.
pub struct CliOptions {
    /// Verbosity level (higher is more verbose).
    pub verbosity: u8,
    /// Path to configuration file.
    pub config_path: Option<String>,
}

impl CliOptions {
    /// Returns the log-level selected by the verbosity flags.
    pub fn loglevel(&self) -> (level: LogLevel)
        ensures
            level == (match self.verbosity {
                0u8 => LogLevel::Warn,
                1u8 => LogLevel::Info,
                2u8 => LogLevel::Debug,
                _ => LogLevel::Trace,
            }),
    {
        match self.verbosity {
            0 => LogLevel::Warn,
            1 => LogLevel::Info,
            2 => LogLevel::Debug,
            _ => LogLevel::Trace,
        }
    }
}

} // verus!
