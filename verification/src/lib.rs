//! Engine of a DNS resolver benchmark.

use vstd::prelude::*;

pub mod bench;
pub mod command;
pub mod config;
pub mod display;
pub mod domains;
pub mod double;
pub mod duration;
pub mod export;
pub mod order;
pub mod pacing;
pub mod probe;
pub mod resolver;
pub mod rng;
pub mod saving;
pub mod session;
pub mod settings;
pub mod state;
pub mod stats;
pub mod table;
pub mod text;
pub mod transport;
pub mod wire;

pub use crate::bench::{
    build_endpoints, BenchConfig, BenchEvent, Class, EndpointReport, FailKind, ProbeResult,
};
pub use crate::domains::{dedup_preserve, default_domains};
pub use crate::export::ExportFormat;
pub use crate::probe::{ProbeError, ProbeOutcome};
pub use crate::resolver::Resolver;
pub use crate::stats::{summarize, Summary};
pub use crate::transport::RecordType;

verus! {

} // verus!
