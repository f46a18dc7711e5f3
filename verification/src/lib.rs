//! A bounded-concurrency probing engine for network reconnaissance: given
//! candidate subdomains of a domain, confirm which resolve, probe a port
//! range on each responsive host under a concurrency ceiling and a per-probe
//! timeout, and aggregate every positive outcome into one stable record per
//! subject — without losing, duplicating, or hanging on any probe.
//!
//! The probing itself (DNS lookups, TCP connects, HTTP requests) is I/O and
//! lives with the caller; this crate holds the verified logic around it: the
//! executor's admission accounting, the probe-outcome decisions, the result
//! aggregation, the port-range grammar, and the stage filters.

pub mod aggregator;
pub mod executor;
pub mod extractor;
pub mod orchestrator;
pub mod outcome;
pub mod port_range;
pub mod prober;
pub mod report;
