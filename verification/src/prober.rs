use vstd::prelude::*;

use crate::outcome::ProbeOutcome;
use crate::outcome::Target;

verus! {

/// DNS liveness probe decision: a hostname is live iff resolution returned at
/// least one address within the timeout. The caller hands in how many
/// addresses the resolver returned; resolver failure, NXDOMAIN, SERVFAIL and
/// timeout all hand `0` and so map uniformly to a negative outcome.
pub fn dns_probe_outcome(host: String, addresses_found: usize) -> (o: ProbeOutcome)
    ensures
        o.target == Target::Host(host),
        o.succeeded == (addresses_found >= 1),
        o.detail is None,
{
    ProbeOutcome { target: Target::Host(host), succeeded: addresses_found >= 1, detail: None }
}

/// TCP port probe decision: `accepted` holds one entry per socket address the
/// host resolved to, `true` where a connection to that address completed
/// within the timeout. The port is open iff any address accepted (a
/// deliberate optimistic union over addresses, not a per-address report).
/// An empty vector (resolution failure, or a probe that never returned) maps
/// to a negative outcome.
pub fn tcp_probe_outcome(host: String, port: u16, accepted: &Vec<bool>) -> (o: ProbeOutcome)
    ensures
        o.target == Target::HostPort(host, port),
        o.succeeded == (exists|i: int| 0 <= i < accepted@.len() && accepted@[i]),
        o.detail == (if o.succeeded { Some(port) } else { None::<u16> }),
{
    let mut any_open = false;
    let mut i: usize = 0;
    while i < accepted.len()
        invariant
            0 <= i <= accepted@.len(),
            any_open == (exists|j: int| 0 <= j < i && accepted@[j]),
        decreases accepted@.len() - i,
    {
        if accepted[i] {
            any_open = true;
        }
        i = i + 1;
    }
    let detail = if any_open { Some(port) } else { None };
    ProbeOutcome { target: Target::HostPort(host, port), succeeded: any_open, detail }
}

/// HTTP disclosure probe decision: the probe succeeds iff the final response
/// status is in the 2xx range. `None` stands for a transport error or a
/// request that never completed within the timeout, and maps to a negative
/// outcome.
pub fn http_probe_outcome(url: String, status: Option<u16>) -> (o: ProbeOutcome)
    ensures
        o.target == Target::Host(url),
        o.succeeded == (status matches Some(code) && 200 <= code <= 299),
        o.detail is None,
{
    let succeeded = match status {
        Some(code) => 200 <= code && code <= 299,
        None => false,
    };
    ProbeOutcome { target: Target::Host(url), succeeded, detail: None }
}

/// Resolution of a probe whose underlying operation never returned within the
/// per-probe timeout: the work item is still resolved, as a negative outcome,
/// never left pending and never surfaced as an error.
pub fn timeout_outcome(target: Target) -> (o: ProbeOutcome)
    ensures
        o.target == target,
        !o.succeeded,
        o.detail is None,
{
    ProbeOutcome { target, succeeded: false, detail: None }
}

}
