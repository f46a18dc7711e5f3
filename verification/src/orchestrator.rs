use vstd::prelude::*;

use crate::aggregator::Aggregator;
use crate::aggregator::ScanRecord;
use crate::aggregator::outcome_contrib;
use crate::outcome::ProbeOutcome;
use crate::outcome::Target;
use crate::outcome::filter_by_flags;
use crate::outcome::lemma_filter_by_flags_step;
use crate::port_range::PortRange;
use crate::port_range::parse_port_range;
use crate::port_range::port_range_text_valid;
use crate::port_range::range_of_text;

verus! {

/// One run's port-scan orchestration: the configured port range, the
/// concurrency budget (ceiling and per-probe timeout, fixed for the whole
/// run), and the aggregated per-subject results. A run moves strictly
/// forward — candidates, then liveness, then ports, then the final records —
/// and a new run takes a fresh value of this type.
pub struct ScanSubdomainPorts {
    results: Aggregator,
    port_range: PortRange,
    port_concurrency: usize,
    port_timeout_seconds: u64,
}

impl ScanSubdomainPorts {
    /// The configured port range.
    pub closed spec fn range(self) -> PortRange {
        self.port_range
    }

    /// The concurrency ceiling: how many probes may be in flight at once.
    pub closed spec fn concurrency(self) -> int {
        self.port_concurrency as int
    }

    /// The per-probe timeout, in seconds.
    pub closed spec fn timeout_seconds(self) -> int {
        self.port_timeout_seconds as int
    }

    pub closed spec fn results_agg(self) -> Aggregator {
        self.results
    }

    pub open spec fn wf(self) -> bool {
        &&& self.results_agg().wf()
        &&& self.range().wf()
        &&& self.concurrency() >= 1
        &&& self.timeout_seconds() >= 1
    }

    /// Whether a record exists for `s` (present even when no port was open,
    /// as long as the subject reached the port stage).
    pub open spec fn has_record(self, s: Seq<char>) -> bool {
        self.results_agg().has_subject(s)
    }

    /// The open ports recorded for subject `s`.
    pub open spec fn open_ports_of(self, s: Seq<char>) -> Seq<u16> {
        self.results_agg().positives_of(s)
    }

    pub open spec fn records_seq(self) -> Seq<ScanRecord> {
        self.results_agg().records_seq()
    }

    /// Builds one run's orchestrator from a range string and the concurrency
    /// budget (both budget numbers positive). The string is validated the way
    /// `validate_port_range_format` validates; an invalid one leaves the
    /// default range of ports 22 through 1024 in place, there being no prior
    /// configuration to retain at construction time.
    pub fn new(port_range: String, port_concurrency: usize, port_timeout_seconds: u64) -> (r: Self)
        requires
            port_concurrency >= 1,
            port_timeout_seconds >= 1,
        ensures
            r.wf(),
            r.records_seq() == Seq::<ScanRecord>::empty(),
            port_range_text_valid(port_range@) ==> r.range() == range_of_text(port_range@),
            !port_range_text_valid(port_range@) ==> r.range() == (PortRange {
                start: 22,
                end: 1024,
            }),
            r.concurrency() == port_concurrency,
            r.timeout_seconds() == port_timeout_seconds,
    {
        let range = match parse_port_range(port_range.as_str()) {
            Some(pr) => pr,
            None => PortRange { start: 22, end: 1024 },
        };
        ScanSubdomainPorts {
            results: Aggregator::new(),
            port_range: range,
            port_concurrency,
            port_timeout_seconds,
        }
    }

    /// Whether `format` is an acceptable `"<start>-<end>"` range string: each
    /// bound a decimal port number in `[1, 65535]`, checked textually only
    /// (`"100-22"` passes; it denotes an empty probe set).
    pub fn validate_port_range_format(&self, format: &str) -> (r: bool)
        ensures
            r == port_range_text_valid(format@),
    {
        parse_port_range(format).is_some()
    }

    /// Applies a new range string: a valid one replaces the configured range;
    /// an invalid one is rejected and the prior configuration is retained,
    /// with nothing else mutated either way.
    pub fn set_port_range(&mut self, range_ports: &str)
        requires
            old(self).wf(),
        ensures
            final(self).wf(),
            port_range_text_valid(range_ports@) ==> final(self).range() == range_of_text(
                range_ports@,
            ),
            !port_range_text_valid(range_ports@) ==> final(self).range() == old(self).range(),
            final(self).results_agg() == old(self).results_agg(),
            final(self).concurrency() == old(self).concurrency(),
            final(self).timeout_seconds() == old(self).timeout_seconds(),
    {
        match parse_port_range(range_ports) {
            Some(pr) => {
                self.port_range = pr;
            },
            None => {},
        }
    }

    /// The configured ports, one work item per port, in ascending order.
    pub fn port_list(&self) -> (r: Vec<u16>)
        ensures
            r@ == self.range().spec_ports(),
    {
        self.port_range.ports()
    }

    /// The concurrency ceiling configured for this run.
    pub fn concurrency_limit(&self) -> (r: usize)
        ensures
            r as int == self.concurrency(),
    {
        self.port_concurrency
    }

    /// The per-probe timeout configured for this run, in seconds.
    pub fn timeout_limit_seconds(&self) -> (r: u64)
        ensures
            r as int == self.timeout_seconds(),
    {
        self.port_timeout_seconds
    }

    /// The final per-subject records, for the report writer.
    pub fn records(&self) -> (r: &Vec<ScanRecord>)
        ensures
            r@ == self.records_seq(),
    {
        self.results.records()
    }

    /// Folds one subject's port-stage verdicts into the results: `port_open`
    /// holds one flag per port of the configured range, in `ports()` order,
    /// set where a TCP connect completed within the timeout. The subject's
    /// record grows by exactly the open ports, in range order; a subject with
    /// no open port still gets its (empty) record; no other subject's record
    /// is touched.
    pub fn scan_ports(&mut self, subdomain: String, port_open: &Vec<bool>)
        requires
            old(self).wf(),
            port_open@.len() == old(self).range().spec_ports().len(),
        ensures
            final(self).wf(),
            final(self).has_record(subdomain@),
            final(self).open_ports_of(subdomain@) == old(self).open_ports_of(subdomain@)
                + filter_by_flags(old(self).range().spec_ports(), port_open@),
            forall|s2: Seq<char>|
                s2 != subdomain@ ==> final(self).has_record(s2) == old(self).has_record(s2),
            forall|s2: Seq<char>|
                s2 != subdomain@ ==> final(self).open_ports_of(s2) == old(self).open_ports_of(s2),
            final(self).range() == old(self).range(),
            final(self).concurrency() == old(self).concurrency(),
            final(self).timeout_seconds() == old(self).timeout_seconds(),
    {
        self.results.ensure_subject(subdomain.clone());
        let ports = self.port_range.ports();
        let n = ports.len();
        let mut i: usize = 0;
        proof {
            assert(filter_by_flags(ports@.take(0), port_open@.take(0)) =~= Seq::<u16>::empty());
            assert(self.results.positives_of(subdomain@) + filter_by_flags(
                ports@.take(0),
                port_open@.take(0),
            ) =~= self.results.positives_of(subdomain@));
        }
        while i < n
            invariant
                0 <= i <= n,
                self.results.wf(),
                self.port_range == old(self).port_range,
                self.port_concurrency == old(self).port_concurrency,
                self.port_timeout_seconds == old(self).port_timeout_seconds,
                old(self).wf(),
                ports@ == self.port_range.spec_ports(),
                n == ports@.len(),
                port_open@.len() == n,
                self.results.has_subject(subdomain@),
                self.results.positives_of(subdomain@) == old(self).results_agg().positives_of(
                    subdomain@,
                ) + filter_by_flags(ports@.take(i as int), port_open@.take(i as int)),
                forall|s2: Seq<char>|
                    s2 != subdomain@ ==> self.results.has_subject(s2) == old(
                        self,
                    ).results_agg().has_subject(s2),
                forall|s2: Seq<char>|
                    s2 != subdomain@ ==> self.results.positives_of(s2) == old(
                        self,
                    ).results_agg().positives_of(s2),
            decreases n - i,
        {
            let ghost mid = self.results;
            if port_open[i] {
                let port = ports[i];
                let o = ProbeOutcome {
                    target: Target::HostPort(subdomain.clone(), port),
                    succeeded: true,
                    detail: Some(port),
                };
                self.results.record(subdomain.clone(), &o);
                proof {
                    assert(outcome_contrib(o) =~= seq![ports@[i as int]]);
                }
            }
            proof {
                lemma_filter_by_flags_step(ports@, port_open@, i as int);
                if port_open@[i as int] {
                    assert(self.results.positives_of(subdomain@) =~= old(
                        self,
                    ).results_agg().positives_of(subdomain@) + filter_by_flags(
                        ports@.take(i + 1),
                        port_open@.take(i + 1),
                    ));
                } else {
                    assert(filter_by_flags(ports@.take(i + 1), port_open@.take(i + 1))
                        =~= filter_by_flags(ports@.take(i as int), port_open@.take(i as int)));
                }
                assert forall|s2: Seq<char>| s2 != subdomain@ implies self.results.has_subject(s2)
                    == old(self).results_agg().has_subject(s2) && self.results.positives_of(s2)
                    == old(self).results_agg().positives_of(s2) by {
                    assert(mid.has_subject(s2) == old(self).results_agg().has_subject(s2));
                    assert(mid.positives_of(s2) == old(self).results_agg().positives_of(s2));
                }
            }
            i = i + 1;
        }
        proof {
            assert(ports@.take(n as int) =~= ports@);
            assert(port_open@.take(n as int) =~= port_open@);
        }
    }
}

}
