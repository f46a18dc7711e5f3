use subscan::aggregator::Aggregator;
use subscan::executor::BoundedExecutor;
use subscan::executor::run_batch;
use subscan::outcome::ProbeOutcome;
use subscan::outcome::Target;
use subscan::prober::dns_probe_outcome;
use subscan::prober::http_probe_outcome;
use subscan::prober::tcp_probe_outcome;
use subscan::prober::timeout_outcome;

fn port_outcome(host: &str, port: u16, open: bool) -> ProbeOutcome {
    ProbeOutcome {
        target: Target::HostPort(host.to_string(), port),
        succeeded: open,
        detail: if open { Some(port) } else { None },
    }
}

#[test]
fn batch_of_n_yields_exactly_n_outcomes() {
    let batch: Vec<ProbeOutcome> =
        (0u16..5).map(|p| port_outcome("h.example.com", p + 20, p % 2 == 0)).collect();
    let (out, _waves) = run_batch(batch, 2);
    assert_eq!(out.len(), 5);
    for (i, o) in out.iter().enumerate() {
        match &o.target {
            Target::HostPort(h, p) => {
                assert_eq!(h, "h.example.com");
                assert_eq!(*p, 20 + i as u16);
            },
            _ => panic!("wrong target kind"),
        }
    }
}

#[test]
fn wave_count_is_ceiling_of_n_over_c() {
    let mk = |n: usize| -> Vec<ProbeOutcome> {
        (0..n).map(|i| port_outcome("h", i as u16 + 1, false)).collect()
    };
    assert_eq!(run_batch(mk(5), 2).1, 3);
    assert_eq!(run_batch(mk(6), 2).1, 3);
    assert_eq!(run_batch(mk(1), 200).1, 1);
    assert_eq!(run_batch(mk(0), 7).1, 0);
    assert_eq!(run_batch(mk(9), 1).1, 9);
}

#[test]
fn executor_admits_fifo_under_ceiling() {
    let mut e = BoundedExecutor::new(3, 2);
    assert!(e.can_dispatch());
    let a = e.dispatch();
    let b = e.dispatch();
    assert_eq!((a, b), (0, 1));
    // two in flight at ceiling 2: admission refused until one resolves
    assert!(!e.can_dispatch());
    e.complete(a, port_outcome("h", 1, true));
    assert!(e.can_dispatch());
    let c = e.dispatch();
    assert_eq!(c, 2);
    assert!(!e.is_done());
    e.complete(c, port_outcome("h", 3, false));
    e.complete(b, port_outcome("h", 2, false));
    assert!(e.is_done());
    let out = e.into_outcomes();
    assert_eq!(out.len(), 3);
    assert!(out[0].succeeded);
    assert!(!out[1].succeeded);
    assert!(!out[2].succeeded);
}

#[test]
fn hung_probe_resolves_as_negative_outcome() {
    // a probe whose operation never returned is resolved by the timeout
    let o = timeout_outcome(Target::Host("dead.example.com".to_string()));
    assert!(!o.succeeded);
    assert_eq!(o.detail, None);
    // and still counts as the item's one outcome
    let (out, waves) = run_batch(vec![o], 4);
    assert_eq!(out.len(), 1);
    assert_eq!(waves, 1);
    assert!(!out[0].succeeded);
}

#[test]
fn dns_outcome_follows_address_count() {
    assert!(dns_probe_outcome("a.example.com".to_string(), 2).succeeded);
    assert!(dns_probe_outcome("a.example.com".to_string(), 1).succeeded);
    let dead = dns_probe_outcome("b.example.com".to_string(), 0);
    assert!(!dead.succeeded);
    assert_eq!(dead.detail, None);
}

#[test]
fn tcp_outcome_is_union_over_addresses() {
    let open = tcp_probe_outcome("a".to_string(), 443, &vec![false, true]);
    assert!(open.succeeded);
    assert_eq!(open.detail, Some(443));
    let closed = tcp_probe_outcome("a".to_string(), 443, &vec![false, false]);
    assert!(!closed.succeeded);
    assert_eq!(closed.detail, None);
    let unresolved = tcp_probe_outcome("a".to_string(), 443, &vec![]);
    assert!(!unresolved.succeeded);
}

#[test]
fn http_outcome_is_2xx_only() {
    assert!(http_probe_outcome("u".to_string(), Some(200)).succeeded);
    assert!(http_probe_outcome("u".to_string(), Some(299)).succeeded);
    assert!(!http_probe_outcome("u".to_string(), Some(199)).succeeded);
    assert!(!http_probe_outcome("u".to_string(), Some(301)).succeeded);
    assert!(!http_probe_outcome("u".to_string(), Some(404)).succeeded);
    assert!(!http_probe_outcome("u".to_string(), None).succeeded);
}

#[test]
fn aggregator_merge_is_order_independent() {
    let outcomes = vec![
        port_outcome("s.example.com", 22, true),
        port_outcome("s.example.com", 23, false),
        port_outcome("s.example.com", 80, true),
        port_outcome("s.example.com", 443, true),
    ];
    let mut forward = Aggregator::new();
    forward.record_all("s.example.com".to_string(), &outcomes);
    let reversed: Vec<ProbeOutcome> = outcomes.iter().rev().cloned().collect();
    let mut backward = Aggregator::new();
    backward.record_all("s.example.com".to_string(), &reversed);
    let mut a = forward.records()[0].positives.clone();
    let mut b = backward.records()[0].positives.clone();
    a.sort();
    b.sort();
    assert_eq!(a, b);
    assert_eq!(a, vec![22u16, 80, 443]);
}

#[test]
fn aggregator_keeps_subjects_apart() {
    let mut agg = Aggregator::new();
    agg.record("a".to_string(), &port_outcome("a", 22, true));
    agg.record("b".to_string(), &port_outcome("b", 80, true));
    agg.record("a".to_string(), &port_outcome("a", 443, true));
    let records = agg.records();
    assert_eq!(records.len(), 2);
    assert_eq!(records[0].subject, "a");
    assert_eq!(records[0].positives, vec![22u16, 443]);
    assert_eq!(records[1].subject, "b");
    assert_eq!(records[1].positives, vec![80u16]);
}

#[test]
fn negative_outcome_creates_no_record() {
    let mut agg = Aggregator::new();
    agg.record("a".to_string(), &port_outcome("a", 22, false));
    assert_eq!(agg.records().len(), 0);
    // but an explicitly opened subject holds an empty record
    agg.ensure_subject("a".to_string());
    assert_eq!(agg.records().len(), 1);
    assert!(agg.records()[0].positives.is_empty());
}
