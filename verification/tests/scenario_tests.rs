use subscan::extractor::SubdomainExtractor;
use subscan::orchestrator::ScanSubdomainPorts;
use subscan::report::format_scan_line;
use subscan::report::to_decimal;

#[test]
fn full_scan_scenario() {
    // candidates {a, b}; DNS says a is live, b is not; ports 20-22 on a,
    // only 22 open: the result set is exactly { a.example.com: [22] }.
    let mut extractor = SubdomainExtractor::new();
    extractor.set_candidates(vec![
        "a.example.com".to_string(),
        "b.example.com".to_string(),
    ]);
    assert_eq!(extractor.subdomains().len(), 2);
    extractor.filter_responsive_subdomains(&vec![true, false]);
    let live = extractor.responsive_subdomains().clone();
    assert_eq!(live, vec!["a.example.com".to_string()]);

    let mut scanner = ScanSubdomainPorts::new("20-22".to_string(), 200, 5);
    for subdomain in live {
        scanner.scan_ports(subdomain, &vec![false, false, true]);
    }
    let records = scanner.records();
    assert_eq!(records.len(), 1);
    assert_eq!(records[0].subject, "a.example.com");
    assert_eq!(records[0].positives, vec![22u16]);
}

#[test]
fn no_open_ports_leaves_empty_record_not_absence() {
    let mut scanner = ScanSubdomainPorts::new("20-22".to_string(), 200, 5);
    scanner.scan_ports("quiet.example.com".to_string(), &vec![false, false, false]);
    let records = scanner.records();
    // the subject reached the port stage: present, with an empty detail list
    assert_eq!(records.len(), 1);
    assert_eq!(records[0].subject, "quiet.example.com");
    assert!(records[0].positives.is_empty());
}

#[test]
fn candidates_are_deduplicated() {
    let mut extractor = SubdomainExtractor::new();
    extractor.set_candidates(vec![
        "a.example.com".to_string(),
        "b.example.com".to_string(),
        "a.example.com".to_string(),
    ]);
    assert_eq!(extractor.subdomains().clone(), vec![
        "a.example.com".to_string(),
        "b.example.com".to_string(),
    ]);
}

#[test]
fn liveness_filter_keeps_candidate_order() {
    let mut extractor = SubdomainExtractor::new();
    extractor.set_candidates(vec![
        "a.example.com".to_string(),
        "b.example.com".to_string(),
        "c.example.com".to_string(),
    ]);
    extractor.filter_responsive_subdomains(&vec![true, false, true]);
    assert_eq!(extractor.responsive_subdomains().clone(), vec![
        "a.example.com".to_string(),
        "c.example.com".to_string(),
    ]);
    // candidates themselves are untouched
    assert_eq!(extractor.subdomains().len(), 3);
}

#[test]
fn ports_render_as_decimal_text() {
    assert_eq!(to_decimal(0), "0");
    assert_eq!(to_decimal(7), "7");
    assert_eq!(to_decimal(22), "22");
    assert_eq!(to_decimal(1024), "1024");
    assert_eq!(to_decimal(65535), "65535");
}

#[test]
fn report_line_matches_original_shape() {
    let mut scanner = ScanSubdomainPorts::new("20-22".to_string(), 200, 5);
    scanner.scan_ports("a.example.com".to_string(), &vec![true, false, true]);
    let records = scanner.records();
    assert_eq!(format_scan_line(&records[0]), "a.example.com, [20, 22, ]");
    let mut quiet = ScanSubdomainPorts::new("20-22".to_string(), 200, 5);
    quiet.scan_ports("b.example.com".to_string(), &vec![false, false, false]);
    assert_eq!(format_scan_line(&quiet.records()[0]), "b.example.com, []");
}

#[test]
fn inverted_range_scans_nothing() {
    let mut scanner = ScanSubdomainPorts::new("100-22".to_string(), 200, 5);
    scanner.scan_ports("a.example.com".to_string(), &vec![]);
    let records = scanner.records();
    assert_eq!(records.len(), 1);
    assert!(records[0].positives.is_empty());
}
