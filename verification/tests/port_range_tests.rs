use subscan::orchestrator::ScanSubdomainPorts;
use subscan::port_range::PortRange;
use subscan::port_range::parse_port_range;

fn scanner() -> ScanSubdomainPorts {
    ScanSubdomainPorts::new("22-1024".to_string(), 200, 5)
}

#[test]
fn accepts_plain_range() {
    assert!(scanner().validate_port_range_format("22-1024"));
}

#[test]
fn rejects_zero_bound() {
    assert!(!scanner().validate_port_range_format("0-100"));
}

#[test]
fn accepts_inverted_range() {
    // textual check only: start > end passes the pattern
    assert!(scanner().validate_port_range_format("100-22"));
}

#[test]
fn rejects_bound_above_port_space() {
    assert!(!scanner().validate_port_range_format("65536-1"));
}

#[test]
fn rejects_non_numeric() {
    assert!(!scanner().validate_port_range_format("abc-def"));
}

#[test]
fn accepts_extreme_bounds() {
    assert!(scanner().validate_port_range_format("1-65535"));
    assert!(!scanner().validate_port_range_format("1-65540"));
    assert!(!scanner().validate_port_range_format(""));
    assert!(!scanner().validate_port_range_format("80"));
    assert!(!scanner().validate_port_range_format("-80"));
    assert!(!scanner().validate_port_range_format("80-"));
    assert!(!scanner().validate_port_range_format("022-80"));
}

#[test]
fn parse_gives_numeric_bounds() {
    let pr = parse_port_range("22-1024").unwrap();
    assert_eq!(pr.start, 22);
    assert_eq!(pr.end, 1024);
    assert!(parse_port_range("60000-65535").is_some());
    assert!(parse_port_range("1-1").is_some());
}

#[test]
fn ports_expand_in_order() {
    let pr = PortRange { start: 20, end: 22 };
    assert_eq!(pr.ports(), vec![20u16, 21, 22]);
}

#[test]
fn inverted_range_denotes_no_ports() {
    let pr = parse_port_range("100-22").unwrap();
    assert_eq!(pr.start, 100);
    assert_eq!(pr.end, 22);
    assert!(pr.ports().is_empty());
}

#[test]
fn invalid_range_string_keeps_prior_configuration() {
    let mut s = scanner();
    s.set_port_range("80-81");
    s.set_port_range("0-100");
    // the rejected string left the previous range in place
    let mut t = ScanSubdomainPorts::new("80-81".to_string(), 200, 5);
    t.scan_ports("x".to_string(), &vec![true, false]);
    s.scan_ports("x".to_string(), &vec![true, false]);
    assert_eq!(s.records()[0].positives, t.records()[0].positives);
    assert_eq!(s.records()[0].positives, vec![80u16]);
}
