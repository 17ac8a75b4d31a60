use load_balancer_l4::load_test::{
    classify_failure, decimal_chars, first_port_mentioned, pacing_interval_ns, ports_exhausted,
    ConnectErrorKind, FailureKind,
};

#[test]
fn pacing() {
    assert_eq!(pacing_interval_ns(0), 0);
    assert_eq!(pacing_interval_ns(500), 2_000_000);
    assert_eq!(pacing_interval_ns(3), 333_333_333);
}

#[test]
fn failures_are_classified() {
    assert_eq!(classify_failure(true, ConnectErrorKind::AddrInUse), FailureKind::AddrUnavailable);
    assert_eq!(classify_failure(true, ConnectErrorKind::AddrNotAvailable), FailureKind::AddrUnavailable);
    assert_eq!(classify_failure(true, ConnectErrorKind::ConnectionRefused), FailureKind::Refused);
    assert_eq!(classify_failure(true, ConnectErrorKind::Other), FailureKind::ConnectOther);
    assert_eq!(classify_failure(false, ConnectErrorKind::ConnectionRefused), FailureKind::ReadWrite);
    assert!(ports_exhausted(10, 5));
    assert!(!ports_exhausted(10, 4));
    assert!(!ports_exhausted(0, 0));
}

#[test]
fn answers_are_attributed_to_ports() {
    assert_eq!(decimal_chars(8081), vec!['8', '0', '8', '1']);
    assert_eq!(decimal_chars(0), vec!['0']);
    let ports = vec![8081, 8082, 8083, 8084];
    assert_eq!(first_port_mentioned("Hello from Dockerized Backend 8083!\n", &ports), Some(8083));
    assert_eq!(first_port_mentioned("Hello", &ports), None);
}
