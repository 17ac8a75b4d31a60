use load_balancer_l4::balancer::Algorithm;
use load_balancer_l4::control::{BackendRedisState, StoreCommand};
use load_balancer_l4::dashboard::{algorithm_request, telemetry_report, weight_request, RequestError, MAX_WEIGHT};
use load_balancer_l4::models::Backend;
use load_balancer_l4::telemetry::Telemetry;

fn backends() -> Vec<Backend> {
    vec![
        Backend { addr: "h:1".to_string(), weight: 3 },
        Backend { addr: "h:2".to_string(), weight: 0 },
    ]
}

#[test]
fn weight_requests_are_checked() {
    match weight_request(&backends(), "h:2", 4) {
        Ok(StoreCommand::SetNumber(k, w)) => {
            assert_eq!(k, "weight:h:2");
            assert_eq!(w, 4);
        }
        _ => panic!("expected a weight write"),
    }
    match weight_request(&backends(), "h:2", MAX_WEIGHT + 1) {
        Err(e) => {
            assert!(matches!(e, RequestError::WeightTooLarge));
            assert_eq!(e.status(), 400);
            assert_eq!(e.message(), "weight must be 0..=100");
        }
        _ => panic!("expected a refusal"),
    }
    match weight_request(&backends(), "h:9", 100) {
        Err(e) => {
            assert_eq!(e.status(), 404);
            assert_eq!(e.message(), "unknown backend h:9");
        }
        _ => panic!("expected a refusal"),
    }
}

#[test]
fn algorithm_requests_are_checked() {
    match algorithm_request(" wrr ") {
        Ok(StoreCommand::SetText(k, v)) => {
            assert_eq!(k, "lb:algorithm");
            assert_eq!(v, "WeightedRoundRobin");
        }
        _ => panic!("expected an algorithm write"),
    }
    match algorithm_request("fastest") {
        Err(e) => {
            assert_eq!(e.status(), 400);
            assert_eq!(e.message(), "invalid algorithm: fastest");
        }
        _ => panic!("expected a refusal"),
    }
}

#[test]
fn report_combines_all_sources() {
    let mut t = Telemetry::new(2);
    t.total_active_connections = 1;
    t.total_connections_accepted = 9;
    t.total_bytes_transferred = 50;
    t.backend_stats[1].total_connections = 9;
    let snapshot = vec![BackendRedisState { intent_weight: 3, healthy: true }];
    let r = telemetry_report(&t, &backends(), Algorithm::RoundRobin, &snapshot);
    assert_eq!(r.algorithm, "RoundRobin");
    assert_eq!(r.global.active_connections, 1);
    assert_eq!(r.global.total_connections, 9);
    assert_eq!(r.global.bytes_transferred, 50);
    assert_eq!(r.backends.len(), 2);
    assert_eq!(r.backends[0].addr, "h:1");
    assert_eq!(r.backends[0].intent_weight, 3);
    assert!(r.backends[0].healthy);
    // Nothing read yet for the second backend: shown as zero and down.
    assert_eq!(r.backends[1].weight, 0);
    assert_eq!(r.backends[1].intent_weight, 0);
    assert!(!r.backends[1].healthy);
    assert_eq!(r.backends[1].stats.total_connections, 9);
}
