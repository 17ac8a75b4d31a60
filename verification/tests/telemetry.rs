use load_balancer_l4::balancer::{Algorithm, LoadBalancer};
use load_balancer_l4::models::Backend;
use load_balancer_l4::telemetry::{BackendStats, Telemetry};

fn backends() -> Vec<Backend> {
    vec![
        Backend { addr: "a:1".to_string(), weight: 1 },
        Backend { addr: "b:2".to_string(), weight: 1 },
    ]
}

#[test]
fn new_telemetry_is_zero() {
    let t = Telemetry::new(3);
    assert_eq!(t.total_active_connections, 0);
    assert_eq!(t.total_connections_accepted, 0);
    assert_eq!(t.total_bytes_transferred, 0);
    assert_eq!(t.backend_stats.len(), 3);
    for s in &t.backend_stats {
        assert_eq!((s.active_connections, s.total_connections, s.bytes_transferred), (0, 0, 0));
    }
    let d = BackendStats::default();
    assert_eq!((d.active_connections, d.total_connections, d.bytes_transferred), (0, 0, 0));
}

#[test]
fn open_and_close_balance_the_active_counts() {
    let mut lb = LoadBalancer::new(backends(), Algorithm::RoundRobin);
    let mut t = Telemetry::new(2);
    let (id0, b0) = t.open_connection(&mut lb);
    let (id1, b1) = t.open_connection(&mut lb);
    assert_eq!((id0, id1), (0, 1));
    assert_eq!(b0.addr, "a:1");
    assert_eq!(b1.addr, "b:2");
    assert_eq!(t.total_active_connections, 2);
    assert_eq!(t.total_connections_accepted, 2);
    assert_eq!(t.backend_stats[0].active_connections, 1);
    assert_eq!(t.backend_stats[0].total_connections, 1);

    t.close_connection(id0, Some(100));
    t.close_connection(id1, None);
    assert_eq!(t.total_active_connections, 0);
    assert_eq!(t.total_connections_accepted, 2);
    assert_eq!(t.total_bytes_transferred, 100);
    assert_eq!(t.backend_stats[0].active_connections, 0);
    assert_eq!(t.backend_stats[0].bytes_transferred, 100);
    assert_eq!(t.backend_stats[1].bytes_transferred, 0);
    assert_eq!(t.backend_stats[1].total_connections, 1);
}
