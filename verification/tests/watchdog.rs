use load_balancer_l4::control::{healthy_from, StoreCommand};
use load_balancer_l4::watchdog::{health_change, health_update, HealthChange};

#[test]
fn transitions_are_logged_once() {
    assert_eq!(health_change(Some(0), true), HealthChange::Up);
    assert_eq!(health_change(None, true), HealthChange::Up);
    assert_eq!(health_change(Some(1), false), HealthChange::Down);
    assert_eq!(health_change(Some(1), true), HealthChange::Unchanged);
    assert_eq!(health_change(Some(0), false), HealthChange::Unchanged);
    assert_eq!(health_change(None, false), HealthChange::Unchanged);
    assert_eq!(health_change(Some(2), true), HealthChange::Unchanged);
}

#[test]
fn probe_results_are_published() {
    match health_update("h:1", true) {
        StoreCommand::SetNumber(k, v) => {
            assert_eq!(k, "health:h:1");
            assert_eq!(v, 1);
        }
        _ => panic!("expected a number write"),
    }
    match health_update("h:1", false) {
        StoreCommand::SetNumber(_, v) => assert_eq!(v, 0),
        _ => panic!("expected a number write"),
    }
}

#[test]
fn published_flag_reads_back_as_the_probe_result() {
    for healthy in [true, false] {
        match health_update("h:1", healthy) {
            StoreCommand::SetNumber(_, v) => assert_eq!(healthy_from(Some(v as u8)), healthy),
            _ => panic!("expected a number write"),
        }
        let flag = if healthy { 1 } else { 0 };
        assert_eq!(health_change(Some(flag), healthy), HealthChange::Unchanged);
    }
}
