use load_balancer_l4::balancer::{Algorithm, LoadBalancer};
use load_balancer_l4::control::{
    algorithm_key, backends_key, detect_switch, effective_weight, enter_weighted_plan,
    health_key, healthy_from, leave_weighted_plan, poll_snapshot, reset_plan, saved_weight_key,
    seed_plan, weight_key, BackendRedisState, StoreCommand,
};
use load_balancer_l4::models::Backend;

fn backends() -> Vec<Backend> {
    vec![
        Backend { addr: "h:1".to_string(), weight: 3 },
        Backend { addr: "h:2".to_string(), weight: 1 },
    ]
}

fn describe(c: &StoreCommand) -> String {
    match c {
        StoreCommand::SetNumber(k, n) => format!("SET {} {}", k, n),
        StoreCommand::SetText(k, t) => format!("SET {} {}", k, t),
        StoreCommand::Delete(k) => format!("DEL {}", k),
        StoreCommand::Push(k, t) => format!("RPUSH {} {}", k, t),
    }
}

fn describe_all(cs: &[StoreCommand]) -> Vec<String> {
    cs.iter().map(describe).collect()
}

#[test]
fn keys_follow_the_naming_convention() {
    assert_eq!(weight_key("h:1"), "weight:h:1");
    assert_eq!(saved_weight_key("h:1"), "wrr_weight:h:1");
    assert_eq!(health_key("h:1"), "health:h:1");
    assert_eq!(algorithm_key(), "lb:algorithm");
    assert_eq!(backends_key(), "lb:backends");
}

#[test]
fn effective_weight_is_weight_times_health() {
    assert_eq!(effective_weight(5, true), 5);
    assert_eq!(effective_weight(5, false), 0);
    assert!(healthy_from(None));
    assert!(healthy_from(Some(1)));
    assert!(healthy_from(Some(7)));
    assert!(!healthy_from(Some(0)));
}

#[test]
fn poll_snapshot_combines_intent_and_health() {
    let (eff, snap) = poll_snapshot(&backends(), &vec![Some(4), None], &vec![Some(0), None]);
    assert_eq!(eff, vec![0, 1]);
    assert_eq!(
        snap,
        vec![
            BackendRedisState { intent_weight: 4, healthy: false },
            BackendRedisState { intent_weight: 1, healthy: true },
        ]
    );
}

#[test]
fn switch_detection() {
    assert_eq!(detect_switch("RoundRobin", Algorithm::WeightedRoundRobin), Some(Algorithm::RoundRobin));
    assert_eq!(detect_switch("RoundRobin", Algorithm::RoundRobin), None);
    assert_eq!(detect_switch("bogus", Algorithm::RoundRobin), None);
}

#[test]
fn leaving_and_entering_weighted_round_robin() {
    let leave = leave_weighted_plan(&backends(), &vec![Some(5), None]);
    assert_eq!(
        describe_all(&leave),
        vec![
            "SET wrr_weight:h:1 5",
            "SET weight:h:1 1",
            "SET wrr_weight:h:2 1",
            "SET weight:h:2 1",
        ]
    );
    let enter = enter_weighted_plan(&backends(), &vec![Some(5), None]);
    assert_eq!(describe_all(&enter), vec!["SET weight:h:1 5", "SET weight:h:2 1"]);
}

#[test]
fn seeding_fills_only_what_is_missing() {
    let plan = seed_plan(&backends(), &vec![true, false], false, Algorithm::RoundRobin);
    assert_eq!(
        describe_all(&plan),
        vec![
            "SET weight:h:2 1",
            "DEL lb:backends",
            "RPUSH lb:backends h:1",
            "RPUSH lb:backends h:2",
            "SET lb:algorithm RoundRobin",
        ]
    );
    let plan = seed_plan(&backends(), &vec![true, true], true, Algorithm::RoundRobin);
    assert_eq!(
        describe_all(&plan),
        vec!["DEL lb:backends", "RPUSH lb:backends h:1", "RPUSH lb:backends h:2"]
    );
}

#[test]
fn reset_restores_defaults() {
    let plan = reset_plan(&backends(), &vec![7], Algorithm::WeightedRoundRobin);
    assert_eq!(
        describe_all(&plan),
        vec![
            "SET weight:h:1 7",
            "DEL wrr_weight:h:1",
            "SET weight:h:2 1",
            "DEL wrr_weight:h:2",
            "SET lb:algorithm WeightedRoundRobin",
        ]
    );
}

#[test]
fn unhealthy_backend_leaves_rotation_and_comes_back() {
    let mut lb = LoadBalancer::new(backends(), Algorithm::WeightedRoundRobin);
    let (eff, _) = poll_snapshot(&lb.backends(), &vec![Some(3), Some(1)], &vec![Some(0), Some(1)]);
    lb.update_weights(eff);
    for _ in 0..5 {
        assert_eq!(lb.next_backend().0, 1);
    }
    let (eff, _) = poll_snapshot(&lb.backends(), &vec![Some(3), Some(1)], &vec![Some(1), Some(1)]);
    lb.update_weights(eff);
    let mut counts = [0, 0];
    for _ in 0..4 {
        counts[lb.next_backend().0] += 1;
    }
    assert_eq!(counts, [3, 1]);
}

#[test]
fn duplicate_addresses_behave_as_one_backend_at_a_time() {
    let dup = vec![
        Backend { addr: "h:1".to_string(), weight: 3 },
        Backend { addr: "h:1".to_string(), weight: 5 },
    ];
    // Seeding: the first backend's write makes the key present for the second.
    let plan = seed_plan(&dup, &vec![false, false], true, Algorithm::RoundRobin);
    assert_eq!(
        describe_all(&plan),
        vec!["SET weight:h:1 3", "DEL lb:backends", "RPUSH lb:backends h:1", "RPUSH lb:backends h:1"]
    );
    // Leaving weighted round robin: the second backend finds the 1 the first one wrote.
    let leave = leave_weighted_plan(&dup, &vec![Some(7), Some(7)]);
    assert_eq!(
        describe_all(&leave),
        vec![
            "SET wrr_weight:h:1 7",
            "SET weight:h:1 1",
            "SET wrr_weight:h:1 1",
            "SET weight:h:1 1",
        ]
    );
}
