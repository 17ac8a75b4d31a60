use load_balancer_l4::balancer::{Algorithm, LoadBalancer};
use load_balancer_l4::models::Backend;

fn create_mock_backends() -> Vec<Backend> {
    vec![
        Backend {
            addr: "127.0.0.1:8081".to_string(),
            weight: 3,
        },
        Backend {
            addr: "127.0.0.1:8082".to_string(),
            weight: 1,
        },
        Backend {
            addr: "127.0.0.1:8083".to_string(),
            weight: 1,
        },
    ]
}

#[test]
fn test_round_robin() {
    let backends = create_mock_backends();
    let mut lb = LoadBalancer::new(backends, Algorithm::RoundRobin);

    let (_, b1) = lb.next_backend();
    assert_eq!(b1.addr, "127.0.0.1:8081");

    let (_, b2) = lb.next_backend();
    assert_eq!(b2.addr, "127.0.0.1:8082");

    let (_, b3) = lb.next_backend();
    assert_eq!(b3.addr, "127.0.0.1:8083");

    let (_, b4) = lb.next_backend();
    assert_eq!(b4.addr, "127.0.0.1:8081");
}

#[test]
fn test_weighted_round_robin() {
    let backends = create_mock_backends();
    let mut lb = LoadBalancer::new(backends, Algorithm::WeightedRoundRobin);

    // With weights 3, 1, 1 -> virtual_indices should have length 5
    assert_eq!(lb.state.virtual_indices.len(), 5);

    let mut counts = vec![0, 0, 0];
    for _ in 0..5 {
        let (idx, _) = lb.next_backend();
        counts[idx] += 1;
    }
    assert_eq!(counts, vec![3, 1, 1]);
}

#[test]
fn test_update_weights_hot_reload() {
    let backends = create_mock_backends();
    let mut lb = LoadBalancer::new(backends, Algorithm::WeightedRoundRobin);

    // Change weights to 0, 2, 0
    lb.update_weights(vec![0, 2, 0]);

    assert_eq!(lb.state.virtual_indices.len(), 2);

    let (idx1, b1) = lb.next_backend();
    assert_eq!(idx1, 1);
    assert_eq!(b1.addr, "127.0.0.1:8082");
}

#[test]
fn test_zero_weights_fallback() {
    let backends = create_mock_backends();
    let mut lb = LoadBalancer::new(backends, Algorithm::WeightedRoundRobin);

    // If all weights are 0, it should fallback to RoundRobin
    lb.update_weights(vec![0, 0, 0]);

    assert_eq!(lb.state.virtual_indices.len(), 3);
}

#[test]
fn test_set_algorithm_live_switch() {
    let backends = create_mock_backends();
    let mut lb = LoadBalancer::new(backends, Algorithm::RoundRobin);

    // Starts as RoundRobin: all backends have weight > 0, so length 3.
    assert_eq!(lb.state.virtual_indices.len(), 3);

    // Switch live.
    lb.set_algorithm(Algorithm::WeightedRoundRobin);
    assert_eq!(lb.algorithm(), Algorithm::WeightedRoundRobin);
    // With weights 3,1,1 the WRR table is length 5.
    assert_eq!(lb.state.virtual_indices.len(), 5);
}

#[test]
fn test_round_robin_excludes_zero_weight() {
    // In Round Robin, a backend with weight=0 must be treated as offline
    // (out of rotation), exactly like in Weighted Round Robin.
    let backends = vec![
        Backend { addr: "127.0.0.1:8081".to_string(), weight: 1 },
        Backend { addr: "127.0.0.1:8082".to_string(), weight: 0 }, // offline
        Backend { addr: "127.0.0.1:8083".to_string(), weight: 1 },
    ];
    let mut lb = LoadBalancer::new(backends, Algorithm::RoundRobin);

    // Only 2 backends in rotation.
    assert_eq!(lb.state.virtual_indices.len(), 2);

    // Verify routing skips backend index 1.
    let mut seen = std::collections::HashSet::new();
    for _ in 0..6 {
        let (idx, _) = lb.next_backend();
        seen.insert(idx);
    }
    assert!(seen.contains(&0));
    assert!(seen.contains(&2));
    assert!(!seen.contains(&1)); // offline backend never picked
}

#[test]
fn test_algorithm_parse() {
    assert_eq!(Algorithm::parse("rr"), Some(Algorithm::RoundRobin));
    assert_eq!(Algorithm::parse("ROUNDROBIN"), Some(Algorithm::RoundRobin));
    assert_eq!(Algorithm::parse("1"), Some(Algorithm::RoundRobin));
    assert_eq!(Algorithm::parse("wrr"), Some(Algorithm::WeightedRoundRobin));
    assert_eq!(Algorithm::parse("2"), Some(Algorithm::WeightedRoundRobin));
    assert_eq!(Algorithm::parse("???"), None);
}

#[test]
fn parse_ignores_padding_and_case() {
    assert_eq!(Algorithm::parse("  Weighted_Round_Robin\t"), Some(Algorithm::WeightedRoundRobin));
    assert_eq!(Algorithm::parse("\u{3000}Round_Robin\n"), Some(Algorithm::RoundRobin));
    assert_eq!(Algorithm::parse("r r"), None);
    assert_eq!(Algorithm::parse(""), None);
    assert_eq!(Algorithm::parse("3"), None);
}

#[test]
fn name_is_parsed_back() {
    assert_eq!(Algorithm::RoundRobin.name(), "RoundRobin");
    assert_eq!(Algorithm::WeightedRoundRobin.name(), "WeightedRoundRobin");
    for a in [Algorithm::RoundRobin, Algorithm::WeightedRoundRobin] {
        assert_eq!(Algorithm::parse(&a.name()), Some(a));
    }
}

#[test]
fn weighted_table_lists_each_backend_weight_times_in_order() {
    let lb = LoadBalancer::new(create_mock_backends(), Algorithm::WeightedRoundRobin);
    assert_eq!(lb.state.virtual_indices, vec![0, 0, 0, 1, 2]);
    let lb = LoadBalancer::new(create_mock_backends(), Algorithm::RoundRobin);
    assert_eq!(lb.state.virtual_indices, vec![0, 1, 2]);
}

#[test]
fn every_window_is_fair() {
    let mut lb = LoadBalancer::new(create_mock_backends(), Algorithm::WeightedRoundRobin);
    // Start the window in the middle of the rotation.
    lb.next_backend();
    lb.next_backend();
    let mut counts = vec![0, 0, 0];
    for _ in 0..5 {
        let (idx, b) = lb.next_backend();
        assert_eq!(b.addr, format!("127.0.0.1:808{}", idx + 1));
        counts[idx] += 1;
    }
    assert_eq!(counts, vec![3, 1, 1]);
}

#[test]
fn unchanged_weights_keep_rotation() {
    let mut lb = LoadBalancer::new(create_mock_backends(), Algorithm::RoundRobin);
    lb.next_backend();
    // Same weights (extra entries ignored): nothing changes, the rotation goes on.
    lb.update_weights(vec![3, 1, 1, 7]);
    let (idx, _) = lb.next_backend();
    assert_eq!(idx, 1);
    // A real change restarts the rotation.
    lb.update_weights(vec![3, 1, 2]);
    let (idx, _) = lb.next_backend();
    assert_eq!(idx, 0);
}

#[test]
fn short_weight_list_updates_a_prefix() {
    let mut lb = LoadBalancer::new(create_mock_backends(), Algorithm::WeightedRoundRobin);
    lb.update_weights(vec![0]);
    let weights: Vec<u32> = lb.backends().iter().map(|b| b.weight).collect();
    assert_eq!(weights, vec![0, 1, 1]);
    assert_eq!(lb.state.virtual_indices, vec![1, 2]);
    // Applying the same update again changes nothing.
    lb.update_weights(vec![0]);
    assert_eq!(lb.state.virtual_indices, vec![1, 2]);
}

#[test]
fn same_algorithm_keeps_rotation() {
    let mut lb = LoadBalancer::new(create_mock_backends(), Algorithm::RoundRobin);
    lb.next_backend();
    lb.set_algorithm(Algorithm::RoundRobin);
    let (idx, _) = lb.next_backend();
    assert_eq!(idx, 1);
    lb.set_algorithm(Algorithm::WeightedRoundRobin);
    let (idx, _) = lb.next_backend();
    assert_eq!(idx, 0);
    assert_eq!(lb.algorithm(), Algorithm::WeightedRoundRobin);
}

#[test]
fn backends_are_copied_in_order() {
    let lb = LoadBalancer::new(create_mock_backends(), Algorithm::RoundRobin);
    let bs = lb.backends();
    assert_eq!(bs.len(), 3);
    assert_eq!(bs[0].addr, "127.0.0.1:8081");
    assert_eq!(bs[0].weight, 3);
    assert_eq!(bs[2].addr, "127.0.0.1:8083");
}

#[test]
fn default_weights_send_half_the_traffic_to_the_first_backend() {
    let backends: Vec<Backend> = [3u32, 1, 1, 1]
        .iter()
        .enumerate()
        .map(|(i, w)| Backend { addr: format!("127.0.0.1:808{}", i + 1), weight: *w })
        .collect();
    let mut lb = LoadBalancer::new(backends, Algorithm::WeightedRoundRobin);
    let mut first = 0;
    for _ in 0..60 {
        let (idx, _) = lb.next_backend();
        if idx == 0 {
            first += 1;
        }
    }
    assert_eq!(first, 30);
}

#[test]
fn all_disabled_falls_back_to_every_backend() {
    let backends = vec![
        Backend { addr: "a".to_string(), weight: 0 },
        Backend { addr: "b".to_string(), weight: 0 },
    ];
    let mut lb = LoadBalancer::new(backends, Algorithm::RoundRobin);
    assert_eq!(lb.state.virtual_indices, vec![0, 1]);
    assert_eq!(lb.next_backend().0, 0);
    assert_eq!(lb.next_backend().0, 1);
}

#[test]
fn table_accessor_and_collapsed_weighted_table() {
    for weights in [vec![3u32, 1, 1], vec![0, 2, 0], vec![0, 0, 0], vec![1, 0, 4]] {
        let backends: Vec<Backend> = weights
            .iter()
            .enumerate()
            .map(|(i, w)| Backend { addr: format!("b{}", i), weight: *w })
            .collect();
        let rr = LoadBalancer::new(backends.clone(), Algorithm::RoundRobin);
        let wrr = LoadBalancer::new(backends, Algorithm::WeightedRoundRobin);
        assert_eq!(rr.table(), &rr.state.virtual_indices);
        let mut collapsed = wrr.table().clone();
        collapsed.dedup();
        assert_eq!(&collapsed, rr.table());
    }
}
