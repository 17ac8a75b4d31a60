use load_balancer_l4::balancer::Algorithm;
use load_balancer_l4::config::{
    addresses_from_config, algorithm_from_env, backends_from_config, default_weights,
    menu_choice, parse_weights,
};

#[test]
fn weights_skip_what_is_not_a_number() {
    assert_eq!(parse_weights("3,1,1,1"), vec![3, 1, 1, 1]);
    assert_eq!(parse_weights(" 3 , x,,+2,-1,007,4294967295,4294967296"), vec![3, 2, 7, 4294967295]);
    assert_eq!(parse_weights(""), Vec::<u32>::new());
    assert_eq!(parse_weights("+"), Vec::<u32>::new());
}

#[test]
fn backends_take_weights_by_position() {
    let bs = backends_from_config("127.0.0.1:8081, 127.0.0.1:8082 ,127.0.0.1:8083", &vec![3, 2]);
    assert_eq!(bs.len(), 3);
    assert_eq!(bs[0].addr, "127.0.0.1:8081");
    assert_eq!(bs[1].addr, "127.0.0.1:8082");
    assert_eq!((bs[0].weight, bs[1].weight, bs[2].weight), (3, 2, 1));
    assert_eq!(default_weights(&vec![3, 2], 3), vec![3, 2, 1]);
    assert_eq!(default_weights(&vec![3, 2, 5], 2), vec![3, 2]);
    assert_eq!(addresses_from_config(" a ,b,"), vec!["a".to_string(), "b".to_string(), "".to_string()]);
}

#[test]
fn algorithm_settings() {
    assert_eq!(algorithm_from_env("1"), Algorithm::RoundRobin);
    assert_eq!(algorithm_from_env("RoundRobin"), Algorithm::RoundRobin);
    assert_eq!(algorithm_from_env("2"), Algorithm::WeightedRoundRobin);
    assert_eq!(algorithm_from_env("rr"), Algorithm::WeightedRoundRobin);
    assert_eq!(menu_choice(" 1\n"), (Algorithm::RoundRobin, true));
    assert_eq!(menu_choice("2"), (Algorithm::WeightedRoundRobin, true));
    assert_eq!(menu_choice("x"), (Algorithm::WeightedRoundRobin, false));
}
