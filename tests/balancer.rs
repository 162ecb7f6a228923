use etl_router::balancer::{LoadBalanceStrategy, LoadBalancer};
use etl_router::service::{RegisteredService, ServiceHealth};

fn svc(id: &str, name: &str) -> RegisteredService {
    RegisteredService {
        service_id: id.to_string(),
        service_name: name.to_string(),
        service_type: "sink".to_string(),
        endpoint: format!("{id}:50051"),
        labels: vec![],
        group_id: None,
        health: ServiceHealth::Healthy,
        lease_renewed_at: 0,
    }
}

fn abc() -> Vec<RegisteredService> {
    vec![svc("A", "svc"), svc("B", "svc"), svc("C", "svc")]
}

fn pick(lb: &mut LoadBalancer, s: &[RegisteredService], st: LoadBalanceStrategy, key: Option<&str>) -> String {
    lb.select(s, st, key).unwrap().service_id
}

#[test]
fn round_robin_cycles() {
    let mut lb = LoadBalancer::new();
    let s = abc();
    let got: Vec<String> = (0..4).map(|_| pick(&mut lb, &s, LoadBalanceStrategy::RoundRobin, None)).collect();
    assert_eq!(got, vec!["A", "B", "C", "A"]);
}

#[test]
fn consistent_hash_is_stable() {
    let mut lb = LoadBalancer::new();
    let s = abc();
    let a = pick(&mut lb, &s, LoadBalanceStrategy::ConsistentHash, Some("user-42"));
    let b = pick(&mut lb, &s, LoadBalanceStrategy::ConsistentHash, Some("user-42"));
    assert_eq!(a, b);
    let c = pick(&mut lb, &s, LoadBalanceStrategy::ConsistentHash, Some("user-43"));
    assert!(["A", "B", "C"].contains(&c.as_str()));
    let d1 = pick(&mut lb, &s, LoadBalanceStrategy::ConsistentHash, None);
    let d2 = pick(&mut lb, &s, LoadBalanceStrategy::ConsistentHash, Some("default"));
    assert_eq!(d1, d2);
}

#[test]
fn empty_and_single() {
    let mut lb = LoadBalancer::default();
    for st in [
        LoadBalanceStrategy::RoundRobin,
        LoadBalanceStrategy::LeastConnections,
        LoadBalanceStrategy::WeightedRandom,
        LoadBalanceStrategy::ConsistentHash,
    ] {
        assert!(lb.select(&[], st, None).is_none());
        assert_eq!(pick(&mut lb, &[svc("only", "x")], st, Some("k")), "only");
    }
}

#[test]
fn result_is_among_candidates() {
    let mut lb = LoadBalancer::new();
    let s = abc();
    for _ in 0..20 {
        let id = pick(&mut lb, &s, LoadBalanceStrategy::WeightedRandom, None);
        assert!(["A", "B", "C"].contains(&id.as_str()));
    }
}

#[test]
fn least_connections_picks_first_minimum() {
    let mut lb = LoadBalancer::new();
    let s = abc();
    assert_eq!(pick(&mut lb, &s, LoadBalanceStrategy::LeastConnections, None), "A");
    lb.increment_connections("A");
    lb.increment_connections("B");
    assert_eq!(pick(&mut lb, &s, LoadBalanceStrategy::LeastConnections, None), "C");
    lb.increment_connections("C");
    lb.increment_connections("C");
    lb.decrement_connections("B");
    lb.decrement_connections("B");
    assert_eq!(lb.get_connections(&"B".to_string()), 0);
    assert_eq!(pick(&mut lb, &s, LoadBalanceStrategy::LeastConnections, None), "B");
}

#[test]
fn weighted_pick_follows_cumulative_weights() {
    let mut lb = LoadBalancer::new();
    let s = abc();
    assert_eq!(lb.get_weight(&"A".to_string()), 100);
    lb.set_weight("A", 0);
    lb.set_weight("B", 10);
    lb.set_weight("C", 30);
    assert_eq!(lb.weighted_pick(&s, 0), 1);
    assert_eq!(lb.weighted_pick(&s, 9), 1);
    assert_eq!(lb.weighted_pick(&s, 10), 2);
    assert_eq!(lb.weighted_pick(&s, 39), 2);
    assert_eq!(lb.weighted_pick(&s, 40), 1);
    lb.set_weight("B", 0);
    lb.set_weight("C", 0);
    assert_eq!(lb.weighted_pick(&s, 12345), 0);
}

#[test]
fn strategy_default_is_round_robin() {
    assert_eq!(LoadBalanceStrategy::default(), LoadBalanceStrategy::RoundRobin);
}
