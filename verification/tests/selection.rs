use load_balancer::{Addr, LoadBalancer, LoadBalancingAlgorithm, SessionStart};

fn default_addrs() -> Vec<Addr> {
    vec![
        Addr::new(192, 168, 1, 21, 80),
        Addr::new(192, 168, 1, 22, 80),
        Addr::new(192, 168, 1, 23, 80),
        Addr::new(192, 168, 1, 24, 80),
        Addr::new(192, 168, 1, 25, 80),
    ]
}

#[test]
fn test_round_robin() {
    let mut lb = LoadBalancer::new(LoadBalancingAlgorithm::RoundRobin);

    let expected_servers = default_addrs();

    for _ in 0..expected_servers.len() {
        assert!(expected_servers.contains(&lb.round_robin().unwrap()));
    }
}

#[test]
fn test_random() {
    let lb = LoadBalancer::new(LoadBalancingAlgorithm::Random);

    let servers = lb.list_servers();
    let picked = lb.random().unwrap();
    assert!(servers.iter().any(|(_, addr)| *addr == picked));
}

#[test]
fn round_robin_cycles_in_order() {
    let mut lb = LoadBalancer::new(LoadBalancingAlgorithm::RoundRobin);
    let expected = default_addrs();

    let first_cycle: Vec<Addr> = (0..5).map(|_| lb.round_robin().unwrap()).collect();
    assert_eq!(first_cycle, expected);

    let sixth = lb.round_robin().unwrap();
    assert_eq!(sixth, expected[0]);
}

#[test]
fn round_robin_survives_shrink() {
    let mut lb = LoadBalancer::new(LoadBalancingAlgorithm::RoundRobin);
    lb.round_robin().unwrap();
    lb.round_robin().unwrap();
    lb.round_robin().unwrap();

    // Evict two backends between selections: later cursors must be taken
    // modulo the new, smaller count and stay in range.
    let results = vec![
        ("web1".to_string(), true),
        ("web2".to_string(), false),
        ("web3".to_string(), true),
        ("web4".to_string(), false),
        ("web5".to_string(), true),
    ];
    lb.apply_probe_results(&results);

    let remaining: Vec<Addr> = lb.list_servers().iter().map(|(_, addr)| *addr).collect();
    assert_eq!(remaining.len(), 3);
    for _ in 0..10 {
        let picked = lb.round_robin().unwrap();
        assert!(remaining.contains(&picked));
    }
}

#[test]
fn random_covers_every_backend() {
    let lb = LoadBalancer::new(LoadBalancingAlgorithm::Random);
    let servers: Vec<Addr> = lb.list_servers().iter().map(|(_, addr)| *addr).collect();

    let mut seen = vec![false; servers.len()];
    for _ in 0..2000 {
        let picked = lb.random().unwrap();
        let pos = servers.iter().position(|&a| a == picked).expect("member of the registry");
        seen[pos] = true;
    }
    assert!(seen.iter().all(|&s| s));
}

#[test]
fn least_connections_picks_only_minimum() {
    let mut lb = LoadBalancer::new(LoadBalancingAlgorithm::LeastConnection);
    let addrs = default_addrs();

    // Accounting {A:0, B:0, C:1, D:1, E:2}.
    lb.accounting.increment(addrs[2]);
    lb.accounting.increment(addrs[3]);
    lb.accounting.increment(addrs[4]);
    lb.accounting.increment(addrs[4]);

    let mut saw_a = false;
    let mut saw_b = false;
    for _ in 0..500 {
        let picked = lb.least_connection().unwrap();
        assert!(picked == addrs[0] || picked == addrs[1]);
        if picked == addrs[0] {
            saw_a = true;
        }
        if picked == addrs[1] {
            saw_b = true;
        }
    }
    assert!(saw_a && saw_b);
}

#[test]
fn empty_registry_yields_no_backend() {
    for algorithm in [
        LoadBalancingAlgorithm::RoundRobin,
        LoadBalancingAlgorithm::Random,
        LoadBalancingAlgorithm::LeastConnection,
    ] {
        let mut lb = LoadBalancer::new(algorithm);
        let everyone_down = vec![
            ("web1".to_string(), false),
            ("web2".to_string(), false),
            ("web3".to_string(), false),
            ("web4".to_string(), false),
            ("web5".to_string(), false),
        ];
        lb.apply_probe_results(&everyone_down);
        assert_eq!(lb.list_servers().len(), 0);

        assert!(lb.select_backend().is_none());
        // A session against an empty registry ends quietly, with no error
        // and no state change.
        assert!(matches!(lb.begin_session(), SessionStart::NoBackend));
    }
}
