use load_balancer::{
    algorithm_from_choice, Addr, ConnectionAccounting, ConnectionPool, LoadBalancer,
    LoadBalancerError, LoadBalancingAlgorithm, SessionStart,
};

#[test]
fn test_health_check() {
    let mut lb = LoadBalancer::new(LoadBalancingAlgorithm::RoundRobin);

    let unreachable = Addr::new(10, 255, 255, 1, 80);
    lb.registry.insert("unreachable".to_string(), unreachable);

    // One probe round: the unreachable backend refuses connections, every
    // default backend answers.
    let results = vec![
        ("web1".to_string(), true),
        ("web2".to_string(), true),
        ("web3".to_string(), true),
        ("web4".to_string(), true),
        ("web5".to_string(), true),
        ("unreachable".to_string(), false),
    ];
    lb.apply_probe_results(&results);

    let servers = lb.list_servers();
    assert!(!servers.iter().any(|(name, _)| name == "unreachable"));
    // Exactly that entry went; the reachable ones are intact.
    assert_eq!(servers.len(), 5);
    assert_eq!(servers[0], ("web1".to_string(), Addr::new(192, 168, 1, 21, 80)));
    assert_eq!(servers[4], ("web5".to_string(), Addr::new(192, 168, 1, 25, 80)));
}

#[test]
fn accounting_never_goes_negative() {
    let mut acct = ConnectionAccounting::new();
    let a = Addr::new(192, 168, 1, 21, 80);

    // A decrement issued by a session that never incremented saturates at
    // zero rather than underflowing.
    acct.decrement(a);
    assert_eq!(acct.get(a), 0);

    acct.increment(a);
    acct.increment(a);
    assert_eq!(acct.get(a), 2);
    acct.decrement(a);
    acct.decrement(a);
    acct.decrement(a);
    assert_eq!(acct.get(a), 0);
}

#[test]
fn pool_reuses_released_connection_first() {
    let mut pool = ConnectionPool::new();
    let a = Addr::new(192, 168, 1, 21, 80);
    let mut fresh_connects = 0u32;

    // First acquisition: nothing pooled, a fresh connection is established.
    let first = pool.acquire(a);
    if first.is_none() {
        fresh_connects += 1;
    }
    assert_eq!(first, None);
    assert_eq!(fresh_connects, 1);

    // The session ends cleanly and returns its connection (handle 7).
    pool.release(a, 7);

    // The released connection is the next one acquired for the same address,
    // before any new connection is established.
    let second = pool.acquire(a);
    if second.is_none() {
        fresh_connects += 1;
    }
    assert_eq!(second, Some(7));
    assert_eq!(fresh_connects, 1);

    // LIFO: the most recently returned handle comes out first.
    pool.release(a, 7);
    pool.release(a, 8);
    assert_eq!(pool.acquire(a), Some(8));
    assert_eq!(pool.acquire(a), Some(7));
    assert_eq!(pool.acquire(a), None);
}

#[test]
fn session_accounting_follows_the_state_machine() {
    let mut lb = LoadBalancer::new(LoadBalancingAlgorithm::RoundRobin);
    let web1 = Addr::new(192, 168, 1, 21, 80);

    // Begin: web1 is selected and accounted for before acquisition; the
    // pool is empty, so the caller must connect.
    let start = lb.begin_session();
    let (addr, pooled) = match start {
        SessionStart::Assigned { addr, pooled } => (addr, pooled),
        SessionStart::NoBackend => panic!("registry is not empty"),
    };
    assert_eq!(addr, web1);
    assert_eq!(pooled, None);
    assert_eq!(lb.accounting.get(addr), 1);

    // Clean teardown: the count is released and the connection pooled.
    lb.relay_succeeded(addr, 42);
    assert_eq!(lb.accounting.get(addr), 0);
    assert!(lb.pool.contains_conn(42));

    // A later session to the same backend reuses handle 42.
    assert_eq!(lb.pool.acquire(addr), Some(42));
}

#[test]
fn failed_connect_rolls_accounting_back() {
    let mut lb = LoadBalancer::new(LoadBalancingAlgorithm::RoundRobin);
    let start = lb.begin_session();
    let addr = match start {
        SessionStart::Assigned { addr, .. } => addr,
        SessionStart::NoBackend => panic!("registry is not empty"),
    };
    assert_eq!(lb.accounting.get(addr), 1);

    let io_err = std::io::Error::new(std::io::ErrorKind::ConnectionRefused, "refused");
    let err = lb.connect_failed(addr, io_err);
    assert!(matches!(err, LoadBalancerError::IoError(_)));
    assert_eq!(lb.accounting.get(addr), 0);
}

#[test]
fn failed_relay_drops_the_connection() {
    let mut lb = LoadBalancer::new(LoadBalancingAlgorithm::RoundRobin);
    let start = lb.begin_session();
    let addr = match start {
        SessionStart::Assigned { addr, .. } => addr,
        SessionStart::NoBackend => panic!("registry is not empty"),
    };

    let io_err = std::io::Error::new(std::io::ErrorKind::BrokenPipe, "reset mid-relay");
    let err = lb.relay_failed(addr, io_err);
    assert!(matches!(err, LoadBalancerError::IoError(_)));
    assert_eq!(lb.accounting.get(addr), 0);
    // The errored connection was never returned to the pool.
    assert!(!lb.pool.contains_conn(42));
    assert_eq!(lb.pool.acquire(addr), None);
}

#[test]
fn io_errors_convert_into_the_error_taxonomy() {
    let io_err = std::io::Error::new(std::io::ErrorKind::TimedOut, "connect timed out");
    let converted = LoadBalancerError::from(io_err);
    assert!(matches!(converted, LoadBalancerError::IoError(_)));
}

#[test]
fn menu_choices_map_to_algorithms() {
    assert_eq!(
        algorithm_from_choice(&"1".to_string()),
        Some(LoadBalancingAlgorithm::RoundRobin)
    );
    assert_eq!(
        algorithm_from_choice(&"2".to_string()),
        Some(LoadBalancingAlgorithm::Random)
    );
    assert_eq!(
        algorithm_from_choice(&"3".to_string()),
        Some(LoadBalancingAlgorithm::LeastConnection)
    );
    assert_eq!(algorithm_from_choice(&"4".to_string()), None);
    assert_eq!(algorithm_from_choice(&"".to_string()), None);
}
