use rr_proxy::lb::{FilterOutcome, RateLimitRejection, LB};
use rr_proxy::limiter::RateLimiter;
use rr_proxy::pool::UpstreamPool;

fn addrs() -> Vec<String> {
    vec![
        "1.1.1.1:443".to_string(),
        "1.0.0.1:443".to_string(),
        "127.0.0.1:343".to_string(),
    ]
}

fn proxy(max: u64) -> LB {
    LB::new(addrs(), "one.one.one.one".to_string(), 1000, max).unwrap()
}

#[test]
fn empty_pool_is_refused() {
    assert!(UpstreamPool::new(Vec::new()).is_none());
    assert!(LB::new(Vec::new(), "h".to_string(), 1000, 1).is_none());
    assert!(LB::new(addrs(), "h".to_string(), 0, 1).is_none());
}

#[test]
fn round_robin_cycles_in_order() {
    let mut p = UpstreamPool::new(addrs()).unwrap();
    let picks: Vec<usize> = (0..7).map(|_| p.select()).collect();
    assert_eq!(picks, vec![0, 1, 2, 0, 1, 2, 0]);
}

#[test]
fn round_robin_is_fair_over_healthy_nodes() {
    let mut p = UpstreamPool::new(addrs()).unwrap();
    p.set_health(&"1.0.0.1:443".to_string(), false);
    let mut counts = [0usize; 3];
    for _ in 0..11 {
        counts[p.select()] += 1;
    }
    // two healthy nodes, eleven selections: 5 or 6 each
    assert_eq!(counts[1], 0);
    assert!(counts[0] == 5 || counts[0] == 6);
    assert!(counts[2] == 5 || counts[2] == 6);
    assert_eq!(counts[0] + counts[2], 11);
}

#[test]
fn fail_open_when_all_unhealthy() {
    let mut p = UpstreamPool::new(addrs()).unwrap();
    p.apply_probes(&vec![false, false, false], 5);
    let picks: Vec<usize> = (0..4).map(|_| p.select()).collect();
    assert_eq!(picks, vec![0, 1, 2, 0]);
}

#[test]
fn failed_probe_excludes_node_and_recovery_readmits_it() {
    let mut p = UpstreamPool::new(addrs()).unwrap();
    p.apply_probes(&vec![true, false, true], 1000);
    for _ in 0..6 {
        assert_ne!(p.select(), 1);
    }
    p.apply_probes(&vec![true, true, true], 2000);
    let picks: Vec<usize> = (0..3).map(|_| p.select()).collect();
    assert!(picks.contains(&1));
    let snap = p.snapshot();
    assert_eq!(snap.len(), 3);
    assert!(snap.iter().all(|n| n.healthy && n.last_checked_at == 2000));
    assert_eq!(snap[2].address, "127.0.0.1:343");
}

#[test]
fn set_health_is_idempotent() {
    let mut p = UpstreamPool::new(addrs()).unwrap();
    let a = "1.1.1.1:443".to_string();
    p.set_health(&a, false);
    p.set_health(&a, false);
    let snap = p.snapshot();
    assert!(!snap[0].healthy);
    assert!(snap[1].healthy && snap[2].healthy);
    assert_eq!(p.address(0), "1.1.1.1:443");
    assert_eq!(p.len(), 3);
}

#[test]
fn window_counts_then_resets() {
    let mut r = RateLimiter::new(1000);
    let k = "client".to_string();
    for i in 1..=5u64 {
        assert_eq!(r.observe(&k, 1, 100 + i * 100), i);
    }
    assert_eq!(r.observe(&k, 1, 1000), 1);
    assert_eq!(r.observe(&k, 1, 1999), 2);
    assert_eq!(r.observe(&k, 1, 5000), 1);
    assert_eq!(r.window_ms(), 1000);
}

#[test]
fn keys_are_counted_apart() {
    let mut r = RateLimiter::new(1000);
    let a = "a".to_string();
    let b = "b".to_string();
    assert_eq!(r.observe(&a, 3, 0), 3);
    assert_eq!(r.observe(&b, 1, 0), 1);
    assert_eq!(r.observe(&a, 2, 10), 5);
}

#[test]
fn many_calls_on_one_key_lose_nothing() {
    let mut r = RateLimiter::new(60_000);
    let k = "hot".to_string();
    let mut last = 0;
    for t in 0..500u64 {
        last = r.observe(&k, 1, t);
    }
    assert_eq!(last, 500);
}

#[test]
fn count_saturates() {
    let mut r = RateLimiter::new(1000);
    let k = "k".to_string();
    assert_eq!(r.observe(&k, u64::MAX - 1, 0), u64::MAX - 1);
    assert_eq!(r.observe(&k, 5, 0), u64::MAX);
}

#[test]
fn throttle_boundary() {
    let mut lb = proxy(1);
    let a = Some("app-A".to_string());
    let b = Some("app-B".to_string());
    assert_eq!(lb.request_filter(&a, 0), FilterOutcome::Proceed);
    assert_eq!(
        lb.request_filter(&a, 10),
        FilterOutcome::Reject(RateLimitRejection {
            status: 429,
            limit: 1,
            remaining: 0,
            reset_secs: 1,
            keepalive: false,
        })
    );
    assert_eq!(lb.request_filter(&b, 20), FilterOutcome::Proceed);
    assert_eq!(lb.request_filter(&a, 1000), FilterOutcome::Proceed);
}

#[test]
fn reset_seconds_round_up() {
    let mut lb = LB::new(addrs(), "h".to_string(), 2500, 0).unwrap();
    match lb.request_filter(&Some("x".to_string()), 100) {
        FilterOutcome::Reject(r) => assert_eq!(r.reset_secs, 3),
        FilterOutcome::Proceed => panic!("expected a rejection"),
    }
    match lb.request_filter(&Some("x".to_string()), 500) {
        FilterOutcome::Reject(r) => assert_eq!(r.reset_secs, 2),
        FilterOutcome::Proceed => panic!("expected a rejection"),
    }
}

#[test]
fn unidentified_client_is_never_throttled() {
    let mut lb = proxy(1);
    for t in 0..100u64 {
        assert_eq!(lb.request_filter(&None, t), FilterOutcome::Proceed);
    }
}

#[test]
fn appid_header_is_read() {
    let lb = proxy(1);
    assert_eq!(lb.get_request_appid(None), None);
    assert_eq!(
        lb.get_request_appid(Some(b"app-A".as_slice())),
        Some("app-A".to_string())
    );
    assert_eq!(
        lb.get_request_appid(Some(b"a\tb c".as_slice())),
        Some("a\tb c".to_string())
    );
    assert_eq!(lb.get_request_appid(Some(b"bad\x7f".as_slice())), None);
    assert_eq!(lb.get_request_appid(Some(b"caf\xc3\xa9".as_slice())), None);
    assert_eq!(lb.get_request_appid(Some(b"".as_slice())), Some(String::new()));
}

#[test]
fn host_is_rewritten() {
    let lb = proxy(1);
    let mut host = "evil.example.com".to_string();
    lb.upstream_request_filter(&mut host);
    assert_eq!(host, "one.one.one.one");
    let mut empty = String::new();
    lb.upstream_request_filter(&mut empty);
    assert_eq!(empty, "one.one.one.one");
}

#[test]
fn peers_follow_round_robin_with_tls_and_sni() {
    let mut lb = proxy(1);
    lb.set_health(&"1.1.1.1:443".to_string(), false);
    let p1 = lb.upstream_peer();
    let p2 = lb.upstream_peer();
    let p3 = lb.upstream_peer();
    assert_eq!(p1.address, "1.0.0.1:443");
    assert_eq!(p2.address, "127.0.0.1:343");
    assert_eq!(p3.address, "1.0.0.1:443");
    assert!(p1.tls);
    assert_eq!(p1.sni, "one.one.one.one");
    lb.apply_probes(&vec![true, true, true], 7);
    assert!(lb.snapshot().iter().all(|n| n.healthy));
}

#[test]
fn eviction_keeps_current_window_counts() {
    let mut r = RateLimiter::new(1000);
    let a = "a".to_string();
    let b = "b".to_string();
    assert_eq!(r.observe(&a, 4, 0), 4);
    assert_eq!(r.observe(&b, 1, 1200), 1);
    r.evict_idle(1500);
    assert_eq!(r.observe(&b, 1, 1600), 2);
    assert_eq!(r.observe(&a, 1, 1700), 1);
}

#[test]
fn proxy_eviction_does_not_reset_live_window() {
    let mut lb = proxy(1);
    let a = Some("app-A".to_string());
    assert_eq!(lb.request_filter(&a, 0), FilterOutcome::Proceed);
    lb.evict_idle(500);
    assert!(matches!(lb.request_filter(&a, 600), FilterOutcome::Reject(_)));
    lb.evict_idle(1500);
    assert_eq!(lb.request_filter(&a, 1600), FilterOutcome::Proceed);
}
