use merlion_kernel::merlion_proxy::{
    add_cluster, add_listener, config_result, handle_command, handle_request, info, load_config, start, stats, stop,
    CircuitBreaker, CircuitState, Cluster, HealthCheck, LbPolicy, ProxyState, ProxyStep, RetryPolicy, Route,
};

fn reply(r: ProxyStep) -> String {
    match r {
        ProxyStep::Reply(s) => s,
        ProxyStep::ReadConfig(p) => panic!("asked to read {}", p),
    }
}

fn route(prefix: &str, cluster: &str) -> Route {
    Route {
        prefix: prefix.to_string(),
        cluster_name: cluster.to_string(),
        headers_to_add: Vec::new(),
        headers_to_remove: Vec::new(),
        timeout_ms: 30000,
    }
}

#[test]
fn defaults() {
    let h = HealthCheck::default();
    assert_eq!(h.interval_ms, 5000);
    assert_eq!(h.path, "/healthz");
    let r = RetryPolicy::default();
    assert_eq!(r.max_retries, 3);
}

#[test]
fn breaker_opens_after_threshold_failures() {
    let mut b = CircuitBreaker::new(3);
    b.record_failure(10);
    b.record_failure(10);
    assert_eq!(b.state, CircuitState::Closed);
    b.record_failure(10);
    assert_eq!(b.state, CircuitState::Open);
    // 10 s recovery at 100 ticks per second: 1000 ticks
    assert!(!b.allow_request(500));
    assert_eq!(b.state, CircuitState::Open);
    assert!(b.allow_request(1010));
    assert_eq!(b.state, CircuitState::HalfOpen);
    b.record_success();
    assert_eq!(b.state, CircuitState::Closed);
    assert_eq!(b.failure_count, 0);
    assert_eq!(b.success_count, 1);
}

#[test]
fn round_robin_cycles_healthy_endpoints() {
    let mut c = Cluster::new("web");
    c.add_endpoint("10.0.0.1:80", 1);
    c.add_endpoint("10.0.0.2:80", 1);
    c.add_endpoint("10.0.0.3:80", 1);
    assert_eq!(c.next_endpoint(0), Some(0));
    assert_eq!(c.next_endpoint(0), Some(1));
    assert_eq!(c.next_endpoint(0), Some(2));
    assert_eq!(c.next_endpoint(0), Some(0));
    c.endpoints[1].healthy = false;
    let picks: Vec<Option<usize>> = (0..4).map(|_| c.next_endpoint(0)).collect();
    assert!(picks.iter().all(|p| *p == Some(0) || *p == Some(2)));
}

#[test]
fn no_endpoint_when_none_healthy() {
    let mut c = Cluster::new("empty");
    assert_eq!(c.next_endpoint(0), None);
    c.add_endpoint("a:1", 1);
    c.endpoints[0].healthy = false;
    assert_eq!(c.next_endpoint(0), None);
}

#[test]
fn least_connections_picks_least_loaded() {
    let mut c = Cluster::new("lc");
    c.lb_policy = LbPolicy::LeastConnections;
    c.add_endpoint("a:1", 1);
    c.add_endpoint("b:1", 1);
    c.add_endpoint("c:1", 1);
    c.endpoints[0].active_connections = 5;
    c.endpoints[1].active_connections = 2;
    c.endpoints[2].active_connections = 2;
    assert_eq!(c.next_endpoint(0), Some(1));
}

#[test]
fn random_policy_uses_tick() {
    let mut c = Cluster::new("r");
    c.lb_policy = LbPolicy::Random;
    c.add_endpoint("a:1", 1);
    c.add_endpoint("b:1", 1);
    assert_eq!(c.next_endpoint(7), Some(1));
    assert_eq!(c.next_endpoint(8), Some(0));
}

#[test]
fn weighted_round_robin_follows_weights() {
    let mut c = Cluster::new("w");
    c.lb_policy = LbPolicy::WeightedRoundRobin;
    c.add_endpoint("a:1", 3);
    c.add_endpoint("b:1", 1);
    let picks: Vec<Option<usize>> = (0..4).map(|_| c.next_endpoint(0)).collect();
    assert_eq!(picks, vec![Some(0), Some(0), Some(0), Some(1)]);
}

#[test]
fn request_routing_and_errors() {
    let mut st = ProxyState::new();
    let (code, body) = handle_request(&mut st, "/api/x", "GET", 0);
    assert_eq!(code, 404);
    assert_eq!(body, "no route matched");
    add_listener(&mut st, "main", 80, vec![route("/api", "backend")], false);
    let (code, body) = handle_request(&mut st, "/api/x", "GET", 0);
    assert_eq!(code, 404);
    assert_eq!(body, "cluster not found");
    add_cluster(&mut st, "backend", &[("10.0.0.9:8080", 1)], LbPolicy::RoundRobin);
    let (code, body) = handle_request(&mut st, "/api/x", "POST", 0);
    assert_eq!(code, 200);
    assert_eq!(body, "forwarded POST /api/x → 10.0.0.9:8080");
    assert_eq!(st.requests_total, 3);
    assert_eq!(st.requests_success, 1);
    assert_eq!(st.requests_failed, 2);
    assert_eq!(st.clusters[0].endpoints[0].total_requests, 1);
}

#[test]
fn request_with_no_healthy_upstream_and_open_circuit() {
    let mut st = ProxyState::new();
    add_listener(&mut st, "main", 80, vec![route("/", "b")], false);
    add_cluster(&mut st, "b", &[("x:1", 1)], LbPolicy::RoundRobin);
    st.clusters[0].endpoints[0].healthy = false;
    let (code, body) = handle_request(&mut st, "/", "GET", 0);
    assert_eq!((code, body.as_str()), (503, "no healthy upstream"));
    st.clusters[0].circuit_breaker.state = CircuitState::Open;
    st.clusters[0].circuit_breaker.last_failure_tick = 0;
    let (code, body) = handle_request(&mut st, "/", "GET", 10);
    assert_eq!((code, body.as_str()), (503, "circuit breaker open"));
}

#[test]
fn clusters_kept_sorted_and_replaced() {
    let mut st = ProxyState::new();
    add_cluster(&mut st, "zeta", &[("z:1", 1)], LbPolicy::RoundRobin);
    add_cluster(&mut st, "alpha", &[("a:1", 1), ("a:2", 2)], LbPolicy::Random);
    add_cluster(&mut st, "zeta", &[], LbPolicy::LeastConnections);
    let names: Vec<&str> = st.clusters.iter().map(|c| c.name.as_str()).collect();
    assert_eq!(names, vec!["alpha", "zeta"]);
    assert_eq!(st.clusters[1].endpoints.len(), 0);
    assert_eq!(st.clusters[1].lb_policy, LbPolicy::LeastConnections);
    assert_eq!(st.clusters[0].endpoints[1].weight, 2);
}

#[test]
fn load_config_lines() {
    let mut st = ProxyState::new();
    let text = "# comment\n\ncluster api 10.0.0.1:80\nendpoint api 10.0.0.2:80 5\nendpoint nope 1.1.1.1:1\nroute /v1 api\nbogus line here\n";
    assert_eq!(load_config(&mut st, text), Ok(()));
    assert_eq!(st.clusters.len(), 1);
    assert_eq!(st.clusters[0].endpoints.len(), 2);
    assert_eq!(st.clusters[0].endpoints[1].weight, 5);
    assert_eq!(st.listeners.len(), 1);
    assert_eq!(st.listeners[0].name, "default");
    assert_eq!(st.listeners[0].port, 8080);
    assert_eq!(st.listeners[0].routes[0].prefix, "/v1");
    let (code, _) = handle_request(&mut st, "/v1/users", "GET", 0);
    assert_eq!(code, 200);
}

#[test]
fn commands() {
    let mut st = ProxyState::new();
    assert_eq!(reply(handle_command(&mut st, "start", 0)), "MerlionProxy started");
    assert!(st.running);
    assert_eq!(reply(handle_command(&mut st, "stop", 0)), "MerlionProxy stopped");
    assert!(!st.running);
    assert_eq!(reply(handle_command(&mut st, "cluster web 1.2.3.4:80", 0)), "Cluster 'web' → 1.2.3.4:80");
    assert_eq!(reply(handle_command(&mut st, "cluster web", 0)), "Usage: proxy cluster <name> <endpoint>");
    assert_eq!(reply(handle_command(&mut st, "route /app web", 0)), "Route /app → cluster web");
    assert_eq!(reply(handle_command(&mut st, "route /app", 0)), "Usage: proxy route <prefix> <cluster>");
    assert_eq!(reply(handle_command(&mut st, "test /app/index", 0)), "HTTP 200 — forwarded GET /app/index → 1.2.3.4:80");
    assert_eq!(reply(handle_command(&mut st, "test", 0)), "HTTP 404 — no route matched");
    assert_eq!(reply(handle_command(&mut st, "config", 0)), "Usage: proxy config <file>");
    match handle_command(&mut st, "config /etc/proxy.conf", 0) {
        ProxyStep::ReadConfig(p) => assert_eq!(p, "/etc/proxy.conf"),
        ProxyStep::Reply(s) => panic!("unexpected reply {}", s),
    }
    assert_eq!(reply(handle_command(&mut st, "bogus x", 0)), "Unknown proxy command: bogus");
    assert_eq!(reply(handle_command(&mut st, "", 0)), "Unknown proxy command: ");
}

#[test]
fn config_result_replies() {
    let mut st = ProxyState::new();
    assert_eq!(config_result(&mut st, "/c", Err("not found")), "Cannot read /c: not found");
    assert_eq!(st.clusters.len(), 0);
    assert_eq!(config_result(&mut st, "/c", Ok("cluster a b:1\n")), "Configuration loaded from /c");
    assert_eq!(st.clusters.len(), 1);
}

#[test]
fn stats_and_info_reports() {
    let mut st = ProxyState::new();
    assert_eq!(
        stats(&st),
        "MerlionProxy Statistics:\nTotal requests:  0\nSuccessful:      0\nFailed:          0\nActive conns:    0\n"
    );
    start(&mut st);
    add_listener(&mut st, "main", 80, vec![route("/", "b")], true);
    add_cluster(&mut st, "b", &[("x:1", 2)], LbPolicy::WeightedRoundRobin);
    handle_request(&mut st, "/", "GET", 0);
    let expected = "MerlionProxy (Envoy-compatible L7 proxy)\nStatus:      RUNNING\nListeners:   1\nClusters:    1\nConnections: 0\n\n\
Listener 'main' :80 (tls=true, 1 routes)\n  / → b\n\
\nCluster 'b' (WeightedRoundRobin, 1 endpoints, circuit=Closed)\n  x:1 w=2 healthy=true conns=0 reqs=1\n";
    assert_eq!(info(&st), expected);
    stop(&mut st);
    assert!(info(&st).contains("STOPPED"));
    assert!(stats(&st).contains("Total requests:  1\nSuccessful:      1\n"));
}
