//! MerlionProxy: a layer-7 proxy in the style of Envoy. Listeners route
//! request paths by prefix to clusters of upstream endpoints; a cluster
//! picks an endpoint by its load-balancing policy and guards its upstreams
//! with a circuit breaker.
use vstd::prelude::*;
use vstd::string::*;
use crate::libc::{wrap_inc, inc_wrapping};
use crate::text::{string_of, str_eq, push_dec, dec, has_prefix, starts_with_str, trimmed, trim_str, pieces,
    split_char, char_pos, parse_uint, parse_u64_max};
use crate::kvdb::{bytes_lt, key_lt, lemma_key_order, lemma_key_trans};

verus! {

/// Ticks per second of the timer that stamps failures.
pub const PIT_FREQUENCY_HZ: u64 = 100;

// ---------------------------------------------------------------------------
// Configuration
// ---------------------------------------------------------------------------

/// Load-balancing algorithm.
#[derive(PartialEq, Eq, Structural, Clone, Copy, Debug)]
pub enum LbPolicy {
    RoundRobin,
    LeastConnections,
    Random,
    WeightedRoundRobin,
}

/// Health check settings.
pub struct HealthCheck {
    pub interval_ms: u64,
    pub timeout_ms: u64,
    pub unhealthy_threshold: u32,
    pub healthy_threshold: u32,
    /// HTTP path probed.
    pub path: String,
}

impl HealthCheck {
    /// Every 5 s with a 1 s timeout on `/healthz`; 3 failures mark an
    /// endpoint unhealthy, 2 successes healthy again.
    pub fn default() -> (h: Self)
        ensures
            h.interval_ms == 5000 && h.timeout_ms == 1000,
            h.unhealthy_threshold == 3 && h.healthy_threshold == 2,
            h.path@ == "/healthz"@,
    {
        HealthCheck { interval_ms: 5000, timeout_ms: 1000, unhealthy_threshold: 3, healthy_threshold: 2, path: string_of("/healthz") }
    }
}

/// Retry settings.
pub struct RetryPolicy {
    pub max_retries: u32,
    /// HTTP status codes that are retried.
    pub retry_on: Vec<u16>,
    pub backoff_ms: u64,
}

impl RetryPolicy {
    /// Three retries on 502, 503 and 504, 100 ms apart.
    pub fn default() -> (p: Self)
        ensures
            p.max_retries == 3,
            p.retry_on@ == seq![502u16, 503u16, 504u16],
            p.backoff_ms == 100,
    {
        let mut v: Vec<u16> = Vec::new();
        v.push(502);
        v.push(503);
        v.push(504);
        assert(v@ =~= seq![502u16, 503u16, 504u16]);
        RetryPolicy { max_retries: 3, retry_on: v, backoff_ms: 100 }
    }
}

/// Circuit breaker state.
#[derive(PartialEq, Eq, Structural, Clone, Copy, Debug)]
pub enum CircuitState {
    /// Normal operation.
    Closed,
    /// Failing: requests are refused.
    Open,
    /// Testing recovery.
    HalfOpen,
}

/// A circuit breaker.
#[derive(PartialEq, Eq, Structural, Clone, Copy, Debug)]
pub struct CircuitBreaker {
    pub state: CircuitState,
    pub failure_count: u32,
    pub success_count: u32,
    /// Failures in a row that open the circuit.
    pub threshold: u32,
    pub recovery_time_ms: u64,
    pub last_failure_tick: u64,
}

/// `x + 1` with 32-bit wrap-around.
pub open spec fn wrap_inc32(x: u32) -> u32 {
    if x == u32::MAX { 0 } else { (x + 1) as u32 }
}

fn inc32(x: u32) -> (r: u32)
    ensures
        r == wrap_inc32(x),
{
    if x == u32::MAX { 0 } else { x + 1 }
}

/// Whether the clock reading `now` is not before the last failure and the
/// time since it in milliseconds fits in 64 bits.
pub open spec fn clock_fits(b: CircuitBreaker, now: u64) -> bool {
    now >= b.last_failure_tick && (now - b.last_failure_tick) * 1000 <= u64::MAX
}

/// The breaker after a request at tick `now`, and whether it lets it
/// through: closed and half-open ones do; an open one does once the
/// recovery time has passed since the last failure, and turns half-open.
pub open spec fn allow_spec(b: CircuitBreaker, now: u64) -> (CircuitBreaker, bool) {
    match b.state {
        CircuitState::Closed => (b, true),
        CircuitState::HalfOpen => (b, true),
        CircuitState::Open => {
            let elapsed = (now - b.last_failure_tick) * 1000 / (PIT_FREQUENCY_HZ as int);
            if elapsed >= b.recovery_time_ms { (CircuitBreaker { state: CircuitState::HalfOpen, ..b }, true) } else { (b, false) }
        },
    }
}

/// The breaker after a success: no failures in a row, one more success,
/// and a half-open circuit closes.
pub open spec fn success_spec(b: CircuitBreaker) -> CircuitBreaker {
    CircuitBreaker {
        failure_count: 0,
        success_count: wrap_inc32(b.success_count),
        state: if b.state == CircuitState::HalfOpen { CircuitState::Closed } else { b.state },
        ..b
    }
}

/// The breaker after a failure at tick `now`: one more failure in a row,
/// and the circuit opens at the threshold.
pub open spec fn failure_spec(b: CircuitBreaker, now: u64) -> CircuitBreaker {
    let f = wrap_inc32(b.failure_count);
    CircuitBreaker {
        failure_count: f,
        last_failure_tick: now,
        state: if f >= b.threshold { CircuitState::Open } else { b.state },
        ..b
    }
}

/// A closed breaker opening after `threshold` failures in a row, with a
/// 10 s recovery time.
pub open spec fn closed_breaker(threshold: u32) -> CircuitBreaker {
    CircuitBreaker { state: CircuitState::Closed, failure_count: 0, success_count: 0, threshold,
        recovery_time_ms: 10000, last_failure_tick: 0 }
}

impl CircuitBreaker {
    /// A closed breaker opening after `threshold` failures in a row, with a
    /// 10 s recovery time.
    pub fn new(threshold: u32) -> (b: Self)
        ensures
            b == closed_breaker(threshold),
    {
        CircuitBreaker { state: CircuitState::Closed, failure_count: 0, success_count: 0, threshold, recovery_time_ms: 10000, last_failure_tick: 0 }
    }

    /// Record a successful request.
    pub fn record_success(&mut self)
        ensures
            *final(self) == success_spec(*old(self)),
    {
        self.failure_count = 0;
        self.success_count = inc32(self.success_count);
        if self.state == CircuitState::HalfOpen {
            self.state = CircuitState::Closed;
        }
    }

    /// Record a failed request at tick `now`.
    pub fn record_failure(&mut self, now: u64)
        ensures
            *final(self) == failure_spec(*old(self), now),
    {
        self.failure_count = inc32(self.failure_count);
        self.last_failure_tick = now;
        if self.failure_count >= self.threshold {
            self.state = CircuitState::Open;
        }
    }

    /// Whether a request at tick `now` may go through.
    pub fn allow_request(&mut self, now: u64) -> (r: bool)
        requires
            clock_fits(*old(self), now),
        ensures
            (*final(self), r) == allow_spec(*old(self), now),
    {
        match self.state {
            CircuitState::Closed => true,
            CircuitState::Open => {
                let elapsed_ms = (now - self.last_failure_tick) * 1000 / PIT_FREQUENCY_HZ;
                if elapsed_ms >= self.recovery_time_ms {
                    self.state = CircuitState::HalfOpen;
                    true
                } else {
                    false
                }
            },
            CircuitState::HalfOpen => true,
        }
    }
}

/// An upstream endpoint.
pub struct Endpoint {
    /// `ip:port`.
    pub address: String,
    pub weight: u32,
    pub healthy: bool,
    pub active_connections: u32,
    pub total_requests: u64,
    pub total_failures: u64,
}

/// An endpoint as plain values.
pub struct EndpointModel {
    pub address: Seq<char>,
    pub weight: u32,
    pub healthy: bool,
    pub active_connections: u32,
    pub total_requests: u64,
    pub total_failures: u64,
}

impl Endpoint {
    pub open spec fn model(&self) -> EndpointModel {
        EndpointModel {
            address: self.address@,
            weight: self.weight,
            healthy: self.healthy,
            active_connections: self.active_connections,
            total_requests: self.total_requests,
            total_failures: self.total_failures,
        }
    }
}

pub open spec fn endpoints_view(v: Seq<Endpoint>) -> Seq<EndpointModel> {
    v.map_values(|e: Endpoint| e.model())
}

/// A cluster of upstream endpoints.
pub struct Cluster {
    pub name: String,
    pub endpoints: Vec<Endpoint>,
    pub lb_policy: LbPolicy,
    pub health_check: HealthCheck,
    pub circuit_breaker: CircuitBreaker,
    pub retry_policy: RetryPolicy,
    /// Round-robin position.
    pub rr_index: usize,
}

/// Indices of the healthy endpoints, in order.
pub open spec fn healthy_indices(es: Seq<EndpointModel>) -> Seq<usize>
    decreases es.len(),
{
    if es.len() == 0 {
        Seq::empty()
    } else {
        let rest = healthy_indices(es.drop_last());
        if es.last().healthy { rest.push((es.len() - 1) as usize) } else { rest }
    }
}

/// The first of the healthy endpoints with the fewest active connections.
pub open spec fn least_loaded(es: Seq<EndpointModel>, h: Seq<usize>) -> usize
    decreases h.len(),
{
    if h.len() <= 1 {
        h[0]
    } else {
        let best = least_loaded(es, h.drop_last());
        if es[h.last() as int].active_connections < es[best as int].active_connections { h.last() } else { best }
    }
}

/// Sum of the weights of the healthy endpoints, wrapping at 2^32.
pub open spec fn weight_sum(es: Seq<EndpointModel>, h: Seq<usize>) -> u32
    decreases h.len(),
{
    if h.len() == 0 {
        0
    } else {
        vstd::wrapping::u32_specs::wrapping_add(weight_sum(es, h.drop_last()), es[h.last() as int].weight)
    }
}

/// The first healthy endpoint (from the `j`-th on) whose running weight
/// total, starting from `acc`, passes `tick`; the first healthy one when
/// none does.
pub open spec fn weighted_pick(es: Seq<EndpointModel>, h: Seq<usize>, tick: u32, j: int, acc: u32) -> usize
    decreases h.len() - j,
{
    if j < 0 || j >= h.len() {
        h[0]
    } else {
        let a = vstd::wrapping::u32_specs::wrapping_add(acc, es[h[j] as int].weight);
        if tick < a { h[j] } else { weighted_pick(es, h, tick, j + 1, a) }
    }
}

/// The endpoint a cluster picks at tick `now`, and its new round-robin
/// position; `None` when no endpoint is healthy.
pub open spec fn pick_spec(es: Seq<EndpointModel>, policy: LbPolicy, rr: usize, now: u64) -> (Option<usize>, usize) {
    let h = healthy_indices(es);
    let next_rr: usize = if rr == usize::MAX { 0 } else { (rr + 1) as usize };
    if h.len() == 0 {
        (None, rr)
    } else {
        match policy {
            LbPolicy::RoundRobin => (Some(h[(rr as nat % h.len()) as int]), next_rr),
            LbPolicy::LeastConnections => (Some(least_loaded(es, h)), rr),
            LbPolicy::Random => (Some(h[(now as nat % h.len()) as int]), rr),
            LbPolicy::WeightedRoundRobin => {
                let total = weight_sum(es, h);
                let tick = ((rr as u32) % if total > 1 { total } else { 1 }) as u32;
                (Some(weighted_pick(es, h, tick, 0, 0)), next_rr)
            },
        }
    }
}

proof fn lemma_healthy(es: Seq<EndpointModel>)
    ensures
        healthy_indices(es).len() <= es.len(),
        forall|j: int| 0 <= j < healthy_indices(es).len() ==> #[trigger] healthy_indices(es)[j] < es.len(),
    decreases es.len(),
{
    if es.len() > 0 {
        lemma_healthy(es.drop_last());
    }
}

proof fn lemma_least_loaded(es: Seq<EndpointModel>, h: Seq<usize>)
    requires
        h.len() > 0,
    ensures
        h.contains(least_loaded(es, h)),
    decreases h.len(),
{
    if h.len() > 1 {
        lemma_least_loaded(es, h.drop_last());
        let b = least_loaded(es, h.drop_last());
        let k = choose|k: int| 0 <= k < h.drop_last().len() && h.drop_last()[k] == b;
        assert(h[k] == b);
        assert(h[h.len() - 1] == h.last());
    } else {
        assert(h[0] == h[0]);
    }
}

proof fn lemma_weighted_pick(es: Seq<EndpointModel>, h: Seq<usize>, tick: u32, j: int, acc: u32)
    requires
        h.len() > 0,
        0 <= j,
    ensures
        h.contains(weighted_pick(es, h, tick, j, acc)),
    decreases h.len() - j,
{
    if j < h.len() {
        let a = vstd::wrapping::u32_specs::wrapping_add(acc, es[h[j] as int].weight);
        if tick >= a {
            lemma_weighted_pick(es, h, tick, j + 1, a);
        }
    }
}

impl Cluster {
    pub open spec fn eps(&self) -> Seq<EndpointModel> {
        endpoints_view(self.endpoints@)
    }

    /// An empty round-robin cluster with the default health check and retry
    /// policy and a breaker opening after 5 failures.
    pub fn new(name: &str) -> (c: Self)
        ensures
            c.name@ == name@,
            c.endpoints@.len() == 0,
            c.lb_policy == LbPolicy::RoundRobin,
            c.circuit_breaker == (CircuitBreaker { state: CircuitState::Closed, failure_count: 0, success_count: 0,
                threshold: 5, recovery_time_ms: 10000, last_failure_tick: 0 }),
            c.rr_index == 0,
            c.health_check.interval_ms == 5000,
            c.retry_policy.max_retries == 3,
    {
        Cluster {
            name: string_of(name),
            endpoints: Vec::new(),
            lb_policy: LbPolicy::RoundRobin,
            health_check: HealthCheck::default(),
            circuit_breaker: CircuitBreaker::new(5),
            retry_policy: RetryPolicy::default(),
            rr_index: 0,
        }
    }

    /// Add a healthy endpoint with no traffic yet.
    pub fn add_endpoint(&mut self, address: &str, weight: u32)
        ensures
            final(self).eps() == old(self).eps().push(EndpointModel { address: address@, weight, healthy: true,
                active_connections: 0, total_requests: 0, total_failures: 0 }),
            final(self).name@ == old(self).name@,
            final(self).lb_policy == old(self).lb_policy,
            final(self).circuit_breaker == old(self).circuit_breaker,
            final(self).rr_index == old(self).rr_index,
    {
        let e = Endpoint { address: string_of(address), weight, healthy: true, active_connections: 0, total_requests: 0, total_failures: 0 };
        self.endpoints.push(e);
        assert(self.eps() =~= old(self).eps().push(e.model()));
    }

    /// Pick the next endpoint by the cluster's policy at tick `now`:
    /// round-robin over the healthy ones, the first least loaded, the one at
    /// `now` modulo their number, or by weight.
    pub fn next_endpoint(&mut self, now: u64) -> (r: Option<usize>)
        ensures
            (r, final(self).rr_index) == pick_spec(old(self).eps(), old(self).lb_policy, old(self).rr_index, now),
            r matches Some(i) ==> i < old(self).endpoints@.len(),
            final(self).endpoints@ == old(self).endpoints@,
            final(self).name@ == old(self).name@,
            final(self).lb_policy == old(self).lb_policy,
            final(self).circuit_breaker == old(self).circuit_breaker,
    {
        let ghost es = self.eps();
        proof {
            lemma_healthy(es);
        }
        let mut healthy: Vec<usize> = Vec::new();
        let mut i: usize = 0;
        while i < self.endpoints.len()
            invariant
                es == self.eps(),
                i <= es.len(),
                healthy@ == healthy_indices(es.subrange(0, i as int)),
            decreases es.len() - i,
        {
            assert(es.subrange(0, i + 1).drop_last() =~= es.subrange(0, i as int));
            assert(es[i as int].healthy == self.endpoints@[i as int].healthy);
            if self.endpoints[i].healthy {
                healthy.push(i);
            }
            i = i + 1;
        }
        assert(es.subrange(0, es.len() as int) =~= es);
        let ghost h = healthy@;
        if healthy.len() == 0 {
            return None;
        }
        let next_rr: usize = if self.rr_index == usize::MAX { 0 } else { self.rr_index + 1 };
        match self.lb_policy {
            LbPolicy::RoundRobin => {
                let idx = healthy[self.rr_index % healthy.len()];
                self.rr_index = next_rr;
                Some(idx)
            },
            LbPolicy::LeastConnections => {
                let mut best = healthy[0];
                let mut k: usize = 1;
                assert(h.subrange(0, 1).drop_last().len() == 0);
                while k < healthy.len()
                    invariant
                        h == healthy@,
                        h.len() > 0,
                        es == self.eps(),
                        es.len() == self.endpoints@.len(),
                        forall|j: int| 0 <= j < h.len() ==> #[trigger] h[j] < es.len(),
                        1 <= k <= h.len(),
                        best == least_loaded(es, h.subrange(0, k as int)),
                        best < es.len(),
                    decreases h.len() - k,
                {
                    let ghost pre = h.subrange(0, k + 1);
                    assert(pre.drop_last() =~= h.subrange(0, k as int));
                    let c = healthy[k];
                    assert(es[c as int].active_connections == self.endpoints@[c as int].active_connections);
                    assert(es[best as int].active_connections == self.endpoints@[best as int].active_connections);
                    if self.endpoints[c].active_connections < self.endpoints[best].active_connections {
                        best = c;
                    }
                    k = k + 1;
                }
                assert(h.subrange(0, h.len() as int) =~= h);
                Some(best)
            },
            LbPolicy::Random => {
                let n = healthy.len() as u64;
                let idx = healthy[(now % n) as usize];
                Some(idx)
            },
            LbPolicy::WeightedRoundRobin => {
                let mut total: u32 = 0;
                let mut k: usize = 0;
                while k < healthy.len()
                    invariant
                        h == healthy@,
                        es == self.eps(),
                        es.len() == self.endpoints@.len(),
                        forall|j: int| 0 <= j < h.len() ==> #[trigger] h[j] < es.len(),
                        k <= h.len(),
                        total == weight_sum(es, h.subrange(0, k as int)),
                    decreases h.len() - k,
                {
                    let ghost pre = h.subrange(0, k + 1);
                    assert(pre.drop_last() =~= h.subrange(0, k as int));
                    assert(es[h[k as int] as int].weight == self.endpoints@[h[k as int] as int].weight);
                    total = total.wrapping_add(self.endpoints[healthy[k]].weight);
                    k = k + 1;
                }
                assert(h.subrange(0, h.len() as int) =~= h);
                let m: u32 = if total > 1 { total } else { 1 };
                let tick: u32 = (self.rr_index as u32) % m;
                self.rr_index = next_rr;
                let mut acc: u32 = 0;
                let mut j: usize = 0;
                while j < healthy.len()
                    invariant
                        h == healthy@,
                        h.len() > 0,
                        es == self.eps(),
                        es.len() == self.endpoints@.len(),
                        forall|q: int| 0 <= q < h.len() ==> #[trigger] h[q] < es.len(),
                        j <= h.len(),
                        weighted_pick(es, h, tick, 0, 0) == weighted_pick(es, h, tick, j as int, acc),
                        h == healthy_indices(es),
                        es == old(self).eps(),
                        self.endpoints@ == old(self).endpoints@,
                        self.name@ == old(self).name@,
                        self.lb_policy == old(self).lb_policy,
                        self.lb_policy == LbPolicy::WeightedRoundRobin,
                        self.circuit_breaker == old(self).circuit_breaker,
                        self.rr_index == next_rr,
                        next_rr == (if old(self).rr_index == usize::MAX { 0 } else { (old(self).rr_index + 1) as usize }),
                        total == weight_sum(es, h),
                        tick == ((old(self).rr_index as u32) % if total > 1 { total } else { 1 }) as u32,
                    decreases h.len() - j,
                {
                    let e = healthy[j];
                    assert(es[e as int].weight == self.endpoints@[e as int].weight);
                    acc = acc.wrapping_add(self.endpoints[e].weight);
                    if tick < acc {
                        return Some(e);
                    }
                    j = j + 1;
                }
                Some(healthy[0])
            },
        }
    }
}

// ---------------------------------------------------------------------------
// Routes, listeners and the proxy state
// ---------------------------------------------------------------------------

/// A route: requests whose path begins with `prefix` go to the cluster.
pub struct Route {
    pub prefix: String,
    pub cluster_name: String,
    pub headers_to_add: Vec<(String, String)>,
    pub headers_to_remove: Vec<String>,
    pub timeout_ms: u64,
}

/// A listener.
pub struct Listener {
    pub name: String,
    pub port: u16,
    pub routes: Vec<Route>,
    pub tls_enabled: bool,
    pub access_log: bool,
}

/// A listener as plain values: name, port, routes as `(prefix, cluster)`,
/// TLS switch.
pub struct ListenerModel {
    pub name: Seq<char>,
    pub port: u16,
    pub routes: Seq<(Seq<char>, Seq<char>)>,
    pub tls_enabled: bool,
}

impl Listener {
    pub open spec fn model(&self) -> ListenerModel {
        ListenerModel {
            name: self.name@,
            port: self.port,
            routes: self.routes@.map_values(|r: Route| (r.prefix@, r.cluster_name@)),
            tls_enabled: self.tls_enabled,
        }
    }
}

/// A cluster as plain values.
pub struct ClusterModel {
    pub name: Seq<char>,
    pub eps: Seq<EndpointModel>,
    pub lb_policy: LbPolicy,
    pub circuit_breaker: CircuitBreaker,
    pub rr_index: usize,
}

impl Cluster {
    pub open spec fn model(&self) -> ClusterModel {
        ClusterModel {
            name: self.name@,
            eps: self.eps(),
            lb_policy: self.lb_policy,
            circuit_breaker: self.circuit_breaker,
            rr_index: self.rr_index,
        }
    }
}

/// The proxy: listeners in order, clusters sorted by name (each name
/// once), the running switch and the request counters.
pub struct ProxyState {
    pub listeners: Vec<Listener>,
    pub clusters: Vec<Cluster>,
    pub running: bool,
    pub requests_total: u64,
    pub requests_success: u64,
    pub requests_failed: u64,
    pub connections_active: u32,
}

pub open spec fn listeners_view(v: Seq<Listener>) -> Seq<ListenerModel> {
    v.map_values(|l: Listener| l.model())
}

pub open spec fn clusters_view(v: Seq<Cluster>) -> Seq<ClusterModel> {
    v.map_values(|c: Cluster| c.model())
}

/// Cluster names strictly increasing.
pub open spec fn names_sorted(cs: Seq<ClusterModel>) -> bool {
    forall|i: int, j: int| 0 <= i < j < cs.len() ==> #[trigger] key_lt(cs[i].name, cs[j].name)
}

impl ProxyState {
    pub open spec fn ls(&self) -> Seq<ListenerModel> {
        listeners_view(self.listeners@)
    }

    pub open spec fn cs(&self) -> Seq<ClusterModel> {
        clusters_view(self.clusters@)
    }

    pub open spec fn wf(&self) -> bool {
        names_sorted(self.cs())
    }

    /// Stopped, with no listeners, clusters or requests.
    pub fn new() -> (s: Self)
        ensures
            s.wf(),
            s.listeners@.len() == 0 && s.clusters@.len() == 0,
            !s.running,
            s.requests_total == 0 && s.requests_success == 0 && s.requests_failed == 0 && s.connections_active == 0,
    {
        let s = ProxyState {
            listeners: Vec::new(),
            clusters: Vec::new(),
            running: false,
            requests_total: 0,
            requests_success: 0,
            requests_failed: 0,
            connections_active: 0,
        };
        assert(s.cs() =~= Seq::<ClusterModel>::empty());
        s
    }
}

/// Index of the first cluster from `j` on whose name is not below `name`.
pub open spec fn name_bound(cs: Seq<ClusterModel>, name: Seq<char>, j: int) -> int
    decreases cs.len() - j,
{
    if j < 0 || j >= cs.len() {
        cs.len() as int
    } else if !key_lt(cs[j].name, name) {
        j
    } else {
        name_bound(cs, name, j + 1)
    }
}

/// Index of the cluster named `name` (the length when none).
pub open spec fn cluster_index(cs: Seq<ClusterModel>, name: Seq<char>) -> int {
    let i = name_bound(cs, name, 0);
    if i < cs.len() && cs[i].name == name { i } else { cs.len() as int }
}

proof fn lemma_name_bound(cs: Seq<ClusterModel>, name: Seq<char>, j: int)
    requires
        0 <= j <= cs.len(),
    ensures
        j <= name_bound(cs, name, j) <= cs.len(),
        forall|i: int| j <= i < name_bound(cs, name, j) ==> key_lt(#[trigger] cs[i].name, name),
        name_bound(cs, name, j) < cs.len() ==> !key_lt(cs[name_bound(cs, name, j)].name, name),
    decreases cs.len() - j,
{
    if j < cs.len() && key_lt(cs[j].name, name) {
        lemma_name_bound(cs, name, j + 1);
    }
}

fn find_cluster(st: &ProxyState, name: &str) -> (r: usize)
    ensures
        r == name_bound(st.cs(), name@, 0),
        r <= st.clusters@.len(),
{
    proof {
        lemma_name_bound(st.cs(), name@, 0);
    }
    let n = st.clusters.len();
    let mut i: usize = 0;
    let nb = name.as_bytes();
    while i < n
        invariant
            n == st.clusters@.len(),
            n == st.cs().len(),
            i <= n,
            nb@ == vstd::utf8::encode_utf8(name@),
            name_bound(st.cs(), name@, 0) == name_bound(st.cs(), name@, i as int),
        decreases n - i,
    {
        let cb = st.clusters[i].name.as_str().as_bytes();
        assert(st.cs()[i as int].name == st.clusters@[i as int].name@);
        if !less_bytes(cb, nb) {
            return i;
        }
        i = i + 1;
    }
    n
}

fn less_bytes(a: &[u8], b: &[u8]) -> (r: bool)
    ensures
        r == bytes_lt(a@, b@),
    decreases a@.len(),
{
    if a.len() == 0 {
        return b.len() > 0;
    }
    if b.len() == 0 {
        return false;
    }
    if a[0] != b[0] {
        return a[0] < b[0];
    }
    let ra = vstd::slice::slice_subrange(a, 1, a.len());
    let rb = vstd::slice::slice_subrange(b, 1, b.len());
    assert(ra@ =~= a@.drop_first());
    assert(rb@ =~= b@.drop_first());
    less_bytes(ra, rb)
}

/// The clusters after adding `c` under its name: it replaces a cluster of
/// that name, or goes in at its place in name order.
pub open spec fn insert_cluster(cs: Seq<ClusterModel>, c: ClusterModel) -> Seq<ClusterModel> {
    let i = name_bound(cs, c.name, 0);
    if i < cs.len() && cs[i].name == c.name { cs.update(i, c) } else { cs.insert(i, c) }
}

proof fn lemma_insert_sorted(cs: Seq<ClusterModel>, c: ClusterModel)
    requires
        names_sorted(cs),
    ensures
        names_sorted(insert_cluster(cs, c)),
{
    lemma_name_bound(cs, c.name, 0);
    let i = name_bound(cs, c.name, 0);
    let t = insert_cluster(cs, c);
    if i < cs.len() {
        lemma_key_order(cs[i].name, c.name);
    }
    assert forall|a: int, b: int| 0 <= a < b < t.len() implies #[trigger] key_lt(t[a].name, t[b].name) by {
        if i < cs.len() && cs[i].name == c.name {
            assert(t[a].name == cs[a].name && t[b].name == cs[b].name);
        } else if b < i {
            assert(t[a] == cs[a] && t[b] == cs[b]);
        } else if a < i && b == i {
            assert(t[a] == cs[a]);
        } else if a < i {
            assert(t[a] == cs[a] && t[b] == cs[b - 1]);
            assert(key_lt(cs[a].name, cs[i].name));
        } else if a == i {
            assert(t[b] == cs[b - 1]);
            if b - 1 > i {
                assert(key_lt(cs[i].name, cs[b - 1].name));
                lemma_key_order(c.name, cs[i].name);
                if c.name != cs[i].name {
                    lemma_key_trans(c.name, cs[i].name, cs[b - 1].name);
                }
            } else {
                lemma_key_order(c.name, cs[i].name);
            }
        } else {
            assert(t[a] == cs[a - 1] && t[b] == cs[b - 1]);
        }
    }
}

/// A new cluster of the given name, policy and endpoints (weights as
/// given, all healthy).
pub open spec fn fresh_cluster(name: Seq<char>, eps: Seq<(Seq<char>, u32)>, policy: LbPolicy) -> ClusterModel {
    ClusterModel {
        name,
        eps: eps.map_values(|e: (Seq<char>, u32)| EndpointModel { address: e.0, weight: e.1, healthy: true,
            active_connections: 0, total_requests: 0, total_failures: 0 }),
        lb_policy: policy,
        circuit_breaker: closed_breaker(5),
        rr_index: 0,
    }
}

/// Add (or replace) a cluster with its endpoints.
pub fn add_cluster(st: &mut ProxyState, name: &str, endpoints: &[(&str, u32)], policy: LbPolicy)
    requires
        old(st).wf(),
    ensures
        final(st).wf(),
        final(st).cs() == insert_cluster(old(st).cs(), fresh_cluster(name@,
            endpoints@.map_values(|e: (&str, u32)| (e.0@, e.1)), policy)),
        final(st).listeners@ == old(st).listeners@,
        final(st).running == old(st).running,
        final(st).requests_total == old(st).requests_total,
        final(st).requests_success == old(st).requests_success,
        final(st).requests_failed == old(st).requests_failed,
        final(st).connections_active == old(st).connections_active,
{
    let mut cluster = Cluster::new(name);
    cluster.lb_policy = policy;
    let ghost want = endpoints@.map_values(|e: (&str, u32)| (e.0@, e.1));
    let mut k: usize = 0;
    assert(want.subrange(0, 0).map_values(|e: (Seq<char>, u32)| EndpointModel {
        address: e.0, weight: e.1, healthy: true, active_connections: 0, total_requests: 0, total_failures: 0 })
        =~= cluster.eps());
    while k < endpoints.len()
        invariant
            k <= endpoints@.len(),
            want == endpoints@.map_values(|e: (&str, u32)| (e.0@, e.1)),
            cluster.model() == (ClusterModel { eps: want.subrange(0, k as int).map_values(|e: (Seq<char>, u32)| EndpointModel {
                address: e.0, weight: e.1, healthy: true, active_connections: 0, total_requests: 0, total_failures: 0 }),
                ..fresh_cluster(name@, want, policy) }),
        decreases endpoints@.len() - k,
    {
        let (addr, w) = endpoints[k];
        cluster.add_endpoint(addr, w);
        k = k + 1;
        assert(want.subrange(0, k as int).map_values(|e: (Seq<char>, u32)| EndpointModel {
                address: e.0, weight: e.1, healthy: true, active_connections: 0, total_requests: 0, total_failures: 0 })
            =~= cluster.eps());
    }
    assert(want.subrange(0, want.len() as int) =~= want);
    assert(cluster.model() == fresh_cluster(name@, want, policy));
    let i = find_cluster(st, name);
    let ghost cs0 = st.cs();
    proof {
        lemma_insert_sorted(cs0, cluster.model());
    }
    let same = i < st.clusters.len() && str_eq(st.clusters[i].name.as_str(), name);
    if same {
        assert(cs0[i as int].name == st.clusters@[i as int].name@);
        let ghost before = st.clusters@;
        st.clusters.remove(i);
        st.clusters.insert(i, cluster);
        assert(st.clusters@ =~= before.update(i as int, cluster));
        assert(st.cs() =~= cs0.update(i as int, cluster.model()));
    } else {
        proof {
            if i < cs0.len() {
                assert(cs0[i as int].name == st.clusters@[i as int].name@);
            }
        }
        let ghost before = st.clusters@;
        st.clusters.insert(i, cluster);
        assert(st.cs() =~= cs0.insert(i as int, cluster.model()));
    }
}

/// Add a listener with its routes (access logging on).
pub fn add_listener(st: &mut ProxyState, name: &str, port: u16, routes: Vec<Route>, tls: bool)
    ensures
        final(st).ls() == old(st).ls().push(ListenerModel { name: name@, port,
            routes: routes@.map_values(|r: Route| (r.prefix@, r.cluster_name@)), tls_enabled: tls }),
        final(st).clusters@ == old(st).clusters@,
        final(st).running == old(st).running,
        final(st).requests_total == old(st).requests_total,
        final(st).requests_success == old(st).requests_success,
        final(st).requests_failed == old(st).requests_failed,
        final(st).connections_active == old(st).connections_active,
{
    let ghost rv = routes@.map_values(|r: Route| (r.prefix@, r.cluster_name@));
    let l = Listener { name: string_of(name), port, routes, tls_enabled: tls, access_log: true };
    assert(l.model().routes == rv);
    st.listeners.push(l);
    assert(st.ls() =~= old(st).ls().push(l.model()));
}

/// Start the proxy (nothing changes when it is running).
pub fn start(st: &mut ProxyState)
    ensures
        final(st).running,
        final(st).listeners@ == old(st).listeners@,
        final(st).clusters@ == old(st).clusters@,
        final(st).requests_total == old(st).requests_total,
        final(st).requests_success == old(st).requests_success,
        final(st).requests_failed == old(st).requests_failed,
        final(st).connections_active == old(st).connections_active,
{
    if st.running {
        return;
    }
    st.running = true;
}

/// Stop the proxy.
pub fn stop(st: &mut ProxyState)
    ensures
        !final(st).running,
        final(st).listeners@ == old(st).listeners@,
        final(st).clusters@ == old(st).clusters@,
        final(st).requests_total == old(st).requests_total,
        final(st).requests_success == old(st).requests_success,
        final(st).requests_failed == old(st).requests_failed,
        final(st).connections_active == old(st).connections_active,
{
    st.running = false;
}

// ---------------------------------------------------------------------------
// Requests
// ---------------------------------------------------------------------------

/// The cluster of the first route (from the `j`-th on) whose prefix
/// begins `path`.
pub open spec fn route_in(rs: Seq<(Seq<char>, Seq<char>)>, path: Seq<char>, j: int) -> Option<Seq<char>>
    decreases rs.len() - j,
{
    if j < 0 || j >= rs.len() {
        None
    } else if has_prefix(path, rs[j].0) {
        Some(rs[j].1)
    } else {
        route_in(rs, path, j + 1)
    }
}

/// The cluster that `path` routes to: that of the first matching route of
/// the first listener that has one.
pub open spec fn route_of(ls: Seq<ListenerModel>, path: Seq<char>, j: int) -> Option<Seq<char>>
    decreases ls.len() - j,
{
    if j < 0 || j >= ls.len() {
        None
    } else {
        match route_in(ls[j].routes, path, 0) {
            Some(c) => Some(c),
            None => route_of(ls, path, j + 1),
        }
    }
}

/// What a request does: the clusters afterwards, the status code, the
/// body, and whether it counts as a success.
pub open spec fn request_spec(cs: Seq<ClusterModel>, ls: Seq<ListenerModel>, path: Seq<char>, method: Seq<char>, now: u64)
    -> (Seq<ClusterModel>, u16, Seq<char>, bool)
{
    match route_of(ls, path, 0) {
        None => (cs, 404u16, "no route matched"@, false),
        Some(cn) => {
            let i = cluster_index(cs, cn);
            if i >= cs.len() {
                (cs, 404u16, "cluster not found"@, false)
            } else {
                let c = cs[i];
                let (b1, ok) = allow_spec(c.circuit_breaker, now);
                if !ok {
                    (cs.update(i, ClusterModel { circuit_breaker: b1, ..c }), 503u16, "circuit breaker open"@, false)
                } else {
                    let (pick, rr) = pick_spec(c.eps, c.lb_policy, c.rr_index, now);
                    match pick {
                        None => (cs.update(i, ClusterModel { circuit_breaker: b1, rr_index: rr, ..c }), 503u16,
                            "no healthy upstream"@, false),
                        Some(idx) => {
                            let e = c.eps[idx as int];
                            (cs.update(i, ClusterModel {
                                eps: c.eps.update(idx as int, EndpointModel { total_requests: wrap_inc(e.total_requests), ..e }),
                                circuit_breaker: success_spec(b1),
                                rr_index: rr,
                                ..c
                            }), 200u16, "forwarded "@ + method + " "@ + path + " → "@ + e.address, true)
                        },
                    }
                }
            }
        },
    }
}

fn route_for(st: &ProxyState, path: &str) -> (r: Option<String>)
    ensures
        match r {
            Some(c) => route_of(st.ls(), path@, 0) == Some(c@),
            None => route_of(st.ls(), path@, 0) is None,
        },
{
    let mut li: usize = 0;
    while li < st.listeners.len()
        invariant
            li <= st.listeners@.len(),
            route_of(st.ls(), path@, 0) == route_of(st.ls(), path@, li as int),
        decreases st.listeners@.len() - li,
    {
        let l = &st.listeners[li];
        let ghost rs = st.ls()[li as int].routes;
        assert(rs == l.routes@.map_values(|r: Route| (r.prefix@, r.cluster_name@)));
        let mut ri: usize = 0;
        while ri < l.routes.len()
            invariant
                ri <= l.routes@.len(),
                rs == l.routes@.map_values(|r: Route| (r.prefix@, r.cluster_name@)),
                route_in(rs, path@, 0) == route_in(rs, path@, ri as int),
                li < st.ls().len(),
                rs == st.ls()[li as int].routes,
                route_of(st.ls(), path@, 0) == route_of(st.ls(), path@, li as int),
            decreases l.routes@.len() - ri,
        {
            assert(rs[ri as int] == (l.routes@[ri as int].prefix@, l.routes@[ri as int].cluster_name@));
            if starts_with_str(path, l.routes[ri].prefix.as_str()) {
                return Some(string_of(l.routes[ri].cluster_name.as_str()));
            }
            ri = ri + 1;
        }
        li = li + 1;
    }
    None
}

/// Whether every cluster's breaker can read the clock at `now`.
pub open spec fn clocks_fit(cs: Seq<ClusterModel>, now: u64) -> bool {
    forall|i: int| 0 <= i < cs.len() ==> #[trigger] clock_fits(cs[i].circuit_breaker, now)
}

proof fn lemma_cluster_index(cs: Seq<ClusterModel>, name: Seq<char>)
    ensures
        0 <= cluster_index(cs, name) <= cs.len(),
        cluster_index(cs, name) < cs.len() ==> cs[cluster_index(cs, name)].name == name,
{
    lemma_name_bound(cs, name, 0);
}

/// Handle a request at tick `now`: route the path, check the cluster's
/// circuit breaker, pick an endpoint and forward (simulated). Every
/// request is counted, as a success or a failure.
pub fn handle_request(st: &mut ProxyState, path: &str, method: &str, now: u64) -> (r: (u16, String))
    requires
        old(st).wf(),
        clocks_fit(old(st).cs(), now),
    ensures
        final(st).wf(),
        ({
            let (cs, code, body, ok) = request_spec(old(st).cs(), old(st).ls(), path@, method@, now);
            &&& final(st).cs() == cs
            &&& r.0 == code && r.1@ == body
            &&& final(st).requests_success == if ok { wrap_inc(old(st).requests_success) } else { old(st).requests_success }
            &&& final(st).requests_failed == if ok { old(st).requests_failed } else { wrap_inc(old(st).requests_failed) }
        }),
        final(st).requests_total == wrap_inc(old(st).requests_total),
        final(st).connections_active == old(st).connections_active,
        final(st).listeners@ == old(st).listeners@,
        final(st).running == old(st).running,
{
    st.requests_total = inc_wrapping(st.requests_total);
    let ghost cs0 = st.cs();
    let result = match route_for(st, path) {
        None => {
            st.requests_failed = inc_wrapping(st.requests_failed);
            (404u16, string_of("no route matched"))
        },
        Some(cn) => {
            let i = find_cluster(st, cn.as_str());
            proof {
                lemma_name_bound(cs0, cn@, 0);
            }
            let found = i < st.clusters.len() && str_eq(st.clusters[i].name.as_str(), cn.as_str());
            proof {
                if i < cs0.len() {
                    assert(cs0[i as int].name == st.clusters@[i as int].name@);
                }
            }
            if !found {
                st.requests_failed = inc_wrapping(st.requests_failed);
                (404u16, string_of("cluster not found"))
            } else {
                assert(cluster_index(cs0, cn@) == i);
                let ghost before = st.clusters@;
                let mut c = st.clusters.remove(i);
                assert(c.model() == cs0[i as int]);
                assert(clock_fits(cs0[i as int].circuit_breaker, now));
                let res = if !c.circuit_breaker.allow_request(now) {
                    st.requests_failed = inc_wrapping(st.requests_failed);
                    (503u16, string_of("circuit breaker open"))
                } else {
                    match c.next_endpoint(now) {
                        Some(idx) => {
                            let ghost eps0 = c.eps();
                            let mut e = c.endpoints.remove(idx);
                            e.total_requests = inc_wrapping(e.total_requests);
                            let mut body = string_of("forwarded ");
                            body.append(method);
                            body.append(" ");
                            body.append(path);
                            body.append(" → ");
                            body.append(e.address.as_str());
                            let ghost eps_before = c.endpoints@;
                            c.endpoints.insert(idx, e);
                            assert(c.eps() =~= eps0.update(idx as int, e.model()));
                            c.circuit_breaker.record_success();
                            st.requests_success = inc_wrapping(st.requests_success);
                            (200u16, body)
                        },
                        None => {
                            st.requests_failed = inc_wrapping(st.requests_failed);
                            (503u16, string_of("no healthy upstream"))
                        },
                    }
                };
                st.clusters.insert(i, c);
                assert(st.clusters@ =~= before.update(i as int, c));
                assert(st.cs() =~= cs0.update(i as int, c.model()));
                proof {
                    assert forall|a: int, b: int| 0 <= a < b < st.cs().len() implies #[trigger] key_lt(st.cs()[a].name, st.cs()[b].name) by {
                        assert(st.cs()[a].name == cs0[a].name && st.cs()[b].name == cs0[b].name);
                    }
                }
                res
            }
        },
    };
    result
}

// ---------------------------------------------------------------------------
// Configuration text and shell commands
// ---------------------------------------------------------------------------

/// The pieces of `s` cut at the first `n - 1` occurrences of `c` (as
/// `str::splitn` with `n >= 1`).
pub open spec fn splitn(s: Seq<char>, n: nat, c: char) -> Seq<Seq<char>>
    decreases n,
{
    if n <= 1 {
        seq![s]
    } else {
        let p = char_pos(s, c, 0);
        if p >= s.len() {
            seq![s]
        } else {
            seq![s.subrange(0, p)] + splitn(s.subrange(p + 1, s.len() as int), (n - 1) as nat, c)
        }
    }
}

proof fn lemma_char_pos(s: Seq<char>, c: char, j: int)
    requires
        0 <= j <= s.len(),
    ensures
        j <= char_pos(s, c, j) <= s.len(),
    decreases s.len() - j,
{
    if j < s.len() && s[j] != c {
        lemma_char_pos(s, c, j + 1);
    }
}

pub fn split_n<'a>(s: &'a str, n: usize, c: char) -> (r: Vec<&'a str>)
    requires
        n >= 1,
    ensures
        r@.map_values(|w: &str| w@) == splitn(s@, n as nat, c),
    decreases n,
{
    if n <= 1 {
        let mut v: Vec<&str> = Vec::new();
        v.push(s);
        assert(v@.map_values(|w: &str| w@) =~= seq![s@]);
        return v;
    }
    let p = crate::text::first_char_pos(s, c);
    let len = s.unicode_len();
    if p >= len {
        let mut v: Vec<&str> = Vec::new();
        v.push(s);
        assert(v@.map_values(|w: &str| w@) =~= seq![s@]);
        return v;
    }
    let head = s.substring_char(0, p);
    let tail = s.substring_char(p + 1, len);
    let rest = split_n(tail, n - 1, c);
    let mut v: Vec<&str> = Vec::new();
    v.push(head);
    let mut k: usize = 0;
    while k < rest.len()
        invariant
            k <= rest@.len(),
            v@.len() == k + 1,
            v@[0]@ == head@,
            forall|i: int| 0 <= i < k ==> (#[trigger] v@[i + 1])@ == rest@[i]@,
        decreases rest@.len() - k,
    {
        v.push(rest[k]);
        k = k + 1;
    }
    let ghost lhs = v@.map_values(|w: &str| w@);
    let ghost rhs = seq![head@] + rest@.map_values(|w: &str| w@);
    assert forall|i: int| 0 <= i < lhs.len() implies #[trigger] lhs[i] == rhs[i] by {
        if i > 0 {
            assert(v@[(i - 1) + 1]@ == rest@[i - 1]@);
        }
    }
    assert(lhs =~= rhs);
    v
}

/// The listener that `route` lines and commands add routes to when there
/// is none.
pub open spec fn default_listener() -> ListenerModel {
    ListenerModel { name: "default"@, port: 8080, routes: Seq::empty(), tls_enabled: false }
}

/// The listeners after a route is added to the first one (made first when
/// there is none).
pub open spec fn with_route(ls: Seq<ListenerModel>, prefix: Seq<char>, cluster: Seq<char>) -> Seq<ListenerModel> {
    let l0 = if ls.len() == 0 { seq![default_listener()] } else { ls };
    l0.update(0, ListenerModel { routes: l0[0].routes.push((prefix, cluster)), ..l0[0] })
}

/// The weight a config `endpoint` line gives: its fourth field read as a
/// 32-bit number, 1 when it is missing or does not parse.
pub open spec fn line_weight(parts: Seq<Seq<char>>) -> u32 {
    if parts.len() >= 4 {
        match parse_uint(parts[3], u32::MAX as nat) {
            Some(w) => w as u32,
            None => 1,
        }
    } else {
        1
    }
}

/// What one configuration line does to the listeners and clusters.
pub open spec fn config_line(ls: Seq<ListenerModel>, cs: Seq<ClusterModel>, line: Seq<char>) -> (Seq<ListenerModel>, Seq<ClusterModel>) {
    let t = trimmed(line);
    let parts = splitn(t, 4, ' ');
    if t.len() == 0 || t[0] == '#' || parts.len() < 3 {
        (ls, cs)
    } else if parts[0] == "cluster"@ {
        (ls, insert_cluster(cs, fresh_cluster(parts[1], seq![(parts[2], 1u32)], LbPolicy::RoundRobin)))
    } else if parts[0] == "route"@ {
        (with_route(ls, parts[1], parts[2]), cs)
    } else if parts[0] == "endpoint"@ {
        let i = cluster_index(cs, parts[1]);
        if i < cs.len() {
            (ls, cs.update(i, ClusterModel { eps: cs[i].eps.push(EndpointModel { address: parts[2], weight: line_weight(parts),
                healthy: true, active_connections: 0, total_requests: 0, total_failures: 0 }), ..cs[i] }))
        } else {
            (ls, cs)
        }
    } else {
        (ls, cs)
    }
}

/// The configuration lines, in order.
pub open spec fn config_lines(ls: Seq<ListenerModel>, cs: Seq<ClusterModel>, lines: Seq<Seq<char>>) -> (Seq<ListenerModel>, Seq<ClusterModel>)
    decreases lines.len(),
{
    if lines.len() == 0 {
        (ls, cs)
    } else {
        let prev = config_lines(ls, cs, lines.drop_last());
        config_line(prev.0, prev.1, lines.last())
    }
}

fn push_route(st: &mut ProxyState, prefix: &str, cluster: &str)
    requires
        old(st).wf(),
    ensures
        final(st).wf(),
        final(st).ls() == with_route(old(st).ls(), prefix@, cluster@),
        final(st).clusters@ == old(st).clusters@,
        final(st).running == old(st).running,
        final(st).requests_total == old(st).requests_total,
        final(st).requests_success == old(st).requests_success,
        final(st).requests_failed == old(st).requests_failed,
        final(st).connections_active == old(st).connections_active,
{
    if st.listeners.len() == 0 {
        let l = Listener { name: string_of("default"), port: 8080, routes: Vec::new(), tls_enabled: false, access_log: true };
        assert(l.model().routes =~= Seq::<(Seq<char>, Seq<char>)>::empty());
        st.listeners.push(l);
        assert(st.ls() =~= seq![default_listener()]);
    }
    let ghost l0 = st.ls();
    let mut l = st.listeners.remove(0);
    let ghost r0 = l.model().routes;
    l.routes.push(Route {
        prefix: string_of(prefix),
        cluster_name: string_of(cluster),
        headers_to_add: Vec::new(),
        headers_to_remove: Vec::new(),
        timeout_ms: 30000,
    });
    assert(l.model().routes =~= r0.push((prefix@, cluster@)));
    st.listeners.insert(0, l);
    assert(st.ls() =~= l0.update(0, l.model()));
}

fn add_endpoint_to(st: &mut ProxyState, name: &str, address: &str, weight: u32)
    requires
        old(st).wf(),
    ensures
        final(st).wf(),
        ({
            let cs = old(st).cs();
            let i = cluster_index(cs, name@);
            final(st).cs() == if i < cs.len() {
                cs.update(i, ClusterModel { eps: cs[i].eps.push(EndpointModel { address: address@, weight,
                    healthy: true, active_connections: 0, total_requests: 0, total_failures: 0 }), ..cs[i] })
            } else {
                cs
            }
        }),
        final(st).listeners@ == old(st).listeners@,
        final(st).running == old(st).running,
        final(st).requests_total == old(st).requests_total,
        final(st).requests_success == old(st).requests_success,
        final(st).requests_failed == old(st).requests_failed,
        final(st).connections_active == old(st).connections_active,
{
    let ghost cs0 = st.cs();
    let i = find_cluster(st, name);
    proof {
        lemma_name_bound(cs0, name@, 0);
        if i < cs0.len() {
            assert(cs0[i as int].name == st.clusters@[i as int].name@);
        }
    }
    if i < st.clusters.len() && str_eq(st.clusters[i].name.as_str(), name) {
        let ghost before = st.clusters@;
        let mut c = st.clusters.remove(i);
        c.add_endpoint(address, weight);
        st.clusters.insert(i, c);
        assert(st.clusters@ =~= before.update(i as int, c));
        assert(st.cs() =~= cs0.update(i as int, c.model()));
        assert forall|a: int, b: int| 0 <= a < b < st.cs().len() implies #[trigger] key_lt(st.cs()[a].name, st.cs()[b].name) by {
            assert(st.cs()[a].name == cs0[a].name && st.cs()[b].name == cs0[b].name);
        }
    }
}

fn apply_config_line(st: &mut ProxyState, line: &str)
    requires
        old(st).wf(),
    ensures
        final(st).wf(),
        (final(st).ls(), final(st).cs()) == config_line(old(st).ls(), old(st).cs(), line@),
        final(st).running == old(st).running,
        final(st).requests_total == old(st).requests_total,
        final(st).requests_success == old(st).requests_success,
        final(st).requests_failed == old(st).requests_failed,
        final(st).connections_active == old(st).connections_active,
{
    let t = trim_str(line);
    let parts = split_n(t, 4, ' ');
    let ghost pv = parts@.map_values(|w: &str| w@);
    assert(pv.len() == parts@.len());
    if t.unicode_len() == 0 || t.get_char(0) == '#' || parts.len() < 3 {
        return;
    }
    assert(pv[0] == parts[0]@ && pv[1] == parts[1]@ && pv[2] == parts[2]@);
    if str_eq(parts[0], "cluster") {
        let mut eps: Vec<(&str, u32)> = Vec::new();
        eps.push((parts[2], 1u32));
        assert(eps@.map_values(|e: (&str, u32)| (e.0@, e.1)) =~= seq![(parts[2]@, 1u32)]);
        add_cluster(st, parts[1], eps.as_slice(), LbPolicy::RoundRobin);
    } else if str_eq(parts[0], "route") {
        push_route(st, parts[1], parts[2]);
    } else if str_eq(parts[0], "endpoint") {
        let w: u32 = if parts.len() >= 4 {
            assert(pv[3] == parts[3]@);
            match parse_u64_max(parts[3], 4294967295u64) {
                Some(v) => v as u32,
                None => 1,
            }
        } else {
            1
        };
        assert(w == line_weight(pv));
        add_endpoint_to(st, parts[1], parts[2], w);
    }
}

/// Load a configuration text: `cluster <name> <address>` adds (or
/// replaces) a round-robin cluster with one endpoint, `route <prefix>
/// <cluster>` adds a route to the first listener (a default one on port
/// 8080 is made when there is none), `endpoint <cluster> <address>
/// [weight]` adds an endpoint to an existing cluster; blank lines, `#`
/// comments and anything else are skipped. Always `Ok`.
pub fn load_config(st: &mut ProxyState, config: &str) -> (r: Result<(), &'static str>)
    requires
        old(st).wf(),
    ensures
        r is Ok,
        final(st).wf(),
        (final(st).ls(), final(st).cs()) == config_lines(old(st).ls(), old(st).cs(), pieces(config@, '\n')),
        final(st).running == old(st).running,
        final(st).requests_total == old(st).requests_total,
        final(st).requests_success == old(st).requests_success,
        final(st).requests_failed == old(st).requests_failed,
        final(st).connections_active == old(st).connections_active,
{
    let lines = split_char(config, '\n');
    let ghost lv = lines@.map_values(|w: String| w@);
    let mut k: usize = 0;
    while k < lines.len()
        invariant
            st.wf(),
            lv == lines@.map_values(|w: String| w@),
            lv == pieces(config@, '\n'),
            k <= lines@.len(),
            (st.ls(), st.cs()) == config_lines(old(st).ls(), old(st).cs(), lv.subrange(0, k as int)),
            st.running == old(st).running,
            st.requests_total == old(st).requests_total,
            st.requests_success == old(st).requests_success,
            st.requests_failed == old(st).requests_failed,
            st.connections_active == old(st).connections_active,
        decreases lines@.len() - k,
    {
        let ghost pre = lv.subrange(0, k + 1);
        assert(pre.drop_last() =~= lv.subrange(0, k as int));
        assert(pre.last() == lines@[k as int]@);
        apply_config_line(st, lines[k].as_str());
        k = k + 1;
    }
    assert(lv.subrange(0, lv.len() as int) =~= lv);
    Ok(())
}

// ---------------------------------------------------------------------------
// Reports
// ---------------------------------------------------------------------------

pub open spec fn bool_text(b: bool) -> Seq<char> {
    if b { "true"@ } else { "false"@ }
}

pub open spec fn policy_text(p: LbPolicy) -> Seq<char> {
    match p {
        LbPolicy::RoundRobin => "RoundRobin"@,
        LbPolicy::LeastConnections => "LeastConnections"@,
        LbPolicy::Random => "Random"@,
        LbPolicy::WeightedRoundRobin => "WeightedRoundRobin"@,
    }
}

pub open spec fn circuit_text(s: CircuitState) -> Seq<char> {
    match s {
        CircuitState::Closed => "Closed"@,
        CircuitState::Open => "Open"@,
        CircuitState::HalfOpen => "HalfOpen"@,
    }
}

/// One report line per route.
pub open spec fn routes_text(rs: Seq<(Seq<char>, Seq<char>)>) -> Seq<char>
    decreases rs.len(),
{
    if rs.len() == 0 {
        Seq::empty()
    } else {
        routes_text(rs.drop_last()) + "  "@ + rs.last().0 + " → "@ + rs.last().1 + "\n"@
    }
}

pub open spec fn listener_text(l: ListenerModel) -> Seq<char> {
    "Listener '"@ + l.name + "' :"@ + dec(l.port as nat) + " (tls="@ + bool_text(l.tls_enabled) + ", "@
        + dec(l.routes.len()) + " routes)\n"@ + routes_text(l.routes)
}

pub open spec fn listeners_text(ls: Seq<ListenerModel>) -> Seq<char>
    decreases ls.len(),
{
    if ls.len() == 0 { Seq::empty() } else { listeners_text(ls.drop_last()) + listener_text(ls.last()) }
}

pub open spec fn endpoint_text(e: EndpointModel) -> Seq<char> {
    "  "@ + e.address + " w="@ + dec(e.weight as nat) + " healthy="@ + bool_text(e.healthy) + " conns="@
        + dec(e.active_connections as nat) + " reqs="@ + dec(e.total_requests as nat) + "\n"@
}

pub open spec fn endpoints_text(es: Seq<EndpointModel>) -> Seq<char>
    decreases es.len(),
{
    if es.len() == 0 { Seq::empty() } else { endpoints_text(es.drop_last()) + endpoint_text(es.last()) }
}

pub open spec fn cluster_text(c: ClusterModel) -> Seq<char> {
    "\nCluster '"@ + c.name + "' ("@ + policy_text(c.lb_policy) + ", "@ + dec(c.eps.len()) + " endpoints, circuit="@
        + circuit_text(c.circuit_breaker.state) + ")\n"@ + endpoints_text(c.eps)
}

pub open spec fn clusters_text(cs: Seq<ClusterModel>) -> Seq<char>
    decreases cs.len(),
{
    if cs.len() == 0 { Seq::empty() } else { clusters_text(cs.drop_last()) + cluster_text(cs.last()) }
}

/// The status report: a summary, then each listener with its routes,
/// then each cluster (by name) with its endpoints.
pub open spec fn info_text(running: bool, ls: Seq<ListenerModel>, cs: Seq<ClusterModel>, conns: u32) -> Seq<char> {
    "MerlionProxy (Envoy-compatible L7 proxy)\nStatus:      "@ + (if running { "RUNNING"@ } else { "STOPPED"@ })
        + "\nListeners:   "@ + dec(ls.len()) + "\nClusters:    "@ + dec(cs.len()) + "\nConnections: "@
        + dec(conns as nat) + "\n\n"@ + listeners_text(ls) + clusters_text(cs)
}

/// The request counters report.
pub open spec fn stats_text(total: u64, success: u64, failed: u64, conns: u32) -> Seq<char> {
    "MerlionProxy Statistics:\nTotal requests:  "@ + dec(total as nat) + "\nSuccessful:      "@ + dec(success as nat)
        + "\nFailed:          "@ + dec(failed as nat) + "\nActive conns:    "@ + dec(conns as nat) + "\n"@
}

fn push_bool(out: &mut String, b: bool)
    ensures
        final(out)@ == old(out)@ + bool_text(b),
{
    if b { out.append("true"); } else { out.append("false"); }
}

fn push_listener(out: &mut String, l: &Listener)
    ensures
        final(out)@ == old(out)@ + listener_text(l.model()),
{
    let ghost rs = l.model().routes;
    out.append("Listener '");
    out.append(l.name.as_str());
    out.append("' :");
    push_dec(out, l.port as u64);
    out.append(" (tls=");
    push_bool(out, l.tls_enabled);
    out.append(", ");
    push_dec(out, l.routes.len() as u64);
    out.append(" routes)\n");
    let ghost head = out@;
    let mut k: usize = 0;
    while k < l.routes.len()
        invariant
            k <= l.routes@.len(),
            rs == l.routes@.map_values(|r: Route| (r.prefix@, r.cluster_name@)),
            out@ == head + routes_text(rs.subrange(0, k as int)),
        decreases l.routes@.len() - k,
    {
        let ghost pre = rs.subrange(0, k + 1);
        assert(pre.drop_last() =~= rs.subrange(0, k as int));
        assert(pre.last() == (l.routes@[k as int].prefix@, l.routes@[k as int].cluster_name@));
        out.append("  ");
        out.append(l.routes[k].prefix.as_str());
        out.append(" → ");
        out.append(l.routes[k].cluster_name.as_str());
        out.append("\n");
        k = k + 1;
    }
    assert(rs.subrange(0, rs.len() as int) =~= rs);
}

fn push_policy(out: &mut String, p: LbPolicy)
    ensures
        final(out)@ == old(out)@ + policy_text(p),
{
    match p {
        LbPolicy::RoundRobin => out.append("RoundRobin"),
        LbPolicy::LeastConnections => out.append("LeastConnections"),
        LbPolicy::Random => out.append("Random"),
        LbPolicy::WeightedRoundRobin => out.append("WeightedRoundRobin"),
    }
}

fn push_circuit(out: &mut String, s: CircuitState)
    ensures
        final(out)@ == old(out)@ + circuit_text(s),
{
    match s {
        CircuitState::Closed => out.append("Closed"),
        CircuitState::Open => out.append("Open"),
        CircuitState::HalfOpen => out.append("HalfOpen"),
    }
}

fn push_endpoint(out: &mut String, e: &Endpoint)
    ensures
        final(out)@ == old(out)@ + endpoint_text(e.model()),
{
    out.append("  ");
    out.append(e.address.as_str());
    out.append(" w=");
    push_dec(out, e.weight as u64);
    out.append(" healthy=");
    push_bool(out, e.healthy);
    out.append(" conns=");
    push_dec(out, e.active_connections as u64);
    out.append(" reqs=");
    push_dec(out, e.total_requests);
    out.append("\n");
}

fn push_cluster(out: &mut String, c: &Cluster)
    ensures
        final(out)@ == old(out)@ + cluster_text(c.model()),
{
    let ghost es = c.eps();
    out.append("\nCluster '");
    out.append(c.name.as_str());
    out.append("' (");
    push_policy(out, c.lb_policy);
    out.append(", ");
    push_dec(out, c.endpoints.len() as u64);
    out.append(" endpoints, circuit=");
    push_circuit(out, c.circuit_breaker.state);
    out.append(")\n");
    let ghost head = out@;
    let mut k: usize = 0;
    while k < c.endpoints.len()
        invariant
            k <= c.endpoints@.len(),
            es == c.eps(),
            es.len() == c.endpoints@.len(),
            out@ == head + endpoints_text(es.subrange(0, k as int)),
        decreases c.endpoints@.len() - k,
    {
        let ghost pre = es.subrange(0, k + 1);
        assert(pre.drop_last() =~= es.subrange(0, k as int));
        assert(pre.last() == c.endpoints@[k as int].model());
        push_endpoint(out, &c.endpoints[k]);
        k = k + 1;
    }
    assert(es.subrange(0, es.len() as int) =~= es);
}

/// The status report (`proxy status`).
pub fn info(st: &ProxyState) -> (r: String)
    ensures
        r@ == info_text(st.running, st.ls(), st.cs(), st.connections_active),
{
    let mut out = string_of("MerlionProxy (Envoy-compatible L7 proxy)\nStatus:      ");
    if st.running { out.append("RUNNING"); } else { out.append("STOPPED"); }
    out.append("\nListeners:   ");
    push_dec(&mut out, st.listeners.len() as u64);
    out.append("\nClusters:    ");
    push_dec(&mut out, st.clusters.len() as u64);
    out.append("\nConnections: ");
    push_dec(&mut out, st.connections_active as u64);
    out.append("\n\n");
    let ghost ls = st.ls();
    let ghost cs = st.cs();
    let ghost head = out@;
    let mut k: usize = 0;
    while k < st.listeners.len()
        invariant
            k <= st.listeners@.len(),
            ls == st.ls(),
            out@ == head + listeners_text(ls.subrange(0, k as int)),
        decreases st.listeners@.len() - k,
    {
        let ghost pre = ls.subrange(0, k + 1);
        assert(pre.drop_last() =~= ls.subrange(0, k as int));
        assert(pre.last() == st.listeners@[k as int].model());
        push_listener(&mut out, &st.listeners[k]);
        k = k + 1;
    }
    assert(ls.subrange(0, ls.len() as int) =~= ls);
    let ghost mid = out@;
    let mut k: usize = 0;
    while k < st.clusters.len()
        invariant
            k <= st.clusters@.len(),
            cs == st.cs(),
            out@ == mid + clusters_text(cs.subrange(0, k as int)),
        decreases st.clusters@.len() - k,
    {
        let ghost pre = cs.subrange(0, k + 1);
        assert(pre.drop_last() =~= cs.subrange(0, k as int));
        assert(pre.last() == st.clusters@[k as int].model());
        push_cluster(&mut out, &st.clusters[k]);
        k = k + 1;
    }
    assert(cs.subrange(0, cs.len() as int) =~= cs);
    out
}

/// The counters report (`proxy stats`).
pub fn stats(st: &ProxyState) -> (r: String)
    ensures
        r@ == stats_text(st.requests_total, st.requests_success, st.requests_failed, st.connections_active),
{
    let mut out = string_of("MerlionProxy Statistics:\nTotal requests:  ");
    push_dec(&mut out, st.requests_total);
    out.append("\nSuccessful:      ");
    push_dec(&mut out, st.requests_success);
    out.append("\nFailed:          ");
    push_dec(&mut out, st.requests_failed);
    out.append("\nActive conns:    ");
    push_dec(&mut out, st.connections_active as u64);
    out.append("\n");
    out
}

// ---------------------------------------------------------------------------
// Shell commands
// ---------------------------------------------------------------------------

/// What a shell command asks of its caller: a reply to print, or a
/// configuration file to read and hand to `config_result`.
pub enum ProxyStep {
    Reply(String),
    ReadConfig(String),
}

impl ProxyStep {
    pub open spec fn reply(&self) -> Option<Seq<char>> {
        match self {
            ProxyStep::Reply(s) => Some(s@),
            ProxyStep::ReadConfig(_) => None,
        }
    }

    pub open spec fn file(&self) -> Option<Seq<char>> {
        match self {
            ProxyStep::ReadConfig(p) => Some(p@),
            ProxyStep::Reply(_) => None,
        }
    }
}

pub(crate) proof fn lemma_splitn_len(s: Seq<char>, n: nat, c: char)
    requires
        n >= 1,
    ensures
        1 <= splitn(s, n, c).len() <= n,
    decreases n,
{
    if n > 1 {
        let p = char_pos(s, c, 0);
        if p < s.len() {
            lemma_char_pos(s, c, 0);
            lemma_splitn_len(s.subrange(p + 1, s.len() as int), (n - 1) as nat, c);
        }
    }
}

/// The same counters and running switch.
pub open spec fn same_counters(a: ProxyState, b: ProxyState) -> bool {
    &&& a.running == b.running
    &&& a.requests_total == b.requests_total
    &&& a.requests_success == b.requests_success
    &&& a.requests_failed == b.requests_failed
    &&& a.connections_active == b.connections_active
}

/// The path `proxy test` requests: its argument, `/` without one.
pub open spec fn test_path(p: Seq<Seq<char>>) -> Seq<char> {
    if p.len() >= 2 { p[1] } else { "/"@ }
}

/// What `proxy <args>` does at tick `now`; the first word picks the
/// command.
pub open spec fn command_spec(o: ProxyState, f: ProxyState, args: Seq<char>, now: u64, r: ProxyStep) -> bool {
    let p = splitn(args, 3, ' ');
    let cmd = p[0];
    if cmd == "start"@ {
        &&& r.reply() == Some("MerlionProxy started"@)
        &&& f.running
        &&& f.listeners@ == o.listeners@ && f.clusters@ == o.clusters@
        &&& same_counters(f, ProxyState { running: true, ..o })
    } else if cmd == "stop"@ {
        &&& r.reply() == Some("MerlionProxy stopped"@)
        &&& !f.running
        &&& f.listeners@ == o.listeners@ && f.clusters@ == o.clusters@
        &&& same_counters(f, ProxyState { running: false, ..o })
    } else if cmd == "status"@ {
        r.reply() == Some(info_text(o.running, o.ls(), o.cs(), o.connections_active)) && f == o
    } else if cmd == "stats"@ {
        r.reply() == Some(stats_text(o.requests_total, o.requests_success, o.requests_failed, o.connections_active))
            && f == o
    } else if cmd == "config"@ {
        &&& f == o
        &&& if p.len() >= 2 { r.file() == Some(p[1]) } else { r.reply() == Some("Usage: proxy config <file>"@) }
    } else if cmd == "test"@ {
        let (cs, code, body, ok) = request_spec(o.cs(), o.ls(), test_path(p), "GET"@, now);
        &&& r.reply() == Some("HTTP "@ + dec(code as nat) + " — "@ + body)
        &&& f.cs() == cs
        &&& f.listeners@ == o.listeners@ && f.running == o.running
        &&& f.requests_total == wrap_inc(o.requests_total)
        &&& f.requests_success == if ok { wrap_inc(o.requests_success) } else { o.requests_success }
        &&& f.requests_failed == if ok { o.requests_failed } else { wrap_inc(o.requests_failed) }
        &&& f.connections_active == o.connections_active
    } else if cmd == "cluster"@ {
        if p.len() >= 3 {
            &&& r.reply() == Some("Cluster '"@ + p[1] + "' → "@ + p[2])
            &&& f.cs() == insert_cluster(o.cs(), fresh_cluster(p[1], seq![(p[2], 1u32)], LbPolicy::RoundRobin))
            &&& f.listeners@ == o.listeners@
            &&& same_counters(f, o)
        } else {
            r.reply() == Some("Usage: proxy cluster <name> <endpoint>"@) && f == o
        }
    } else if cmd == "route"@ {
        if p.len() >= 3 {
            &&& r.reply() == Some("Route "@ + p[1] + " → cluster "@ + p[2])
            &&& f.ls() == with_route(o.ls(), p[1], p[2])
            &&& f.clusters@ == o.clusters@
            &&& same_counters(f, o)
        } else {
            r.reply() == Some("Usage: proxy route <prefix> <cluster>"@) && f == o
        }
    } else {
        r.reply() == Some("Unknown proxy command: "@ + cmd) && f == o
    }
}

fn reply(s: String) -> (r: ProxyStep)
    ensures
        r.reply() == Some(s@),
{
    ProxyStep::Reply(s)
}

fn reply_str(s: &str) -> (r: ProxyStep)
    ensures
        r.reply() == Some(s@),
{
    ProxyStep::Reply(string_of(s))
}

/// The `proxy` shell command at tick `now` (see `command_spec`). For
/// `config <file>` it asks for the file's text instead of replying.
pub fn handle_command(st: &mut ProxyState, args: &str, now: u64) -> (r: ProxyStep)
    requires
        old(st).wf(),
        splitn(args@, 3, ' ')[0] == "test"@ ==> clocks_fit(old(st).cs(), now),
    ensures
        final(st).wf(),
        command_spec(*old(st), *final(st), args@, now, r),
{
    let parts = split_n(args, 3, ' ');
    let ghost pv = parts@.map_values(|w: &str| w@);
    proof {
        lemma_splitn_len(args@, 3, ' ');
    }
    assert(pv[0] == parts[0]@);
    let cmd = parts[0];
    if str_eq(cmd, "start") {
        start(st);
        reply_str("MerlionProxy started")
    } else if str_eq(cmd, "stop") {
        stop(st);
        reply_str("MerlionProxy stopped")
    } else if str_eq(cmd, "status") {
        reply(info(st))
    } else if str_eq(cmd, "stats") {
        reply(stats(st))
    } else if str_eq(cmd, "config") {
        if parts.len() >= 2 {
            assert(pv[1] == parts[1]@);
            ProxyStep::ReadConfig(string_of(parts[1]))
        } else {
            reply_str("Usage: proxy config <file>")
        }
    } else if str_eq(cmd, "test") {
        let path: &str = if parts.len() >= 2 {
            assert(pv[1] == parts[1]@);
            parts[1]
        } else {
            "/"
        };
        assert(path@ == test_path(pv));
        let (code, body) = handle_request(st, path, "GET", now);
        let mut out = string_of("HTTP ");
        push_dec(&mut out, code as u64);
        out.append(" — ");
        out.append(body.as_str());
        reply(out)
    } else if str_eq(cmd, "cluster") {
        if parts.len() >= 3 {
            assert(pv[1] == parts[1]@ && pv[2] == parts[2]@);
            let mut eps: Vec<(&str, u32)> = Vec::new();
            eps.push((parts[2], 1u32));
            assert(eps@.map_values(|e: (&str, u32)| (e.0@, e.1)) =~= seq![(parts[2]@, 1u32)]);
            add_cluster(st, parts[1], eps.as_slice(), LbPolicy::RoundRobin);
            let mut out = string_of("Cluster '");
            out.append(parts[1]);
            out.append("' → ");
            out.append(parts[2]);
            reply(out)
        } else {
            reply_str("Usage: proxy cluster <name> <endpoint>")
        }
    } else if str_eq(cmd, "route") {
        if parts.len() >= 3 {
            assert(pv[1] == parts[1]@ && pv[2] == parts[2]@);
            push_route(st, parts[1], parts[2]);
            let mut out = string_of("Route ");
            out.append(parts[1]);
            out.append(" → cluster ");
            out.append(parts[2]);
            reply(out)
        } else {
            reply_str("Usage: proxy route <prefix> <cluster>")
        }
    } else {
        let mut out = string_of("Unknown proxy command: ");
        out.append(cmd);
        reply(out)
    }
}

/// The reply to `proxy config <path>` once the file was read (`Ok` with
/// its text) or could not be (`Err` with the reason): the text is loaded
/// as `load_config` does.
pub fn config_result(st: &mut ProxyState, path: &str, file: Result<&str, &str>) -> (r: String)
    requires
        old(st).wf(),
    ensures
        final(st).wf(),
        match file {
            Ok(text) => {
                &&& r@ == "Configuration loaded from "@ + path@
                &&& (final(st).ls(), final(st).cs()) == config_lines(old(st).ls(), old(st).cs(), pieces(text@, '\n'))
                &&& same_counters(*final(st), *old(st))
            },
            Err(e) => r@ == "Cannot read "@ + path@ + ": "@ + e@ && *final(st) == *old(st),
        },
{
    match file {
        Ok(text) => match load_config(st, text) {
            Ok(()) => {
                let mut out = string_of("Configuration loaded from ");
                out.append(path);
                out
            },
            Err(e) => {
                let mut out = string_of("Config error: ");
                out.append(e);
                out
            },
        },
        Err(e) => {
            let mut out = string_of("Cannot read ");
            out.append(path);
            out.append(": ");
            out.append(e);
            out
        },
    }
}

// ---------------------------------------------------------------------------
// Laws
// ---------------------------------------------------------------------------

/// The breaker after `n` failures in a row at tick `now`.
pub open spec fn after_failures(b: CircuitBreaker, n: nat, now: u64) -> CircuitBreaker
    decreases n,
{
    if n == 0 { b } else { failure_spec(after_failures(b, (n - 1) as nat, now), now) }
}

proof fn lemma_after_failures(t: u32, k: nat, now: u64)
    requires
        1 <= k <= t,
    ensures
        after_failures(closed_breaker(t), k, now).failure_count == k,
        after_failures(closed_breaker(t), k, now).threshold == t,
        after_failures(closed_breaker(t), k, now).state == if k < t { CircuitState::Closed } else { CircuitState::Open },
    decreases k,
{
    if k > 1 {
        lemma_after_failures(t, (k - 1) as nat, now);
    } else {
        assert(after_failures(closed_breaker(t), 0, now) == closed_breaker(t));
    }
}

/// A new breaker stays closed through fewer than `threshold` failures in a
/// row and opens at the `threshold`-th.
pub proof fn law_breaker_opens_at_threshold(t: u32, k: nat, now: u64)
    requires
        t >= 1,
        k <= t,
    ensures
        k < t ==> after_failures(closed_breaker(t), k, now).state == CircuitState::Closed,
        k == t ==> after_failures(closed_breaker(t), k, now).state == CircuitState::Open,
{
    if k >= 1 {
        lemma_after_failures(t, k, now);
    }
}

/// An open breaker refuses requests, unchanged, until its recovery time has
/// passed since the last failure; then it lets one through and turns
/// half-open, and a success there closes it with no failures counted.
pub proof fn law_breaker_recovery(b: CircuitBreaker, now: u64)
    requires
        b.state == CircuitState::Open,
        clock_fits(b, now),
    ensures
        (now - b.last_failure_tick) * 1000 / 100 < b.recovery_time_ms ==> allow_spec(b, now) == (b, false),
        (now - b.last_failure_tick) * 1000 / 100 >= b.recovery_time_ms ==> {
            let (b1, ok) = allow_spec(b, now);
            &&& ok && b1.state == CircuitState::HalfOpen
            &&& success_spec(b1).state == CircuitState::Closed
            &&& success_spec(b1).failure_count == 0
        },
{
}

proof fn lemma_all_healthy(es: Seq<EndpointModel>)
    requires
        es.len() <= usize::MAX,
        forall|i: int| 0 <= i < es.len() ==> #[trigger] es[i].healthy,
    ensures
        healthy_indices(es).len() == es.len(),
        forall|i: int| 0 <= i < es.len() ==> #[trigger] healthy_indices(es)[i] == i,
    decreases es.len(),
{
    if es.len() > 0 {
        let d = es.drop_last();
        assert forall|i: int| 0 <= i < d.len() implies #[trigger] d[i].healthy by {
            assert(d[i] == es[i]);
        }
        lemma_all_healthy(d);
        assert(es.last() == es[es.len() - 1]);
    }
}

/// With every endpoint healthy, round-robin picks endpoint `rr mod n` and
/// moves on by one, so successive requests visit the endpoints in turn.
pub proof fn law_round_robin_cycles(es: Seq<EndpointModel>, rr: usize, now: u64)
    requires
        0 < es.len() <= usize::MAX,
        forall|i: int| 0 <= i < es.len() ==> #[trigger] es[i].healthy,
    ensures
        pick_spec(es, LbPolicy::RoundRobin, rr, now)
            == (Some((rr as nat % es.len()) as usize), if rr == usize::MAX { 0usize } else { (rr + 1) as usize }),
{
    lemma_all_healthy(es);
    let k = (rr as nat % es.len()) as int;
    assert(healthy_indices(es)[k] == k);
}

proof fn lemma_route_in_push(rs: Seq<(Seq<char>, Seq<char>)>, x: (Seq<char>, Seq<char>), path: Seq<char>, j: int)
    requires
        0 <= j <= rs.len(),
        route_in(rs, path, j) is None,
        has_prefix(path, x.0),
    ensures
        route_in(rs.push(x), path, j) == Some(x.1),
    decreases rs.len() - j,
{
    if j < rs.len() {
        assert(rs.push(x)[j] == rs[j]);
        lemma_route_in_push(rs, x, path, j + 1);
    } else {
        assert(rs.push(x)[j] == x);
    }
}

/// A route added (by `proxy route` or a `route` line) takes the paths it
/// prefixes that no route before it takes.
pub proof fn law_added_route_is_used(ls: Seq<ListenerModel>, prefix: Seq<char>, cluster: Seq<char>, path: Seq<char>)
    requires
        route_of(ls, path, 0) is None,
        has_prefix(path, prefix),
    ensures
        route_of(with_route(ls, prefix, cluster), path, 0) == Some(cluster),
{
    let l0 = if ls.len() == 0 { seq![default_listener()] } else { ls };
    assert(route_in(l0[0].routes, path, 0) is None);
    lemma_route_in_push(l0[0].routes, (prefix, cluster), path, 0);
}

proof fn lemma_name_bound_at(cs: Seq<ClusterModel>, name: Seq<char>, j: int, p: int)
    requires
        0 <= j <= p < cs.len(),
        forall|a: int| j <= a < p ==> key_lt(#[trigger] cs[a].name, name),
        !key_lt(cs[p].name, name),
    ensures
        name_bound(cs, name, j) == p,
    decreases p - j,
{
    if j < p {
        lemma_name_bound_at(cs, name, j + 1, p);
    }
}

/// A cluster added under a name is the one that name finds afterwards, and
/// the clusters stay sorted by name.
pub proof fn law_add_cluster_then_find(cs: Seq<ClusterModel>, c: ClusterModel)
    requires
        names_sorted(cs),
    ensures
        names_sorted(insert_cluster(cs, c)),
        0 <= cluster_index(insert_cluster(cs, c), c.name) < insert_cluster(cs, c).len(),
        insert_cluster(cs, c)[cluster_index(insert_cluster(cs, c), c.name)] == c,
{
    lemma_insert_sorted(cs, c);
    lemma_name_bound(cs, c.name, 0);
    let t = insert_cluster(cs, c);
    let p = name_bound(cs, c.name, 0);
    assert(t[p] == c);
    lemma_key_order(c.name, c.name);
    assert forall|a: int| 0 <= a < p implies key_lt(#[trigger] t[a].name, c.name) by {
        assert(key_lt(t[a].name, t[p].name));
    }
    lemma_name_bound_at(t, c.name, 0, p);
}

} // verus!
