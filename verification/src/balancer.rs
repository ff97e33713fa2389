//! The load balancer: selection algorithms, the proxy-session decision
//! steps, and the health-check eviction rule.
//!
//! All network I/O — accepting clients, connecting to backends, relaying
//! bytes, probing — belongs to the surrounding application. It drives a
//! session through [`LoadBalancer::begin_session`] and the teardown steps,
//! and feeds probe outcomes to [`LoadBalancer::apply_probe_results`].

use vstd::arithmetic::div_mod::{
    lemma_add_mod_noop,
    lemma_mod_add_multiples_vanish,
    lemma_mod_bound,
    lemma_mod_equivalence,
    lemma_small_mod,
};
use rand::Rng;
use vstd::prelude::*;
use vstd::string::StringExecFns;

use crate::accounting::ConnectionAccounting;
use crate::addr::Addr;
use crate::errors::LoadBalancerError;
use crate::pool::{pool_acquire_step, pool_release_step, ConnectionPool};
use crate::registry::ServerRegistry;

verus! {

/// The available load-balancing algorithms, fixed for the process lifetime.
#[derive(Debug, Clone, Copy, PartialEq, Eq, Structural)]
pub enum LoadBalancingAlgorithm {
    RoundRobin,
    Random,
    LeastConnection,
}

/// The outcome of starting one proxy session.
pub enum SessionStart {
    /// The registry was empty. A normal operating condition, not a fault:
    /// the session ends quietly and nothing was changed.
    NoBackend,
    /// A backend was chosen and its accounting already incremented. `pooled`
    /// carries an idle pooled connection if one was available; with `None`
    /// the caller must establish a fresh connection, and on failure report
    /// back through [`LoadBalancer::connect_failed`].
    Assigned { addr: Addr, pooled: Option<u64> },
}

/// Relies on rand::thread_rng and rand::Rng::gen_range: a draw from the
/// nonempty range `0..n` lies below `n`. Nothing more is assumed of the
/// draw.
#[verifier::external_body]
fn random_below(n: usize) -> (r: usize)
    requires
        n > 0,
    ensures
        r < n,
{
    rand::thread_rng().gen_range(0..n)
}

/// The address a round-robin step picks over `addrs` with cursor `cur`:
/// the cursor is reduced modulo the current backend count on every call, so
/// a registry that shrank between calls can never be indexed out of range.
pub open spec fn rr_pick(addrs: Seq<Addr>, cur: nat) -> Addr {
    addrs[(cur % addrs.len()) as int]
}

/// How one round-robin selection relates the cursor before (`cur`) and after
/// (`cur2`) to its result.
pub open spec fn rr_step(addrs: Seq<Addr>, cur: nat, r: Option<Addr>, cur2: nat) -> bool {
    if addrs.len() == 0 {
        r is None && cur2 == cur
    } else {
        r == Some(rr_pick(addrs, cur)) && cur2 == (cur + 1) % addrs.len()
    }
}

/// The position selected by the `i`-th of a run of round-robin calls that
/// starts at cursor `cur` over a fixed count of `n` backends.
pub open spec fn rr_index(cur: nat, n: nat, i: nat) -> int {
    ((cur + i) % n) as int
}

/// Which call of a round-robin cycle starting at cursor `cur` reaches
/// position `k` of `n` backends.
pub open spec fn rr_offset_to(cur: nat, n: nat, k: int) -> nat {
    if k >= cur % n {
        (k - cur % n) as nat
    } else {
        (k + n - cur % n) as nat
    }
}

/// Advancing a reduced cursor by one is the same as reducing the advanced
/// cursor.
proof fn lemma_mod_succ(c: nat, n: nat)
    requires
        n > 0,
    ensures
        (c % n + 1) % n == (c + 1) % n,
{
    lemma_add_mod_noop(c as int, 1int, n as int);
    if n == 1 {
        lemma_mod_bound(c as int, 1int);
        lemma_mod_bound((c + 1) as int, 1int);
        lemma_mod_bound((c % n + 1) as int, 1int);
    } else {
        lemma_small_mod(1nat, n);
    }
}

/// Successive round-robin selections chain: the cursor one call leaves is
/// the cursor the next call reduces.
proof fn lemma_rr_chain(cur: nat, n: nat, i: nat)
    requires
        n > 0,
    ensures
        (rr_index(cur, n, i) + 1) % (n as int) == rr_index(cur, n, i + 1),
{
    lemma_mod_succ(cur + i, n);
}

/// Within one full cycle no position repeats.
proof fn lemma_rr_distinct(cur: nat, n: nat, i: nat, j: nat)
    requires
        i < j < n,
    ensures
        rr_index(cur, n, i) != rr_index(cur, n, j),
{
    if rr_index(cur, n, i) == rr_index(cur, n, j) {
        lemma_mod_equivalence((cur + j) as int, (cur + i) as int, n as int);
        assert(((cur + j) - (cur + i)) % (n as int) == 0);
        lemma_small_mod((j - i) as nat, n);
    }
}

/// One full cycle reaches every position: the `rr_offset_to(cur, n, k)`-th
/// call selects position `k`.
proof fn lemma_rr_covers(cur: nat, n: nat, k: int)
    requires
        n > 0,
        0 <= k < n,
    ensures
        rr_offset_to(cur, n, k) < n,
        rr_index(cur, n, rr_offset_to(cur, n, k)) == k,
{
    let c = cur % n;
    lemma_mod_bound(cur as int, n as int);
    let i: nat = rr_offset_to(cur, n, k);
    assert(i < n);
    lemma_add_mod_noop(cur as int, i as int, n as int);
    lemma_small_mod(i, n);
    if k >= c {
        lemma_small_mod(k as nat, n);
        assert((cur + i) % n == k);
    } else {
        lemma_mod_add_multiples_vanish(k, n as int);
        lemma_small_mod(k as nat, n);
        assert((cur + i) % n == k);
    }
}

/// Round-robin cycling. Over a fixed set of `n` backends, a run of
/// round-robin selections starting at any cursor walks the positions
/// `rr_index(cur, n, 0), rr_index(cur, n, 1), ...`:
/// - successive selections chain — the cursor each call leaves is the cursor
///   the next call uses;
/// - within one full cycle of `n` selections no position repeats;
/// - one full cycle covers every position, so every backend is returned
///   exactly once;
/// - the `n+1`-th selection repeats the first.
pub proof fn lemma_round_robin_cycle(cur: nat, n: nat)
    requires
        n > 0,
    ensures
        forall|i: nat| #[trigger] rr_index(cur, n, i) == (cur + i) % n,
        forall|i: nat| ((#[trigger] rr_index(cur, n, i)) + 1) % (n as int) == rr_index(
            cur,
            n,
            i + 1,
        ),
        forall|i: nat, j: nat|
            i < j < n ==> #[trigger] rr_index(cur, n, i) != #[trigger] rr_index(cur, n, j),
        forall|k: int|
            0 <= k < n ==> rr_offset_to(cur, n, k) < n && #[trigger] rr_index(
                cur,
                n,
                rr_offset_to(cur, n, k),
            ) == k,
        rr_index(cur, n, n) == rr_index(cur, n, 0),
{
    assert forall|i: nat| ((#[trigger] rr_index(cur, n, i)) + 1) % (n as int) == rr_index(
        cur,
        n,
        i + 1,
    ) by {
        lemma_rr_chain(cur, n, i);
    }
    assert forall|i: nat, j: nat| i < j < n implies #[trigger] rr_index(cur, n, i)
        != #[trigger] rr_index(cur, n, j) by {
        lemma_rr_distinct(cur, n, i, j);
    }
    assert forall|k: int| 0 <= k < n implies rr_offset_to(cur, n, k) < n && #[trigger] rr_index(
        cur,
        n,
        rr_offset_to(cur, n, k),
    ) == k by {
        lemma_rr_covers(cur, n, k);
    }
    lemma_mod_add_multiples_vanish(cur as int, n as int);
    lemma_small_mod(0nat, n);
}

/// The decision core of the load balancer: the backend registry, the
/// per-backend connection accounting, the connection-reuse pool, the fixed
/// algorithm, and the shared round-robin cursor.
pub struct LoadBalancer {
    pub registry: ServerRegistry,
    pub accounting: ConnectionAccounting,
    pub pool: ConnectionPool,
    pub algorithm: LoadBalancingAlgorithm,
    pub current: usize,
}

impl LoadBalancer {
    pub open spec fn wf(self) -> bool {
        self.registry.wf() && self.accounting.wf() && self.pool.wf()
    }

    /// Everything a pure selection must leave untouched.
    pub open spec fn same_resources(pre: LoadBalancer, post: LoadBalancer) -> bool {
        &&& post.registry == pre.registry
        &&& post.accounting == pre.accounting
        &&& post.pool == pre.pool
        &&& post.algorithm == pre.algorithm
    }

    /// A balancer over the default backend set `web1..web5 ->
    /// 192.168.1.21..25:80`, with all counts at zero, an empty pool, and the
    /// round-robin cursor at the first backend.
    pub fn new(algorithm: LoadBalancingAlgorithm) -> (r: LoadBalancer)
        ensures
            r.wf(),
            r.algorithm == algorithm,
            r.current == 0,
            r.registry.entries@.len() == 5,
            r.registry.entries@[0].0@ == "web1"@ && r.registry.entries@[0].1 == (Addr {
                a: 192,
                b: 168,
                c: 1,
                d: 21,
                port: 80,
            }),
            r.registry.entries@[1].0@ == "web2"@ && r.registry.entries@[1].1 == (Addr {
                a: 192,
                b: 168,
                c: 1,
                d: 22,
                port: 80,
            }),
            r.registry.entries@[2].0@ == "web3"@ && r.registry.entries@[2].1 == (Addr {
                a: 192,
                b: 168,
                c: 1,
                d: 23,
                port: 80,
            }),
            r.registry.entries@[3].0@ == "web4"@ && r.registry.entries@[3].1 == (Addr {
                a: 192,
                b: 168,
                c: 1,
                d: 24,
                port: 80,
            }),
            r.registry.entries@[4].0@ == "web5"@ && r.registry.entries@[4].1 == (Addr {
                a: 192,
                b: 168,
                c: 1,
                d: 25,
                port: 80,
            }),
            forall|a: Addr| #[trigger] r.accounting.count_of(a) == 0,
            forall|a: Addr| #[trigger] r.pool.idle_of(a) == Seq::<u64>::empty(),
    {
        let mut entries: Vec<(String, Addr)> = Vec::new();
        entries.push((String::from_str("web1"), Addr::new(192, 168, 1, 21, 80)));
        entries.push((String::from_str("web2"), Addr::new(192, 168, 1, 22, 80)));
        entries.push((String::from_str("web3"), Addr::new(192, 168, 1, 23, 80)));
        entries.push((String::from_str("web4"), Addr::new(192, 168, 1, 24, 80)));
        entries.push((String::from_str("web5"), Addr::new(192, 168, 1, 25, 80)));
        proof {
            reveal_strlit("web1");
            reveal_strlit("web2");
            reveal_strlit("web3");
            reveal_strlit("web4");
            reveal_strlit("web5");
        }
        let registry = ServerRegistry { entries };
        proof {
            let s = registry.entries@;
            assert(s[0].0@ == "web1"@ && s[1].0@ == "web2"@ && s[2].0@ == "web3"@ && s[3].0@
                == "web4"@ && s[4].0@ == "web5"@);
            assert("web1"@[3] == '1' && "web2"@[3] == '2' && "web3"@[3] == '3' && "web4"@[3] == '4'
                && "web5"@[3] == '5');
            assert forall|i: int, j: int| 0 <= i < j < s.len() implies #[trigger] s[i].0@
                != #[trigger] s[j].0@ by {
                assert(s[i].0@[3] != s[j].0@[3]);
            }
        }
        LoadBalancer {
            registry,
            accounting: ConnectionAccounting::new(),
            pool: ConnectionPool::new(),
            algorithm,
            current: 0,
        }
    }

    /// A consistent snapshot of the registered backends, safe to probe or
    /// display without further access to the balancer.
    pub fn list_servers(&self) -> (r: Vec<(String, Addr)>)
        ensures
            r@ == self.registry.entries@,
    {
        self.registry.list()
    }

    /// Round-robin selection: returns the backend at the shared cursor
    /// (reduced modulo the current backend count, so a registry that shrank
    /// since the last call can never be indexed out of range) and advances
    /// the cursor by one; `None` on an empty registry.
    pub fn round_robin(&mut self) -> (r: Option<Addr>)
        requires
            old(self).wf(),
        ensures
            final(self).wf(),
            Self::same_resources(*old(self), *final(self)),
            rr_step(
                old(self).registry.addrs(),
                old(self).current as nat,
                r,
                final(self).current as nat,
            ),
            r matches Some(a) ==> old(self).registry.contains_addr(a),
    {
        let n = self.registry.len();
        if n == 0 {
            return None;
        }
        let idx = self.current % n;
        let addr = self.registry.addr_at(idx);
        proof {
            lemma_mod_bound(old(self).current as int, n as int);
            lemma_mod_succ(old(self).current as nat, n as nat);
            assert(self.registry.addrs()[idx as int] == addr);
        }
        self.current = (idx + 1) % n;
        Some(addr)
    }

    /// Random selection: a uniformly drawn backend of the current snapshot;
    /// `None` on an empty registry. Every returned address is a member of
    /// the registry.
    pub fn random(&self) -> (r: Option<Addr>)
        ensures
            r is Some <==> self.registry.spec_len() > 0,
            r matches Some(a) ==> self.registry.contains_addr(a),
    {
        let n = self.registry.len();
        if n == 0 {
            return None;
        }
        let idx = random_below(n);
        let addr = self.registry.addr_at(idx);
        proof {
            assert(self.registry.addrs()[idx as int] == addr);
        }
        Some(addr)
    }

    /// Least-connections selection: among the backends of the current
    /// snapshot, one with the minimum in-flight count (absent accounting
    /// entries count as zero), ties broken at random so no backend is pinned
    /// by mapping order; `None` on an empty registry.
    pub fn least_connection(&self) -> (r: Option<Addr>)
        requires
            self.wf(),
        ensures
            r is Some <==> self.registry.spec_len() > 0,
            r matches Some(a) ==> self.registry.contains_addr(a) && forall|k: int|
                0 <= k < self.registry.addrs().len() ==> #[trigger] self.accounting.count_of(
                    self.registry.addrs()[k],
                ) >= self.accounting.count_of(a),
    {
        let n = self.registry.len();
        if n == 0 {
            return None;
        }
        let mut min: usize = self.accounting.get(self.registry.addr_at(0));
        let mut k: usize = 1;
        while k < n
            invariant
                self.wf(),
                n == self.registry.spec_len(),
                1 <= k <= n,
                forall|j: int|
                    0 <= j < k ==> #[trigger] self.accounting.count_of(self.registry.addrs()[j])
                        >= min as nat,
                exists|j: int|
                    0 <= j < k && #[trigger] self.accounting.count_of(self.registry.addrs()[j])
                        == min as nat,
            decreases n - k,
        {
            let c = self.accounting.get(self.registry.addr_at(k));
            if c < min {
                min = c;
            }
            k = k + 1;
        }
        let mut cands: Vec<Addr> = Vec::new();
        let mut k2: usize = 0;
        while k2 < n
            invariant
                self.wf(),
                n == self.registry.spec_len(),
                k2 <= n,
                forall|j: int|
                    0 <= j < n ==> #[trigger] self.accounting.count_of(self.registry.addrs()[j])
                        >= min as nat,
                exists|j: int|
                    0 <= j < n && #[trigger] self.accounting.count_of(self.registry.addrs()[j])
                        == min as nat,
                forall|t: int|
                    0 <= t < cands@.len() ==> self.registry.contains_addr(#[trigger] cands@[t])
                        && self.accounting.count_of(cands@[t]) == min as nat,
                forall|j: int|
                    0 <= j < k2 && self.accounting.count_of(#[trigger] self.registry.addrs()[j])
                        == min as nat ==> cands@.len() > 0,
            decreases n - k2,
        {
            let a = self.registry.addr_at(k2);
            if self.accounting.get(a) == min {
                cands.push(a);
                proof {
                    assert(self.registry.addrs()[k2 as int] == a);
                }
            }
            k2 = k2 + 1;
        }
        proof {
            let j = choose|j: int|
                0 <= j < n && #[trigger] self.accounting.count_of(self.registry.addrs()[j])
                    == min as nat;
            assert(cands@.len() > 0);
        }
        let idx = random_below(cands.len());
        Some(cands[idx])
    }

    /// Selects a backend with the configured algorithm over the current
    /// registry and accounting snapshots. `None` exactly on an empty
    /// registry; every returned address is a registered backend. Only the
    /// round-robin cursor may change.
    pub fn select_backend(&mut self) -> (r: Option<Addr>)
        requires
            old(self).wf(),
        ensures
            final(self).wf(),
            Self::same_resources(*old(self), *final(self)),
            r is Some <==> old(self).registry.spec_len() > 0,
            r matches Some(a) ==> old(self).registry.contains_addr(a),
            old(self).algorithm == LoadBalancingAlgorithm::RoundRobin ==> rr_step(
                old(self).registry.addrs(),
                old(self).current as nat,
                r,
                final(self).current as nat,
            ),
            old(self).algorithm != LoadBalancingAlgorithm::RoundRobin ==> final(self).current
                == old(self).current,
            old(self).algorithm == LoadBalancingAlgorithm::LeastConnection ==> (r matches Some(a)
                ==> forall|k: int|
                0 <= k < old(self).registry.addrs().len() ==> #[trigger] old(
                    self,
                ).accounting.count_of(old(self).registry.addrs()[k]) >= old(
                    self,
                ).accounting.count_of(a)),
    {
        match self.algorithm {
            LoadBalancingAlgorithm::RoundRobin => {
                let r = self.round_robin();
                proof {
                    if old(self).registry.spec_len() > 0 {
                        lemma_mod_bound(old(self).current as int, old(self).registry.spec_len() as int);
                    }
                }
                r
            },
            LoadBalancingAlgorithm::Random => self.random(),
            LoadBalancingAlgorithm::LeastConnection => self.least_connection(),
        }
    }

    /// Starts one proxy session: selects a backend, accounts for the
    /// connection before it is acquired (so concurrent least-connections
    /// decisions see it), and hands out the most recently pooled idle
    /// connection if one exists. On an empty registry nothing changes and
    /// the session ends quietly.
    pub fn begin_session(&mut self) -> (r: SessionStart)
        requires
            old(self).wf(),
        ensures
            final(self).wf(),
            final(self).registry == old(self).registry,
            final(self).algorithm == old(self).algorithm,
            r is NoBackend <==> old(self).registry.spec_len() == 0,
            match r {
                SessionStart::NoBackend => *final(self) == *old(self),
                SessionStart::Assigned { addr, pooled } => {
                    &&& old(self).registry.contains_addr(addr)
                    &&& final(self).accounting.count_of(addr)
                        == ConnectionAccounting::incremented(old(self).accounting.count_of(addr))
                    &&& forall|b: Addr|
                        b != addr ==> #[trigger] final(self).accounting.count_of(b) == old(
                            self,
                        ).accounting.count_of(b)
                    &&& pool_acquire_step(old(self).pool, final(self).pool, addr, pooled)
                    &&& (old(self).algorithm == LoadBalancingAlgorithm::RoundRobin ==> rr_step(
                        old(self).registry.addrs(),
                        old(self).current as nat,
                        Some(addr),
                        final(self).current as nat,
                    ))
                    &&& (old(self).algorithm != LoadBalancingAlgorithm::RoundRobin
                        ==> final(self).current == old(self).current)
                    &&& (old(self).algorithm == LoadBalancingAlgorithm::LeastConnection
                        ==> forall|k: int|
                        0 <= k < old(self).registry.addrs().len() ==> #[trigger] old(
                            self,
                        ).accounting.count_of(old(self).registry.addrs()[k]) >= old(
                            self,
                        ).accounting.count_of(addr))
                },
            },
    {
        let sel = self.select_backend();
        match sel {
            None => SessionStart::NoBackend,
            Some(addr) => {
                self.accounting.increment(addr);
                let pooled = self.pool.acquire(addr);
                SessionStart::Assigned { addr, pooled }
            },
        }
    }

    /// No connection to the chosen backend could be established: undoes the
    /// accounting taken by [`LoadBalancer::begin_session`] and surfaces the
    /// transport error as the session's terminal error.
    pub fn connect_failed(&mut self, addr: Addr, err: std::io::Error) -> (r: LoadBalancerError)
        requires
            old(self).wf(),
        ensures
            final(self).wf(),
            final(self).registry == old(self).registry,
            final(self).pool == old(self).pool,
            final(self).algorithm == old(self).algorithm,
            final(self).current == old(self).current,
            final(self).accounting.count_of(addr) == ConnectionAccounting::decremented(
                old(self).accounting.count_of(addr),
            ),
            forall|b: Addr|
                b != addr ==> #[trigger] final(self).accounting.count_of(b) == old(
                    self,
                ).accounting.count_of(b),
            r == LoadBalancerError::IoError(err),
    {
        self.accounting.decrement(addr);
        LoadBalancerError::IoError(err)
    }

    /// The relay errored: the session's accounting is released but the
    /// connection is dropped, never returned to the pool, and the transport
    /// error is surfaced as the session's terminal error.
    pub fn relay_failed(&mut self, addr: Addr, err: std::io::Error) -> (r: LoadBalancerError)
        requires
            old(self).wf(),
        ensures
            final(self).wf(),
            final(self).registry == old(self).registry,
            final(self).pool == old(self).pool,
            final(self).algorithm == old(self).algorithm,
            final(self).current == old(self).current,
            final(self).accounting.count_of(addr) == ConnectionAccounting::decremented(
                old(self).accounting.count_of(addr),
            ),
            forall|b: Addr|
                b != addr ==> #[trigger] final(self).accounting.count_of(b) == old(
                    self,
                ).accounting.count_of(b),
            r == LoadBalancerError::IoError(err),
    {
        self.accounting.decrement(addr);
        LoadBalancerError::IoError(err)
    }

    /// The relay finished cleanly: the connection is returned to the pool
    /// for reuse and the session's accounting is released.
    pub fn relay_succeeded(&mut self, addr: Addr, conn: u64)
        requires
            old(self).wf(),
            !old(self).pool.spec_contains_conn(conn),
        ensures
            final(self).wf(),
            final(self).registry == old(self).registry,
            final(self).algorithm == old(self).algorithm,
            final(self).current == old(self).current,
            pool_release_step(old(self).pool, final(self).pool, addr, conn),
            final(self).accounting.count_of(addr) == ConnectionAccounting::decremented(
                old(self).accounting.count_of(addr),
            ),
            forall|b: Addr|
                b != addr ==> #[trigger] final(self).accounting.count_of(b) == old(
                    self,
                ).accounting.count_of(b),
    {
        self.pool.release(addr, conn);
        self.accounting.decrement(addr);
    }
}

/// Whether one probe round reported `name` unreachable.
pub open spec fn reported_down(results: Seq<(String, bool)>, name: Seq<char>) -> bool {
    exists|i: int|
        0 <= i < results.len() && #[trigger] results[i].0@ == name && results[i].1 == false
}

/// Extending a probe round by one result reports a name down exactly when
/// the shorter round already did, or the new result names it and failed.
proof fn lemma_reported_down_step(results: Seq<(String, bool)>, i: int, name: Seq<char>)
    requires
        0 <= i < results.len(),
    ensures
        reported_down(results.take(i + 1), name) <==> (reported_down(results.take(i), name) || (
        results[i].0@ == name && results[i].1 == false)),
{
    let shorter = results.take(i);
    let longer = results.take(i + 1);
    if reported_down(longer, name) {
        let j = choose|j: int|
            0 <= j < longer.len() && #[trigger] longer[j].0@ == name && longer[j].1 == false;
        if j < i {
            assert(shorter[j] == results[j]);
            assert(reported_down(shorter, name));
        } else {
            assert(longer[j] == results[i]);
        }
    }
    if reported_down(shorter, name) {
        let j = choose|j: int|
            0 <= j < shorter.len() && #[trigger] shorter[j].0@ == name && shorter[j].1 == false;
        assert(longer[j] == results[j]);
        assert(reported_down(longer, name));
    }
    if results[i].0@ == name && results[i].1 == false {
        assert(longer[i] == results[i]);
        assert(reported_down(longer, name));
    }
}

impl LoadBalancer {
    /// Applies one health-check round: every backend whose probe failed is
    /// evicted from the registry — exactly those — and every backend whose
    /// probe succeeded keeps its entry and address. Probe failures are an
    /// expected, handled outcome, never a fault.
    pub fn apply_probe_results(&mut self, results: &Vec<(String, bool)>)
        requires
            old(self).wf(),
        ensures
            final(self).wf(),
            final(self).accounting == old(self).accounting,
            final(self).pool == old(self).pool,
            final(self).algorithm == old(self).algorithm,
            final(self).current == old(self).current,
            forall|nm: Seq<char>|
                #[trigger] final(self).registry.contains_name(nm) <==> old(
                    self,
                ).registry.contains_name(nm) && !reported_down(results@, nm),
            forall|nm: Seq<char>|
                #[trigger] final(self).registry.contains_name(nm)
                    ==> final(self).registry.addr_of(nm) == old(self).registry.addr_of(nm),
    {
        let n = results.len();
        let mut i: usize = 0;
        while i < n
            invariant
                self.wf(),
                n == results@.len(),
                i <= n,
                self.accounting == old(self).accounting,
                self.pool == old(self).pool,
                self.algorithm == old(self).algorithm,
                self.current == old(self).current,
                forall|nm: Seq<char>|
                    #[trigger] self.registry.contains_name(nm) <==> old(
                        self,
                    ).registry.contains_name(nm) && !reported_down(results@.take(i as int), nm),
                forall|nm: Seq<char>|
                    #[trigger] self.registry.contains_name(nm) ==> self.registry.addr_of(nm) == old(
                        self,
                    ).registry.addr_of(nm),
            decreases n - i,
        {
            let healthy = results[i].1;
            if !healthy {
                self.registry.remove(&results[i].0);
                proof {
                    assert forall|nm: Seq<char>| #[trigger]
                        self.registry.contains_name(nm) <==> old(self).registry.contains_name(nm)
                            && !reported_down(results@.take(i + 1), nm) by {
                        lemma_reported_down_step(results@, i as int, nm);
                    }
                }
            } else {
                proof {
                    assert forall|nm: Seq<char>| #[trigger]
                        self.registry.contains_name(nm) <==> old(self).registry.contains_name(nm)
                            && !reported_down(results@.take(i + 1), nm) by {
                        lemma_reported_down_step(results@, i as int, nm);
                    }
                }
            }
            i = i + 1;
        }
        proof {
            assert(results@.take(n as int) == results@);
        }
    }
}

/// Maps the operator's menu choice to an algorithm: `"1"`, `"2"` and `"3"`
/// choose round-robin, random and least-connections; anything else is
/// invalid and must be asked again.
pub fn algorithm_from_choice(choice: &String) -> (r: Option<LoadBalancingAlgorithm>)
    ensures
        r == Some(LoadBalancingAlgorithm::RoundRobin) <==> choice@ == "1"@,
        r == Some(LoadBalancingAlgorithm::Random) <==> choice@ == "2"@,
        r == Some(LoadBalancingAlgorithm::LeastConnection) <==> choice@ == "3"@,
        r is None <==> choice@ != "1"@ && choice@ != "2"@ && choice@ != "3"@,
{
    proof {
        reveal_strlit("1");
        reveal_strlit("2");
        reveal_strlit("3");
        assert("1"@[0] == '1' && "2"@[0] == '2' && "3"@[0] == '3');
        assert("1"@ != "2"@ && "1"@ != "3"@ && "2"@ != "3"@);
    }
    if *choice == String::from_str("1") {
        Some(LoadBalancingAlgorithm::RoundRobin)
    } else if *choice == String::from_str("2") {
        Some(LoadBalancingAlgorithm::Random)
    } else if *choice == String::from_str("3") {
        Some(LoadBalancingAlgorithm::LeastConnection)
    } else {
        None
    }
}

} // verus!
