//! Request routing: the consistent-hash ring and per-node circuit breakers.

pub mod circuit_breaker;
pub mod consistent_hash;
pub mod ring_order;

use crate::clock::{duration_secs, duration_subsec_nanos, is_zero_duration, wall_time_of};
use crate::cluster::ClusterState;
use crate::config::{host_port, Config};
use crate::error::CacheError;
use crate::router::circuit_breaker::{failure_timeout_passed, open_check, after_failure, after_success, BreakerState, BreakerView, CircuitBreaker};
use crate::router::consistent_hash::{lemma_owners_distinct, ring_hash, ring_owner, ring_owners, views, with_vnodes, without_vnodes, ConsistentHashRing};
use crate::text::{chars_of, string_of};
use dashmap::DashMap;
use std::time::{Duration, SystemTime};
use vstd::prelude::*;

verus! {

/// The id a peer is known by: `"node-"` followed by its address with every
/// `':'` and `'.'` turned into `'-'`.
pub open spec fn peer_node_id(peer_addr: Seq<char>) -> Seq<char> {
    seq!['n', 'o', 'd', 'e', '-'] + peer_addr.map_values(|c: char| if c == ':' || c == '.' { '-' } else { c })
}

/// The id a peer is known by, derived from its address.
pub fn peer_to_node_id(peer_addr: &str) -> (r: String)
    ensures
        r@ == peer_node_id(peer_addr@),
{
    let cs = chars_of(peer_addr);
    let mut out: Vec<char> = Vec::new();
    out.push('n');
    out.push('o');
    out.push('d');
    out.push('e');
    out.push('-');
    let mut i: usize = 0;
    while i < cs.len()
        invariant
            i <= cs@.len(),
            out@ == peer_node_id(cs@.take(i as int)),
        decreases cs@.len() - i,
    {
        let c = cs[i];
        if c == ':' || c == '.' {
            out.push('-');
        } else {
            out.push(c);
        }
        assert(out@ =~= peer_node_id(cs@.take(i + 1)));
        i = i + 1;
    }
    assert(cs@.take(cs@.len() as int) =~= cs@);
    string_of(&out)
}

/// Calls `Duration::from_secs`. Claimed, from std's documentation (a
/// duration of the given whole seconds): its whole seconds are `secs` and it
/// has no nanoseconds beyond them.
#[verifier::external_body]
fn duration_from_secs(secs: u64) -> (r: Duration)
    ensures
        duration_secs(r) == secs,
        duration_subsec_nanos(r) == 0,
{
    Duration::from_secs(secs)
}

/// What a breaker table holds: each node id mapped to its breaker.
pub uninterp spec fn breaker_table(m: DashMap<String, CircuitBreaker>) -> Map<Seq<char>, CircuitBreaker>;

/// Calls `DashMap::new`. Claimed: the map is empty.
#[verifier::external_body]
fn breakers_new() -> (fresh: DashMap<String, CircuitBreaker>)
    ensures
        breaker_table(fresh).dom().is_empty(),
{
    DashMap::new()
}

/// Calls `DashMap::get` and copies the breaker out. Claimed: the breaker
/// stored under the id, or `None` when there is none.
#[verifier::external_body]
fn breakers_get(m: &DashMap<String, CircuitBreaker>, id: &str) -> (r: Option<CircuitBreaker>)
    ensures
        match r {
            Some(b) => breaker_table(*m).contains_key(id@) && b == breaker_table(*m)[id@],
            None => !breaker_table(*m).contains_key(id@),
        },
{
    match m.get(id) {
        Some(guard) => Some(*guard.value()),
        None => None,
    }
}

/// Calls `DashMap::insert`. Claimed: the id now maps to the breaker, and
/// nothing else changed.
#[verifier::external_body]
fn breakers_insert(m: &mut DashMap<String, CircuitBreaker>, id: String, b: CircuitBreaker)
    ensures
        breaker_table(*final(m)) == breaker_table(*old(m)).insert(id@, b),
{
    m.insert(id, b);
}

/// The ring after adding each node of `ids`, in order.
pub open spec fn with_nodes(m: Map<u64, Seq<char>>, ids: Seq<Seq<char>>, vnodes: nat) -> Map<u64, Seq<char>>
    decreases ids.len(),
{
    if ids.len() == 0 {
        m
    } else {
        with_vnodes(with_nodes(m, ids.drop_last(), vnodes), ids.last(), vnodes)
    }
}

/// The nodes a router starts with: itself, then each configured peer, known
/// by the id derived from its address.
pub open spec fn configured_nodes(config: Config) -> Seq<Seq<char>> {
    seq![config.node_id@] + config.peers@.map_values(|p: String| peer_node_id(p@))
}

/// A breaker as the router creates it: closed, counting nothing yet.
pub open spec fn fresh_breaker(threshold: u64) -> BreakerView {
    BreakerView {
        state: BreakerState::Closed,
        failure_count: 0,
        success_count: 0,
        failure_seen: false,
        threshold,
        half_open_successes: 3,
    }
}

/// The view of the breaker a node has, or would get on first use.
pub open spec fn breaker_of(t: Map<Seq<char>, CircuitBreaker>, id: Seq<char>, threshold: u64) -> BreakerView {
    if t.contains_key(id) {
        t[id]@
    } else {
        fresh_breaker(threshold)
    }
}

/// The outcome of picking a node for `key` among its first five distinct
/// owners on the ring `points`, breakers going from `b0` to `b1`: `r` is the
/// first candidate whose breaker admits (every one before it refusing), or
/// `None` when all refuse. Only the candidates' breakers are created or
/// changed, and a breaker that admitted before still admits.
pub open spec fn best_available_post(
    points: Map<u64, Seq<char>>,
    key: Seq<char>,
    threshold: u64,
    b0: Map<Seq<char>, CircuitBreaker>,
    b1: Map<Seq<char>, CircuitBreaker>,
    r: Option<Seq<char>>,
) -> bool {
    let cands = ring_owners(points, ring_hash(key), 5);
    &&& match r {
        Some(n) => exists|i: int| 0 <= i < cands.len() && cands[i] == n
            && (forall|j: int| 0 <= j < i ==> b1.contains_key(#[trigger] cands[j]) && b1[cands[j]]@.state == BreakerState::Open)
            && b1.contains_key(n) && b1[n]@.state != BreakerState::Open,
        None => forall|j: int| 0 <= j < cands.len() ==> b1.contains_key(#[trigger] cands[j]) && b1[cands[j]]@.state == BreakerState::Open,
    }
    &&& b1.dom().subset_of(b0.dom().union(cands.to_set()))
    &&& b0.dom().subset_of(b1.dom())
    &&& forall|k: Seq<char>| b0.contains_key(k) && !cands.contains(k) ==> #[trigger] b1[k] == b0[k]
    &&& forall|k: Seq<char>| #[trigger] b1.contains_key(k) && breaker_of(b0, k, threshold).state != BreakerState::Open
        ==> b1[k]@.state != BreakerState::Open
}

/// Law: when the key's owner on the ring admits requests, it is the node
/// picked for the key.
pub proof fn lemma_owner_picked_when_admitting(
    points: Map<u64, Seq<char>>,
    key: Seq<char>,
    threshold: u64,
    b0: Map<Seq<char>, CircuitBreaker>,
    b1: Map<Seq<char>, CircuitBreaker>,
    r: Option<Seq<char>>,
    owner: Seq<char>,
)
    requires
        points.dom().finite(),
        best_available_post(points, key, threshold, b0, b1, r),
        ring_owner(points, ring_hash(key)) == Some(owner),
        breaker_of(b0, owner, threshold).state != BreakerState::Open,
    ensures
        r == Some(owner),
{
    crate::router::consistent_hash::lemma_owners_start_with_owner(points, ring_hash(key), 5);
    let cands = ring_owners(points, ring_hash(key), 5);
    assert(cands[0] == owner);
    match r {
        Some(n) => {
            let i = choose|i: int| 0 <= i < cands.len() && cands[i] == n
                && (forall|j: int| 0 <= j < i ==> b1.contains_key(#[trigger] cands[j]) && b1[cands[j]]@.state == BreakerState::Open)
                && b1.contains_key(n) && b1[n]@.state != BreakerState::Open;
            if i > 0 {
                assert(b1.contains_key(cands[0]));
            }
        },
        None => {
            assert(b1.contains_key(cands[0]));
        },
    }
}

pub struct SmartRouter {
    ring: ConsistentHashRing,
    breakers: DashMap<String, CircuitBreaker>,
    config: Config,
}

impl SmartRouter {
    /// The ring's points and owners.
    pub closed spec fn spec_points(&self) -> Map<u64, Seq<char>> {
        self.ring.points()
    }

    /// The router's ring holds finitely many points.
    pub proof fn lemma_points_finite(&self)
        ensures
            self.spec_points().dom().finite(),
    {
        self.ring.lemma_points_finite();
    }

    /// The breakers created so far, by node id.
    pub closed spec fn spec_breakers(&self) -> Map<Seq<char>, CircuitBreaker> {
        breaker_table(self.breakers)
    }

    pub closed spec fn spec_config(&self) -> Config {
        self.config
    }

    /// How many virtual nodes each node gets on the ring.
    pub closed spec fn spec_virtual_nodes(&self) -> nat {
        self.ring.spec_virtual_nodes()
    }

    /// A router whose ring holds this node and every configured peer.
    pub fn new(config: Config) -> (r: Self)
        ensures
            r.spec_points() == with_nodes(Map::empty(), configured_nodes(config), config.virtual_nodes as nat),
            r.spec_breakers().dom().is_empty(),
            r.spec_config() == config,
            r.spec_virtual_nodes() == config.virtual_nodes,
    {
        let mut ring = ConsistentHashRing::new(config.virtual_nodes);
        ring.add_node(config.node_id.as_str());
        let ghost ids = configured_nodes(config);
        let ghost vn = config.virtual_nodes as nat;
        proof {
            assert(ids.take(1).drop_last() =~= Seq::<Seq<char>>::empty());
            assert(ids.take(1).last() == config.node_id@);
            assert(with_nodes(Map::empty(), ids.take(1).drop_last(), vn) == Map::<u64, Seq<char>>::empty());
            assert(with_nodes(Map::empty(), ids.take(1), vn) == with_vnodes(Map::empty(), config.node_id@, vn));
        }
        let mut i: usize = 0;
        while i < config.peers.len()
            invariant
                i <= config.peers@.len(),
                ids == configured_nodes(config),
                vn == config.virtual_nodes as nat,
                ring.spec_virtual_nodes() == vn,
                ring.points() == with_nodes(Map::empty(), ids.take(i + 1), vn),
            decreases config.peers@.len() - i,
        {
            let node_id = peer_to_node_id(config.peers[i].as_str());
            ring.add_node(node_id.as_str());
            proof {
                assert(ids.take(i + 2).drop_last() =~= ids.take(i + 1));
                assert(ids.take(i + 2).last() == peer_node_id(config.peers@[i as int]@));
            }
            i = i + 1;
        }
        proof {
            assert(ids.take(config.peers@.len() as int + 1) =~= ids);
        }
        SmartRouter { ring, breakers: breakers_new(), config }
    }

    /// The node owning `key`, or `NoNodeAvailable` when the ring is empty.
    pub fn primary_node(&self, key: &str) -> (r: Result<String, CacheError>)
        ensures
            match r {
                Ok(n) => ring_owner(self.spec_points(), ring_hash(key@)) == Some(n@),
                Err(e) => ring_owner(self.spec_points(), ring_hash(key@)) is None
                    && (e matches CacheError::NoNodeAvailable(k) && k@ == key@),
            },
    {
        match self.ring.get_node(key) {
            Some(n) => Ok(n.to_owned()),
            None => Err(CacheError::NoNodeAvailable(key.to_owned())),
        }
    }

    /// The nodes holding copies of `key`: the first `replication_factor`
    /// distinct nodes clockwise from its hash (at least one).
    pub fn replica_nodes(&self, key: &str) -> (r: Vec<String>)
        ensures
            views(r@) == ring_owners(self.spec_points(), ring_hash(key@), self.spec_config().replication_factor as nat),
    {
        self.ring.get_nodes(key, self.config.replication_factor)
    }

    /// Whether this node owns `key`.
    pub fn is_local(&self, key: &str) -> (r: bool)
        ensures
            r == (ring_owner(self.spec_points(), ring_hash(key@)) == Some(self.spec_config().node_id@)),
    {
        match self.primary_node(key) {
            Ok(n) => n == self.config.node_id,
            Err(_) => false,
        }
    }

    /// The address of a node: this node's own address, or what the cluster
    /// knows.
    pub fn node_address(&self, cluster: &ClusterState, node_id: &str) -> (r: Option<String>)
        ensures
            node_id@ == self.spec_config().node_id@ ==> (r matches Some(a) && a@ == host_port(
                self.spec_config().host@,
                self.spec_config().http_port as nat,
            )),
            node_id@ != self.spec_config().node_id@ ==> match r {
                Some(a) => cluster.spec_members().contains_key(node_id@) && a@ == cluster.spec_members()[node_id@].addr,
                None => !cluster.spec_members().contains_key(node_id@),
            },
    {
        let id = node_id.to_owned();
        if id == self.config.node_id {
            return Some(self.config.node_addr());
        }
        cluster.node_address(node_id)
    }

    /// The node's breaker, created closed on first use with the configured
    /// threshold and timeout.
    pub fn circuit_breaker_for(&mut self, node_id: &str) -> (r: CircuitBreaker)
        ensures
            r@ == breaker_of(old(self).spec_breakers(), node_id@, old(self).spec_config().circuit_breaker_threshold),
            !old(self).spec_breakers().contains_key(node_id@) ==> duration_secs(r.spec_timeout())
                == old(self).spec_config().circuit_breaker_timeout_secs && duration_subsec_nanos(r.spec_timeout()) == 0,
            old(self).spec_breakers().contains_key(node_id@) ==> r == old(self).spec_breakers()[node_id@],
            final(self).spec_breakers() == old(self).spec_breakers().insert(node_id@, r),
            final(self).spec_points() == old(self).spec_points(),
            final(self).spec_config() == old(self).spec_config(),
    {
        match breakers_get(&self.breakers, node_id) {
            Some(b) => {
                proof {
                    assert(breaker_table(self.breakers).insert(node_id@, b) =~= breaker_table(self.breakers));
                }
                b
            }
            None => {
                let b = CircuitBreaker::new(
                    self.config.circuit_breaker_threshold,
                    duration_from_secs(self.config.circuit_breaker_timeout_secs),
                );
                breakers_insert(&mut self.breakers, node_id.to_owned(), b);
                b
            }
        }
    }

    /// Whether the node's breaker refuses requests now; an open breaker whose
    /// timeout has passed turns half-open and admits.
    pub fn is_circuit_open(&mut self, node_id: &str) -> (r: bool)
        ensures
            final(self).spec_breakers().dom() == old(self).spec_breakers().dom().insert(node_id@),
            forall|k: Seq<char>| k != node_id@ && old(self).spec_breakers().contains_key(k)
                ==> #[trigger] final(self).spec_breakers()[k] == old(self).spec_breakers()[k],
            exists|elapsed: bool| open_check(
                breaker_of(old(self).spec_breakers(), node_id@, old(self).spec_config().circuit_breaker_threshold),
                elapsed,
            ) == (r, final(self).spec_breakers()[node_id@]@),
            old(self).spec_breakers().contains_key(node_id@) ==> exists|t: SystemTime|
                open_check(
                    old(self).spec_breakers()[node_id@]@,
                    failure_timeout_passed(
                        old(self).spec_breakers()[node_id@].spec_last_failure(),
                        wall_time_of(t),
                        old(self).spec_breakers()[node_id@].spec_timeout(),
                    ),
                ) == (r, final(self).spec_breakers()[node_id@]@),
            r <==> final(self).spec_breakers()[node_id@]@.state == BreakerState::Open,
            (if old(self).spec_breakers().contains_key(node_id@) {
                is_zero_duration(old(self).spec_breakers()[node_id@].spec_timeout())
            } else {
                old(self).spec_config().circuit_breaker_timeout_secs == 0
            }) ==> open_check(
                breaker_of(old(self).spec_breakers(), node_id@, old(self).spec_config().circuit_breaker_threshold),
                true,
            ) == (r, final(self).spec_breakers()[node_id@]@),
            final(self).spec_points() == old(self).spec_points(),
            final(self).spec_config() == old(self).spec_config(),
    {
        let mut cb = self.circuit_breaker_for(node_id);
        let r = cb.is_open();
        breakers_insert(&mut self.breakers, node_id.to_owned(), cb);
        proof {
            assert(breaker_table(self.breakers).dom() =~= breaker_table(old(self).breakers).dom().insert(node_id@));
        }
        r
    }

    /// Records a successful request to the node.
    pub fn record_success(&mut self, node_id: &str)
        ensures
            final(self).spec_breakers() == old(self).spec_breakers().insert(node_id@, final(self).spec_breakers()[node_id@]),
            final(self).spec_breakers()[node_id@]@ == after_success(
                breaker_of(old(self).spec_breakers(), node_id@, old(self).spec_config().circuit_breaker_threshold),
            ),
            final(self).spec_points() == old(self).spec_points(),
            final(self).spec_config() == old(self).spec_config(),
    {
        let mut cb = self.circuit_breaker_for(node_id);
        cb.record_success();
        breakers_insert(&mut self.breakers, node_id.to_owned(), cb);
        proof {
            assert(breaker_table(self.breakers) =~= breaker_table(old(self).breakers).insert(node_id@, cb));
        }
    }

    /// Records a failed request to the node.
    pub fn record_failure(&mut self, node_id: &str)
        ensures
            final(self).spec_breakers() == old(self).spec_breakers().insert(node_id@, final(self).spec_breakers()[node_id@]),
            final(self).spec_breakers()[node_id@]@ == after_failure(
                breaker_of(old(self).spec_breakers(), node_id@, old(self).spec_config().circuit_breaker_threshold),
            ),
            final(self).spec_points() == old(self).spec_points(),
            final(self).spec_config() == old(self).spec_config(),
    {
        let mut cb = self.circuit_breaker_for(node_id);
        cb.record_failure();
        breakers_insert(&mut self.breakers, node_id.to_owned(), cb);
        proof {
            assert(breaker_table(self.breakers) =~= breaker_table(old(self).breakers).insert(node_id@, cb));
        }
    }

    /// Adds a node's virtual nodes to the ring.
    pub fn add_node(&mut self, node_id: &str)
        ensures
            final(self).spec_points() == with_vnodes(old(self).spec_points(), node_id@, old(self).spec_virtual_nodes()),
            final(self).spec_virtual_nodes() == old(self).spec_virtual_nodes(),
            final(self).spec_breakers() == old(self).spec_breakers(),
            final(self).spec_config() == old(self).spec_config(),
    {
        self.ring.add_node(node_id);
    }

    /// Takes a node's virtual nodes off the ring.
    pub fn remove_node(&mut self, node_id: &str)
        ensures
            final(self).spec_points() == without_vnodes(old(self).spec_points(), node_id@, old(self).spec_virtual_nodes()),
            final(self).spec_virtual_nodes() == old(self).spec_virtual_nodes(),
            final(self).spec_breakers() == old(self).spec_breakers(),
            final(self).spec_config() == old(self).spec_config(),
    {
        self.ring.remove_node(node_id);
    }

    /// The first of the key's first five distinct owners whose breaker
    /// admits requests, or `NoNodeAvailable` when every one refuses (or the
    /// ring is empty). The breakers of the candidates tried are checked in
    /// order, an open one whose timeout has passed turning half-open.
    pub fn best_available_node(&mut self, key: &str) -> (r: Result<String, CacheError>)
        ensures
            best_available_post(
                old(self).spec_points(),
                key@,
                old(self).spec_config().circuit_breaker_threshold,
                old(self).spec_breakers(),
                final(self).spec_breakers(),
                match r {
                    Ok(n) => Some(n@),
                    Err(_) => None,
                },
            ),
            r matches Err(e) ==> (e matches CacheError::NoNodeAvailable(k) && k@ == key@),
            final(self).spec_points() == old(self).spec_points(),
            final(self).spec_config() == old(self).spec_config(),
    {
        let candidates = self.ring.get_nodes(key, 5);
        let ghost cands = views(candidates@);
        let ghost b0 = self.spec_breakers();
        proof {
            lemma_owners_distinct(self.spec_points(), ring_hash(key@), 5);
        }
        let mut i: usize = 0;
        while i < candidates.len()
            invariant
                i <= candidates@.len(),
                cands == views(candidates@),
                cands == ring_owners(old(self).spec_points(), ring_hash(key@), 5),
                cands.no_duplicates(),
                b0 == old(self).spec_breakers(),
                self.spec_points() == old(self).spec_points(),
                self.spec_config() == old(self).spec_config(),
                forall|j: int| 0 <= j < i ==> self.spec_breakers().contains_key(#[trigger] cands[j])
                    && self.spec_breakers()[cands[j]]@.state == BreakerState::Open,
                self.spec_breakers().dom().subset_of(b0.dom().union(cands.to_set())),
                b0.dom().subset_of(self.spec_breakers().dom()),
                forall|k: Seq<char>| b0.contains_key(k) && !cands.contains(k) ==> #[trigger] self.spec_breakers()[k] == b0[k],
                forall|k: Seq<char>| #[trigger] self.spec_breakers().contains_key(k) && breaker_of(b0, k, old(self).spec_config().circuit_breaker_threshold).state != BreakerState::Open
                    ==> self.spec_breakers()[k]@.state != BreakerState::Open,
            decreases candidates@.len() - i,
        {
            let ghost before = self.spec_breakers();
            let open = self.is_circuit_open(candidates[i].as_str());
            proof {
                assert(cands[i as int] == candidates@[i as int]@);
                assert(cands.contains(cands[i as int]));
                assert forall|j: int| 0 <= j < i implies self.spec_breakers().contains_key(#[trigger] cands[j])
                    && self.spec_breakers()[cands[j]]@.state == BreakerState::Open by {
                    assert(cands[j] != cands[i as int]);
                    assert(before.contains_key(cands[j]));
                }
                assert(self.spec_breakers().dom().subset_of(b0.dom().union(cands.to_set())));
                assert(b0.dom().subset_of(self.spec_breakers().dom()));
                assert forall|k: Seq<char>| b0.contains_key(k) && !cands.contains(k) implies #[trigger] self.spec_breakers()[k] == b0[k] by {
                    assert(k != cands[i as int]);
                    assert(before.contains_key(k));
                }
                assert forall|k: Seq<char>| #[trigger] self.spec_breakers().contains_key(k) && breaker_of(b0, k, old(self).spec_config().circuit_breaker_threshold).state != BreakerState::Open
                    implies self.spec_breakers()[k]@.state != BreakerState::Open by {
                    if k != cands[i as int] {
                        assert(before.contains_key(k));
                    }
                }
            }
            if !open {
                let n = candidates[i].clone();
                proof {
                    assert(cands[i as int] == n@);
                }
                return Ok(n);
            }
            i = i + 1;
        }
        Err(CacheError::NoNodeAvailable(key.to_owned()))
    }
}

} // verus!
