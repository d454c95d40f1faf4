//! How the public HTTP API answers: reads, writes and removals served here
//! when this node owns the key, forwarded to the best available owner
//! otherwise; and the cluster listing.

use crate::clock::unix_secs_of;
use crate::cluster::{lists_records, node_views, ClusterState, NodeInfo, NodeInfoView};
use crate::config::{host_port, Config};
use crate::error::CacheError;
use crate::router::circuit_breaker::{after_failure, after_success, BreakerState};
use crate::router::consistent_hash::{ring_hash, ring_owners};
use crate::router::{breaker_of, SmartRouter};
use crate::storage::engine::{get_post, sub_mod, value_view, CacheValue, CacheValueView, StorageEngine};
use std::time::SystemTime;
use vstd::prelude::*;

verus! {

/// The query of a write: an optional time to live in seconds.
#[derive(Debug)]
pub struct SetQuery {
    pub ttl: Option<u64>,
}

/// The answer to a read.
#[derive(Debug)]
pub struct GetResult {
    pub key: String,
    pub value: String,
    pub expires_at_unix: Option<u64>,
    pub created_at_unix: u64,
    pub served_by: String,
}

/// The answer to a removal.
#[derive(Debug)]
pub struct DeleteResult {
    pub key: String,
    pub deleted: bool,
}

/// The answer to a cluster listing.
#[derive(Debug)]
pub struct ClusterInfo {
    pub node_id: String,
    pub nodes: Vec<NodeInfo>,
    pub total_entries: u64,
}

/// The status of a request served.
pub const STATUS_OK: u16 = 200;

/// The status of a read of a key that is not stored.
pub const STATUS_NOT_FOUND: u16 = 404;

/// The status of a request whose forwarding to the owner failed.
pub const STATUS_BAD_GATEWAY: u16 = 502;

/// The status of a request no node can take.
pub const STATUS_SERVICE_UNAVAILABLE: u16 = 503;

/// The text that `String::from_utf8_lossy` makes of some bytes.
pub uninterp spec fn spec_utf8_lossy(bytes: Seq<u8>) -> Seq<char>;

/// Calls `String::from_utf8_lossy` and takes the text as a `String`.
/// Claimed: the text is `spec_utf8_lossy` of the bytes.
#[verifier::external_body]
fn utf8_lossy(bytes: &[u8]) -> (r: String)
    ensures
        r@ == spec_utf8_lossy(bytes@),
{
    String::from_utf8_lossy(bytes).into_owned()
}

/// The time to live of a write: the one asked for, or the default.
pub fn effective_ttl(query: &SetQuery, default_ttl_secs: u64) -> (r: Option<u64>)
    ensures
        r == Some(
            match query.ttl {
                Some(t) => t,
                None => default_ttl_secs,
            },
        ),
{
    match query.ttl {
        Some(t) => Some(t),
        None => Some(default_ttl_secs),
    }
}

/// The answer to a read of `key` that gave `value`, served by `served_by`:
/// the bytes as text (invalid UTF-8 replaced), and the value's times.
pub fn get_result(key: String, value: &CacheValue, served_by: String) -> (r: GetResult)
    ensures
        r.key@ == key@,
        r.value@ == spec_utf8_lossy(value.data@),
        r.expires_at_unix == value.expires_at_unix,
        r.created_at_unix == value.created_at_unix,
        r.served_by@ == served_by@,
{
    GetResult {
        key,
        value: utf8_lossy(value.data.as_slice()),
        expires_at_unix: value.expires_at_unix,
        created_at_unix: value.created_at_unix,
        served_by,
    }
}

/// Reads `key` from the local store: its value, or `STATUS_NOT_FOUND`.
pub fn local_get(engine: &mut StorageEngine, key: &str) -> (r: Result<CacheValue, u16>)
    ensures
        exists|now: u64, v: Option<CacheValueView>| {
            &&& get_post(old(engine)@, key@, now, v, final(engine)@)
            &&& match v {
                Some(x) => r matches Ok(y) && y@ == x,
                None => r == Err::<CacheValue, u16>(STATUS_NOT_FOUND),
            }
        },
        exists|t: SystemTime, v: Option<CacheValueView>| {
            &&& get_post(old(engine)@, key@, unix_secs_of(t), v, final(engine)@)
            &&& match v {
                Some(x) => r matches Ok(y) && y@ == x,
                None => r == Err::<CacheValue, u16>(STATUS_NOT_FOUND),
            }
        },
{
    match engine.get(key) {
        Some(v) => Ok(v),
        None => Err(STATUS_NOT_FOUND),
    }
}

/// Removes `key` from the local store; the answer tells whether it was
/// stored.
pub fn local_delete(engine: &mut StorageEngine, key: String) -> (r: DeleteResult)
    ensures
        r.key@ == key@,
        r.deleted == old(engine)@.entries.contains_key(key@),
        final(engine)@.entries == old(engine)@.entries.remove(key@),
        final(engine)@.max_entries == old(engine)@.max_entries,
        final(engine)@.entry_count == if r.deleted { sub_mod(old(engine)@.entry_count, 1) } else { old(engine)@.entry_count },
{
    let deleted = engine.delete(key.as_str());
    DeleteResult { key, deleted }
}

/// The cluster listing: this node's id, every known node once, and the
/// local entry count.
pub fn cluster_info(config: &Config, cluster: &ClusterState, engine: &StorageEngine) -> (r: ClusterInfo)
    requires
        cluster.wf(),
    ensures
        r.node_id@ == config.node_id@,
        lists_records(node_views(r.nodes@), cluster.spec_members()),
        r.total_entries == engine@.entry_count,
{
    ClusterInfo { node_id: config.node_id.clone(), nodes: cluster.all_nodes(), total_entries: engine.len() }
}

/// The address the router gives a node: this node's own public address, or
/// the one the cluster knows, or none.
pub open spec fn address_of(config: Config, members: Map<Seq<char>, NodeInfoView>, id: Seq<char>) -> Option<Seq<char>> {
    if id == config.node_id@ {
        Some(host_port(config.host@, config.http_port as nat))
    } else if members.contains_key(id) {
        Some(members[id].addr)
    } else {
        None
    }
}

/// The peers a local write is copied to, in order: each of the key's
/// `owners` other than `local` whose address is known, with that address.
pub open spec fn replica_targets(
    owners: Seq<Seq<char>>,
    local: Seq<char>,
    config: Config,
    members: Map<Seq<char>, NodeInfoView>,
) -> Seq<(Seq<char>, Seq<char>)>
    decreases owners.len(),
{
    if owners.len() == 0 {
        Seq::empty()
    } else {
        let rest = replica_targets(owners.drop_last(), local, config, members);
        let id = owners.last();
        match address_of(config, members, id) {
            Some(a) => if id != local {
                rest.push((id, a))
            } else {
                rest
            },
            None => rest,
        }
    }
}

/// The views of a list of (node id, address) pairs.
pub open spec fn pair_views(v: Seq<(String, String)>) -> Seq<(Seq<char>, Seq<char>)> {
    v.map_values(|p: (String, String)| (p.0@, p.1@))
}

/// The peers a local write of `key` is copied to: the key's replica nodes
/// other than `local_id` whose address is known, each with its address.
pub fn replication_targets(router: &SmartRouter, cluster: &ClusterState, local_id: &str, key: &str) -> (r: Vec<(String, String)>)
    ensures
        pair_views(r@) == replica_targets(
            ring_owners(router.spec_points(), ring_hash(key@), router.spec_config().replication_factor as nat),
            local_id@,
            router.spec_config(),
            cluster.spec_members(),
        ),
{
    let replicas = router.replica_nodes(key);
    let ghost owners = ring_owners(router.spec_points(), ring_hash(key@), router.spec_config().replication_factor as nat);
    let local = local_id.to_owned();
    let mut out: Vec<(String, String)> = Vec::new();
    let mut i: usize = 0;
    while i < replicas.len()
        invariant
            i <= replicas@.len(),
            owners == ring_owners(router.spec_points(), ring_hash(key@), router.spec_config().replication_factor as nat),
            owners == replicas@.map_values(|s: String| s@),
            local@ == local_id@,
            pair_views(out@) == replica_targets(owners.take(i as int), local_id@, router.spec_config(), cluster.spec_members()),
        decreases replicas@.len() - i,
    {
        let id = &replicas[i];
        proof {
            assert(owners.take(i + 1).drop_last() =~= owners.take(i as int));
            assert(owners.take(i + 1).last() == id@);
        }
        if *id != local {
            match router.node_address(cluster, id.as_str()) {
                Some(addr) => {
                    let ghost prev = out@;
                    out.push((id.clone(), addr));
                    proof {
                        assert(pair_views(out@) =~= pair_views(prev).push((id@, addr@)));
                    }
                },
                None => {},
            }
        }
        i = i + 1;
    }
    proof {
        assert(owners.take(replicas@.len() as int) =~= owners);
    }
    out
}

/// `n` is the node the router picks for `key` among the candidates `cands`
/// with breakers `b`: the first candidate whose breaker is not open.
pub open spec fn picked(cands: Seq<Seq<char>>, b: Map<Seq<char>, BreakerState>, n: Seq<char>) -> bool {
    exists|i: int| {
        &&& 0 <= i < cands.len()
        &&& cands[i] == n
        &&& forall|j: int| 0 <= j < i ==> b.contains_key(#[trigger] cands[j]) && b[cands[j]] == BreakerState::Open
        &&& b.contains_key(n)
        &&& b[n] != BreakerState::Open
    }
}

/// The state of each breaker in a table.
pub open spec fn breaker_states(t: Map<Seq<char>, crate::router::circuit_breaker::CircuitBreaker>) -> Map<Seq<char>, BreakerState> {
    Map::new(|k: Seq<char>| t.contains_key(k), |k: Seq<char>| t[k]@.state)
}

/// Where a request for `key` that this node does not own is sent: the
/// first of the key's five first owners whose breaker admits requests, with
/// its address. `STATUS_SERVICE_UNAVAILABLE` when every candidate's breaker
/// is open, or the node picked has no known address. Checking a breaker may
/// turn an open one whose timeout has passed half-open.
pub fn forward_target(router: &mut SmartRouter, cluster: &ClusterState, key: &str) -> (r: Result<(String, String), u16>)
    ensures
        ({
            let cands = ring_owners(old(router).spec_points(), ring_hash(key@), 5);
            let b = breaker_states(final(router).spec_breakers());
            match r {
                Ok((n, a)) => picked(cands, b, n@) && address_of(old(router).spec_config(), cluster.spec_members(), n@) == Some(a@),
                Err(s) => s == STATUS_SERVICE_UNAVAILABLE && ((forall|j: int| 0 <= j < cands.len() ==> b.contains_key(#[trigger] cands[j]) && b[cands[j]] == BreakerState::Open)
                    || exists|n: Seq<char>| picked(cands, b, n) && address_of(old(router).spec_config(), cluster.spec_members(), n) is None),
            }
        }),
        forall|k: Seq<char>| old(router).spec_breakers().contains_key(k) && !ring_owners(old(router).spec_points(), ring_hash(key@), 5).contains(k)
            ==> #[trigger] final(router).spec_breakers()[k] == old(router).spec_breakers()[k],
        final(router).spec_points() == old(router).spec_points(),
        final(router).spec_config() == old(router).spec_config(),
{
    let ghost cands = ring_owners(old(router).spec_points(), ring_hash(key@), 5);
    let node = match router.best_available_node(key) {
        Ok(n) => n,
        Err(_) => {
            let ghost b = breaker_states(router.spec_breakers());
            assert forall|j: int| 0 <= j < cands.len() implies b.contains_key(#[trigger] cands[j]) && b[cands[j]] == BreakerState::Open by {
                assert(router.spec_breakers().contains_key(cands[j]));
            }
            return Err(STATUS_SERVICE_UNAVAILABLE);
        },
    };
    let ghost b1 = router.spec_breakers();
    proof {
        let i = choose|i: int| 0 <= i < cands.len() && cands[i] == node@
            && (forall|j: int| 0 <= j < i ==> b1.contains_key(#[trigger] cands[j]) && b1[cands[j]]@.state == BreakerState::Open)
            && b1.contains_key(node@) && b1[node@]@.state != BreakerState::Open;
        let b = breaker_states(b1);
        assert(forall|j: int| 0 <= j < i ==> b.contains_key(#[trigger] cands[j]) && b[cands[j]] == BreakerState::Open);
        assert(picked(cands, b, node@));
    }
    if router.is_circuit_open(node.as_str()) {
        return Err(STATUS_SERVICE_UNAVAILABLE);
    }
    proof {
        assert(breaker_states(router.spec_breakers()) =~= breaker_states(b1));
        let i = choose|i: int| 0 <= i < cands.len() && cands[i] == node@;
        assert(cands.contains(node@));
        assert forall|k: Seq<char>| old(router).spec_breakers().contains_key(k) && !cands.contains(k)
            implies #[trigger] router.spec_breakers()[k] == old(router).spec_breakers()[k] by {
            assert(k != node@);
            assert(b1.contains_key(k));
        }
    }
    match router.node_address(cluster, node.as_str()) {
        Some(addr) => Ok((node, addr)),
        None => {
            proof {
                let b = breaker_states(router.spec_breakers());
                assert(picked(cands, b, node@));
            }
            Err(STATUS_SERVICE_UNAVAILABLE)
        },
    }
}

/// The breakers of `t2` are those of `t1` with the node's breaker moved on
/// by a request's outcome (`ok`: a success, otherwise a failure).
pub open spec fn breaker_recorded(
    t1: Map<Seq<char>, crate::router::circuit_breaker::CircuitBreaker>,
    t2: Map<Seq<char>, crate::router::circuit_breaker::CircuitBreaker>,
    node: Seq<char>,
    threshold: u64,
    ok: bool,
) -> bool {
    &&& t2 == t1.insert(node, t2[node])
    &&& t2[node]@ == if ok {
        after_success(breaker_of(t1, node, threshold))
    } else {
        after_failure(breaker_of(t1, node, threshold))
    }
}

/// Records the outcome of a read forwarded to `node` and answers it: an
/// answer from the node (found or not) is a success for its breaker, an
/// error a failure; the value found, `STATUS_NOT_FOUND`, or
/// `STATUS_BAD_GATEWAY`.
pub fn finish_forward_get(router: &mut SmartRouter, node: &str, reply: Result<Option<CacheValue>, CacheError>) -> (r: Result<CacheValue, u16>)
    ensures
        match reply {
            Ok(Some(v)) => r matches Ok(x) && x@ == v@,
            Ok(None) => r == Err::<CacheValue, u16>(STATUS_NOT_FOUND),
            Err(_) => r == Err::<CacheValue, u16>(STATUS_BAD_GATEWAY),
        },
        breaker_recorded(old(router).spec_breakers(), final(router).spec_breakers(), node@, old(router).spec_config().circuit_breaker_threshold, reply is Ok),
        final(router).spec_points() == old(router).spec_points(),
        final(router).spec_config() == old(router).spec_config(),
{
    match reply {
        Ok(Some(v)) => {
            router.record_success(node);
            Ok(v)
        },
        Ok(None) => {
            router.record_success(node);
            Err(STATUS_NOT_FOUND)
        },
        Err(_) => {
            router.record_failure(node);
            Err(STATUS_BAD_GATEWAY)
        },
    }
}

/// Records the outcome of a write forwarded to `node` and answers it:
/// `STATUS_OK` when the node took it, `STATUS_BAD_GATEWAY` otherwise.
pub fn finish_forward_set(router: &mut SmartRouter, node: &str, reply: Result<(), CacheError>) -> (r: u16)
    ensures
        r == if reply is Ok { STATUS_OK } else { STATUS_BAD_GATEWAY },
        breaker_recorded(old(router).spec_breakers(), final(router).spec_breakers(), node@, old(router).spec_config().circuit_breaker_threshold, reply is Ok),
        final(router).spec_points() == old(router).spec_points(),
        final(router).spec_config() == old(router).spec_config(),
{
    match reply {
        Ok(()) => {
            router.record_success(node);
            STATUS_OK
        },
        Err(_) => {
            router.record_failure(node);
            STATUS_BAD_GATEWAY
        },
    }
}

/// Records the outcome of a removal of `key` forwarded to `node` and
/// answers it: whether the node held the key, or `STATUS_BAD_GATEWAY`.
pub fn finish_forward_delete(router: &mut SmartRouter, node: &str, key: &str, reply: Result<bool, CacheError>) -> (r: Result<DeleteResult, u16>)
    ensures
        match reply {
            Ok(d) => r matches Ok(x) && x.key@ == key@ && x.deleted == d,
            Err(_) => r matches Err(s) && s == STATUS_BAD_GATEWAY,
        },
        breaker_recorded(old(router).spec_breakers(), final(router).spec_breakers(), node@, old(router).spec_config().circuit_breaker_threshold, reply is Ok),
        final(router).spec_points() == old(router).spec_points(),
        final(router).spec_config() == old(router).spec_config(),
{
    match reply {
        Ok(deleted) => {
            router.record_success(node);
            Ok(DeleteResult { key: key.to_owned(), deleted })
        },
        Err(_) => {
            router.record_failure(node);
            Err(STATUS_BAD_GATEWAY)
        },
    }
}

} // verus!
