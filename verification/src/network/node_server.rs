//! How a node answers its peers: reads, replicated writes and removals, and
//! gossip.

use crate::clock::{current_unix_secs, unix_secs_of};
use crate::cluster::gossip::GossipMessage;
use crate::cluster::{mark_stale, merge_all, node_views, ClusterState};
use crate::network::node_client::{DeleteRequest, GetRequest, GetResponse, OperationResponse, SetRequest};
use crate::storage::engine::{expiry, get_post, set_post, sub_mod, value_view, CacheValue, CacheValueView, StorageEngine};
use std::time::SystemTime;
use vstd::prelude::*;

verus! {

/// `r` answers a read that found `v`: the value's bytes and times, or
/// `found: false` with no bytes, no expiry and creation time 0.
pub open spec fn reply_for(v: Option<CacheValueView>, r: GetResponse) -> bool {
    match v {
        Some(x) => {
            &&& r.found
            &&& r.value matches Some(d) && d@ == x.data
            &&& r.expires_at_unix == x.expires_at_unix
            &&& r.created_at_unix == x.created_at_unix
        },
        None => !r.found && r.value is None && r.expires_at_unix is None && r.created_at_unix == 0,
    }
}

/// The answer to a read that found `v`.
pub fn get_reply(v: Option<CacheValue>) -> (r: GetResponse)
    ensures
        reply_for(value_view(v), r),
{
    match v {
        Some(val) => GetResponse {
            found: true,
            value: Some(val.data),
            expires_at_unix: val.expires_at_unix,
            created_at_unix: val.created_at_unix,
        },
        None => GetResponse { found: false, value: None, expires_at_unix: None, created_at_unix: 0 },
    }
}

/// Answers a peer's read from the local store (which, as any read, drops
/// the key when it has expired and counts an access otherwise).
pub fn serve_get(engine: &mut StorageEngine, req: &GetRequest) -> (r: GetResponse)
    ensures
        exists|now: u64, v: Option<CacheValueView>| get_post(old(engine)@, req.key@, now, v, final(engine)@) && reply_for(v, r),
        exists|t: SystemTime, v: Option<CacheValueView>| get_post(old(engine)@, req.key@, unix_secs_of(t), v, final(engine)@)
            && reply_for(v, r),
{
    let v = engine.get(req.key.as_str());
    let ghost vv = value_view(v);
    get_reply(v)
}

/// Applies a peer's write at unix time `now`: the value is created then,
/// expiring after the request's time to live; the answer is a success.
pub fn serve_set_at(engine: &mut StorageEngine, req: SetRequest, now: u64) -> (r: OperationResponse)
    ensures
        set_post(
            old(engine)@,
            req.key@,
            CacheValueView { data: req.value@, expires_at_unix: expiry(now, req.ttl_secs), created_at_unix: now },
            final(engine)@,
        ),
        r.success,
        r.message is None,
{
    let value = CacheValue::new_at(req.value, req.ttl_secs, now);
    engine.set(req.key, value);
    OperationResponse { success: true, message: None }
}

/// Applies a peer's write now; see `serve_set_at`.
pub fn serve_set(engine: &mut StorageEngine, req: SetRequest) -> (r: OperationResponse)
    ensures
        exists|now: u64| set_post(
            old(engine)@,
            req.key@,
            CacheValueView { data: req.value@, expires_at_unix: expiry(now, req.ttl_secs), created_at_unix: now },
            final(engine)@,
        ),
        exists|t: SystemTime| set_post(
            old(engine)@,
            req.key@,
            CacheValueView {
                data: req.value@,
                expires_at_unix: expiry(unix_secs_of(t), req.ttl_secs),
                created_at_unix: unix_secs_of(t),
            },
            final(engine)@,
        ),
        r.success,
        r.message is None,
{
    let now = current_unix_secs();
    serve_set_at(engine, req, now)
}

/// Applies a peer's removal; the answer tells whether the key was stored.
pub fn serve_delete(engine: &mut StorageEngine, req: &DeleteRequest) -> (r: OperationResponse)
    ensures
        r.success == old(engine)@.entries.contains_key(req.key@),
        r.message is None,
        final(engine)@.entries == old(engine)@.entries.remove(req.key@),
        final(engine)@.max_entries == old(engine)@.max_entries,
        final(engine)@.entry_count == if r.success { sub_mod(old(engine)@.entry_count, 1) } else { old(engine)@.entry_count },
{
    let deleted = engine.delete(req.key.as_str());
    OperationResponse { success: deleted, message: None }
}

/// Merges a peer's gossip into the membership; returns how many nodes are
/// known afterwards.
pub fn serve_gossip(cluster: &mut ClusterState, msg: GossipMessage) -> (r: usize)
    requires
        old(cluster).wf(),
    ensures
        exists|now: u64| final(cluster).spec_members() == mark_stale(
            merge_all(old(cluster).spec_members(), old(cluster).spec_local_id(), node_views(msg.nodes@)),
            old(cluster).spec_local_id(),
            now,
            old(cluster).spec_stale_secs(),
        ),
        exists|t: SystemTime| final(cluster).spec_members() == mark_stale(
            merge_all(old(cluster).spec_members(), old(cluster).spec_local_id(), node_views(msg.nodes@)),
            old(cluster).spec_local_id(),
            unix_secs_of(t),
            old(cluster).spec_stale_secs(),
        ),
        final(cluster).spec_local_id() == old(cluster).spec_local_id(),
        final(cluster).spec_stale_secs() == old(cluster).spec_stale_secs(),
        final(cluster).wf(),
        r == final(cluster).spec_members().dom().len(),
{
    cluster.merge_gossip(msg.nodes);
    cluster.node_count()
}

} // verus!
