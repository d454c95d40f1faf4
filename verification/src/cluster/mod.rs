//! Cluster membership: what this node knows of every node, merged from gossip
//! with the most recent sighting winning, and staleness detection.

pub mod gossip;

use crate::clock::{current_unix_secs, unix_secs_of};
use crate::config::{format_host_port, host_port, Config};
use crate::router::{peer_node_id, peer_to_node_id};
use crate::text::{chars_of, string_of};
use dashmap::DashMap;
use std::time::SystemTime;
use vstd::prelude::*;

verus! {

#[derive(Debug, Clone, Copy, PartialEq, Eq, Structural)]
pub enum NodeStatus {
    Healthy,
    Unhealthy,
    Unknown,
}

/// What is known of a node.
pub struct NodeInfoView {
    pub id: Seq<char>,
    pub addr: Seq<char>,
    pub node_port: u16,
    pub status: NodeStatus,
    pub last_seen: u64,
}

#[derive(Debug, Clone)]
pub struct NodeInfo {
    pub id: String,
    pub addr: String,
    pub node_port: u16,
    pub status: NodeStatus,
    pub last_seen: u64,
}

impl View for NodeInfo {
    type V = NodeInfoView;

    open spec fn view(&self) -> NodeInfoView {
        NodeInfoView {
            id: self.id@,
            addr: self.addr@,
            node_port: self.node_port,
            status: self.status,
            last_seen: self.last_seen,
        }
    }
}

/// The host part of an address: everything before the first `':'`, or the
/// whole address when it has none.
pub open spec fn host_part(addr: Seq<char>) -> Seq<char>
    decreases addr.len(),
{
    if addr.len() == 0 {
        addr
    } else if addr[0] == ':' {
        Seq::empty()
    } else {
        seq![addr[0]] + host_part(addr.drop_first())
    }
}

impl NodeInfo {
    /// The node's internal address: its host with the node port,
    /// `"{host}:{node_port}"`.
    pub fn internal_addr(&self) -> (r: String)
        ensures
            r@ == host_port(host_part(self.addr@), self.node_port as nat),
    {
        let cs = chars_of(self.addr.as_str());
        let mut i: usize = 0;
        while i < cs.len() && cs[i] != ':'
            invariant
                i <= cs@.len(),
                forall|j: int| 0 <= j < i ==> cs@[j] != ':',
            decreases cs@.len() - i,
        {
            i = i + 1;
        }
        proof {
            lemma_host_part(cs@, i as int);
        }
        let mut host: Vec<char> = Vec::new();
        let mut j: usize = 0;
        while j < i
            invariant
                j <= i,
                i <= cs@.len(),
                host@ == cs@.take(j as int),
            decreases i - j,
        {
            host.push(cs[j]);
            assert(host@ =~= cs@.take(j + 1));
            j = j + 1;
        }
        let h = string_of(&host);
        format_host_port(h.as_str(), self.node_port)
    }

    /// A copy of the record.
    pub fn copy(&self) -> (r: Self)
        ensures
            r@ == self@,
    {
        NodeInfo {
            id: self.id.clone(),
            addr: self.addr.clone(),
            node_port: self.node_port,
            status: self.status,
            last_seen: self.last_seen,
        }
    }
}

/// The host part is the prefix before the first `':'`.
proof fn lemma_host_part(s: Seq<char>, i: int)
    requires
        0 <= i <= s.len(),
        forall|j: int| 0 <= j < i ==> s[j] != ':',
        i == s.len() || s[i] == ':',
    ensures
        host_part(s) == s.take(i),
    decreases s.len(),
{
    if s.len() > 0 {
        if i == 0 {
            assert(s.take(0) =~= Seq::<char>::empty());
        } else {
            lemma_host_part(s.drop_first(), i - 1);
            assert(s.take(i) =~= seq![s[0]] + s.drop_first().take(i - 1));
        }
    } else {
        assert(s.take(i) =~= s);
    }
}

/// What a membership map holds: each node id mapped to what is known of it.
pub uninterp spec fn members(m: DashMap<String, NodeInfo>) -> Map<Seq<char>, NodeInfoView>;

/// Calls `DashMap::new`. Claimed: the map is empty.
#[verifier::external_body]
fn members_new() -> (fresh: DashMap<String, NodeInfo>)
    ensures
        members(fresh).dom().is_empty(),
{
    DashMap::new()
}

/// Calls `DashMap::get` and copies the record out. Claimed: the record stored
/// under the id, or `None` when there is none.
#[verifier::external_body]
fn members_get(m: &DashMap<String, NodeInfo>, id: &str) -> (r: Option<NodeInfo>)
    ensures
        match r {
            Some(n) => members(*m).contains_key(id@) && n@ == members(*m)[id@],
            None => !members(*m).contains_key(id@),
        },
{
    match m.get(id) {
        Some(guard) => Some(guard.value().clone()),
        None => None,
    }
}

/// Calls `DashMap::insert`. Claimed: the id now maps to the record, and
/// nothing else changed.
#[verifier::external_body]
fn members_insert(m: &mut DashMap<String, NodeInfo>, id: String, n: NodeInfo)
    ensures
        members(*final(m)) == members(*old(m)).insert(id@, n@),
{
    m.insert(id, n);
}

/// Calls `DashMap::len`. Claimed: the number of ids stored.
#[verifier::external_body]
fn members_len(m: &DashMap<String, NodeInfo>) -> (r: usize)
    ensures
        r == members(*m).dom().len(),
{
    m.len()
}

/// Calls `DashMap::iter` and copies every id and record out. Claimed: each
/// stored id appears exactly once, with its record; the order is the map's
/// own and nothing is claimed of it.
#[verifier::external_body]
fn members_entries(m: &DashMap<String, NodeInfo>) -> (r: Vec<(String, NodeInfo)>)
    ensures
        forall|i: int, j: int| 0 <= i < j < r@.len() ==> r@[i].0@ != r@[j].0@,
        forall|i: int|
            0 <= i < r@.len() ==> members(*m).contains_key(#[trigger] r@[i].0@) && members(*m)[r@[i].0@] == r@[i].1@,
        forall|k: Seq<char>|
            members(*m).contains_key(k) ==> exists|i: int| 0 <= i < r@.len() && #[trigger] r@[i].0@ == k,
{
    m.iter().map(|item| (item.key().clone(), item.value().clone())).collect()
}

/// The record of a configured peer: known by the id derived from its
/// address, status unknown, never seen.
pub open spec fn peer_record(peer: Seq<char>, node_port: u16) -> NodeInfoView {
    NodeInfoView { id: peer_node_id(peer), addr: peer, node_port, status: NodeStatus::Unknown, last_seen: 0 }
}

/// The map after adding the records of the peers, in order.
pub open spec fn with_peers(m: Map<Seq<char>, NodeInfoView>, peers: Seq<Seq<char>>, node_port: u16) -> Map<Seq<char>, NodeInfoView>
    decreases peers.len(),
{
    if peers.len() == 0 {
        m
    } else {
        with_peers(m, peers.drop_last(), node_port).insert(peer_node_id(peers.last()), peer_record(peers.last(), node_port))
    }
}

/// The character views of a list of strings.
pub open spec fn string_views(v: Seq<String>) -> Seq<Seq<char>> {
    v.map_values(|s: String| s@)
}

/// The membership a node starts with at unix time `now`: itself, healthy and
/// seen now, then every configured peer.
pub open spec fn initial_members(config: Config, now: u64) -> Map<Seq<char>, NodeInfoView> {
    let local = NodeInfoView {
        id: config.node_id@,
        addr: host_port(config.host@, config.http_port as nat),
        node_port: config.node_port,
        status: NodeStatus::Healthy,
        last_seen: now,
    };
    with_peers(Map::empty().insert(config.node_id@, local), string_views(config.peers@), config.node_port)
}

/// One gossiped record merged in: a record about the local node is ignored;
/// an unknown node is added as told; a known node takes the status and
/// sighting time told when they are more recent than its own.
pub open spec fn merge_one(m: Map<Seq<char>, NodeInfoView>, local: Seq<char>, remote: NodeInfoView) -> Map<Seq<char>, NodeInfoView> {
    if remote.id == local {
        m
    } else if m.contains_key(remote.id) {
        if remote.last_seen > m[remote.id].last_seen {
            m.insert(remote.id, NodeInfoView { status: remote.status, last_seen: remote.last_seen, ..m[remote.id] })
        } else {
            m
        }
    } else {
        m.insert(remote.id, remote)
    }
}

/// All gossiped records merged in, in order.
pub open spec fn merge_all(m: Map<Seq<char>, NodeInfoView>, local: Seq<char>, remotes: Seq<NodeInfoView>) -> Map<Seq<char>, NodeInfoView>
    decreases remotes.len(),
{
    if remotes.len() == 0 {
        m
    } else {
        merge_one(merge_all(m, local, remotes.drop_last()), local, remotes.last())
    }
}

/// Whether a node counts as stale at `now`: not the local node, seen at
/// least once, and seen more than `stale_secs` before `now` (a sighting
/// after `now`, from a clock ahead of ours, is not stale).
pub open spec fn is_stale(n: NodeInfoView, local: Seq<char>, now: u64, stale_secs: u64) -> bool {
    &&& n.id != local
    &&& n.last_seen > 0
    &&& n.last_seen + stale_secs < now
}

/// Every stale node marked unhealthy.
pub open spec fn mark_stale(m: Map<Seq<char>, NodeInfoView>, local: Seq<char>, now: u64, stale_secs: u64) -> Map<Seq<char>, NodeInfoView> {
    Map::new(
        |k: Seq<char>| m.contains_key(k),
        |k: Seq<char>| if is_stale(m[k], local, now, stale_secs) {
            NodeInfoView { status: NodeStatus::Unhealthy, ..m[k] }
        } else {
            m[k]
        },
    )
}

/// Each record is stored under its own id.
pub open spec fn keyed_by_id(m: Map<Seq<char>, NodeInfoView>) -> bool {
    forall|k: Seq<char>| #[trigger] m.contains_key(k) ==> m[k].id == k
}

pub struct ClusterState {
    nodes: DashMap<String, NodeInfo>,
    local_id: String,
    stale_secs: u64,
}

impl ClusterState {
    /// Well-formed: each record is stored under its own id.
    pub closed spec fn wf(&self) -> bool {
        keyed_by_id(members(self.nodes))
    }

    /// A well-formed state stores each record under its own id.
    pub proof fn lemma_wf_keyed(&self)
        requires
            self.wf(),
        ensures
            keyed_by_id(self.spec_members()),
    {
    }

    /// What is known of each node, by id.
    pub closed spec fn spec_members(&self) -> Map<Seq<char>, NodeInfoView> {
        members(self.nodes)
    }

    pub closed spec fn spec_local_id(&self) -> Seq<char> {
        self.local_id@
    }

    /// How long a node may go unseen before it is marked unhealthy.
    pub closed spec fn spec_stale_secs(&self) -> u64 {
        self.stale_secs
    }

    /// The membership of a starting node: itself, then its configured peers.
    pub fn new(config: Config) -> (r: Self)
        requires
            config.heartbeat_interval_secs * 3 <= u64::MAX,
        ensures
            exists|now: u64| r.spec_members() == initial_members(config, now),
            exists|t: SystemTime| r.spec_members() == initial_members(config, unix_secs_of(t)),
            r.wf(),
            r.spec_local_id() == config.node_id@,
            r.spec_stale_secs() == config.heartbeat_interval_secs * 3,
    {
        let now = current_unix_secs();
        Self::new_at(config, now)
    }

    /// The membership of a node starting at unix time `now`.
    pub fn new_at(config: Config, now: u64) -> (r: Self)
        requires
            config.heartbeat_interval_secs * 3 <= u64::MAX,
        ensures
            r.spec_members() == initial_members(config, now),
            r.wf(),
            r.spec_local_id() == config.node_id@,
            r.spec_stale_secs() == config.heartbeat_interval_secs * 3,
    {
        let mut state = ClusterState {
            nodes: members_new(),
            local_id: config.node_id.clone(),
            stale_secs: config.heartbeat_interval_secs * 3,
        };
        let local = NodeInfo {
            id: config.node_id.clone(),
            addr: config.node_addr(),
            node_port: config.node_port,
            status: NodeStatus::Healthy,
            last_seen: now,
        };
        let ghost start = members(state.nodes);
        members_insert(&mut state.nodes, config.node_id.clone(), local);
        let ghost first = members(state.nodes);
        proof {
            assert(start =~= Map::<Seq<char>, NodeInfoView>::empty());
        }
        let ghost peers = string_views(config.peers@);
        let mut i: usize = 0;
        while i < config.peers.len()
            invariant
                i <= config.peers@.len(),
                peers == string_views(config.peers@),
                state.local_id@ == config.node_id@,
                state.stale_secs == config.heartbeat_interval_secs * 3,
                members(state.nodes) == with_peers(first, peers.take(i as int), config.node_port),
                keyed_by_id(members(state.nodes)),
            decreases config.peers@.len() - i,
        {
            let peer_addr = &config.peers[i];
            let node_id = peer_to_node_id(peer_addr.as_str());
            let info = NodeInfo {
                id: node_id.clone(),
                addr: peer_addr.clone(),
                node_port: config.node_port,
                status: NodeStatus::Unknown,
                last_seen: 0,
            };
            members_insert(&mut state.nodes, node_id, info);
            proof {
                assert(peers.take(i + 1).drop_last() =~= peers.take(i as int));
                assert(peers.take(i + 1).last() == peer_addr@);
            }
            i = i + 1;
        }
        proof {
            assert(peers.take(config.peers@.len() as int) =~= peers);
        }
        state
    }

    /// Every record, each once, in the map's own order.
    pub fn all_nodes(&self) -> (r: Vec<NodeInfo>)
        requires
            self.wf(),
        ensures
            lists_records(node_views(r@), self.spec_members()),
    {
        let r = self.nodes_where(&NodeFilter::All);
        assert(admitted(self.spec_members(), NodeFilter::All) =~= self.spec_members());
        r
    }

    /// The records of the nodes currently marked healthy, each once.
    pub fn healthy_nodes(&self) -> (r: Vec<NodeInfo>)
        requires
            self.wf(),
        ensures
            lists_records(node_views(r@), healthy_only(self.spec_members())),
    {
        let r = self.nodes_where(&NodeFilter::Healthy);
        assert(admitted(self.spec_members(), NodeFilter::Healthy) =~= healthy_only(self.spec_members()));
        r
    }

    /// The records the filter admits, each once, in the map's own order.
    pub(crate) fn nodes_where(&self, filter: &NodeFilter) -> (r: Vec<NodeInfo>)
        requires
            self.wf(),
        ensures
            lists_records(node_views(r@), admitted(self.spec_members(), *filter)),
    {
        let ghost m = members(self.nodes);
        let items = members_entries(&self.nodes);
        let ghost rv = items@.map_values(|p: (String, NodeInfo)| p.1@);
        let mut out: Vec<NodeInfo> = Vec::new();
        let mut i: usize = 0;
        while i < items.len()
            invariant
                i <= items@.len(),
                rv == items@.map_values(|p: (String, NodeInfo)| p.1@),
                node_views(out@) == pick(rv.take(i as int), *filter),
            decreases items@.len() - i,
        {
            let info = &items[i].1;
            let ghost prev = out@;
            proof {
                assert(rv.take(i + 1).drop_last() =~= rv.take(i as int));
                assert(rv.take(i + 1).last() == info@);
            }
            if filter.admits(info) {
                out.push(info.copy());
                proof {
                    assert(node_views(out@) =~= node_views(prev).push(info@));
                }
            }
            i = i + 1;
        }
        proof {
            assert(rv.take(rv.len() as int) =~= rv);
            lemma_pick_lists(items@, m, *filter, rv.len() as int);
        }
        out
    }

    /// The address of a node, when it is known.
    pub fn node_address(&self, node_id: &str) -> (r: Option<String>)
        ensures
            match r {
                Some(a) => self.spec_members().contains_key(node_id@) && a@ == self.spec_members()[node_id@].addr,
                None => !self.spec_members().contains_key(node_id@),
            },
    {
        match members_get(&self.nodes, node_id) {
            Some(n) => Some(n.addr),
            None => None,
        }
    }

    /// Marks a known node healthy and seen now; an unknown id changes nothing.
    pub fn mark_healthy(&mut self, node_id: &str)
        requires
            old(self).wf(),
        ensures
            exists|now: u64| final(self).spec_members() == mark_healthy_at_spec(old(self).spec_members(), node_id@, now),
            exists|t: SystemTime| final(self).spec_members() == mark_healthy_at_spec(
                old(self).spec_members(),
                node_id@,
                unix_secs_of(t),
            ),
            final(self).spec_local_id() == old(self).spec_local_id(),
            final(self).spec_stale_secs() == old(self).spec_stale_secs(),
            final(self).wf(),
    {
        let now = current_unix_secs();
        self.mark_healthy_at(node_id, now)
    }

    /// Marks a known node healthy and seen at unix time `now`.
    pub fn mark_healthy_at(&mut self, node_id: &str, now: u64)
        requires
            old(self).wf(),
        ensures
            final(self).spec_members() == mark_healthy_at_spec(old(self).spec_members(), node_id@, now),
            final(self).spec_local_id() == old(self).spec_local_id(),
            final(self).spec_stale_secs() == old(self).spec_stale_secs(),
            final(self).wf(),
    {
        if let Some(mut n) = members_get(&self.nodes, node_id) {
            n.status = NodeStatus::Healthy;
            n.last_seen = now;
            members_insert(&mut self.nodes, node_id.to_owned(), n);
        }
    }

    /// Marks a known node unhealthy; an unknown id changes nothing.
    pub fn mark_unhealthy(&mut self, node_id: &str)
        requires
            old(self).wf(),
        ensures
            final(self).spec_members() == if old(self).spec_members().contains_key(node_id@) {
                old(self).spec_members().insert(
                    node_id@,
                    NodeInfoView { status: NodeStatus::Unhealthy, ..old(self).spec_members()[node_id@] },
                )
            } else {
                old(self).spec_members()
            },
            final(self).spec_local_id() == old(self).spec_local_id(),
            final(self).spec_stale_secs() == old(self).spec_stale_secs(),
            final(self).wf(),
    {
        if let Some(mut n) = members_get(&self.nodes, node_id) {
            n.status = NodeStatus::Unhealthy;
            members_insert(&mut self.nodes, node_id.to_owned(), n);
        }
    }

    /// Records that a known node was seen now; an unknown id changes nothing.
    pub fn update_last_seen(&mut self, node_id: &str)
        requires
            old(self).wf(),
        ensures
            exists|now: u64| final(self).spec_members() == seen_at_spec(old(self).spec_members(), node_id@, now),
            exists|t: SystemTime| final(self).spec_members() == seen_at_spec(old(self).spec_members(), node_id@, unix_secs_of(t)),
            final(self).spec_local_id() == old(self).spec_local_id(),
            final(self).spec_stale_secs() == old(self).spec_stale_secs(),
            final(self).wf(),
    {
        let now = current_unix_secs();
        self.update_last_seen_at(node_id, now)
    }

    /// Records that a known node was seen at unix time `now`.
    pub fn update_last_seen_at(&mut self, node_id: &str, now: u64)
        requires
            old(self).wf(),
        ensures
            final(self).spec_members() == seen_at_spec(old(self).spec_members(), node_id@, now),
            final(self).spec_local_id() == old(self).spec_local_id(),
            final(self).spec_stale_secs() == old(self).spec_stale_secs(),
            final(self).wf(),
    {
        if let Some(mut n) = members_get(&self.nodes, node_id) {
            n.last_seen = now;
            members_insert(&mut self.nodes, node_id.to_owned(), n);
        }
    }

    /// Stores a record under its id, replacing what was known.
    pub fn upsert_node(&mut self, info: NodeInfo)
        requires
            old(self).wf(),
        ensures
            final(self).spec_members() == old(self).spec_members().insert(info.id@, info@),
            final(self).spec_local_id() == old(self).spec_local_id(),
            final(self).spec_stale_secs() == old(self).spec_stale_secs(),
            final(self).wf(),
    {
        members_insert(&mut self.nodes, info.id.clone(), info);
    }

    /// Merges gossiped records, then marks stale nodes unhealthy, at the
    /// current time; see `merge_gossip_at`.
    pub fn merge_gossip(&mut self, nodes: Vec<NodeInfo>)
        requires
            old(self).wf(),
        ensures
            exists|now: u64| final(self).spec_members() == mark_stale(
                merge_all(old(self).spec_members(), old(self).spec_local_id(), node_views(nodes@)),
                old(self).spec_local_id(),
                now,
                old(self).spec_stale_secs(),
            ),
            exists|t: SystemTime| final(self).spec_members() == mark_stale(
                merge_all(old(self).spec_members(), old(self).spec_local_id(), node_views(nodes@)),
                old(self).spec_local_id(),
                unix_secs_of(t),
                old(self).spec_stale_secs(),
            ),
            final(self).spec_local_id() == old(self).spec_local_id(),
            final(self).spec_stale_secs() == old(self).spec_stale_secs(),
            final(self).wf(),
    {
        let now = current_unix_secs();
        self.merge_gossip_at(nodes, now)
    }

    /// Merges gossiped records in order (the most recent sighting wins;
    /// records about this node are ignored), then marks every node unseen
    /// for longer than the stale threshold at unix time `now` unhealthy.
    pub fn merge_gossip_at(&mut self, nodes: Vec<NodeInfo>, now: u64)
        requires
            old(self).wf(),
        ensures
            final(self).spec_members() == mark_stale(
                merge_all(old(self).spec_members(), old(self).spec_local_id(), node_views(nodes@)),
                old(self).spec_local_id(),
                now,
                old(self).spec_stale_secs(),
            ),
            final(self).spec_local_id() == old(self).spec_local_id(),
            final(self).spec_stale_secs() == old(self).spec_stale_secs(),
            final(self).wf(),
    {
        let ghost m0 = members(self.nodes);
        let ghost local = self.local_id@;
        let ghost rs = node_views(nodes@);
        let mut i: usize = 0;
        while i < nodes.len()
            invariant
                i <= nodes@.len(),
                rs == node_views(nodes@),
                local == self.local_id@,
                self.local_id@ == old(self).local_id@,
                self.stale_secs == old(self).stale_secs,
                members(self.nodes) == merge_all(m0, local, rs.take(i as int)),
                keyed_by_id(members(self.nodes)),
            decreases nodes@.len() - i,
        {
            let remote = &nodes[i];
            proof {
                assert(rs.take(i + 1).drop_last() =~= rs.take(i as int));
                assert(rs.take(i + 1).last() == remote@);
            }
            if !(remote.id == self.local_id) {
                match members_get(&self.nodes, remote.id.as_str()) {
                    Some(mut known) => {
                        if remote.last_seen > known.last_seen {
                            known.status = remote.status;
                            known.last_seen = remote.last_seen;
                            members_insert(&mut self.nodes, remote.id.clone(), known);
                        }
                    }
                    None => {
                        members_insert(&mut self.nodes, remote.id.clone(), remote.copy());
                    }
                }
            }
            i = i + 1;
        }
        proof {
            assert(rs.take(rs.len() as int) =~= rs);
        }
        let ghost m1 = members(self.nodes);
        let items = members_entries(&self.nodes);
        let stale_secs = self.stale_secs;
        let mut j: usize = 0;
        while j < items.len()
            invariant
                j <= items@.len(),
                local == self.local_id@,
                self.local_id@ == old(self).local_id@,
                self.stale_secs == old(self).stale_secs,
                stale_secs == self.stale_secs,
                keyed_by_id(m1),
                forall|a: int, b: int| 0 <= a < b < items@.len() ==> items@[a].0@ != items@[b].0@,
                forall|a: int|
                    0 <= a < items@.len() ==> m1.contains_key(#[trigger] items@[a].0@) && m1[items@[a].0@] == items@[a].1@,
                forall|k: Seq<char>| m1.contains_key(k) ==> exists|a: int| 0 <= a < items@.len() && #[trigger] items@[a].0@ == k,
                members(self.nodes).dom() == m1.dom(),
                forall|k: Seq<char>| #[trigger] members(self.nodes).contains_key(k) ==> members(self.nodes)[k] == if (exists|a: int| 0 <= a < j && #[trigger] items@[a].0@ == k) {
                    mark_stale(m1, local, now, stale_secs)[k]
                } else {
                    m1[k]
                },
            decreases items@.len() - j,
        {
            let node = &items[j].1;
            let ghost key = items@[j as int].0@;
            let ghost before = members(self.nodes);
            if !(node.id == self.local_id) && node.last_seen > 0 && now > node.last_seen && now - node.last_seen > stale_secs {
                let mut marked = node.copy();
                marked.status = NodeStatus::Unhealthy;
                members_insert(&mut self.nodes, items[j].0.clone(), marked);
            }
            proof {
                assert(m1[key].id == key);
                assert forall|k: Seq<char>| #[trigger] members(self.nodes).contains_key(k) implies members(self.nodes)[k] == if (exists|a: int| 0 <= a < j + 1 && #[trigger] items@[a].0@ == k) {
                    mark_stale(m1, local, now, stale_secs)[k]
                } else {
                    m1[k]
                } by {
                    if k == key {
                        assert(items@[j as int].0@ == k);
                    } else {
                        assert(before.contains_key(k));
                        if exists|a: int| 0 <= a < j + 1 && #[trigger] items@[a].0@ == k {
                            let a = choose|a: int| 0 <= a < j + 1 && #[trigger] items@[a].0@ == k;
                            assert(a < j);
                        }
                    }
                }
            }
            j = j + 1;
        }
        proof {
            assert forall|k: Seq<char>| #[trigger] m1.contains_key(k) implies (exists|a: int| 0 <= a < items@.len() && #[trigger] items@[a].0@ == k) by {
            }
            assert(members(self.nodes) =~= mark_stale(m1, local, now, stale_secs));
        }
    }

    /// How many nodes are known.
    pub fn node_count(&self) -> (r: usize)
        ensures
            r == self.spec_members().dom().len(),
    {
        members_len(&self.nodes)
    }
}

/// The views of a list of records.
pub open spec fn node_views(v: Seq<NodeInfo>) -> Seq<NodeInfoView> {
    v.map_values(|n: NodeInfo| n@)
}

/// `r` lists the records of `m`, each once.
pub open spec fn lists_records(r: Seq<NodeInfoView>, m: Map<Seq<char>, NodeInfoView>) -> bool {
    &&& forall|a: int, b: int| 0 <= a < b < r.len() ==> r[a].id != r[b].id
    &&& forall|a: int| 0 <= a < r.len() ==> m.contains_key(#[trigger] r[a].id) && m[r[a].id] == r[a]
    &&& forall|k: Seq<char>| m.contains_key(k) ==> exists|a: int| 0 <= a < r.len() && #[trigger] r[a].id == k
}

/// Which records a listing keeps.
pub enum NodeFilter {
    All,
    Healthy,
    /// Every node but the one with this id.
    Except(String),
}

/// Whether the filter keeps a record.
pub open spec fn admits(f: NodeFilter, n: NodeInfoView) -> bool {
    match f {
        NodeFilter::All => true,
        NodeFilter::Healthy => n.status == NodeStatus::Healthy,
        NodeFilter::Except(id) => n.id != id@,
    }
}

/// The records of `m` the filter keeps.
pub open spec fn admitted(m: Map<Seq<char>, NodeInfoView>, f: NodeFilter) -> Map<Seq<char>, NodeInfoView> {
    m.restrict(m.dom().filter(|k: Seq<char>| admits(f, m[k])))
}

impl NodeFilter {
    pub fn admits(&self, n: &NodeInfo) -> (r: bool)
        ensures
            r == admits(*self, n@),
    {
        match self {
            NodeFilter::All => true,
            NodeFilter::Healthy => n.status == NodeStatus::Healthy,
            NodeFilter::Except(id) => !(n.id == *id),
        }
    }
}

/// The records kept, in order.
pub open spec fn pick(v: Seq<NodeInfoView>, f: NodeFilter) -> Seq<NodeInfoView>
    decreases v.len(),
{
    if v.len() == 0 {
        v
    } else {
        let r = pick(v.drop_last(), f);
        if admits(f, v.last()) {
            r.push(v.last())
        } else {
            r
        }
    }
}

/// Picking from a listing of a map keyed by id lists the picked records.
#[verifier::spinoff_prover]
#[verifier::rlimit(80)]
proof fn lemma_pick_lists(items: Seq<(String, NodeInfo)>, m: Map<Seq<char>, NodeInfoView>, f: NodeFilter, j: int)
    requires
        0 <= j <= items.len(),
        keyed_by_id(m),
        forall|a: int, b: int| 0 <= a < b < items.len() ==> items[a].0@ != items[b].0@,
        forall|a: int| 0 <= a < items.len() ==> m.contains_key(#[trigger] items[a].0@) && m[items[a].0@] == items[a].1@,
        forall|k: Seq<char>| m.contains_key(k) ==> exists|a: int| 0 <= a < items.len() && #[trigger] items[a].0@ == k,
    ensures
        ({
            let rv = items.map_values(|p: (String, NodeInfo)| p.1@);
            let target = admitted(m, f);
            let r = pick(rv.take(j), f);
            &&& forall|a: int| #![trigger r[a]] 0 <= a < r.len() ==> exists|b: int| 0 <= b < j && #[trigger] items[b].0@ == r[a].id
            &&& forall|a: int, b: int| 0 <= a < b < r.len() ==> r[a].id != r[b].id
            &&& forall|a: int| 0 <= a < r.len() ==> target.contains_key(#[trigger] r[a].id) && target[r[a].id] == r[a]
            &&& forall|b: int| 0 <= b < j && target.contains_key(#[trigger] items[b].0@) ==> exists|a: int| 0 <= a < r.len() && r[a].id == items[b].0@
            &&& j == items.len() ==> lists_records(r, target)
        }),
    decreases j,
{
    let rv = items.map_values(|p: (String, NodeInfo)| p.1@);
    let target = admitted(m, f);
    let r = pick(rv.take(j), f);
    if j > 0 {
        lemma_pick_lists(items, m, f, j - 1);
        let r0 = pick(rv.take(j - 1), f);
        assert(rv.take(j).drop_last() =~= rv.take(j - 1));
        let x = rv[j - 1];
        assert(rv.take(j).last() == x);
        let key = items[j - 1].0@;
        assert(m[key] == x);
        assert(x.id == key);
        let kept = admits(f, x);
        assert(kept <==> target.contains_key(key));
        if kept {
            assert(r == r0.push(x));
            assert forall|a: int| #![trigger r[a]] 0 <= a < r.len() implies exists|b: int| 0 <= b < j && #[trigger] items[b].0@ == r[a].id by {
                if a < r0.len() {
                    let b = choose|b: int| 0 <= b < j - 1 && #[trigger] items[b].0@ == r0[a].id;
                } else {
                    assert(items[j - 1].0@ == r[a].id);
                }
            }
            assert forall|a: int, b: int| 0 <= a < b < r.len() implies r[a].id != r[b].id by {
                if b == r0.len() {
                    let c = choose|c: int| 0 <= c < j - 1 && #[trigger] items[c].0@ == r0[a].id;
                    assert(items[c].0@ != items[j - 1].0@);
                }
            }
            assert forall|b: int| 0 <= b < j && target.contains_key(#[trigger] items[b].0@) implies exists|a: int| 0 <= a < r.len() && r[a].id == items[b].0@ by {
                if b < j - 1 {
                    let a = choose|a: int| 0 <= a < r0.len() && r0[a].id == items[b].0@;
                    assert(r[a] == r0[a]);
                } else {
                    assert(r[r0.len() as int].id == items[b].0@);
                }
            }
        } else {
            assert(r == r0);
        }
    }
    if j == items.len() {
        assert forall|k: Seq<char>| target.contains_key(k) implies exists|a: int| 0 <= a < r.len() && #[trigger] r[a].id == k by {
            let b = choose|b: int| 0 <= b < items.len() && #[trigger] items[b].0@ == k;
        }
    }
}

/// The records of the nodes marked healthy.
pub open spec fn healthy_only(m: Map<Seq<char>, NodeInfoView>) -> Map<Seq<char>, NodeInfoView> {
    m.restrict(m.dom().filter(|k: Seq<char>| m[k].status == NodeStatus::Healthy))
}

/// A known node marked healthy and seen at `now`.
pub open spec fn mark_healthy_at_spec(m: Map<Seq<char>, NodeInfoView>, id: Seq<char>, now: u64) -> Map<Seq<char>, NodeInfoView> {
    if m.contains_key(id) {
        m.insert(id, NodeInfoView { status: NodeStatus::Healthy, last_seen: now, ..m[id] })
    } else {
        m
    }
}

/// A known node recorded as seen at `now`.
pub open spec fn seen_at_spec(m: Map<Seq<char>, NodeInfoView>, id: Seq<char>, now: u64) -> Map<Seq<char>, NodeInfoView> {
    if m.contains_key(id) {
        m.insert(id, NodeInfoView { last_seen: now, ..m[id] })
    } else {
        m
    }
}

/// Law: gossip never changes what this node knows of itself.
pub proof fn lemma_merge_keeps_local(m: Map<Seq<char>, NodeInfoView>, local: Seq<char>, remotes: Seq<NodeInfoView>, now: u64, stale_secs: u64)
    requires
        keyed_by_id(m),
    ensures
        mark_stale(merge_all(m, local, remotes), local, now, stale_secs).contains_key(local) == m.contains_key(local),
        m.contains_key(local) ==> mark_stale(merge_all(m, local, remotes), local, now, stale_secs)[local] == m[local],
    decreases remotes.len(),
{
    lemma_merge_keyed(m, local, remotes);
    lemma_merge_local_unchanged(m, local, remotes);
}

proof fn lemma_merge_local_unchanged(m: Map<Seq<char>, NodeInfoView>, local: Seq<char>, remotes: Seq<NodeInfoView>)
    ensures
        merge_all(m, local, remotes).contains_key(local) == m.contains_key(local),
        m.contains_key(local) ==> merge_all(m, local, remotes)[local] == m[local],
    decreases remotes.len(),
{
    if remotes.len() > 0 {
        lemma_merge_local_unchanged(m, local, remotes.drop_last());
    }
}

/// Merging keeps every record under its own id.
pub proof fn lemma_merge_keyed(m: Map<Seq<char>, NodeInfoView>, local: Seq<char>, remotes: Seq<NodeInfoView>)
    requires
        keyed_by_id(m),
    ensures
        keyed_by_id(merge_all(m, local, remotes)),
    decreases remotes.len(),
{
    if remotes.len() > 0 {
        lemma_merge_keyed(m, local, remotes.drop_last());
    }
}

/// Law: gossip only brings sightings forward: every node keeps at least the
/// sighting time it had, and after merging, every node told about (other
/// than this one) is known with a sighting time at least as recent as the
/// one told.
pub proof fn lemma_merge_most_recent_wins(m: Map<Seq<char>, NodeInfoView>, local: Seq<char>, remotes: Seq<NodeInfoView>)
    ensures
        forall|k: Seq<char>| m.contains_key(k) ==> #[trigger] merge_all(m, local, remotes).contains_key(k)
            && merge_all(m, local, remotes)[k].last_seen >= m[k].last_seen,
        forall|i: int| 0 <= i < remotes.len() && (#[trigger] remotes[i]).id != local ==> merge_all(m, local, remotes).contains_key(remotes[i].id)
            && merge_all(m, local, remotes)[remotes[i].id].last_seen >= remotes[i].last_seen,
    decreases remotes.len(),
{
    if remotes.len() > 0 {
        let p = remotes.drop_last();
        lemma_merge_most_recent_wins(m, local, p);
        let prev = merge_all(m, local, p);
        let cur = merge_all(m, local, remotes);
        let r = remotes.last();
        assert(cur == merge_one(prev, local, r));
        assert forall|k: Seq<char>| prev.contains_key(k) implies cur.contains_key(k) && cur[k].last_seen >= prev[k].last_seen by {
        }
        assert forall|i: int| 0 <= i < remotes.len() && (#[trigger] remotes[i]).id != local implies cur.contains_key(remotes[i].id)
            && cur[remotes[i].id].last_seen >= remotes[i].last_seen by {
            if i < remotes.len() - 1 {
                assert(p[i] == remotes[i]);
                assert(prev.contains_key(p[i].id));
            }
        }
    }
}

/// Law: after gossip is merged at `now`, every node unseen for longer than
/// the stale threshold is unhealthy, and every other record is as merged.
pub proof fn lemma_stale_nodes_unhealthy(m: Map<Seq<char>, NodeInfoView>, local: Seq<char>, now: u64, stale_secs: u64)
    ensures
        forall|k: Seq<char>| #[trigger] m.contains_key(k) && is_stale(m[k], local, now, stale_secs)
            ==> mark_stale(m, local, now, stale_secs)[k].status == NodeStatus::Unhealthy,
        forall|k: Seq<char>| #[trigger] m.contains_key(k) && !is_stale(m[k], local, now, stale_secs)
            ==> mark_stale(m, local, now, stale_secs)[k] == m[k],
        mark_stale(m, local, now, stale_secs).dom() == m.dom(),
{
    assert(mark_stale(m, local, now, stale_secs).dom() =~= m.dom());
}

/// Law: after gossip is merged and staleness checked at `now`, every node
/// other than this one that has been seen and whose last sighting is more
/// than `stale_secs` before `now` is unhealthy.
pub proof fn lemma_merge_marks_stale_unhealthy(
    m: Map<Seq<char>, NodeInfoView>,
    local: Seq<char>,
    remotes: Seq<NodeInfoView>,
    now: u64,
    stale_secs: u64,
)
    requires
        keyed_by_id(m),
    ensures
        forall|k: Seq<char>|
            #[trigger] mark_stale(merge_all(m, local, remotes), local, now, stale_secs).contains_key(k) && k != local
                && merge_all(m, local, remotes)[k].last_seen > 0 && merge_all(m, local, remotes)[k].last_seen + stale_secs
                < now ==> mark_stale(merge_all(m, local, remotes), local, now, stale_secs)[k].status == NodeStatus::Unhealthy,
{
    lemma_merge_keyed(m, local, remotes);
}

/// Law: a node that no gossiped record tells about keeps its record through
/// the merge, so a known node left unrefreshed by gossip for longer than the
/// stale threshold at `now` is marked unhealthy.
pub proof fn lemma_untold_node_goes_stale(
    m: Map<Seq<char>, NodeInfoView>,
    local: Seq<char>,
    remotes: Seq<NodeInfoView>,
    now: u64,
    stale_secs: u64,
    k: Seq<char>,
)
    requires
        keyed_by_id(m),
        m.contains_key(k),
        forall|i: int| 0 <= i < remotes.len() ==> (#[trigger] remotes[i]).id != k,
    ensures
        merge_all(m, local, remotes)[k] == m[k],
        k != local && m[k].last_seen > 0 && m[k].last_seen + stale_secs < now ==> mark_stale(
            merge_all(m, local, remotes),
            local,
            now,
            stale_secs,
        )[k].status == NodeStatus::Unhealthy,
    decreases remotes.len(),
{
    if remotes.len() > 0 {
        let p = remotes.drop_last();
        assert forall|i: int| 0 <= i < p.len() implies (#[trigger] p[i]).id != k by {
            assert(p[i] == remotes[i]);
        }
        lemma_untold_node_goes_stale(m, local, p, now, stale_secs, k);
        assert(remotes[remotes.len() - 1].id != k);
    }
    lemma_merge_keyed(m, local, remotes);
    lemma_merge_most_recent_wins(m, local, remotes);
}

} // verus!
