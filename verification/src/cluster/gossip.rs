//! Gossip: which peers hear from this node, and what they are told; and the
//! heartbeat's verdict on each peer.

use crate::clock::{current_unix_secs, unix_secs_of};
use crate::cluster::{admitted, keyed_by_id, lists_records, node_views, ClusterState, NodeFilter, NodeInfo, NodeInfoView, NodeStatus};
use rand::seq::SliceRandom;
use std::time::SystemTime;
use vstd::prelude::*;

verus! {

#[derive(Debug, Clone)]
pub struct GossipMessage {
    pub from_id: String,
    pub nodes: Vec<NodeInfo>,
    pub timestamp: u64,
}

/// Calls `SliceRandom::choose_multiple` with `rand::thread_rng()` on the
/// positions `0..len`. Claimed, from rand's documentation (elements chosen
/// without repetition; all of them when there are fewer than `amount`):
/// `min(amount, len)` distinct positions below `len`. Which ones, and in what
/// order, is left to chance.
#[verifier::external_body]
fn choose_positions(len: usize, amount: usize) -> (r: Vec<usize>)
    ensures
        r@.len() == if amount < len { amount } else { len },
        forall|i: int| 0 <= i < r@.len() ==> r@[i] < len,
        forall|i: int, j: int| 0 <= i < j < r@.len() ==> r@[i] != r@[j],
{
    let positions: Vec<usize> = (0..len).collect();
    positions.choose_multiple(&mut rand::thread_rng(), amount).cloned().collect()
}

/// How many peers a gossip round reaches among `p` known peers: half of them,
/// at least one; none when there is no peer.
pub open spec fn gossip_fanout(p: nat) -> nat {
    if p == 0 {
        0
    } else if p / 2 >= 1 {
        p / 2
    } else {
        1
    }
}

/// `r` holds the addresses of distinct nodes other than `local`.
pub open spec fn addresses_of_distinct_peers(r: Seq<String>, m: Map<Seq<char>, NodeInfoView>, local: Seq<char>) -> bool {
    exists|ids: Seq<Seq<char>>| {
        &&& ids.len() == r.len()
        &&& ids.no_duplicates()
        &&& forall|i: int| 0 <= i < ids.len() ==> m.contains_key(#[trigger] ids[i]) && ids[i] != local && r[i]@ == m[ids[i]].addr
    }
}

/// `ids` lists every node of `m` other than `local` exactly once, and `r`
/// holds their addresses in the same order.
pub open spec fn lists_peers(r: Seq<String>, ids: Seq<Seq<char>>, m: Map<Seq<char>, NodeInfoView>, local: Seq<char>) -> bool {
    &&& ids.len() == r.len()
    &&& ids.no_duplicates()
    &&& ids.to_set() == m.dom().remove(local)
    &&& forall|i: int| 0 <= i < ids.len() ==> m.contains_key(#[trigger] ids[i]) && ids[i] != local && r[i]@ == m[ids[i]].addr
}

/// `r` holds the peers at the drawn positions `p`, in the order drawn.
pub open spec fn picked_peers(peers: Seq<String>, p: Seq<usize>, r: Seq<String>) -> bool {
    &&& r.len() == p.len()
    &&& forall|i: int| 0 <= i < p.len() ==> (#[trigger] r[i])@ == peers[p[i] as int]@
}

/// `p` is a draw that `choose_positions` can make: `fanout` distinct
/// positions below `len`.
pub open spec fn valid_draw(p: Seq<usize>, len: nat, fanout: nat) -> bool {
    &&& p.len() == fanout
    &&& forall|i: int| 0 <= i < p.len() ==> p[i] < len
    &&& forall|i: int, j: int| 0 <= i < j < p.len() ==> p[i] != p[j]
}

/// The addresses of every known node other than `local_id`, each once, in
/// the membership map's own order.
pub fn peer_addresses(state: &ClusterState, local_id: &str) -> (r: Vec<String>)
    requires
        state.wf(),
    ensures
        exists|ids: Seq<Seq<char>>| lists_peers(r@, ids, state.spec_members(), local_id@),
        r@.len() == state.spec_members().dom().remove(local_id@).len(),
{
    let ghost m = state.spec_members();
    let nodes = state.all_nodes();
    let ghost nv = node_views(nodes@);
    let mut peers: Vec<String> = Vec::new();
    let ghost mut ids: Seq<Seq<char>> = Seq::empty();
    let mut i: usize = 0;
    while i < nodes.len()
        invariant
            i <= nodes@.len(),
            nv == node_views(nodes@),
            lists_records(nv, m),
            ids.len() == peers@.len(),
            ids.no_duplicates(),
            forall|a: int| 0 <= a < ids.len() ==> m.contains_key(#[trigger] ids[a]) && ids[a] != local_id@ && peers@[a]@ == m[ids[a]].addr,
            forall|a: int| 0 <= a < ids.len() ==> exists|b: int| 0 <= b < i && nv[b].id == #[trigger] ids[a],
            forall|b: int| 0 <= b < i && (#[trigger] nv[b]).id != local_id@ ==> ids.contains(nv[b].id),
        decreases nodes@.len() - i,
    {
        let n = &nodes[i];
        let local = local_id.to_owned();
        if !(n.id == local) {
            proof {
                assert(nv[i as int] == n@);
                assert(!ids.contains(n.id@)) by {
                    if ids.contains(n.id@) {
                        let a = choose|a: int| 0 <= a < ids.len() && ids[a] == n.id@;
                        let b = choose|b: int| 0 <= b < i && nv[b].id == #[trigger] ids[a];
                        assert(nv[b].id != nv[i as int].id);
                    }
                }
                let ids2 = ids.push(n.id@);
                assert forall|a: int| 0 <= a < ids2.len() implies exists|b: int| 0 <= b < i + 1 && nv[b].id == #[trigger] ids2[a] by {
                    if a < ids.len() {
                        assert(ids2[a] == ids[a]);
                        let b = choose|b: int| 0 <= b < i && nv[b].id == #[trigger] ids[a];
                    } else {
                        assert(nv[i as int].id == ids2[a]);
                    }
                }
                assert forall|b: int| 0 <= b < i + 1 && (#[trigger] nv[b]).id != local_id@ implies ids2.contains(nv[b].id) by {
                    if b < i {
                        let a = choose|a: int| 0 <= a < ids.len() && ids[a] == nv[b].id;
                        assert(ids2[a] == nv[b].id);
                    } else {
                        assert(ids2[ids.len() as int] == nv[b].id);
                    }
                }
                ids = ids2;
            }
            peers.push(n.addr.clone());
        } else {
            proof {
                assert(nv[i as int] == n@);
            }
        }
        i = i + 1;
    }
    proof {
        assert forall|k: Seq<char>| ids.to_set().contains(k) <==> m.dom().remove(local_id@).contains(k) by {
            if m.contains_key(k) && k != local_id@ {
                let b = choose|b: int| 0 <= b < nv.len() && #[trigger] nv[b].id == k;
                assert(ids.contains(nv[b].id));
            }
        }
        assert(ids.to_set() =~= m.dom().remove(local_id@));
        ids.unique_seq_to_set();
        assert(lists_peers(peers@, ids, m, local_id@));
    }
    peers
}

/// The targets of a gossip round, given the peers' addresses and the
/// positions drawn among them: the peer at each position, in the order drawn.
pub fn gossip_targets_from(peers: &Vec<String>, positions: &Vec<usize>) -> (r: Vec<String>)
    requires
        forall|i: int| 0 <= i < positions@.len() ==> positions@[i] < peers@.len(),
    ensures
        picked_peers(peers@, positions@, r@),
{
    let mut targets: Vec<String> = Vec::new();
    let mut j: usize = 0;
    while j < positions.len()
        invariant
            j <= positions@.len(),
            forall|a: int| 0 <= a < positions@.len() ==> positions@[a] < peers@.len(),
            targets@.len() == j,
            forall|a: int| 0 <= a < j ==> (#[trigger] targets@[a])@ == peers@[positions@[a] as int]@,
        decreases positions@.len() - j,
    {
        let p = positions[j];
        targets.push(peers[p].clone());
        j = j + 1;
    }
    targets
}

/// The peers a gossip round is sent to: a random choice of half the known
/// nodes other than `local_id` (at least one, when there is any), each at
/// most once, given by address. The result is the peers (listed by
/// `peer_addresses`) at the positions of a random draw (`choose_positions`),
/// in the order drawn; which draw is left to chance.
pub fn select_gossip_targets(state: &ClusterState, local_id: &str) -> (r: Vec<String>)
    requires
        state.wf(),
    ensures
        r@.len() == gossip_fanout(state.spec_members().dom().remove(local_id@).len()),
        addresses_of_distinct_peers(r@, state.spec_members(), local_id@),
        exists|peers: Seq<String>, ids: Seq<Seq<char>>, p: Seq<usize>| {
            &&& lists_peers(peers, ids, state.spec_members(), local_id@)
            &&& valid_draw(p, peers.len(), gossip_fanout(peers.len()))
            &&& picked_peers(peers, p, r@)
        },
{
    let ghost m = state.spec_members();
    let peers = peer_addresses(state, local_id);
    let ghost ids = choose|ids: Seq<Seq<char>>| lists_peers(peers@, ids, m, local_id@);
    if peers.len() == 0 {
        let r: Vec<String> = Vec::new();
        proof {
            assert(addresses_of_distinct_peers(Seq::<String>::empty(), m, local_id@)) by {
                assert(Seq::<Seq<char>>::empty().no_duplicates());
            }
            assert(valid_draw(Seq::<usize>::empty(), 0, 0));
            assert(picked_peers(peers@, Seq::<usize>::empty(), r@));
        }
        return r;
    }
    let half = peers.len() / 2;
    let sample_size = if half >= 1 { half } else { 1 };
    let positions = choose_positions(peers.len(), sample_size);
    let targets = gossip_targets_from(&peers, &positions);
    proof {
        let tids = Seq::new(positions@.len(), |a: int| ids[positions@[a] as int]);
        assert(tids.no_duplicates()) by {
            assert forall|a: int, b: int| 0 <= a < tids.len() && 0 <= b < tids.len() && a != b implies tids[a] != tids[b] by {
                if a < b {
                    assert(positions@[a] != positions@[b]);
                } else {
                    assert(positions@[b] != positions@[a]);
                }
            }
        }
        assert forall|a: int| 0 <= a < tids.len() implies m.contains_key(#[trigger] tids[a]) && tids[a] != local_id@ && targets@[a]@ == m[tids[a]].addr by {
            assert(targets@[a]@ == peers@[positions@[a] as int]@);
        }
        assert(valid_draw(positions@, peers@.len(), gossip_fanout(peers@.len())));
    }
    targets
}

/// What one gossip post records: when the peer took the message, this node
/// is marked seen now; otherwise nothing changes.
pub fn record_gossip_sent(state: &mut ClusterState, local_id: &str, delivered: bool)
    requires
        old(state).wf(),
    ensures
        final(state).wf(),
        final(state).spec_local_id() == old(state).spec_local_id(),
        final(state).spec_stale_secs() == old(state).spec_stale_secs(),
        delivered ==> exists|now: u64| final(state).spec_members() == crate::cluster::seen_at_spec(old(state).spec_members(), local_id@, now),
        delivered ==> exists|t: SystemTime| final(state).spec_members() == crate::cluster::seen_at_spec(
            old(state).spec_members(),
            local_id@,
            unix_secs_of(t),
        ),
        !delivered ==> final(state).spec_members() == old(state).spec_members(),
{
    if delivered {
        state.update_last_seen(local_id);
    }
}

/// The message a gossip round sends at the current time; see
/// `gossip_message_at`.
pub fn gossip_message(state: &ClusterState, from_id: &str) -> (r: GossipMessage)
    requires
        state.wf(),
    ensures
        r.from_id@ == from_id@,
        lists_records(node_views(r.nodes@), state.spec_members()),
        exists|t: SystemTime| r.timestamp == unix_secs_of(t),
{
    gossip_message_at(state, from_id, current_unix_secs())
}

/// The message a gossip round sends at unix time `now`: this node's id,
/// everything it knows, and the time.
pub fn gossip_message_at(state: &ClusterState, from_id: &str, now: u64) -> (r: GossipMessage)
    requires
        state.wf(),
    ensures
        r.from_id@ == from_id@,
        lists_records(node_views(r.nodes@), state.spec_members()),
        r.timestamp == now,
{
    GossipMessage { from_id: from_id.to_owned(), nodes: state.all_nodes(), timestamp: now }
}

/// The nodes a heartbeat round checks: every known node other than
/// `local_id`, each once.
pub fn heartbeat_targets(state: &ClusterState, local_id: &str) -> (r: Vec<NodeInfo>)
    requires
        state.wf(),
    ensures
        lists_records(node_views(r@), state.spec_members().remove(local_id@)),
{
    let filter = NodeFilter::Except(local_id.to_owned());
    let r = state.nodes_where(&filter);
    proof {
        let m = state.spec_members();
        assert(keyed_by_id(m)) by {
            state.lemma_wf_keyed();
        }
        assert(admitted(m, filter) =~= m.remove(local_id@));
    }
    r
}

/// The heartbeat's verdict on a node: a node that answered is marked healthy
/// and seen now; one that did not is marked unhealthy.
pub fn record_health_check(state: &mut ClusterState, node_id: &str, answered: bool)
    requires
        old(state).wf(),
    ensures
        final(state).wf(),
        final(state).spec_local_id() == old(state).spec_local_id(),
        final(state).spec_stale_secs() == old(state).spec_stale_secs(),
        answered ==> exists|now: u64| final(state).spec_members() == crate::cluster::mark_healthy_at_spec(old(state).spec_members(), node_id@, now),
        answered ==> exists|t: SystemTime| final(state).spec_members() == crate::cluster::mark_healthy_at_spec(
            old(state).spec_members(),
            node_id@,
            unix_secs_of(t),
        ),
        !answered ==> final(state).spec_members() == if old(state).spec_members().contains_key(node_id@) {
            old(state).spec_members().insert(node_id@, NodeInfoView { status: NodeStatus::Unhealthy, ..old(state).spec_members()[node_id@] })
        } else {
            old(state).spec_members()
        },
{
    if answered {
        state.mark_healthy(node_id);
    } else {
        state.mark_unhealthy(node_id);
    }
}

} // verus!
