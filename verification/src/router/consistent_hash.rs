//! A consistent-hash ring: each node owns `virtual_nodes` points on a 64-bit
//! ring, placed by SHA-256; a key belongs to the first point at or after its
//! own hash, wrapping around to the smallest point.

use crate::router::ring_order::{least_entry, sorted_entries};
use crate::seqs::{first_distinct, strictly_increasing};
use crate::text::{decimal, push_decimal};
use sha2::{Digest, Sha256};
use std::collections::BTreeMap;
use vstd::prelude::*;
use vstd::utf8::encode_utf8;

verus! {

/// The SHA-256 digest of a byte sequence.
pub uninterp spec fn spec_sha256(data: Seq<u8>) -> Seq<u8>;

/// Calls `sha2::Sha256` (`new`, `update`, `finalize`). Claimed: the digest is
/// `spec_sha256` of the input bytes and is 32 bytes long.
#[verifier::external_body]
fn sha256(data: &[u8]) -> (digest: Vec<u8>)
    ensures
        digest@ == spec_sha256(data@),
        digest@.len() == 32,
{
    let mut hasher = Sha256::new();
    hasher.update(data);
    hasher.finalize().to_vec()
}

/// The big-endian `u64` held by the first eight bytes.
pub open spec fn be_u64(b: Seq<u8>) -> u64 {
    (b[0] as int * 0x100000000000000 + b[1] as int * 0x1000000000000 + b[2] as int * 0x10000000000
        + b[3] as int * 0x100000000 + b[4] as int * 0x1000000 + b[5] as int * 0x10000
        + b[6] as int * 0x100 + b[7] as int) as u64
}

/// The ring position of a key: the first eight bytes of the SHA-256 of its
/// UTF-8 encoding, read big-endian.
pub open spec fn ring_hash(key: Seq<char>) -> u64 {
    be_u64(spec_sha256(encode_utf8(key)))
}

/// The name of a node's `i`-th virtual node: `"{node_id}-vnode-{i}"`.
pub open spec fn vnode_key(node_id: Seq<char>, i: nat) -> Seq<char> {
    node_id + seq!['-', 'v', 'n', 'o', 'd', 'e', '-'] + decimal(i)
}

/// The ring position of a node's `i`-th virtual node.
pub open spec fn vnode_hash(node_id: Seq<char>, i: nat) -> u64 {
    ring_hash(vnode_key(node_id, i))
}

/// The ring after placing virtual nodes `0..n` of `node_id`, in that order.
pub open spec fn with_vnodes(m: Map<u64, Seq<char>>, node_id: Seq<char>, n: nat) -> Map<u64, Seq<char>>
    decreases n,
{
    if n == 0 {
        m
    } else {
        with_vnodes(m, node_id, (n - 1) as nat).insert(vnode_hash(node_id, (n - 1) as nat), node_id)
    }
}

/// The ring after taking out the points of virtual nodes `0..n` of `node_id`.
pub open spec fn without_vnodes(m: Map<u64, Seq<char>>, node_id: Seq<char>, n: nat) -> Map<u64, Seq<char>>
    decreases n,
{
    if n == 0 {
        m
    } else {
        without_vnodes(m, node_id, (n - 1) as nat).remove(vnode_hash(node_id, (n - 1) as nat))
    }
}

/// `q` lists the points of `d` in increasing order.
pub open spec fn is_ring_order(q: Seq<u64>, d: Set<u64>) -> bool {
    &&& strictly_increasing(q)
    &&& forall|x: u64| q.contains(x) <==> d.contains(x)
}

/// The points of a ring in increasing order.
pub open spec fn ring_order(d: Set<u64>) -> Seq<u64> {
    choose|q: Seq<u64>| is_ring_order(q, d)
}

/// The points of `q` at or after `h`, in the order of `q`.
pub open spec fn points_from(q: Seq<u64>, h: u64) -> Seq<u64>
    decreases q.len(),
{
    if q.len() == 0 {
        q
    } else {
        let r = points_from(q.drop_last(), h);
        if q.last() >= h {
            r.push(q.last())
        } else {
            r
        }
    }
}

/// The owners met walking clockwise from `h`: the points at or after `h` in
/// increasing order, then every point from the smallest.
pub open spec fn ring_walk(m: Map<u64, Seq<char>>, h: u64) -> Seq<Seq<char>> {
    let q = ring_order(m.dom());
    (points_from(q, h) + q).map_values(|k: u64| m[k])
}

/// The smallest point at or after `h`.
pub open spec fn is_successor(m: Map<u64, Seq<char>>, h: u64, k: u64) -> bool {
    &&& m.contains_key(k)
    &&& k >= h
    &&& forall|k2: u64| m.contains_key(k2) && k2 >= h ==> k <= k2
}

/// The smallest point of the ring.
pub open spec fn is_first_point(m: Map<u64, Seq<char>>, k: u64) -> bool {
    &&& m.contains_key(k)
    &&& forall|k2: u64| m.contains_key(k2) ==> k <= k2
}

/// The node that owns position `h`: the owner of the smallest point at or
/// after `h`, else (wrapping around) of the smallest point; `None` for an
/// empty ring.
pub open spec fn ring_owner(m: Map<u64, Seq<char>>, h: u64) -> Option<Seq<char>> {
    if m.dom().is_empty() {
        None
    } else if exists|k: u64| is_successor(m, h, k) {
        Some(m[choose|k: u64| is_successor(m, h, k)])
    } else {
        Some(m[choose|k: u64| is_first_point(m, k)])
    }
}

/// The first `max(count, 1)` distinct owners met walking clockwise from `h`
/// (all of them where there are fewer).
pub open spec fn ring_owners(m: Map<u64, Seq<char>>, h: u64, count: nat) -> Seq<Seq<char>> {
    let d = first_distinct(ring_walk(m, h));
    let n: nat = if count == 0 { 1 } else { count };
    if d.len() <= n {
        d
    } else {
        d.take(n as int)
    }
}

/// The character views of a sequence of strings.
pub open spec fn views(v: Seq<String>) -> Seq<Seq<char>> {
    v.map_values(|s: String| s@)
}

/// Calls `BTreeMap::range(h..)` and takes its first item. Claimed, from std's
/// documentation of `range` (items in ascending key order): the result is the
/// entry with the smallest key at or after `h`, and `None` only when every key
/// is below `h`.
#[verifier::external_body]
fn first_at_or_after<'a>(ring: &'a BTreeMap<u64, String>, h: u64) -> (r: Option<(&'a u64, &'a String)>)
    ensures
        r matches Some((k, v)) ==> {
            &&& ring@.contains_key(*k)
            &&& *k >= h
            &&& ring@[*k] == *v
            &&& forall|k2: u64| ring@.contains_key(k2) && k2 >= h ==> *k <= k2
        },
        r is None ==> forall|k2: u64| ring@.contains_key(k2) ==> k2 < h,
{
    ring.range(h..).next()
}

/// Whether `names` holds a string equal to `name`. The ids already met are
/// kept in a vector searched in turn: vstd's specifications of `HashSet`
/// hold only for key types known to obey its key model, and `String` is not
/// among them, so a set of ids would leave membership unstated.
fn contains_name(names: &Vec<String>, name: &String) -> (b: bool)
    ensures
        b == views(names@).contains(name@),
{
    let mut i: usize = 0;
    while i < names.len()
        invariant
            i <= names@.len(),
            forall|j: int| 0 <= j < i ==> names@[j]@ != name@,
        decreases names@.len() - i,
    {
        if names[i] == *name {
            assert(views(names@)[i as int] == name@);
            return true;
        }
        i = i + 1;
    }
    proof {
        if views(names@).contains(name@) {
            let j = choose|j: int| 0 <= j < views(names@).len() && views(names@)[j] == name@;
            assert(names@[j]@ == name@);
        }
    }
    false
}

/// Any increasing listing of a ring's points is `ring_order`.
pub proof fn lemma_ring_order_is(q: Seq<u64>, d: Set<u64>)
    requires
        is_ring_order(q, d),
    ensures
        ring_order(d) == q,
{
    let c = ring_order(d);
    assert(is_ring_order(c, d));
    crate::seqs::lemma_increasing_unique(c, q);
}

/// `points_from` keeps the points at or after `h`, in increasing order.
pub proof fn lemma_points_from(q: Seq<u64>, h: u64)
    requires
        strictly_increasing(q),
    ensures
        strictly_increasing(points_from(q, h)),
        forall|x: u64|
            #![trigger points_from(q, h).contains(x)]
            #![trigger q.contains(x)]
            points_from(q, h).contains(x) <==> (q.contains(x) && x >= h),
    decreases q.len(),
{
    if q.len() > 0 {
        let p = q.drop_last();
        assert(strictly_increasing(p));
        lemma_points_from(p, h);
        let r = points_from(p, h);
        assert forall|x: u64| points_from(q, h).contains(x) <==> (q.contains(x) && x >= h) by {
            assert(q =~= p.push(q.last()));
            if q.contains(x) && x >= h {
                let i = choose|i: int| 0 <= i < q.len() && q[i] == x;
                if i < q.len() - 1 {
                    assert(p[i] == x);
                    assert(p.contains(x));
                    assert(r.contains(x));
                    if q.last() >= h {
                        let j = choose|j: int| 0 <= j < r.len() && r[j] == x;
                        assert(r.push(q.last())[j] == x);
                    }
                } else {
                    assert(r.push(q.last())[r.len() as int] == x);
                }
            }
            if points_from(q, h).contains(x) {
                if q.last() >= h {
                    let j = choose|j: int| 0 <= j < r.push(q.last()).len() && r.push(q.last())[j] == x;
                    if j < r.len() {
                        assert(r[j] == x);
                        assert(r.contains(x));
                        assert(p.contains(x));
                        let i = choose|i: int| 0 <= i < p.len() && p[i] == x;
                        assert(q[i] == x);
                    } else {
                        assert(q[q.len() - 1] == x);
                    }
                } else {
                    assert(r.contains(x));
                    assert(p.contains(x));
                    let i = choose|i: int| 0 <= i < p.len() && p[i] == x;
                    assert(q[i] == x);
                }
            }
        }
        if q.last() >= h {
            assert forall|i: int, j: int| 0 <= i < j < r.push(q.last()).len() implies
                r.push(q.last())[i] < r.push(q.last())[j] by {
                if j == r.len() {
                    assert(r.contains(r[i]));
                    assert(p.contains(r[i]));
                    let k = choose|k: int| 0 <= k < p.len() && p[k] == r[i];
                    assert(q[k] == r[i]);
                }
            }
        }
    }
}

/// The first element of a non-empty walk heads the distinct owners.
proof fn lemma_first_distinct_head<A>(w: Seq<A>)
    requires
        w.len() > 0,
    ensures
        first_distinct(w).len() > 0,
        first_distinct(w)[0] == w[0],
{
    crate::seqs::lemma_first_distinct_prefix(w, 1);
    let e = w.take(1).drop_last();
    assert(e =~= Seq::<A>::empty());
    assert(first_distinct(e) =~= Seq::<A>::empty());
    assert(first_distinct(w.take(1)) =~= seq![w[0]]);
    assert(first_distinct(w)[0] == first_distinct(w).take(1)[0]);
}

pub struct ConsistentHashRing {
    ring: BTreeMap<u64, String>,
    virtual_nodes: usize,
}

impl ConsistentHashRing {
    /// The ring's points and the node owning each.
    pub closed spec fn points(&self) -> Map<u64, Seq<char>> {
        self.ring@.map_values(|v: String| v@)
    }

    /// How many virtual nodes each added node gets.
    pub closed spec fn spec_virtual_nodes(&self) -> nat {
        self.virtual_nodes as nat
    }

    /// A ring holds finitely many points.
    pub proof fn lemma_points_finite(&self)
        ensures
            self.points().dom().finite(),
    {
        broadcast use vstd::std_specs::btree::axiom_btree_map_view_finite_dom;
        assert(self.points().dom() =~= self.ring@.dom());
    }

    pub fn new(virtual_nodes: usize) -> (r: Self)
        ensures
            r.points() == Map::<u64, Seq<char>>::empty(),
            r.points().dom().finite(),
            r.spec_virtual_nodes() == virtual_nodes,
    {
        let r = ConsistentHashRing { ring: BTreeMap::new(), virtual_nodes };
        assert(r.points() =~= Map::<u64, Seq<char>>::empty());
        r
    }

    fn hash(key: &str) -> (h: u64)
        ensures
            h == ring_hash(key@),
    {
        let d = sha256(key.as_bytes());
        let b0 = d[0] as u64;
        let b1 = d[1] as u64;
        let b2 = d[2] as u64;
        let b3 = d[3] as u64;
        let b4 = d[4] as u64;
        let b5 = d[5] as u64;
        let b6 = d[6] as u64;
        let b7 = d[7] as u64;
        b0 * 0x100000000000000 + b1 * 0x1000000000000 + b2 * 0x10000000000 + b3 * 0x100000000
            + b4 * 0x1000000 + b5 * 0x10000 + b6 * 0x100 + b7
    }

    fn vnode_name(node_id: &str, i: usize) -> (s: String)
        ensures
            s@ == vnode_key(node_id@, i as nat),
    {
        let mut s = node_id.to_owned();
        s.push('-');
        s.push('v');
        s.push('n');
        s.push('o');
        s.push('d');
        s.push('e');
        s.push('-');
        push_decimal(&mut s, i as u64);
        assert(s@ =~= vnode_key(node_id@, i as nat));
        s
    }

    /// Places the node's virtual nodes `0..virtual_nodes` on the ring; a point
    /// already present changes owner.
    pub fn add_node(&mut self, node_id: &str)
        ensures
            final(self).spec_virtual_nodes() == old(self).spec_virtual_nodes(),
            final(self).points() == with_vnodes(old(self).points(), node_id@, old(self).spec_virtual_nodes()),
            final(self).points().dom().finite(),
    {
        let mut i: usize = 0;
        while i < self.virtual_nodes
            invariant
                i <= self.virtual_nodes,
                self.virtual_nodes == old(self).virtual_nodes,
                self.points() == with_vnodes(old(self).points(), node_id@, i as nat),
            decreases self.virtual_nodes - i,
        {
            let name = Self::vnode_name(node_id, i);
            let h = Self::hash(name.as_str());
            let ghost before = self.ring@;
            self.ring.insert(h, node_id.to_owned());
            proof {
                assert(self.ring@ == before.insert(h, self.ring@[h]));
                assert(self.points() =~= with_vnodes(old(self).points(), node_id@, (i + 1) as nat));
            }
            i = i + 1;
        }
        proof {
            self.lemma_points_finite();
        }
    }

    /// Takes the points of the node's virtual nodes off the ring, whoever owns
    /// them now.
    pub fn remove_node(&mut self, node_id: &str)
        ensures
            final(self).spec_virtual_nodes() == old(self).spec_virtual_nodes(),
            final(self).points() == without_vnodes(old(self).points(), node_id@, old(self).spec_virtual_nodes()),
            final(self).points().dom().finite(),
    {
        let mut i: usize = 0;
        while i < self.virtual_nodes
            invariant
                i <= self.virtual_nodes,
                self.virtual_nodes == old(self).virtual_nodes,
                self.points() == without_vnodes(old(self).points(), node_id@, i as nat),
            decreases self.virtual_nodes - i,
        {
            let name = Self::vnode_name(node_id, i);
            let h = Self::hash(name.as_str());
            self.ring.remove(&h);
            proof {
                assert(self.points() =~= without_vnodes(old(self).points(), node_id@, (i + 1) as nat));
            }
            i = i + 1;
        }
        proof {
            self.lemma_points_finite();
        }
    }

    /// The node owning `key`: the owner of the first point at or after the
    /// key's hash, wrapping around to the smallest point; `None` for an empty
    /// ring.
    pub fn get_node(&self, key: &str) -> (r: Option<&str>)
        ensures
            match (r, ring_owner(self.points(), ring_hash(key@))) {
                (Some(s), Some(o)) => s@ == o,
                (None, None) => true,
                _ => false,
            },
    {
        if self.ring.is_empty() {
            assert(self.points().dom() =~= Set::<u64>::empty());
            return None;
        }
        let h = Self::hash(key);
        let ghost m = self.points();
        match first_at_or_after(&self.ring, h) {
            Some((k, v)) => {
                proof {
                    assert(is_successor(m, h, *k));
                    let c = choose|k2: u64| is_successor(m, h, k2);
                    assert(c == *k);
                }
                Some(v.as_str())
            }
            None => {
                match least_entry(&self.ring) {
                    Some((k, v)) => {
                        proof {
                            assert(!(exists|k2: u64| is_successor(m, h, k2)));
                            assert(is_first_point(m, k));
                            let c = choose|k2: u64| is_first_point(m, k2);
                            assert(c == k);
                        }
                        Some(v.as_str())
                    }
                    None => {
                        assert(self.ring@.dom().is_empty());
                        None
                    }
                }
            }
        }
    }

    /// The first `max(count, 1)` distinct nodes met walking clockwise from the
    /// key's hash (all nodes, where there are fewer); empty for an empty ring.
    pub fn get_nodes(&self, key: &str, count: usize) -> (r: Vec<String>)
        ensures
            views(r@) == ring_owners(self.points(), ring_hash(key@), count as nat),
    {
        let ghost m = self.points();
        if self.ring.is_empty() {
            proof {
                assert(m.dom() =~= Set::<u64>::empty());
                lemma_ring_order_is(Seq::<u64>::empty(), m.dom());
                assert(ring_walk(m, ring_hash(key@)) =~= Seq::<Seq<char>>::empty());
                assert(views(Seq::<String>::empty()) =~= ring_owners(m, ring_hash(key@), count as nat));
            }
            return Vec::new();
        }
        let h = Self::hash(key);
        let entries = sorted_entries(&self.ring);
        let n = entries.len();
        let ghost q = entries@.map_values(|e: (u64, String)| e.0);
        proof {
            assert forall|x: u64| q.contains(x) <==> m.dom().contains(x) by {
                if m.dom().contains(x) {
                    let i = choose|i: int| 0 <= i < entries@.len() && #[trigger] entries@[i].0 == x;
                    assert(q[i] == x);
                }
                if q.contains(x) {
                    let i = choose|i: int| 0 <= i < q.len() && q[i] == x;
                    assert(entries@[i].0 == x);
                }
            }
            lemma_ring_order_is(q, m.dom());
        }
        let mut walk: Vec<usize> = Vec::new();
        let mut i: usize = 0;
        while i < n
            invariant
                i <= n,
                n == entries@.len(),
                q == entries@.map_values(|e: (u64, String)| e.0),
                forall|j: int| 0 <= j < walk@.len() ==> walk@[j] < n,
                walk@.map_values(|j: usize| q[j as int]) == points_from(q.take(i as int), h),
            decreases n - i,
        {
            let ghost before = walk@;
            if entries[i].0 >= h {
                walk.push(i);
            }
            proof {
                assert(q.take(i + 1).drop_last() =~= q.take(i as int));
                assert(q.take(i + 1).last() == q[i as int]);
                if q[i as int] >= h {
                    assert(walk@ == before.push(i));
                    assert(walk@.map_values(|j: usize| q[j as int]) =~= before.map_values(|j: usize| q[j as int]).push(q[i as int]));
                }
            }
            i = i + 1;
        }
        proof {
            assert(q.take(n as int) =~= q);
        }
        let ghost front = walk@.len();
        let mut i: usize = 0;
        while i < n
            invariant
                i <= n,
                n == entries@.len(),
                q == entries@.map_values(|e: (u64, String)| e.0),
                forall|j: int| 0 <= j < walk@.len() ==> walk@[j] < n,
                walk@.map_values(|j: usize| q[j as int]) == points_from(q, h) + q.take(i as int),
            decreases n - i,
        {
            let ghost before = walk@;
            walk.push(i);
            proof {
                assert(walk@.map_values(|j: usize| q[j as int]) =~= before.map_values(|j: usize| q[j as int]).push(q[i as int]));
                assert(q.take(i + 1) =~= q.take(i as int).push(q[i as int]));
                assert(points_from(q, h) + q.take(i + 1) =~= (points_from(q, h) + q.take(i as int)).push(q[i as int]));
            }
            i = i + 1;
        }
        let ghost w = ring_walk(m, h);
        proof {
            assert(q.take(n as int) =~= q);
            assert(w.len() == walk@.len());
            assert(w.take(w.len() as int) =~= w);
            assert forall|t: int| 0 <= t < walk@.len() implies w[t] == #[trigger] entries@[walk@[t] as int].1@ by {
                let kk = walk@.map_values(|j: usize| q[j as int]);
                assert(kk[t] == q[walk@[t] as int]);
                assert((points_from(q, h) + q)[t] == kk[t]);
            }
        }
        let mut result: Vec<String> = Vec::new();
        let mut t: usize = 0;
        while t < walk.len()
            invariant_except_break
                t <= walk@.len(),
                views(result@) == first_distinct(w.take(t as int)),
                t > 0 ==> result@.len() < count,
            invariant
                n == entries@.len(),
                w.len() == walk@.len(),
                walk@.len() > 0,
                forall|j: int| 0 <= j < walk@.len() ==> walk@[j] < n,
                forall|t2: int| 0 <= t2 < walk@.len() ==> w[t2] == #[trigger] entries@[walk@[t2] as int].1@,
                w == ring_walk(m, h),
                w.take(w.len() as int) == w,
            ensures
                views(result@) == ring_owners(m, h, count as nat),
            decreases walk@.len() - t,
        {
            let j = walk[t];
            let name = &entries[j].1;
            let ghost prev = result@;
            proof {
                assert(w.take(t + 1).drop_last() =~= w.take(t as int));
                assert(w.take(t + 1).last() == w[t as int]);
            }
            if !contains_name(&result, name) {
                result.push(name.clone());
                proof {
                    assert(views(result@) =~= views(prev).push(name@));
                }
            }
            if result.len() >= count {
                proof {
                    crate::seqs::lemma_first_distinct_prefix(w, t + 1);
                    let d = first_distinct(w);
                    let nn: nat = if count == 0 { 1 } else { count as nat };
                    assert(result@.len() == nn);
                    if d.len() <= nn {
                        assert(d =~= d.take(result@.len() as int));
                    }
                }
                break;
            }
            t = t + 1;
        }
        result
    }

    /// How many distinct nodes own points on the ring.
    pub fn node_count(&self) -> (r: usize)
        ensures
            r == self.points().values().len(),
    {
        let ghost m = self.points();
        let entries = sorted_entries(&self.ring);
        let ghost vs = entries@.map_values(|e: (u64, String)| e.1@);
        let mut seen: Vec<String> = Vec::new();
        let mut i: usize = 0;
        while i < entries.len()
            invariant
                i <= entries@.len(),
                vs == entries@.map_values(|e: (u64, String)| e.1@),
                views(seen@) == first_distinct(vs.take(i as int)),
            decreases entries@.len() - i,
        {
            let ghost prev = seen@;
            proof {
                assert(vs.take(i + 1).drop_last() =~= vs.take(i as int));
                assert(vs.take(i + 1).last() == vs[i as int]);
            }
            if !contains_name(&seen, &entries[i].1) {
                seen.push(entries[i].1.clone());
                proof {
                    assert(views(seen@) =~= views(prev).push(entries@[i as int].1@));
                }
            }
            i = i + 1;
        }
        proof {
            assert(vs.take(vs.len() as int) =~= vs);
            let d = first_distinct(vs);
            crate::seqs::lemma_first_distinct_props(vs);
            d.unique_seq_to_set();
            assert forall|x: Seq<char>| d.to_set().contains(x) <==> m.values().contains(x) by {
                if vs.contains(x) {
                    let j = choose|j: int| 0 <= j < vs.len() && vs[j] == x;
                    assert(m.contains_key(entries@[j].0));
                    assert(m[entries@[j].0] == x);
                }
                if m.values().contains(x) {
                    let k = choose|k: u64| m.contains_key(k) && m[k] == x;
                    let j = choose|j: int| 0 <= j < entries@.len() && #[trigger] entries@[j].0 == k;
                    assert(vs[j] == x);
                }
            }
            assert(d.to_set() =~= m.values());
        }
        seen.len()
    }
}

/// The walk from `h` is non-empty on a non-empty ring and starts with the
/// owner of `h`.
proof fn lemma_walk_head(m: Map<u64, Seq<char>>, h: u64)
    requires
        m.dom().finite(),
        !m.dom().is_empty(),
    ensures
        ring_walk(m, h).len() > 0,
        ring_owner(m, h) == Some(ring_walk(m, h)[0]),
{
    let d = m.dom();
    lemma_sorted_listing_exists(d);
    let q = ring_order(d);
    assert(is_ring_order(q, d));
    lemma_points_from(q, h);
    let pf = points_from(q, h);
    let walk_keys = pf + q;
    let w = ring_walk(m, h);
    let k0 = d.choose();
    assert(d.contains(k0));
    assert(q.contains(k0));
    if pf.len() > 0 {
        let k = pf[0];
        assert(pf.contains(k));
        assert(q.contains(k) && k >= h);
        assert forall|k2: u64| m.contains_key(k2) && k2 >= h implies k <= k2 by {
            assert(q.contains(k2));
            assert(pf.contains(k2));
            let j = choose|j: int| 0 <= j < pf.len() && pf[j] == k2;
            if j > 0 {
                assert(pf[0] < pf[j]);
            }
        }
        assert(is_successor(m, h, k));
        let c = choose|k2: u64| is_successor(m, h, k2);
        assert(c == k);
        assert(walk_keys[0] == k);
    } else {
        assert(!(exists|k2: u64| is_successor(m, h, k2))) by {
            if exists|k2: u64| is_successor(m, h, k2) {
                let k2 = choose|k2: u64| is_successor(m, h, k2);
                assert(q.contains(k2));
                assert(pf.contains(k2));
            }
        }
        let k = q[0];
        assert(q.contains(k));
        assert forall|k2: u64| m.contains_key(k2) implies k <= k2 by {
            assert(q.contains(k2));
            let j = choose|j: int| 0 <= j < q.len() && q[j] == k2;
            if j > 0 {
                assert(q[0] < q[j]);
            }
        }
        assert(is_first_point(m, k));
        let c = choose|k2: u64| is_first_point(m, k2);
        assert(c == k);
        assert(walk_keys[0] == q[0]);
    }
}

/// The owners met on the walk are exactly the ring's nodes.
proof fn lemma_walk_members(m: Map<u64, Seq<char>>, h: u64)
    requires
        m.dom().finite(),
    ensures
        forall|x: Seq<char>| ring_walk(m, h).contains(x) <==> m.values().contains(x),
{
    let d = m.dom();
    lemma_sorted_listing_exists(d);
    let q = ring_order(d);
    assert(is_ring_order(q, d));
    lemma_points_from(q, h);
    let pf = points_from(q, h);
    let walk_keys = pf + q;
    let w = ring_walk(m, h);
    assert forall|x: Seq<char>| w.contains(x) <==> m.values().contains(x) by {
        if w.contains(x) {
            let i = choose|i: int| 0 <= i < w.len() && w[i] == x;
            let k = walk_keys[i];
            if i < pf.len() {
                assert(pf.contains(k));
            } else {
                assert(q[i - pf.len()] == k);
                assert(q.contains(k));
            }
            assert(m.contains_key(k));
            assert(m.contains_value(x));
        }
        if m.values().contains(x) {
            let k = choose|k: u64| m.contains_key(k) && m[k] == x;
            assert(q.contains(k));
            let i = choose|i: int| 0 <= i < q.len() && q[i] == k;
            assert(walk_keys[pf.len() + i] == k);
            assert(w[pf.len() + i] == x);
        }
    }
}

/// Law: on a non-empty ring the replica list of a key starts with the key's
/// owner, whatever the requested count, and lists no node twice; it is as long
/// as `max(count, 1)`, or as the number of nodes where that is smaller.
pub proof fn lemma_owners_start_with_owner(m: Map<u64, Seq<char>>, h: u64, count: nat)
    requires
        m.dom().finite(),
        !m.dom().is_empty(),
    ensures
        ring_owners(m, h, count).len() > 0,
        ring_owner(m, h) == Some(ring_owners(m, h, count)[0]),
        ring_owners(m, h, count).no_duplicates(),
        ring_owners(m, h, count).len() == if count == 0 {
            1
        } else if count <= m.values().len() {
            count
        } else {
            m.values().len()
        },
{
    lemma_walk_head(m, h);
    lemma_walk_members(m, h);
    let w = ring_walk(m, h);
    lemma_first_distinct_head(w);
    let fd = first_distinct(w);
    crate::seqs::lemma_first_distinct_props(w);
    assert forall|x: Seq<char>| fd.to_set().contains(x) <==> m.values().contains(x) by {
        assert(fd.to_set().contains(x) <==> fd.contains(x));
        assert(fd.contains(x) <==> w.contains(x));
    }
    assert(fd.to_set() =~= m.values());
    fd.unique_seq_to_set();
    let r = ring_owners(m, h, count);
    assert(r.no_duplicates()) by {
        assert forall|i: int, j: int| 0 <= i < j < r.len() implies r[i] != r[j] by {
            assert(r[i] == fd[i]);
            assert(r[j] == fd[j]);
        }
    }
    assert(r[0] == fd[0]);
}

/// Every finite set of points has an increasing listing.
pub proof fn lemma_sorted_listing_exists(d: Set<u64>)
    requires
        d.finite(),
    ensures
        exists|q: Seq<u64>| is_ring_order(q, d),
    decreases d.len(),
{
    if d.is_empty() {
        assert(is_ring_order(Seq::<u64>::empty(), d));
    } else {
        let le = |a: u64, b: u64| a <= b;
        assert(vstd::relations::total_ordering(le));
        d.find_unique_maximal_ensures(le);
        let mx = d.find_unique_maximal(le);
        let rest = d.remove(mx);
        lemma_sorted_listing_exists(rest);
        let q0 = choose|q: Seq<u64>| is_ring_order(q, rest);
        let q = q0.push(mx);
        assert forall|x: u64| q.contains(x) <==> d.contains(x) by {
            if q.contains(x) {
                let i = choose|i: int| 0 <= i < q.len() && q[i] == x;
                if i < q0.len() {
                    assert(q0[i] == x);
                    assert(q0.contains(x));
                }
            }
            if d.contains(x) && x != mx {
                assert(rest.contains(x));
                assert(q0.contains(x));
                let i = choose|i: int| 0 <= i < q0.len() && q0[i] == x;
                assert(q[i] == x);
            }
            if x == mx {
                assert(q[q0.len() as int] == x);
            }
        }
        assert forall|i: int, j: int| 0 <= i < j < q.len() implies q[i] < q[j] by {
            if j == q0.len() {
                assert(q0.contains(q0[i]));
                assert(rest.contains(q0[i]));
                assert(le(mx, q0[i]) ==> le(q0[i], mx));
            }
        }
        assert(is_ring_order(q, d));
    }
}

/// Law: after a node is added, every point of its virtual nodes is owned by
/// it, and every point present before is still present.
pub proof fn lemma_added_node_owns_its_points(m: Map<u64, Seq<char>>, node_id: Seq<char>, n: nat)
    ensures
        forall|i: nat| i < n ==> with_vnodes(m, node_id, n).contains_key(#[trigger] vnode_hash(node_id, i))
            && with_vnodes(m, node_id, n)[vnode_hash(node_id, i)] == node_id,
        forall|k: u64| m.contains_key(k) ==> #[trigger] with_vnodes(m, node_id, n).contains_key(k),
        forall|k: u64| #[trigger] with_vnodes(m, node_id, n).contains_key(k) && with_vnodes(m, node_id, n)[k] != node_id
            ==> m.contains_key(k) && m[k] == with_vnodes(m, node_id, n)[k],
    decreases n,
{
    if n > 0 {
        lemma_added_node_owns_its_points(m, node_id, (n - 1) as nat);
        let prev = with_vnodes(m, node_id, (n - 1) as nat);
        let cur = with_vnodes(m, node_id, n);
        let hk = vnode_hash(node_id, (n - 1) as nat);
        assert(cur == prev.insert(hk, node_id));
        assert forall|k: u64| m.contains_key(k) implies #[trigger] cur.contains_key(k) by {
            assert(prev.contains_key(k));
        }
        assert forall|k: u64| #[trigger] cur.contains_key(k) && cur[k] != node_id implies m.contains_key(k)
            && m[k] == cur[k] by {
            assert(k != hk);
            assert(prev.contains_key(k) && prev[k] == cur[k]);
        }
        assert forall|i: nat| i < n implies cur.contains_key(#[trigger] vnode_hash(node_id, i))
            && cur[vnode_hash(node_id, i)] == node_id by {
            if i < (n - 1) as nat {
                assert(prev.contains_key(vnode_hash(node_id, i)));
            }
        }
    }
}

/// Law: after a node is removed, no point of its virtual nodes is left, and
/// every other point keeps its owner.
pub proof fn lemma_removed_node_leaves_no_point(m: Map<u64, Seq<char>>, node_id: Seq<char>, n: nat)
    ensures
        forall|i: nat| i < n ==> !without_vnodes(m, node_id, n).contains_key(#[trigger] vnode_hash(node_id, i)),
        forall|k: u64| (forall|i: nat| i < n ==> k != #[trigger] vnode_hash(node_id, i)) ==> (
            #[trigger] without_vnodes(m, node_id, n).contains_key(k) == m.contains_key(k)
            && (m.contains_key(k) ==> without_vnodes(m, node_id, n)[k] == m[k])),
    decreases n,
{
    if n > 0 {
        lemma_removed_node_leaves_no_point(m, node_id, (n - 1) as nat);
        let prev = without_vnodes(m, node_id, (n - 1) as nat);
        assert forall|k: u64| (forall|i: nat| i < n ==> k != #[trigger] vnode_hash(node_id, i)) implies (
            without_vnodes(m, node_id, n).contains_key(k) == m.contains_key(k)
            && (m.contains_key(k) ==> without_vnodes(m, node_id, n)[k] == m[k])) by {
            assert forall|i: nat| i < (n - 1) as nat implies k != #[trigger] vnode_hash(node_id, i) by {
                assert(i < n);
            }
            assert(k != vnode_hash(node_id, (n - 1) as nat));
        }
    }
}

/// Law: on a ring whose points all belong to one node, every key is routed to
/// that node.
pub proof fn lemma_single_node_owns_everything(m: Map<u64, Seq<char>>, node_id: Seq<char>, h: u64)
    requires
        m.dom().finite(),
        !m.dom().is_empty(),
        forall|k: u64| m.contains_key(k) ==> m[k] == node_id,
    ensures
        ring_owner(m, h) == Some(node_id),
{
    lemma_walk_head(m, h);
    lemma_walk_members(m, h);
    let w = ring_walk(m, h);
    assert(w.contains(w[0]));
    assert(m.values().contains(w[0]));
}

/// The replica list never names a node twice.
pub proof fn lemma_owners_distinct(m: Map<u64, Seq<char>>, h: u64, count: nat)
    ensures
        ring_owners(m, h, count).no_duplicates(),
{
    let fd = first_distinct(ring_walk(m, h));
    crate::seqs::lemma_first_distinct_props(ring_walk(m, h));
    let r = ring_owners(m, h, count);
    assert forall|i: int, j: int| 0 <= i < r.len() && 0 <= j < r.len() && i != j implies r[i] != r[j] by {
        assert(r[i] == fd[i]);
        assert(r[j] == fd[j]);
    }
}

/// A finite ring with a point at or after `h` has a smallest such point.
proof fn lemma_successor_exists(m: Map<u64, Seq<char>>, h: u64, k0: u64)
    requires
        m.dom().finite(),
        m.contains_key(k0),
        k0 >= h,
    ensures
        exists|k: u64| is_successor(m, h, k),
{
    let d = m.dom().filter(|k: u64| k >= h);
    m.dom().lemma_len_filter(|k: u64| k >= h);
    assert(d.contains(k0));
    vstd::set_lib::lemma_set_empty_equivalency_len(d);
    let le = |a: u64, b: u64| a <= b;
    assert(vstd::relations::total_ordering(le));
    d.find_unique_minimal_ensures(le);
    let mn = d.find_unique_minimal(le);
    assert forall|k2: u64| m.contains_key(k2) && k2 >= h implies mn <= k2 by {
        assert(d.contains(k2));
        assert(le(k2, mn) ==> le(mn, k2));
    }
    assert(is_successor(m, h, mn));
}

/// A finite non-empty ring has a smallest point.
proof fn lemma_first_point_exists(m: Map<u64, Seq<char>>, k0: u64)
    requires
        m.dom().finite(),
        m.contains_key(k0),
    ensures
        exists|k: u64| is_first_point(m, k),
{
    lemma_successor_exists(m, 0, k0);
    let k = choose|k: u64| is_successor(m, 0, k);
    assert(is_first_point(m, k));
}

/// Law: adding a node to a finite ring moves a position's owner only to the
/// new node: every position keeps its owner or is now owned by the node
/// added.
pub proof fn lemma_add_moves_keys_only_to_new_node(m: Map<u64, Seq<char>>, node_id: Seq<char>, n: nat, h: u64)
    requires
        m.dom().finite(),
    ensures
        ring_owner(with_vnodes(m, node_id, n), h) == ring_owner(m, h) || ring_owner(with_vnodes(m, node_id, n), h)
            == Some(node_id),
{
    lemma_added_node_owns_its_points(m, node_id, n);
    let w = with_vnodes(m, node_id, n);
    lemma_with_vnodes_finite(m, node_id, n);
    if m.dom().is_empty() {
        if !w.dom().is_empty() {
            let k = w.dom().choose();
            assert(w.contains_key(k));
            assert(w[k] == node_id || m.contains_key(k));
            if exists|k1: u64| is_successor(w, h, k1) {
                let k1 = choose|k1: u64| is_successor(w, h, k1);
                assert(w[k1] == node_id || m.contains_key(k1));
            } else {
                lemma_first_point_exists(w, k);
                let k1 = choose|k1: u64| is_first_point(w, k1);
                assert(w[k1] == node_id || m.contains_key(k1));
            }
        }
    } else {
        let k0 = m.dom().choose();
        assert(m.contains_key(k0));
        assert(w.contains_key(k0));
        if exists|k1: u64| is_successor(w, h, k1) {
            let kw = choose|k1: u64| is_successor(w, h, k1);
            if w[kw] != node_id {
                assert(m.contains_key(kw) && m[kw] == w[kw]);
                assert forall|k2: u64| m.contains_key(k2) && k2 >= h implies kw <= k2 by {
                    assert(w.contains_key(k2));
                }
                assert(is_successor(m, h, kw));
                let km = choose|k1: u64| is_successor(m, h, k1);
                assert(km == kw) by {
                    assert(w.contains_key(km));
                }
            }
        } else {
            lemma_first_point_exists(w, k0);
            let kw = choose|k1: u64| is_first_point(w, k1);
            if w[kw] != node_id {
                assert(m.contains_key(kw) && m[kw] == w[kw]);
                if exists|k1: u64| is_successor(m, h, k1) {
                    let km = choose|k1: u64| is_successor(m, h, k1);
                    assert(w.contains_key(km));
                    lemma_successor_exists(w, h, km);
                }
                assert forall|k2: u64| m.contains_key(k2) implies kw <= k2 by {
                    assert(w.contains_key(k2));
                }
                assert(is_first_point(m, kw));
                let km = choose|k1: u64| is_first_point(m, k1);
                assert(km == kw) by {
                    assert(w.contains_key(km));
                }
            }
        }
    }
}

/// Adding virtual nodes to a finite ring leaves it finite.
proof fn lemma_with_vnodes_finite(m: Map<u64, Seq<char>>, node_id: Seq<char>, n: nat)
    requires
        m.dom().finite(),
    ensures
        with_vnodes(m, node_id, n).dom().finite(),
    decreases n,
{
    if n > 0 {
        lemma_with_vnodes_finite(m, node_id, (n - 1) as nat);
    }
}

/// Adding virtual nodes leaves every other position as it was.
proof fn lemma_with_vnodes_at(m: Map<u64, Seq<char>>, node_id: Seq<char>, n: nat, k: u64)
    requires
        forall|i: nat| i < n ==> k != #[trigger] vnode_hash(node_id, i),
    ensures
        with_vnodes(m, node_id, n).contains_key(k) == m.contains_key(k),
        m.contains_key(k) ==> with_vnodes(m, node_id, n)[k] == m[k],
    decreases n,
{
    if n > 0 {
        assert forall|i: nat| i < (n - 1) as nat implies k != #[trigger] vnode_hash(node_id, i) by {
            assert(i < n);
        }
        lemma_with_vnodes_at(m, node_id, (n - 1) as nat, k);
        assert(k != vnode_hash(node_id, (n - 1) as nat));
    }
}

/// Law: removing a node just added, whose virtual nodes took no point that
/// was already on the ring, gives back the ring as it was, so every key has
/// its owner and replicas back.
pub proof fn lemma_remove_undoes_add(m: Map<u64, Seq<char>>, node_id: Seq<char>, n: nat)
    requires
        forall|i: nat| i < n ==> !m.contains_key(#[trigger] vnode_hash(node_id, i)),
    ensures
        without_vnodes(with_vnodes(m, node_id, n), node_id, n) == m,
        forall|h: u64, c: nat| ring_owners(without_vnodes(with_vnodes(m, node_id, n), node_id, n), h, c) == ring_owners(m, h, c),
{
    let w = with_vnodes(m, node_id, n);
    let r = without_vnodes(w, node_id, n);
    lemma_removed_node_leaves_no_point(w, node_id, n);
    assert forall|k: u64| #[trigger] r.dom().contains(k) == m.dom().contains(k) && (m.contains_key(k) ==> r[k] == m[k]) by {
        if exists|i: nat| i < n && k == vnode_hash(node_id, i) {
            let i = choose|i: nat| i < n && k == vnode_hash(node_id, i);
            assert(!r.contains_key(vnode_hash(node_id, i)));
            assert(!m.contains_key(vnode_hash(node_id, i)));
        } else {
            assert(forall|i: nat| i < n ==> k != #[trigger] vnode_hash(node_id, i));
            lemma_with_vnodes_at(m, node_id, n, k);
            assert(r.contains_key(k) == w.contains_key(k));
        }
    }
    assert(r.dom() =~= m.dom());
    assert(r =~= m);
}

/// Law: asking for fewer replicas gives a prefix of the longer list.
pub proof fn lemma_owners_prefix(m: Map<u64, Seq<char>>, h: u64, c1: nat, c2: nat)
    requires
        c1 <= c2,
    ensures
        ring_owners(m, h, c1).len() <= ring_owners(m, h, c2).len(),
        ring_owners(m, h, c1) == ring_owners(m, h, c2).take(ring_owners(m, h, c1).len() as int),
{
    let d = first_distinct(ring_walk(m, h));
    let o1 = ring_owners(m, h, c1);
    let o2 = ring_owners(m, h, c2);
    assert(o1 =~= o2.take(o1.len() as int));
}

/// Law: adding, to a finite ring, a new node with at least one virtual node
/// whose points take no point already on the ring adds exactly that node to
/// the ring's nodes, so the node count grows by one.
pub proof fn lemma_add_counts_new_node(m: Map<u64, Seq<char>>, node_id: Seq<char>, n: nat)
    requires
        m.dom().finite(),
        n >= 1,
        !m.values().contains(node_id),
        forall|i: nat| i < n ==> !m.contains_key(#[trigger] vnode_hash(node_id, i)),
    ensures
        with_vnodes(m, node_id, n).values() == m.values().insert(node_id),
        with_vnodes(m, node_id, n).values().len() == m.values().len() + 1,
{
    let w = with_vnodes(m, node_id, n);
    lemma_added_node_owns_its_points(m, node_id, n);
    assert forall|v: Seq<char>| #[trigger] w.values().contains(v) == m.values().insert(node_id).contains(v) by {
        if w.values().contains(v) && v != node_id {
            let k = choose|k: u64| w.contains_key(k) && w[k] == v;
            assert(m.contains_key(k) && m[k] == v);
        }
        if m.values().contains(v) {
            let k = choose|k: u64| m.contains_key(k) && m[k] == v;
            assert forall|i: nat| i < n implies k != #[trigger] vnode_hash(node_id, i) by {
                assert(!m.contains_key(vnode_hash(node_id, i)));
            }
            lemma_with_vnodes_at(m, node_id, n, k);
            assert(w.contains_key(k) && w[k] == v);
        }
        if v == node_id {
            assert(w.contains_key(vnode_hash(node_id, 0)));
        }
    }
    assert(w.values() =~= m.values().insert(node_id));
    vstd::map_lib::lemma_values_finite(m);
}

} // verus!
