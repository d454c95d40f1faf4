//! In-order traversal of the ring's `BTreeMap`, kept apart from the hashing
//! code because it reasons through std's ordering specification.

use std::collections::BTreeMap;
use vstd::prelude::*;
use vstd::std_specs::btree::increasing_seq;
use vstd::std_specs::cmp::OrdSpec;
use vstd::std_specs::iter::IteratorSpec;

verus! {

/// The ring's entries in increasing key order.
pub fn sorted_entries(ring: &BTreeMap<u64, String>) -> (r: Vec<(u64, String)>)
    ensures
        r@.len() == ring@.dom().len(),
        forall|i: int|
            0 <= i < r@.len() ==> ring@.contains_key(#[trigger] r@[i].0) && ring@[r@[i].0] == r@[i].1,
        forall|i: int, j: int| 0 <= i < j < r@.len() ==> r@[i].0 < r@[j].0,
        forall|k: u64| ring@.contains_key(k) ==> exists|i: int| 0 <= i < r@.len() && #[trigger] r@[i].0 == k,
{
    let mut out: Vec<(u64, String)> = Vec::new();
    let iter = ring.iter();
    let ghost s = iter.remaining();
    proof {
        assert(vstd::std_specs::btree::key_obeys_cmp_spec::<u64>());
        let ks = s.map_values(|kv: (&u64, &String)| *kv.0);
        assert(increasing_seq(ks));
        assert forall|i: int, j: int| 0 <= i < j < s.len() implies *s[i].0 < *s[j].0 by {
            assert(ks[i] == *s[i].0);
            assert(ks[j] == *s[j].0);
            assert(vstd::laws_cmp::obeys_cmp::<u64>());
            assert(ks[i].cmp_spec(&ks[j]) is Less);
        }
        assert forall|k: u64| ring@.contains_key(k) implies exists|i: int| 0 <= i < s.len() && *#[trigger] s[i].0 == k by {
            assert(s.contains((&k, &ring@[k])));
            let i = choose|i: int| 0 <= i < s.len() && s[i] == (&k, &ring@[k]);
            assert(*s[i].0 == k);
        }
    }
    for (k, v) in it: iter
        invariant
            it.seq() == s,
            out@.len() == it.index(),
            forall|i: int| 0 <= i < out@.len() ==> out@[i].0 == *it.seq()[i].0 && out@[i].1 == *it.seq()[i].1,
    {
        out.push((*k, v.clone()));
    }
    out
}

/// The entry with the smallest key, or `None` for an empty ring.
pub fn least_entry(ring: &BTreeMap<u64, String>) -> (r: Option<(u64, &String)>)
    ensures
        r matches Some((k, v)) ==> ring@.contains_key(k) && ring@[k] == *v
            && forall|k2: u64| ring@.contains_key(k2) ==> k <= k2,
        r is None ==> ring@.dom().is_empty(),
{
    let iter = ring.iter();
    let ghost s = iter.remaining();
    proof {
        assert(vstd::std_specs::btree::key_obeys_cmp_spec::<u64>());
        let ks = s.map_values(|kv: (&u64, &String)| *kv.0);
        assert(increasing_seq(ks));
        assert forall|j: int| 0 < j < s.len() implies *s[0].0 < *#[trigger] s[j].0 by {
            assert(ks[0] == *s[0].0);
            assert(ks[j] == *s[j].0);
            assert(vstd::laws_cmp::obeys_cmp::<u64>());
            assert(ks[0].cmp_spec(&ks[j]) is Less);
        }
        assert forall|k2: u64| ring@.contains_key(k2) implies s.len() > 0 && *s[0].0 <= k2 by {
            assert(s.contains((&k2, &ring@[k2])));
            let j = choose|j: int| 0 <= j < s.len() && s[j] == (&k2, &ring@[k2]);
            assert(j == 0 || *s[0].0 < *s[j].0);
        }
        assert(s.len() == 0 ==> ring@.dom().is_empty()) by {
            if s.len() == 0 && !ring@.dom().is_empty() {
                let k = ring@.dom().choose();
                assert(s.contains((&k, &ring@[k])));
            }
        }
    }
    let mut found: Option<(u64, &String)> = None;
    for (k, v) in it: iter
        invariant_except_break
            found is None,
            it.index() == 0,
        invariant
            it.seq() == s,
        ensures
            found matches Some((k, v)) ==> s.len() > 0 && k == *s[0].0 && *v == *s[0].1,
            found is None ==> s.len() == 0,
    {
        found = Some((*k, v));
        break;
    }
    found
}

} // verus!
