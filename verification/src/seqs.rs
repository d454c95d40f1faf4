//! Sequence facts shared by the routing and storage modules.

use vstd::prelude::*;

verus! {

/// The elements of `s` in order of first occurrence, each once.
pub open spec fn first_distinct<A>(s: Seq<A>) -> Seq<A>
    decreases s.len(),
{
    if s.len() == 0 {
        Seq::empty()
    } else {
        let d = first_distinct(s.drop_last());
        if d.contains(s.last()) {
            d
        } else {
            d.push(s.last())
        }
    }
}

/// Strictly increasing sequence of keys.
pub open spec fn strictly_increasing(q: Seq<u64>) -> bool {
    forall|i: int, j: int| 0 <= i < j < q.len() ==> q[i] < q[j]
}

/// `first_distinct` of a prefix is a prefix of `first_distinct` of the whole,
/// and it holds no element twice.
pub proof fn lemma_first_distinct_prefix<A>(s: Seq<A>, j: int)
    requires
        0 <= j <= s.len(),
    ensures
        first_distinct(s.take(j)).len() <= first_distinct(s).len(),
        first_distinct(s).take(first_distinct(s.take(j)).len() as int) =~= first_distinct(s.take(j)),
    decreases s.len() - j,
{
    if j == s.len() {
        assert(s.take(j) =~= s);
    } else {
        lemma_first_distinct_prefix(s, j + 1);
        let t = s.take(j + 1);
        assert(t.drop_last() =~= s.take(j));
        assert(t.last() == s[j]);
    }
}

/// `first_distinct` yields no element twice and only elements of the input.
pub proof fn lemma_first_distinct_props<A>(s: Seq<A>)
    ensures
        first_distinct(s).no_duplicates(),
        forall|x: A| first_distinct(s).contains(x) <==> s.contains(x),
        first_distinct(s).len() <= s.len(),
    decreases s.len(),
{
    if s.len() > 0 {
        lemma_first_distinct_props(s.drop_last());
        let d = first_distinct(s.drop_last());
        assert forall|x: A| first_distinct(s).contains(x) <==> s.contains(x) by {
            let p = s.drop_last();
            assert(s =~= p.push(s.last()));
            if s.contains(x) {
                let i = choose|i: int| 0 <= i < s.len() && s[i] == x;
                if i < s.len() - 1 {
                    assert(p[i] == x);
                    assert(p.contains(x));
                } else {
                    assert(x == s.last());
                }
            }
            if p.contains(x) {
                let i = choose|i: int| 0 <= i < p.len() && p[i] == x;
                assert(s[i] == x);
            }
            if first_distinct(s).contains(x) {
                if !d.contains(s.last()) {
                    let i = choose|i: int| 0 <= i < d.push(s.last()).len() && d.push(s.last())[i] == x;
                    if i < d.len() {
                        assert(d[i] == x);
                    }
                }
            }
            if d.contains(x) && !d.contains(s.last()) {
                let i = choose|i: int| 0 <= i < d.len() && d[i] == x;
                assert(d.push(s.last())[i] == x);
            }
            if x == s.last() && !d.contains(s.last()) {
                assert(d.push(s.last())[d.len() as int] == x);
            }
        }
    }
}

/// A strictly increasing sequence is determined by the set of its elements.
pub proof fn lemma_increasing_unique(q1: Seq<u64>, q2: Seq<u64>)
    requires
        strictly_increasing(q1),
        strictly_increasing(q2),
        forall|x: u64| q1.contains(x) <==> q2.contains(x),
    ensures
        q1 == q2,
    decreases q1.len(),
{
    if q1.len() == 0 {
        if q2.len() > 0 {
            assert(q2.contains(q2[0]));
        }
        assert(q1 =~= q2);
    } else {
        assert(q1.contains(q1[0]));
        assert(q2.len() > 0);
        assert(q2.contains(q2[0]));
        let i1 = choose|i: int| 0 <= i < q1.len() && q1[i] == q2[0];
        let i2 = choose|i: int| 0 <= i < q2.len() && q2[i] == q1[0];
        assert(q1[0] == q2[0]);
        let t1 = q1.drop_first();
        let t2 = q2.drop_first();
        assert forall|x: u64| t1.contains(x) <==> t2.contains(x) by {
            if t1.contains(x) {
                let i = choose|i: int| 0 <= i < t1.len() && t1[i] == x;
                assert(q1[i + 1] == x);
                assert(q2.contains(x));
                let k = choose|k: int| 0 <= k < q2.len() && q2[k] == x;
                assert(k != 0);
                assert(t2[k - 1] == x);
            }
            if t2.contains(x) {
                let i = choose|i: int| 0 <= i < t2.len() && t2[i] == x;
                assert(q2[i + 1] == x);
                assert(q1.contains(x));
                let k = choose|k: int| 0 <= k < q1.len() && q1[k] == x;
                assert(k != 0);
                assert(t1[k - 1] == x);
            }
        }
        lemma_increasing_unique(t1, t2);
        assert(q1.len() == q2.len());
        assert forall|i: int| 0 <= i < q1.len() implies q1[i] == q2[i] by {
            if i > 0 {
                assert(q1[i] == t1[i - 1]);
                assert(q2[i] == t2[i - 1]);
            }
        }
        assert(q1 =~= q2);
    }
}

/// A reordering of the pairs `(key_i, i)` keeps each index exactly once.
pub proof fn lemma_reordered_indices(orig: Seq<(u64, usize)>, sorted: Seq<(u64, usize)>)
    requires
        forall|i: int| 0 <= i < orig.len() ==> (#[trigger] orig[i]).1 == i,
        sorted.to_multiset() == orig.to_multiset(),
    ensures
        sorted.len() == orig.len(),
        forall|j: int| 0 <= j < sorted.len() ==> (#[trigger] sorted[j]).1 < orig.len() && sorted[j] == orig[sorted[j].1 as int],
        forall|j1: int, j2: int| 0 <= j1 < sorted.len() && 0 <= j2 < sorted.len() && j1 != j2 ==> (#[trigger] sorted[j1]).1 != (#[trigger] sorted[j2]).1,
        forall|i: int| 0 <= i < orig.len() ==> sorted.contains(#[trigger] orig[i]),
{
    broadcast use vstd::seq_lib::group_to_multiset_ensures;
    assert(orig.no_duplicates()) by {
        assert forall|a: int, b: int| 0 <= a < orig.len() && 0 <= b < orig.len() && a != b implies orig[a] != orig[b] by {
            assert(orig[a].1 == a);
            assert(orig[b].1 == b);
        }
    }
    orig.lemma_multiset_has_no_duplicates();
    assert(sorted.len() == sorted.to_multiset().len());
    assert(orig.len() == orig.to_multiset().len());
    sorted.lemma_multiset_has_no_duplicates_conv();
    assert forall|j: int| 0 <= j < sorted.len() implies (#[trigger] sorted[j]).1 < orig.len() && sorted[j] == orig[sorted[j].1 as int] by {
        assert(sorted.contains(sorted[j]));
        assert(sorted.to_multiset().count(sorted[j]) > 0);
        assert(orig.contains(sorted[j]));
        let k = choose|k: int| 0 <= k < orig.len() && orig[k] == sorted[j];
        assert(orig[k].1 == k);
    }
    assert forall|j1: int, j2: int| 0 <= j1 < sorted.len() && 0 <= j2 < sorted.len() && j1 != j2 implies (#[trigger] sorted[j1]).1 != (#[trigger] sorted[j2]).1 by {
        if sorted[j1].1 == sorted[j2].1 {
            assert(sorted[j1] == orig[sorted[j1].1 as int]);
            assert(sorted[j2] == orig[sorted[j2].1 as int]);
        }
    }
    assert forall|i: int| 0 <= i < orig.len() implies sorted.contains(#[trigger] orig[i]) by {
        assert(orig.contains(orig[i]));
        assert(orig.to_multiset().count(orig[i]) > 0);
    }
}

} // verus!
