//! Snapshot files: their names (`snapshot-{unix seconds}.bin`), which file
//! of a directory is the latest snapshot, and which ones a clean-up removes.
//! Files of one directory are ordered by name, byte by byte; for names that
//! are valid UTF-8 this is the order of their characters' code points.

use crate::text::{chars_of, decimal, push_decimal};
use vstd::prelude::*;

verus! {

/// The start of every snapshot file name.
pub open spec fn snapshot_prefix() -> Seq<char> {
    seq!['s', 'n', 'a', 'p', 's', 'h', 'o', 't', '-']
}

/// The extension of every snapshot file name, with its dot.
pub open spec fn snapshot_suffix() -> Seq<char> {
    seq!['.', 'b', 'i', 'n']
}

/// The name of the snapshot taken at unix time `ts`.
pub open spec fn snapshot_name(ts: nat) -> Seq<char> {
    snapshot_prefix() + decimal(ts) + snapshot_suffix()
}

/// Whether a file name is that of a snapshot: it starts with `snapshot-`
/// and its extension (the text after its last dot) is `bin`.
pub open spec fn is_snapshot(name: Seq<char>) -> bool {
    &&& name.len() >= 9
    &&& name.take(9) == snapshot_prefix()
    &&& name.skip(name.len() - 4) == snapshot_suffix()
}

/// Whether `a` comes before `b` in the order of names: at the first
/// position where they differ, `a` has the smaller character, or `a` is a
/// proper prefix of `b`.
pub open spec fn name_lt(a: Seq<char>, b: Seq<char>) -> bool
    decreases a.len(),
{
    if a.len() == 0 {
        b.len() > 0
    } else if b.len() == 0 {
        false
    } else if a[0] != b[0] {
        (a[0] as int) < (b[0] as int)
    } else {
        name_lt(a.drop_first(), b.drop_first())
    }
}

/// Builds the name of the snapshot taken at unix time `ts`.
pub fn snapshot_file_name(ts: u64) -> (r: String)
    ensures
        r@ == snapshot_name(ts as nat),
{
    let mut s = String::new();
    s.push('s');
    s.push('n');
    s.push('a');
    s.push('p');
    s.push('s');
    s.push('h');
    s.push('o');
    s.push('t');
    s.push('-');
    push_decimal(&mut s, ts);
    s.push('.');
    s.push('b');
    s.push('i');
    s.push('n');
    assert(s@ =~= snapshot_name(ts as nat));
    s
}

/// Whether `cs` starts with `snapshot-` and ends with `.bin`.
fn is_snapshot_chars(cs: &Vec<char>) -> (r: bool)
    ensures
        r == is_snapshot(cs@),
{
    let n = cs.len();
    if n < 9 {
        return false;
    }
    let r = cs[0] == 's' && cs[1] == 'n' && cs[2] == 'a' && cs[3] == 'p' && cs[4] == 's' && cs[5] == 'h'
        && cs[6] == 'o' && cs[7] == 't' && cs[8] == '-' && cs[n - 4] == '.' && cs[n - 3] == 'b'
        && cs[n - 2] == 'i' && cs[n - 1] == 'n';
    proof {
        if r {
            assert(cs@.take(9) =~= snapshot_prefix());
            assert(cs@.skip(n - 4) =~= snapshot_suffix());
        } else {
            if cs@.take(9) == snapshot_prefix() && cs@.skip(n - 4) == snapshot_suffix() {
                assert(cs@.take(9)[0] == cs@[0]);
                assert(cs@.take(9)[1] == cs@[1]);
                assert(cs@.take(9)[2] == cs@[2]);
                assert(cs@.take(9)[3] == cs@[3]);
                assert(cs@.take(9)[4] == cs@[4]);
                assert(cs@.take(9)[5] == cs@[5]);
                assert(cs@.take(9)[6] == cs@[6]);
                assert(cs@.take(9)[7] == cs@[7]);
                assert(cs@.take(9)[8] == cs@[8]);
                assert(cs@.skip(n - 4)[0] == cs@[n - 4]);
                assert(cs@.skip(n - 4)[1] == cs@[n - 3]);
                assert(cs@.skip(n - 4)[2] == cs@[n - 2]);
                assert(cs@.skip(n - 4)[3] == cs@[n - 1]);
            }
        }
    }
    r
}

/// Whether a file name is that of a snapshot.
pub fn is_snapshot_name(name: &str) -> (r: bool)
    ensures
        r == is_snapshot(name@),
{
    let cs = chars_of(name);
    is_snapshot_chars(&cs)
}

/// Whether the characters `a` come before the characters `b`.
fn chars_lt(a: &Vec<char>, b: &Vec<char>) -> (r: bool)
    ensures
        r == name_lt(a@, b@),
{
    let mut i: usize = 0;
    assert(a@.skip(0) =~= a@);
    assert(b@.skip(0) =~= b@);
    while i < a.len() && i < b.len()
        invariant
            i <= a@.len(),
            i <= b@.len(),
            a@.take(i as int) == b@.take(i as int),
            name_lt(a@, b@) == name_lt(a@.skip(i as int), b@.skip(i as int)),
        decreases a@.len() - i,
    {
        if a[i] != b[i] {
            assert(a@.skip(i as int)[0] == a@[i as int]);
            assert(b@.skip(i as int)[0] == b@[i as int]);
            return a[i] < b[i];
        }
        proof {
            assert(a@.skip(i as int).drop_first() =~= a@.skip(i + 1));
            assert(b@.skip(i as int).drop_first() =~= b@.skip(i + 1));
            assert(a@.take(i + 1) =~= a@.take(i as int).push(a@[i as int]));
            assert(b@.take(i + 1) =~= b@.take(i as int).push(b@[i as int]));
        }
        i = i + 1;
    }
    i < b.len()
}

/// Whether the name `a` comes before the name `b`.
pub fn name_less(a: &str, b: &str) -> (r: bool)
    ensures
        r == name_lt(a@, b@),
{
    let ca = chars_of(a);
    let cb = chars_of(b);
    chars_lt(&ca, &cb)
}

/// The characters of each of a list of names.
pub open spec fn name_views(names: Seq<String>) -> Seq<Seq<char>> {
    names.map_values(|s: String| s@)
}

/// The characters of each name, as vectors.
fn names_chars(names: &Vec<String>) -> (r: Vec<Vec<char>>)
    ensures
        r@.len() == names@.len(),
        forall|i: int| 0 <= i < names@.len() ==> (#[trigger] r@[i])@ == names@[i]@,
{
    let mut out: Vec<Vec<char>> = Vec::new();
    let mut i: usize = 0;
    while i < names.len()
        invariant
            i <= names@.len(),
            out@.len() == i,
            forall|j: int| 0 <= j < i ==> (#[trigger] out@[j])@ == names@[j]@,
        decreases names@.len() - i,
    {
        out.push(chars_of(names[i].as_str()));
        i = i + 1;
    }
    out
}

/// The position of the latest snapshot among the file names of a
/// directory: a snapshot name that no other snapshot name comes after, or
/// `None` when there is no snapshot.
pub fn latest_snapshot(names: &Vec<String>) -> (r: Option<usize>)
    ensures
        r is None <==> forall|j: int| 0 <= j < names@.len() ==> !is_snapshot(#[trigger] names@[j]@),
        r matches Some(i) ==> {
            &&& i < names@.len()
            &&& is_snapshot(names@[i as int]@)
            &&& forall|j: int| 0 <= j < names@.len() && is_snapshot(#[trigger] names@[j]@) ==> !name_lt(names@[i as int]@, names@[j]@)
        },
{
    let cs = names_chars(names);
    let mut best: Option<usize> = None;
    let mut i: usize = 0;
    while i < cs.len()
        invariant
            i <= cs@.len(),
            cs@.len() == names@.len(),
            forall|j: int| 0 <= j < names@.len() ==> (#[trigger] cs@[j])@ == names@[j]@,
            best is None <==> forall|j: int| 0 <= j < i ==> !is_snapshot(#[trigger] names@[j]@),
            best matches Some(b) ==> {
                &&& b < i
                &&& is_snapshot(names@[b as int]@)
                &&& forall|j: int| 0 <= j < i && is_snapshot(#[trigger] names@[j]@) ==> !name_lt(names@[b as int]@, names@[j]@)
            },
        decreases cs@.len() - i,
    {
        if is_snapshot_chars(&cs[i]) {
            match best {
                None => {
                    proof {
                        lemma_name_lt_irreflexive(names@[i as int]@);
                    }
                    best = Some(i);
                },
                Some(b) => {
                    if chars_lt(&cs[b], &cs[i]) {
                        proof {
                            assert forall|j: int| 0 <= j < i + 1 && is_snapshot(#[trigger] names@[j]@) implies !name_lt(
                                names@[i as int]@,
                                names@[j]@,
                            ) by {
                                if j < i {
                                    lemma_name_lt_order(names@[b as int]@, names@[i as int]@, names@[j]@);
                                } else {
                                    lemma_name_lt_irreflexive(names@[i as int]@);
                                }
                            }
                        }
                        best = Some(i);
                    }
                },
            }
        }
        i = i + 1;
    }
    best
}

/// How many of the first `upto` names are snapshots that come after the
/// name `a`.
pub open spec fn newer_snapshots(names: Seq<Seq<char>>, a: Seq<char>, upto: int) -> nat
    decreases upto,
{
    if upto <= 0 {
        0
    } else {
        newer_snapshots(names, a, upto - 1) + if is_snapshot(names[upto - 1]) && name_lt(a, names[upto - 1]) {
            1nat
        } else {
            0nat
        }
    }
}

/// Whether a clean-up that keeps the `keep` latest snapshots removes the
/// file named `a`: it is a snapshot, and at least `keep` snapshots among
/// `names` come after it.
pub open spec fn removed_by_cleanup(names: Seq<Seq<char>>, a: Seq<char>, keep: nat) -> bool {
    is_snapshot(a) && newer_snapshots(names, a, names.len() as int) >= keep
}

/// The positions, in increasing order, of the snapshot files that a
/// clean-up keeping the `keep` latest snapshots removes from a directory
/// whose file names are `names`: those with at least `keep` later snapshots.
/// With distinct names (as in a directory) these are the oldest ones, all
/// but the `keep` latest.
pub fn snapshots_to_remove(names: &Vec<String>, keep: usize) -> (r: Vec<usize>)
    ensures
        forall|k: int| 0 <= k < r@.len() ==> #[trigger] r@[k] < names@.len(),
        forall|k: int, l: int| 0 <= k < l < r@.len() ==> r@[k] < r@[l],
        forall|i: int| 0 <= i < names@.len() ==> ((exists|k: int| 0 <= k < r@.len() && r@[k] == i) <==> removed_by_cleanup(
            name_views(names@),
            #[trigger] names@[i]@,
            keep as nat,
        )),
{
    let ghost nv = name_views(names@);
    let cs = names_chars(names);
    let n = cs.len();
    let mut out: Vec<usize> = Vec::new();
    let mut i: usize = 0;
    while i < n
        invariant
            i <= n,
            n == names@.len(),
            nv == name_views(names@),
            cs@.len() == n,
            forall|j: int| 0 <= j < n ==> (#[trigger] cs@[j])@ == names@[j]@,
            forall|k: int| 0 <= k < out@.len() ==> #[trigger] out@[k] < i,
            forall|k: int, l: int| 0 <= k < l < out@.len() ==> out@[k] < out@[l],
            forall|x: int| 0 <= x < i ==> ((exists|k: int| 0 <= k < out@.len() && out@[k] == x) <==> removed_by_cleanup(
                nv,
                #[trigger] names@[x]@,
                keep as nat,
            )),
        decreases n - i,
    {
        if is_snapshot_chars(&cs[i]) {
            let mut newer: usize = 0;
            let mut j: usize = 0;
            while j < n
                invariant
                    j <= n,
                    n == names@.len(),
                    nv == name_views(names@),
                    i < n,
                    cs@.len() == n,
                    forall|x: int| 0 <= x < n ==> (#[trigger] cs@[x])@ == names@[x]@,
                    newer <= j,
                    newer == newer_snapshots(nv, names@[i as int]@, j as int),
                decreases n - j,
            {
                assert(nv[j as int] == names@[j as int]@);
                if is_snapshot_chars(&cs[j]) && chars_lt(&cs[i], &cs[j]) {
                    newer = newer + 1;
                }
                j = j + 1;
            }
            if newer >= keep {
                proof {
                    assert forall|x: int| 0 <= x < i + 1 implies ((exists|k: int| 0 <= k < out@.push(i).len() && out@.push(i)[k] == x) <==> removed_by_cleanup(
                        nv,
                        #[trigger] names@[x]@,
                        keep as nat,
                    )) by {
                        let o2 = out@.push(i);
                        if x < i {
                            if exists|k: int| 0 <= k < o2.len() && o2[k] == x {
                                let k = choose|k: int| 0 <= k < o2.len() && o2[k] == x;
                                assert(k < out@.len());
                                assert(out@[k] == x);
                            }
                            if exists|k: int| 0 <= k < out@.len() && out@[k] == x {
                                let k = choose|k: int| 0 <= k < out@.len() && out@[k] == x;
                                assert(o2[k] == x);
                            }
                        } else {
                            assert(o2[out@.len() as int] == x);
                        }
                    }
                }
                out.push(i);
            } else {
                proof {
                    assert forall|x: int| 0 <= x < i + 1 implies ((exists|k: int| 0 <= k < out@.len() && out@[k] == x) <==> removed_by_cleanup(
                        nv,
                        #[trigger] names@[x]@,
                        keep as nat,
                    )) by {
                        if x == i {
                            if exists|k: int| 0 <= k < out@.len() && out@[k] == x {
                                let k = choose|k: int| 0 <= k < out@.len() && out@[k] == x;
                                assert(out@[k] < i);
                            }
                        }
                    }
                }
            }
        } else {
            proof {
                assert forall|x: int| 0 <= x < i + 1 implies ((exists|k: int| 0 <= k < out@.len() && out@[k] == x) <==> removed_by_cleanup(
                    nv,
                    #[trigger] names@[x]@,
                    keep as nat,
                )) by {
                    if x == i {
                        if exists|k: int| 0 <= k < out@.len() && out@[k] == x {
                            let k = choose|k: int| 0 <= k < out@.len() && out@[k] == x;
                            assert(out@[k] < i);
                        }
                    }
                }
            }
        }
        i = i + 1;
    }
    out
}

/// Law: the name given to a snapshot is recognised as a snapshot's.
pub proof fn lemma_snapshot_name_recognised(ts: nat)
    ensures
        is_snapshot(snapshot_name(ts)),
{
    let n = snapshot_name(ts);
    assert(n.take(9) =~= snapshot_prefix());
    assert(n.skip(n.len() - 4) =~= snapshot_suffix());
}

/// With no snapshot after `a` among the first `upto` names, none is counted.
proof fn lemma_no_newer(names: Seq<Seq<char>>, a: Seq<char>, upto: int)
    requires
        upto <= names.len(),
        forall|j: int| 0 <= j < upto && is_snapshot(#[trigger] names[j]) ==> !name_lt(a, names[j]),
    ensures
        newer_snapshots(names, a, upto) == 0,
    decreases upto,
{
    if upto > 0 {
        lemma_no_newer(names, a, upto - 1);
    }
}

/// Law: a clean-up that keeps at least one snapshot never removes the
/// latest one.
pub proof fn lemma_cleanup_keeps_latest(names: Seq<Seq<char>>, i: int, keep: nat)
    requires
        0 <= i < names.len(),
        is_snapshot(names[i]),
        forall|j: int| 0 <= j < names.len() && is_snapshot(#[trigger] names[j]) ==> !name_lt(names[i], names[j]),
        keep >= 1,
    ensures
        !removed_by_cleanup(names, names[i], keep),
{
    lemma_no_newer(names, names[i], names.len() as int);
}

/// Every name counted as coming after `a` also comes after a name before `a`.
proof fn lemma_newer_monotone(names: Seq<Seq<char>>, b: Seq<char>, a: Seq<char>, upto: int)
    requires
        name_lt(b, a),
        upto <= names.len(),
    ensures
        newer_snapshots(names, b, upto) >= newer_snapshots(names, a, upto),
    decreases upto,
{
    if upto > 0 {
        lemma_newer_monotone(names, b, a, upto - 1);
        let c = names[upto - 1];
        if is_snapshot(c) && name_lt(a, c) && !name_lt(b, c) {
            lemma_name_lt_order(b, a, c);
        }
    }
}

/// Law: a clean-up that removes a snapshot removes every older one too.
pub proof fn lemma_cleanup_removes_older(names: Seq<Seq<char>>, a: Seq<char>, b: Seq<char>, keep: nat)
    requires
        removed_by_cleanup(names, a, keep),
        is_snapshot(b),
        name_lt(b, a),
    ensures
        removed_by_cleanup(names, b, keep),
{
    lemma_newer_monotone(names, b, a, names.len() as int);
}

/// The snapshot names among `names`.
pub open spec fn snapshot_set(names: Seq<Seq<char>>) -> Set<Seq<char>> {
    names.to_set().filter(|a: Seq<char>| is_snapshot(a))
}

/// The names of `t` that come after `a`.
pub open spec fn after(t: Set<Seq<char>>, a: Seq<char>) -> Set<Seq<char>> {
    t.filter(|c: Seq<char>| name_lt(a, c))
}

/// The names of `t` that have fewer than `keep` names of `t` after them.
pub open spec fn latest_ones(t: Set<Seq<char>>, keep: nat) -> Set<Seq<char>> {
    t.filter(|a: Seq<char>| after(t, a).len() < keep)
}

/// Two different names are ordered one way or the other.
proof fn lemma_name_lt_total(a: Seq<char>, b: Seq<char>)
    requires
        a != b,
    ensures
        name_lt(a, b) || name_lt(b, a),
    decreases a.len(),
{
    if a.len() == 0 && b.len() == 0 {
        assert(a =~= b);
    } else if a.len() > 0 && b.len() > 0 && a[0] == b[0] {
        if a.drop_first() == b.drop_first() {
            assert(a =~= seq![a[0]] + a.drop_first());
            assert(b =~= seq![b[0]] + b.drop_first());
        }
        lemma_name_lt_total(a.drop_first(), b.drop_first());
    } else if a.len() > 0 && b.len() > 0 {
        assert((a[0] as int) != (b[0] as int));
    }
}

/// A finite non-empty set of names has a greatest one.
proof fn lemma_greatest(t: Set<Seq<char>>) -> (m: Seq<char>)
    requires
        t.finite(),
        t.len() > 0,
    ensures
        t.contains(m),
        forall|c: Seq<char>| t.contains(c) ==> !name_lt(m, c),
    decreases t.len(),
{
    vstd::set_lib::lemma_set_empty_equivalency_len(t);
    let x = t.choose();
    assert(t.contains(x));
    let r = t.remove(x);
    if r.len() == 0 {
        vstd::set_lib::lemma_set_empty_equivalency_len(r);
        assert forall|c: Seq<char>| t.contains(c) implies !name_lt(x, c) by {
            if c != x {
                assert(r.contains(c));
            }
            lemma_name_lt_irreflexive(x);
        }
        x
    } else {
        let m = lemma_greatest(r);
        if name_lt(m, x) {
            assert forall|c: Seq<char>| t.contains(c) implies !name_lt(x, c) by {
                if c == x {
                    lemma_name_lt_irreflexive(x);
                } else {
                    assert(r.contains(c));
                    lemma_name_lt_order(m, x, c);
                }
            }
            x
        } else {
            assert forall|c: Seq<char>| t.contains(c) implies !name_lt(m, c) by {
                if c != x {
                    assert(r.contains(c));
                }
            }
            m
        }
    }
}

/// Of a finite set of `n` names, `min(keep, n)` have fewer than `keep`
/// names after them.
proof fn lemma_latest_ones_len(t: Set<Seq<char>>, keep: nat)
    requires
        t.finite(),
    ensures
        latest_ones(t, keep).finite(),
        latest_ones(t, keep).len() == if keep < t.len() { keep } else { t.len() },
    decreases t.len(),
{
    t.lemma_len_filter(|a: Seq<char>| after(t, a).len() < keep);
    if t.len() == 0 {
        t.lemma_len0_is_empty();
        assert(latest_ones(t, keep) =~= Set::<Seq<char>>::empty());
    } else {
        let m = lemma_greatest(t);
        let r = t.remove(m);
        assert(after(t, m) =~= Set::<Seq<char>>::empty());
        assert forall|a: Seq<char>| #[trigger] r.contains(a) implies after(t, a).len() == after(r, a).len() + 1 by {
            lemma_name_lt_total(a, m);
            assert(name_lt(a, m));
            assert(after(t, a) =~= after(r, a).insert(m));
            r.lemma_len_filter(|c: Seq<char>| name_lt(a, c));
            assert(!after(r, a).contains(m));
        }
        if keep == 0 {
            assert(latest_ones(t, keep) =~= Set::<Seq<char>>::empty());
        } else {
            let k1 = (keep - 1) as nat;
            lemma_latest_ones_len(r, k1);
            assert(latest_ones(t, keep) =~= latest_ones(r, k1).insert(m)) by {
                assert forall|a: Seq<char>| #[trigger] latest_ones(t, keep).contains(a) <==> latest_ones(r, k1).insert(m).contains(a) by {
                    if a != m && t.contains(a) {
                        assert(r.contains(a));
                    }
                }
            }
            assert(!latest_ones(r, k1).contains(m));
        }
    }
}

/// Counting the later snapshots among the first `u` distinct names is
/// taking the size of the set of them.
proof fn lemma_newer_is_after(names: Seq<Seq<char>>, a: Seq<char>, u: int)
    requires
        names.no_duplicates(),
        0 <= u <= names.len(),
    ensures
        names.take(u).to_set().filter(|c: Seq<char>| is_snapshot(c) && name_lt(a, c)).finite(),
        newer_snapshots(names, a, u) == names.take(u).to_set().filter(|c: Seq<char>| is_snapshot(c) && name_lt(a, c)).len(),
    decreases u,
{
    let f = |c: Seq<char>| is_snapshot(c) && name_lt(a, c);
    let cur = names.take(u).to_set();
    vstd::seq_lib::seq_to_set_is_finite(names.take(u));
    cur.lemma_len_filter(f);
    if u == 0 {
        assert(names.take(0) =~= Seq::<Seq<char>>::empty());
        assert(cur.filter(f) =~= Set::<Seq<char>>::empty());
    } else {
        lemma_newer_is_after(names, a, u - 1);
        let x = names[u - 1];
        let prev = names.take(u - 1);
        assert(names.take(u) =~= prev.push(x));
        prev.lemma_push_to_set_commute(x);
        assert(!prev.to_set().contains(x)) by {
            if prev.contains(x) {
                let j = choose|j: int| 0 <= j < prev.len() && prev[j] == x;
                assert(names[j] == names[u - 1]);
            }
        }
        if f(x) {
            assert(cur.filter(f) =~= prev.to_set().filter(f).insert(x));
        } else {
            assert(cur.filter(f) =~= prev.to_set().filter(f));
        }
    }
}

/// Law: among distinct file names, a clean-up keeping `keep` snapshots
/// leaves exactly `min(keep, n)` of the `n` snapshots: the latest ones.
pub proof fn lemma_cleanup_leaves_latest(names: Seq<Seq<char>>, keep: nat)
    requires
        names.no_duplicates(),
    ensures
        names.to_set().filter(|a: Seq<char>| is_snapshot(a) && !removed_by_cleanup(names, a, keep)) == latest_ones(snapshot_set(names), keep),
        latest_ones(snapshot_set(names), keep).len() == if keep < snapshot_set(names).len() {
            keep
        } else {
            snapshot_set(names).len()
        },
{
    let t = snapshot_set(names);
    vstd::seq_lib::seq_to_set_is_finite(names);
    names.to_set().lemma_len_filter(|a: Seq<char>| is_snapshot(a));
    assert(names.take(names.len() as int) =~= names);
    assert forall|a: Seq<char>| #[trigger] t.contains(a) implies newer_snapshots(names, a, names.len() as int) == after(t, a).len() by {
        lemma_newer_is_after(names, a, names.len() as int);
        assert(names.to_set().filter(|c: Seq<char>| is_snapshot(c) && name_lt(a, c)) =~= after(t, a));
    }
    assert(names.to_set().filter(|a: Seq<char>| is_snapshot(a) && !removed_by_cleanup(names, a, keep)) =~= latest_ones(t, keep));
    lemma_latest_ones_len(t, keep);
}

/// No name comes before itself.
proof fn lemma_name_lt_irreflexive(a: Seq<char>)
    ensures
        !name_lt(a, a),
    decreases a.len(),
{
    if a.len() > 0 {
        lemma_name_lt_irreflexive(a.drop_first());
    }
}

/// The order of names is transitive: a name that comes after `a` cannot come
/// before a name that `a` does not come before.
proof fn lemma_name_lt_order(a: Seq<char>, b: Seq<char>, c: Seq<char>)
    requires
        name_lt(a, b),
        !name_lt(a, c),
    ensures
        !name_lt(b, c),
    decreases a.len(),
{
    if a.len() > 0 && b.len() > 0 && c.len() > 0 && a[0] == b[0] && a[0] == c[0] {
        lemma_name_lt_order(a.drop_first(), b.drop_first(), c.drop_first());
    }
}

} // verus!
