//! The disjoint grouping engine: partition items into equivalence classes
//! by a key value, keeping only classes with more than `threshold` members.

use vstd::prelude::*;

verus! {

/// Outcome of extracting a key from one candidate item.
///
/// `Skip` marks an ineligible candidate that is dropped silently;
/// `Fail` carries a diagnostic message and the candidate is dropped
/// from grouping but reported.
#[derive(Debug, PartialEq, Eq)]
pub enum Outcome<K> {
    /// The key was extracted.
    Found(K),
    /// The candidate is not eligible; drop it silently.
    Skip,
    /// Key extraction failed; drop the candidate and report the message.
    Fail(String),
}

/// A key that the grouping engine can compare: its mathematical value is
/// its view, and `key_eq` decides view equality.
pub trait Key: View + Sized {
    /// Decide whether two keys have the same value.
    fn key_eq(&self, other: &Self) -> (b: bool)
        ensures
            b == (self@ == other@),
    ;
}

impl Key for u64 {
    fn key_eq(&self, other: &Self) -> (b: bool)
        ensures
            b == (self@ == other@),
    {
        *self == *other
    }
}

/// The `(key value, item)` pairs retained from a sequence of extraction
/// outcomes: `Found` outcomes in order; `Skip` and `Fail` are dropped.
pub open spec fn retained<K: View, T>(outs: Seq<(Outcome<K>, T)>) -> Seq<(K::V, T)>
    decreases outs.len(),
{
    if outs.len() == 0 {
        Seq::empty()
    } else {
        let rest = retained(outs.drop_last());
        match outs.last().0 {
            Outcome::Found(k) => rest.push((k@, outs.last().1)),
            Outcome::Skip => rest,
            Outcome::Fail(_) => rest,
        }
    }
}

/// The `(item, message)` pairs of the failing outcomes, in order.
pub open spec fn failures<K: View, T>(outs: Seq<(Outcome<K>, T)>) -> Seq<(T, String)>
    decreases outs.len(),
{
    if outs.len() == 0 {
        Seq::empty()
    } else {
        let rest = failures(outs.drop_last());
        match outs.last().0 {
            Outcome::Fail(m) => rest.push((outs.last().1, m)),
            _ => rest,
        }
    }
}

/// The class of key value `k`: the items paired with `k`, in input order.
pub open spec fn group_of<V, T>(pairs: Seq<(V, T)>, k: V) -> Seq<T>
    decreases pairs.len(),
{
    if pairs.len() == 0 {
        Seq::empty()
    } else {
        let rest = group_of(pairs.drop_last(), k);
        if pairs.last().0 == k {
            rest.push(pairs.last().1)
        } else {
            rest
        }
    }
}

/// The distinct key values of `pairs`, in order of first occurrence.
pub open spec fn distinct_keys<V, T>(pairs: Seq<(V, T)>) -> Seq<V>
    decreases pairs.len(),
{
    if pairs.len() == 0 {
        Seq::empty()
    } else {
        let rest = distinct_keys(pairs.drop_last());
        if rest.contains(pairs.last().0) {
            rest
        } else {
            rest.push(pairs.last().0)
        }
    }
}

/// The keys of `keys` whose class in `pairs` has more than `threshold`
/// members, in order.
pub open spec fn keys_above<V, T>(keys: Seq<V>, pairs: Seq<(V, T)>, threshold: nat) -> Seq<V>
    decreases keys.len(),
{
    if keys.len() == 0 {
        Seq::empty()
    } else {
        let rest = keys_above(keys.drop_last(), pairs, threshold);
        if group_of(pairs, keys.last()).len() > threshold {
            rest.push(keys.last())
        } else {
            rest
        }
    }
}

/// The key values whose class is large enough to be reported, in order of
/// first occurrence.
pub open spec fn reported_keys<V, T>(pairs: Seq<(V, T)>, threshold: nat) -> Seq<V> {
    keys_above(distinct_keys(pairs), pairs, threshold)
}

/// The groups that the engine reports for `pairs`: one class per reported
/// key, in order of the key's first occurrence.
pub open spec fn groups_of<V, T>(pairs: Seq<(V, T)>, threshold: nat) -> Seq<Seq<T>> {
    reported_keys(pairs, threshold).map_values(|k: V| group_of(pairs, k))
}

/// The distinct keys of a pair sequence are pairwise distinct.
pub proof fn lemma_distinct_keys_distinct<V, T>(pairs: Seq<(V, T)>)
    ensures
        forall|a: int, b: int|
            0 <= a < b < distinct_keys(pairs).len() ==> distinct_keys(pairs)[a] != distinct_keys(
                pairs,
            )[b],
    decreases pairs.len(),
{
    if pairs.len() > 0 {
        lemma_distinct_keys_distinct(pairs.drop_last());
        let rest = distinct_keys(pairs.drop_last());
        if !rest.contains(pairs.last().0) {
            assert forall|a: int, b: int|
                0 <= a < b < distinct_keys(pairs).len() implies distinct_keys(pairs)[a]
                != distinct_keys(pairs)[b] by {
                if b == rest.len() {
                    assert(rest[a] == distinct_keys(pairs)[a]);
                    assert(rest.contains(rest[a]));
                }
            }
        }
    }
}

/// A key that never occurs in `pairs` has an empty class.
pub proof fn lemma_group_of_absent<V, T>(pairs: Seq<(V, T)>, k: V)
    requires
        !distinct_keys(pairs).contains(k),
    ensures
        group_of(pairs, k) == Seq::<T>::empty(),
    decreases pairs.len(),
{
    if pairs.len() > 0 {
        let rest = distinct_keys(pairs.drop_last());
        assert forall|i: int| 0 <= i < rest.len() implies rest[i] != k by {
            if rest.contains(pairs.last().0) {
                assert(distinct_keys(pairs) == rest);
                assert(distinct_keys(pairs).contains(rest[i]));
            } else {
                assert(distinct_keys(pairs) == rest.push(pairs.last().0));
                assert(distinct_keys(pairs)[i] == rest[i]);
                assert(distinct_keys(pairs).contains(rest[i]));
            }
        }
        assert(!rest.contains(k));
        if pairs.last().0 == k {
            if rest.contains(pairs.last().0) {
                assert(false);
            } else {
                assert(distinct_keys(pairs) == rest.push(k));
                assert(distinct_keys(pairs)[rest.len() as int] == k);
                assert(distinct_keys(pairs).contains(k));
                assert(false);
            }
        }
        lemma_group_of_absent(pairs.drop_last(), k);
    }
}

/// Every member of the class of `k` stems from a pair with key `k`.
pub proof fn lemma_group_members<V, T>(pairs: Seq<(V, T)>, k: V, x: T)
    requires
        group_of(pairs, k).contains(x),
    ensures
        exists|n: int| 0 <= n < pairs.len() && pairs[n] == (k, x),
    decreases pairs.len(),
{
    let g = group_of(pairs, k);
    let rest = group_of(pairs.drop_last(), k);
    if pairs.last().0 == k && x == pairs.last().1 && g.len() == rest.len() + 1 && g.last() == x {
        assert(pairs[pairs.len() - 1] == (k, x));
    } else {
        assert(rest.contains(x)) by {
            let w = choose|w: int| 0 <= w < g.len() && g[w] == x;
            if pairs.last().0 == k {
                if w < rest.len() {
                    assert(rest[w] == x);
                } else {
                    assert(g.last() == x);
                    assert(pairs[pairs.len() - 1] == (k, x));
                }
            } else {
                assert(rest[w] == x);
            }
        }
        if pairs.last().0 == k && pairs.last().1 == x {
            assert(pairs[pairs.len() - 1] == (k, x));
        } else {
            lemma_group_members(pairs.drop_last(), k, x);
            let n = choose|n: int| 0 <= n < pairs.drop_last().len() && pairs.drop_last()[n] == (
                k,
                x,
            );
            assert(pairs[n] == (k, x));
        }
    }
}

/// Every item paired with key `k` is a member of the class of `k`.
pub proof fn lemma_group_covers<V, T>(pairs: Seq<(V, T)>, k: V, n: int)
    requires
        0 <= n < pairs.len(),
        pairs[n].0 == k,
    ensures
        group_of(pairs, k).contains(pairs[n].1),
    decreases pairs.len(),
{
    let g = group_of(pairs, k);
    let rest = group_of(pairs.drop_last(), k);
    if n == pairs.len() - 1 {
        assert(g.last() == pairs[n].1);
    } else {
        lemma_group_covers(pairs.drop_last(), k, n);
        assert(pairs.drop_last()[n] == pairs[n]);
        let w = choose|w: int| 0 <= w < rest.len() && rest[w] == pairs[n].1;
        if pairs.last().0 == k {
            assert(g[w] == pairs[n].1);
        } else {
            assert(g[w] == pairs[n].1);
        }
    }
}

/// A key passes the threshold filter exactly when it was listed and its
/// class is large enough.
pub proof fn lemma_keys_above_iff<V, T>(keys: Seq<V>, pairs: Seq<(V, T)>, threshold: nat, k: V)
    ensures
        keys_above(keys, pairs, threshold).contains(k) <==> (keys.contains(k) && group_of(
            pairs,
            k,
        ).len() > threshold),
    decreases keys.len(),
{
    if keys.len() > 0 {
        lemma_keys_above_iff(keys.drop_last(), pairs, threshold, k);
        let rest = keys_above(keys.drop_last(), pairs, threshold);
        let cur = keys_above(keys, pairs, threshold);
        if cur.contains(k) {
            let w = choose|w: int| 0 <= w < cur.len() && cur[w] == k;
            if group_of(pairs, keys.last()).len() > threshold {
                if w < rest.len() {
                    assert(rest.contains(rest[w]));
                } else {
                    assert(k == keys.last());
                    assert(keys[keys.len() - 1] == k);
                }
            } else {
                assert(rest.contains(rest[w]));
            }
            if rest.contains(k) {
                let v = choose|v: int| 0 <= v < keys.drop_last().len() && keys.drop_last()[v]
                    == k;
                assert(keys[v] == k);
            }
        }
        if keys.contains(k) && group_of(pairs, k).len() > threshold {
            let v = choose|v: int| 0 <= v < keys.len() && keys[v] == k;
            if v < keys.len() - 1 {
                assert(keys.drop_last()[v] == k);
                let w = choose|w: int| 0 <= w < rest.len() && rest[w] == k;
                if group_of(pairs, keys.last()).len() > threshold {
                    assert(cur[w] == k);
                } else {
                    assert(cur[w] == k);
                }
            } else {
                assert(keys.last() == k);
                assert(cur.last() == k);
            }
        }
    }
}

/// The threshold filter keeps a pairwise distinct key list pairwise
/// distinct.
pub proof fn lemma_keys_above_distinct<V, T>(keys: Seq<V>, pairs: Seq<(V, T)>, threshold: nat)
    requires
        forall|a: int, b: int| 0 <= a < b < keys.len() ==> keys[a] != keys[b],
    ensures
        forall|a: int, b: int|
            0 <= a < b < keys_above(keys, pairs, threshold).len() ==> keys_above(
                keys,
                pairs,
                threshold,
            )[a] != keys_above(keys, pairs, threshold)[b],
    decreases keys.len(),
{
    if keys.len() > 0 {
        lemma_keys_above_distinct(keys.drop_last(), pairs, threshold);
        let rest = keys_above(keys.drop_last(), pairs, threshold);
        let cur = keys_above(keys, pairs, threshold);
        if group_of(pairs, keys.last()).len() > threshold {
            assert forall|a: int, b: int| 0 <= a < b < cur.len() implies cur[a] != cur[b] by {
                if b == rest.len() {
                    assert(cur[b] == keys.last());
                    assert(rest.contains(rest[a]));
                    lemma_keys_above_iff(keys.drop_last(), pairs, threshold, rest[a]);
                    let v = choose|v: int|
                        0 <= v < keys.drop_last().len() && keys.drop_last()[v] == rest[a];
                    assert(keys[v] == rest[a]);
                    assert(keys[v] != keys[keys.len() - 1]);
                } else {
                    assert(cur[a] == rest[a] && cur[b] == rest[b]);
                }
            }
        }
    }
}

/// No key value is reported twice: each reported group stands for a
/// different key.
pub proof fn lemma_reported_keys_distinct<V, T>(pairs: Seq<(V, T)>, threshold: nat)
    ensures
        forall|a: int, b: int|
            0 <= a < b < reported_keys(pairs, threshold).len() ==> reported_keys(
                pairs,
                threshold,
            )[a] != reported_keys(pairs, threshold)[b],
{
    lemma_distinct_keys_distinct(pairs);
    lemma_keys_above_distinct(distinct_keys(pairs), pairs, threshold);
}

/// Reported groups are pairwise disjoint in membership as far as the
/// input allows: an item reported in two groups would have to occur in
/// `pairs` under two distinct keys.
pub proof fn lemma_groups_disjoint<V, T>(pairs: Seq<(V, T)>, threshold: nat, a: int, b: int, x: T)
    requires
        0 <= a < b < groups_of(pairs, threshold).len(),
        groups_of(pairs, threshold)[a].contains(x),
        groups_of(pairs, threshold)[b].contains(x),
    ensures
        exists|n1: int, n2: int|
            #![auto]
            0 <= n1 < pairs.len() && 0 <= n2 < pairs.len() && pairs[n1].1 == x && pairs[n2].1 == x
                && pairs[n1].0 != pairs[n2].0,
{
    lemma_reported_keys_distinct(pairs, threshold);
    lemma_grouping_sound(pairs, threshold, a);
    lemma_grouping_sound(pairs, threshold, b);
    let ka = reported_keys(pairs, threshold)[a];
    let kb = reported_keys(pairs, threshold)[b];
    assert(ka != kb);
    let n1 = choose|n: int| 0 <= n < pairs.len() && pairs[n] == (ka, x);
    let n2 = choose|n: int| 0 <= n < pairs.len() && pairs[n] == (kb, x);
    assert(pairs[n1].1 == x && pairs[n2].1 == x && pairs[n1].0 != pairs[n2].0);
}

/// Soundness of partitioning (one half of grouping correctness): each
/// reported group is the entire class of one key value, so every two
/// items reported in the same group stem from pairs with equal keys.
pub proof fn lemma_grouping_sound<V, T>(pairs: Seq<(V, T)>, threshold: nat, i: int)
    requires
        0 <= i < groups_of(pairs, threshold).len(),
    ensures
        ({
            let g = groups_of(pairs, threshold)[i];
            let k = reported_keys(pairs, threshold)[i];
            &&& g == group_of(pairs, k)
            &&& g.len() > threshold
            &&& forall|x: T|
                g.contains(x) ==> exists|n: int| 0 <= n < pairs.len() && pairs[n] == (k, x)
        }),
{
    let rk = reported_keys(pairs, threshold);
    let g = groups_of(pairs, threshold)[i];
    let k = rk[i];
    assert(g == group_of(pairs, k));
    assert(rk.contains(k));
    lemma_keys_above_iff(distinct_keys(pairs), pairs, threshold, k);
    assert forall|x: T| g.contains(x) implies exists|n: int|
        0 <= n < pairs.len() && pairs[n] == (k, x) by {
        lemma_group_members(pairs, k, x);
    }
}

/// Completeness of partitioning (the other half of grouping correctness):
/// a key class that exceeds the threshold is reported, as one group
/// holding every item of that key.
pub proof fn lemma_grouping_complete<V, T>(pairs: Seq<(V, T)>, threshold: nat, k: V)
    requires
        group_of(pairs, k).len() > threshold,
    ensures
        exists|i: int|
            0 <= i < groups_of(pairs, threshold).len() && groups_of(pairs, threshold)[i]
                == group_of(pairs, k),
        forall|n: int|
            0 <= n < pairs.len() && pairs[n].0 == k ==> group_of(pairs, k).contains(pairs[n].1),
{
    let dk = distinct_keys(pairs);
    assert(dk.contains(k)) by {
        if !dk.contains(k) {
            lemma_group_of_absent(pairs, k);
        }
    }
    lemma_keys_above_iff(dk, pairs, threshold, k);
    let rk = reported_keys(pairs, threshold);
    assert(rk.contains(k));
    let i = choose|i: int| 0 <= i < rk.len() && rk[i] == k;
    assert(groups_of(pairs, threshold)[i] == group_of(pairs, k));
    assert forall|n: int| 0 <= n < pairs.len() && pairs[n].0 == k implies group_of(
        pairs,
        k,
    ).contains(pairs[n].1) by {
        lemma_group_covers(pairs, k, n);
    }
}

/// Threshold boundary: a class of exactly `threshold` items is excluded;
/// a class of `threshold + 1` items is reported in full.
pub proof fn lemma_threshold_boundary<V, T>(pairs: Seq<(V, T)>, threshold: nat, k: V)
    ensures
        group_of(pairs, k).len() == threshold ==> !reported_keys(pairs, threshold).contains(k),
        group_of(pairs, k).len() == threshold + 1 ==> exists|i: int|
            0 <= i < groups_of(pairs, threshold).len() && groups_of(pairs, threshold)[i]
                == group_of(pairs, k),
{
    lemma_keys_above_iff(distinct_keys(pairs), pairs, threshold, k);
    if group_of(pairs, k).len() == threshold + 1 {
        lemma_grouping_complete(pairs, threshold, k);
    }
}

/// Every `Found` outcome's item is retained, paired with its key value.
pub proof fn lemma_retained_covers<K: View, T>(outs: Seq<(Outcome<K>, T)>, n: int, k: K)
    requires
        0 <= n < outs.len(),
        outs[n].0 == Outcome::Found(k),
    ensures
        retained(outs).contains((k@, outs[n].1)),
    decreases outs.len(),
{
    if n == outs.len() - 1 {
        assert(retained(outs).last() == (k@, outs[n].1));
    } else {
        lemma_retained_covers(outs.drop_last(), n, k);
        assert(outs.drop_last()[n] == outs[n]);
        let rest = retained(outs.drop_last());
        let w = choose|w: int| 0 <= w < rest.len() && rest[w] == (k@, outs[n].1);
        assert(retained(outs)[w] == (k@, outs[n].1));
    }
}

/// Every retained pair stems from a `Found` outcome of the same item.
pub proof fn lemma_retained_members<K: View, T>(outs: Seq<(Outcome<K>, T)>, w: int)
    requires
        0 <= w < retained(outs).len(),
    ensures
        exists|n: int, k: K|
            #![auto]
            0 <= n < outs.len() && outs[n] == (Outcome::Found(k), retained(outs)[w].1) && k@
                == retained(outs)[w].0,
    decreases outs.len(),
{
    let rest = retained(outs.drop_last());
    match outs.last().0 {
        Outcome::Found(k) => {
            if w == retained(outs).len() - 1 {
                let n = outs.len() - 1;
                assert(retained(outs)[w] == (k@, outs.last().1));
                assert(outs[n] == (Outcome::Found(k), retained(outs)[w].1));
            } else {
                lemma_retained_members(outs.drop_last(), w);
                let (n, kk) = choose|n: int, kk: K|
                    #![auto]
                    0 <= n < outs.drop_last().len() && outs.drop_last()[n] == (
                        Outcome::Found(kk),
                        rest[w].1,
                    ) && kk@ == rest[w].0;
                assert(retained(outs)[w] == rest[w]);
                assert(outs[n] == (Outcome::Found(kk), retained(outs)[w].1));
            }
        },
        _ => {
            lemma_retained_members(outs.drop_last(), w);
            let (n, kk) = choose|n: int, kk: K|
                #![auto]
                0 <= n < outs.drop_last().len() && outs.drop_last()[n] == (
                    Outcome::Found(kk),
                    rest[w].1,
                ) && kk@ == rest[w].0;
            assert(retained(outs)[w] == rest[w]);
            assert(outs[n] == (Outcome::Found(kk), retained(outs)[w].1));
        },
    }
}

/// Error isolation: a candidate whose key extraction fails (or that is
/// skipped) changes nothing for the other candidates — removing it from
/// the input leaves the retained pairs, and with them every reported
/// group, unchanged.
pub proof fn lemma_error_isolation<K: View, T>(outs: Seq<(Outcome<K>, T)>, i: int, threshold: nat)
    requires
        0 <= i < outs.len(),
        !(outs[i].0 is Found),
    ensures
        retained(outs.remove(i)) == retained(outs),
        groups_of(retained(outs.remove(i)), threshold) == groups_of(retained(outs), threshold),
    decreases outs.len(),
{
    if i == outs.len() - 1 {
        assert(outs.remove(i) =~= outs.drop_last());
    } else {
        let shorter = outs.drop_last();
        lemma_error_isolation(shorter, i, threshold);
        assert(outs.remove(i).drop_last() =~= shorter.remove(i));
        assert(outs.remove(i).last() == outs.last());
    }
}

/// Removing one pair removes exactly its item from its key's class.
proof fn lemma_group_of_remove<V, T>(pairs: Seq<(V, T)>, i: int, k: V)
    requires
        0 <= i < pairs.len(),
    ensures
        pairs[i].0 == k ==> group_of(pairs, k).to_multiset() == group_of(
            pairs.remove(i),
            k,
        ).to_multiset().insert(pairs[i].1),
        pairs[i].0 != k ==> group_of(pairs, k).to_multiset() == group_of(
            pairs.remove(i),
            k,
        ).to_multiset(),
    decreases pairs.len(),
{
    group_of(pairs.drop_last(), k).to_multiset_ensures();
    if i == pairs.len() - 1 {
        assert(pairs.remove(i) =~= pairs.drop_last());
        if pairs[i].0 == k {
            assert(group_of(pairs, k) == group_of(pairs.drop_last(), k).push(pairs[i].1));
        }
    } else {
        lemma_group_of_remove(pairs.drop_last(), i, k);
        assert(pairs.remove(i).drop_last() =~= pairs.drop_last().remove(i));
        assert(pairs.remove(i).last() == pairs.last());
        assert(pairs.drop_last()[i] == pairs[i]);
        group_of(pairs.drop_last().remove(i), k).to_multiset_ensures();
        if pairs.last().0 == k {
            assert(group_of(pairs, k) == group_of(pairs.drop_last(), k).push(pairs.last().1));
            assert(group_of(pairs.remove(i), k) == group_of(
                pairs.drop_last().remove(i),
                k,
            ).push(pairs.last().1));
            if pairs[i].0 == k {
                assert(group_of(pairs, k).to_multiset() =~= group_of(
                    pairs.remove(i),
                    k,
                ).to_multiset().insert(pairs[i].1));
            }
        } else {
            assert(group_of(pairs, k) == group_of(pairs.drop_last(), k));
            assert(group_of(pairs.remove(i), k) == group_of(pairs.drop_last().remove(i), k));
        }
    }
}

/// The classes do not depend on the order of the pairs: any
/// rearrangement keeps each key's members, multiplicities included.
pub proof fn lemma_group_of_permutation<V, T>(pairs1: Seq<(V, T)>, pairs2: Seq<(V, T)>, k: V)
    requires
        pairs1.to_multiset() == pairs2.to_multiset(),
    ensures
        group_of(pairs1, k).to_multiset() == group_of(pairs2, k).to_multiset(),
    decreases pairs1.len(),
{
    pairs1.to_multiset_ensures();
    pairs2.to_multiset_ensures();
    if pairs1.len() == 0 {
        assert(pairs2.len() == 0);
    } else {
        let e = pairs1.last();
        assert(pairs1.contains(e));
        assert(pairs2.to_multiset().count(e) > 0);
        assert(pairs2.contains(e));
        let i = choose|i: int| 0 <= i < pairs2.len() && pairs2[i] == e;
        assert(pairs1.drop_last() =~= pairs1.remove(pairs1.len() - 1));
        assert(pairs1.drop_last().to_multiset() =~= pairs2.remove(i).to_multiset());
        lemma_group_of_permutation(pairs1.drop_last(), pairs2.remove(i), k);
        lemma_group_of_remove(pairs2, i, k);
        group_of(pairs1.drop_last(), k).to_multiset_ensures();
        if e.0 == k {
            assert(group_of(pairs1, k) == group_of(pairs1.drop_last(), k).push(e.1));
            assert(group_of(pairs1, k).to_multiset() =~= group_of(pairs2, k).to_multiset());
        } else {
            assert(group_of(pairs1, k) == group_of(pairs1.drop_last(), k));
        }
    }
}

/// What one outcome alone retains: its pair if it was `Found`, nothing
/// otherwise.
proof fn lemma_retained_singleton<K: View, T>(p: (Outcome<K>, T))
    ensures
        retained(seq![p]) == (match p.0 {
            Outcome::Found(k) => seq![(k@, p.1)],
            _ => Seq::<(K::V, T)>::empty(),
        }),
{
    assert(seq![p].drop_last() =~= Seq::<(Outcome<K>, T)>::empty());
    assert(retained(Seq::<(Outcome<K>, T)>::empty()) == Seq::<(K::V, T)>::empty());
    assert(seq![p].last() == p);
    match p.0 {
        Outcome::Found(k) => {
            assert(retained(seq![p]) =~= seq![(k@, p.1)]);
        },
        _ => {},
    }
}

/// Removing one outcome removes exactly its contribution from the
/// retained pairs.
proof fn lemma_retained_remove<K: View, T>(outs: Seq<(Outcome<K>, T)>, i: int)
    requires
        0 <= i < outs.len(),
    ensures
        retained(outs).to_multiset() == retained(outs.remove(i)).to_multiset().add(
            retained(seq![outs[i]]).to_multiset(),
        ),
    decreases outs.len(),
{
    let single = retained(seq![outs[i]]);
    lemma_retained_singleton(outs[i]);
    single.to_multiset_ensures();
    Seq::<(K::V, T)>::empty().to_multiset_ensures();
    retained(outs.drop_last()).to_multiset_ensures();
    if i == outs.len() - 1 {
        assert(outs.remove(i) =~= outs.drop_last());
        match outs.last().0 {
            Outcome::Found(k) => {
                assert(single =~= Seq::<(K::V, T)>::empty().push((k@, outs[i].1)));
                assert(retained(outs) == retained(outs.drop_last()).push((k@, outs[i].1)));
                assert(retained(outs).to_multiset() =~= retained(
                    outs.remove(i),
                ).to_multiset().add(single.to_multiset()));
            },
            _ => {
                assert(single =~= Seq::<(K::V, T)>::empty());
                assert(retained(outs) == retained(outs.drop_last()));
                assert(retained(outs).to_multiset() =~= retained(
                    outs.remove(i),
                ).to_multiset().add(single.to_multiset()));
            },
        }
    } else {
        lemma_retained_remove(outs.drop_last(), i);
        assert(outs.remove(i).drop_last() =~= outs.drop_last().remove(i));
        assert(outs.remove(i).last() == outs.last());
        assert(outs.drop_last()[i] == outs[i]);
        retained(outs.drop_last().remove(i)).to_multiset_ensures();
        match outs.last().0 {
            Outcome::Found(k) => {
                assert(retained(outs) == retained(outs.drop_last()).push((k@, outs.last().1)));
                assert(retained(outs.remove(i)) == retained(outs.drop_last().remove(i)).push(
                    (k@, outs.last().1),
                ));
                assert(retained(outs).to_multiset() =~= retained(
                    outs.remove(i),
                ).to_multiset().add(single.to_multiset()));
            },
            _ => {
                assert(retained(outs) == retained(outs.drop_last()));
                assert(retained(outs.remove(i)) == retained(outs.drop_last().remove(i)));
            },
        }
    }
}

/// The retained pairs do not depend on the enumeration order of the
/// outcomes, multiplicities included.
pub proof fn lemma_retained_permutation<K: View, T>(
    outs1: Seq<(Outcome<K>, T)>,
    outs2: Seq<(Outcome<K>, T)>,
)
    requires
        outs1.to_multiset() == outs2.to_multiset(),
    ensures
        retained(outs1).to_multiset() == retained(outs2).to_multiset(),
    decreases outs1.len(),
{
    outs1.to_multiset_ensures();
    outs2.to_multiset_ensures();
    if outs1.len() == 0 {
        assert(outs2.len() == 0);
    } else {
        let e = outs1.last();
        assert(outs1.contains(e));
        assert(outs2.to_multiset().count(e) > 0);
        assert(outs2.contains(e));
        let i = choose|i: int| 0 <= i < outs2.len() && outs2[i] == e;
        assert(outs1.drop_last() =~= outs1.remove(outs1.len() - 1));
        assert(outs1.drop_last().to_multiset() =~= outs2.remove(i).to_multiset());
        lemma_retained_permutation(outs1.drop_last(), outs2.remove(i));
        lemma_retained_remove(outs2, i);
        let single = retained(seq![e]);
        lemma_retained_singleton(e);
        single.to_multiset_ensures();
        Seq::<(K::V, T)>::empty().to_multiset_ensures();
        retained(outs1.drop_last()).to_multiset_ensures();
        match e.0 {
            Outcome::Found(k) => {
                assert(single =~= Seq::<(K::V, T)>::empty().push((k@, e.1)));
                assert(retained(outs1) == retained(outs1.drop_last()).push((k@, e.1)));
                assert(retained(outs1).to_multiset() =~= retained(outs2).to_multiset());
            },
            _ => {
                assert(single =~= Seq::<(K::V, T)>::empty());
                assert(retained(outs1) == retained(outs1.drop_last()));
                assert(retained(outs1).to_multiset() =~= retained(outs2).to_multiset());
            },
        }
    }
}

/// Which classes are reported does not depend on the order of the
/// pairs: a group reported for one enumeration order has, under any
/// other order, a reported group with exactly the same members.
pub proof fn lemma_grouping_permutation<V, T>(
    pairs1: Seq<(V, T)>,
    pairs2: Seq<(V, T)>,
    threshold: nat,
    i: int,
)
    requires
        pairs1.to_multiset() == pairs2.to_multiset(),
        0 <= i < groups_of(pairs1, threshold).len(),
    ensures
        exists|j: int|
            #![auto]
            0 <= j < groups_of(pairs2, threshold).len() && groups_of(pairs2, threshold)[j]
                .to_multiset() == groups_of(pairs1, threshold)[i].to_multiset(),
{
    lemma_grouping_sound(pairs1, threshold, i);
    let k = reported_keys(pairs1, threshold)[i];
    lemma_group_of_permutation(pairs1, pairs2, k);
    group_of(pairs1, k).to_multiset_ensures();
    group_of(pairs2, k).to_multiset_ensures();
    assert(group_of(pairs2, k).len() == group_of(pairs1, k).len());
    lemma_grouping_complete(pairs2, threshold, k);
    let j = choose|j: int|
        0 <= j < groups_of(pairs2, threshold).len() && groups_of(pairs2, threshold)[j] == group_of(
            pairs2,
            k,
        );
    assert(0 <= j < groups_of(pairs2, threshold).len() && groups_of(pairs2, threshold)[j]
        .to_multiset() == groups_of(pairs1, threshold)[i].to_multiset());
}

/// Find the first entry of `acc` whose key equals `k`, if any.
fn find_key<K: Key, T>(acc: &Vec<(K, Vec<T>)>, k: &K) -> (r: Option<usize>)
    ensures
        match r {
            Some(idx) => idx < acc@.len() && acc@[idx as int].0@ == k@ && (forall|n: int|
                0 <= n < idx ==> (#[trigger] acc@[n]).0@ != k@),
            None => forall|n: int| 0 <= n < acc@.len() ==> (#[trigger] acc@[n]).0@ != k@,
        },
{
    let mut idx: usize = 0;
    while idx < acc.len()
        invariant
            idx <= acc@.len(),
            forall|n: int| 0 <= n < idx ==> (#[trigger] acc@[n]).0@ != k@,
        decreases acc@.len() - idx,
    {
        if acc[idx].0.key_eq(k) {
            return Some(idx);
        }
        idx = idx + 1;
    }
    None
}

/// Partition items into disjoint groups of equal key value.
///
/// Every item whose outcome is `Found(key)` is retained and grouped with
/// the other items of the same key value; `Skip` items are dropped
/// silently; `Fail` items are dropped and returned, with their messages,
/// as diagnostics.  A group is reported exactly when its class holds
/// strictly more than `threshold` items, and then it is reported in full.
/// Groups come in order of the first occurrence of their key, members in
/// input order.
pub fn disjoint_by_filter_map<K: Key, T>(outcomes: Vec<(Outcome<K>, T)>, threshold: usize) -> (r: (
    Vec<Vec<T>>,
    Vec<(T, String)>,
))
    ensures
        r.0@.map_values(|g: Vec<T>| g@) == groups_of(retained(outcomes@), threshold as nat),
        r.1@ == failures(outcomes@),
{
    let ghost outs0 = outcomes@;
    let mut outcomes = outcomes;
    let mut pairs: Vec<(K, T)> = Vec::new();
    let mut diags: Vec<(T, String)> = Vec::new();
    let ghost mut i: int = 0;
    // Phase one: keep the items with a key, set the failing ones aside.
    while outcomes.len() > 0
        invariant
            0 <= i <= outs0.len(),
            outcomes@ == outs0.skip(i),
            pairs@.map_values(|p: (K, T)| (p.0@, p.1)) == retained(outs0.take(i)),
            diags@ == failures(outs0.take(i)),
        decreases outcomes.len(),
    {
        proof {
            assert(outs0.take(i + 1).drop_last() =~= outs0.take(i));
            assert(outs0.take(i + 1).last() == outs0[i]);
        }
        let pair = outcomes.remove(0);
        proof {
            assert(pair == outs0.skip(i)[0]);
            assert(pair == outs0[i]);
            assert(outcomes@ =~= outs0.skip(i + 1));
        }
        let (o, t) = pair;
        match o {
            Outcome::Found(k) => {
                pairs.push((k, t));
                proof {
                    assert(pairs@.map_values(|p: (K, T)| (p.0@, p.1)) =~= retained(
                        outs0.take(i + 1),
                    ));
                }
            },
            Outcome::Skip => {
                proof {
                    assert(retained(outs0.take(i + 1)) == retained(outs0.take(i)));
                }
            },
            Outcome::Fail(m) => {
                diags.push((t, m));
                proof {
                    assert(diags@ =~= failures(outs0.take(i + 1)));
                }
            },
        }
        proof {
            i = i + 1;
        }
    }
    proof {
        assert(outs0.take(i) =~= outs0);
    }
    let ghost ps = retained(outs0);
    // Phase two: fold the retained pairs into classes, one per key value,
    // in order of first occurrence.
    let mut acc: Vec<(K, Vec<T>)> = Vec::new();
    let ghost mut j: int = 0;
    while pairs.len() > 0
        invariant
            0 <= j <= ps.len(),
            pairs@.map_values(|p: (K, T)| (p.0@, p.1)) == ps.skip(j),
            acc@.map_values(|e: (K, Vec<T>)| e.0@) == distinct_keys(ps.take(j)),
            forall|n: int|
                0 <= n < acc@.len() ==> (#[trigger] acc@[n]).1@ == group_of(
                    ps.take(j),
                    acc@[n].0@,
                ),
        decreases pairs.len(),
    {
        proof {
            assert(pairs@.map_values(|p: (K, T)| (p.0@, p.1)).len() == pairs@.len());
            assert(j < ps.len());
            assert(ps.take(j + 1).drop_last() =~= ps.take(j));
            assert(ps.take(j + 1).last() == ps[j]);
            lemma_distinct_keys_distinct(ps.take(j));
        }
        let ghost acc_old = acc@;
        let ghost dk_old = distinct_keys(ps.take(j));
        let ghost pr_old = pairs@;
        let (k, t) = pairs.remove(0);
        proof {
            let f = |p: (K, T)| (p.0@, p.1);
            assert(acc_old.map_values(|e: (K, Vec<T>)| e.0@) == dk_old);
            assert(pairs@ == pr_old.remove(0));
            assert forall|n: int| 0 <= n < pairs@.len() implies f(pairs@[n]) == ps.skip(j + 1)[n] by {
                assert(pairs@[n] == pr_old[n + 1]);
                assert(pr_old.map_values(f)[n + 1] == f(pr_old[n + 1]));
                assert(pr_old.map_values(f)[n + 1] == ps.skip(j)[n + 1]);
                assert(ps.skip(j)[n + 1] == ps[j + 1 + n]);
                assert(ps.skip(j + 1)[n] == ps[j + 1 + n]);
            }
            assert(pairs@.map_values(f) =~= ps.skip(j + 1));
            assert((k@, t) == ps[j]) by {
                assert(pr_old.map_values(f)[0] == f(pr_old[0]));
                assert(ps.skip(j)[0] == ps[j]);
            }
        }
        match find_key(&acc, &k) {
            Some(idx) => {
                acc[idx].1.push(t);
                proof {
                    assert(acc@.len() == acc_old.len());
                    assert(acc@[idx as int].0 == acc_old[idx as int].0);
                    assert(acc@[idx as int].1@ == acc_old[idx as int].1@.push(t));
                    assert(forall|n: int|
                        0 <= n < acc@.len() && n != idx ==> acc@[n] == acc_old[n]);
                    // the key is already known: the distinct keys are unchanged
                    assert(dk_old[idx as int] == acc_old[idx as int].0@);
                    assert(dk_old.contains(k@));
                    assert(distinct_keys(ps.take(j + 1)) == dk_old);
                    assert(acc@.map_values(|e: (K, Vec<T>)| e.0@) =~= dk_old);
                    // each class either gains the new item or is untouched
                    assert forall|n: int| 0 <= n < acc@.len() implies (#[trigger] acc@[n]).1@
                        == group_of(ps.take(j + 1), acc@[n].0@) by {
                        assert(dk_old[n] == acc_old[n].0@);
                        if n == idx {
                            assert(acc@[n].1@ == acc_old[n].1@.push(t));
                            assert(acc@[n].0@ == k@);
                        } else {
                            assert(acc@[n] == acc_old[n]);
                            assert(dk_old[n] != dk_old[idx as int]);
                            assert(acc@[n].0@ != k@);
                        }
                    }
                }
            },
            None => {
                let mut g: Vec<T> = Vec::new();
                g.push(t);
                acc.push((k, g));
                proof {
                    // the key is new: it joins the distinct keys at the end
                    assert(!dk_old.contains(k@)) by {
                        if dk_old.contains(k@) {
                            let n = choose|n: int| 0 <= n < dk_old.len() && dk_old[n] == k@;
                            assert(acc_old[n].0@ == k@);
                        }
                    }
                    assert(distinct_keys(ps.take(j + 1)) == dk_old.push(k@));
                    assert(acc@.map_values(|e: (K, Vec<T>)| e.0@) =~= dk_old.push(k@));
                    lemma_group_of_absent(ps.take(j), k@);
                    assert forall|n: int| 0 <= n < acc@.len() implies (#[trigger] acc@[n]).1@
                        == group_of(ps.take(j + 1), acc@[n].0@) by {
                        if n < acc_old.len() {
                            assert(acc@[n] == acc_old[n]);
                            assert(dk_old[n] == acc_old[n].0@);
                            assert(acc@[n].0@ != k@);
                        } else {
                            assert(acc@[n].0@ == k@);
                            assert(acc@[n].1@ =~= group_of(ps.take(j), k@).push(t));
                        }
                    }
                }
            },
        }
        proof {
            j = j + 1;
        }
    }
    proof {
        assert(ps.take(j) =~= ps);
    }
    let ghost accs = acc@;
    let ghost dk = distinct_keys(ps);
    // Phase three: report the classes above the threshold, in order.
    let mut result: Vec<Vec<T>> = Vec::new();
    let ghost mut m: int = 0;
    let ghost thr = threshold as nat;
    while acc.len() > 0
        invariant
            0 <= m <= accs.len(),
            acc@ == accs.skip(m),
            accs.map_values(|e: (K, Vec<T>)| e.0@) == dk,
            forall|n: int|
                0 <= n < accs.len() ==> (#[trigger] accs[n]).1@ == group_of(ps, accs[n].0@),
            thr == threshold as nat,
            result@.map_values(|g: Vec<T>| g@) == keys_above(dk.take(m), ps, thr).map_values(
                |kk: K::V| group_of(ps, kk),
            ),
        decreases acc.len(),
    {
        proof {
            assert(dk.take(m + 1).drop_last() =~= dk.take(m));
            assert(dk.take(m + 1).last() == dk[m]);
            assert(dk[m] == accs[m].0@);
        }
        let (k2, g) = acc.remove(0);
        proof {
            assert(acc@ =~= accs.skip(m + 1));
            assert((k2, g) == accs.skip(m)[0]);
            assert((k2, g) == accs[m]);
            assert(g@ == group_of(ps, dk[m]));
        }
        if g.len() > threshold {
            let ghost res_old = result@;
            result.push(g);
            proof {
                assert(keys_above(dk.take(m + 1), ps, thr) == keys_above(
                    dk.take(m),
                    ps,
                    thr,
                ).push(dk[m]));
                let gf = |g2: Vec<T>| g2@;
                let kf = |kk: K::V| group_of(ps, kk);
                assert(result@.map_values(gf) =~= res_old.map_values(gf).push(
                    group_of(ps, dk[m]),
                ));
                assert(keys_above(dk.take(m + 1), ps, thr).map_values(kf) =~= keys_above(
                    dk.take(m),
                    ps,
                    thr,
                ).map_values(kf).push(group_of(ps, dk[m])));
                assert(result@.map_values(|g2: Vec<T>| g2@) == keys_above(
                    dk.take(m + 1),
                    ps,
                    thr,
                ).map_values(|kk: K::V| group_of(ps, kk)));
            }
        } else {
            proof {
                assert(keys_above(dk.take(m + 1), ps, thr) == keys_above(dk.take(m), ps, thr));
            }
        }
        proof {
            m = m + 1;
        }
    }
    proof {
        assert(dk.take(m) =~= dk);
        assert(result@.map_values(|g: Vec<T>| g@) =~= groups_of(ps, threshold as nat));
    }
    (result, diags)
}

} // verus!
