//! Ascending sequences, and the members of sets and keys of maps in order.
use std::collections::{BTreeSet, HashMap};
use vstd::prelude::*;
use vstd::std_specs::cmp::OrdSpec;
use vstd::std_specs::iter::IteratorSpec;

verus! {

/// Ascending without repetition.
pub open spec fn strictly_increasing(s: Seq<i64>) -> bool {
    forall|i: int, j: int| 0 <= i < j < s.len() ==> s[i] < s[j]
}

/// The values of a sequence are those before its last element, and that one.
pub proof fn lemma_to_set_last<A>(s: Seq<A>)
    requires
        s.len() > 0,
    ensures
        s.to_set() == s.drop_last().to_set().insert(s.last()),
{
    let t = s.drop_last();
    assert forall|x: A| s.to_set().contains(x) <==> t.to_set().insert(s.last()).contains(x) by {
        if s.to_set().contains(x) {
            let k = choose|k: int| 0 <= k < s.len() && s[k] == x;
            if k < t.len() {
                assert(t[k] == x);
            }
        }
        if t.to_set().contains(x) {
            let k = choose|k: int| 0 <= k < t.len() && t[k] == x;
            assert(s[k] == x);
        }
        if x == s.last() {
            assert(s[s.len() - 1] == x);
        }
    }
    assert(s.to_set() =~= t.to_set().insert(s.last()));
}

/// Two ascending sequences over the same set of values are equal.
pub proof fn lemma_increasing_unique(a: Seq<i64>, b: Seq<i64>)
    requires
        strictly_increasing(a),
        strictly_increasing(b),
        a.to_set() == b.to_set(),
    ensures
        a == b,
    decreases a.len(),
{
    if a.len() == 0 {
        if b.len() > 0 {
            assert(b.to_set().contains(b[0]));
            assert(a.to_set().contains(b[0]));
        }
        assert(a =~= b);
    } else {
        assert(a.to_set().contains(a.last())) by {
            assert(a[a.len() - 1] == a.last());
        }
        assert(b.to_set().contains(a.last()));
        let kb = choose|k: int| 0 <= k < b.len() && b[k] == a.last();
        assert(b.to_set().contains(b.last())) by {
            assert(b[b.len() - 1] == b.last());
        }
        assert(a.to_set().contains(b.last()));
        let ka = choose|k: int| 0 <= k < a.len() && a[k] == b.last();
        assert(a.last() == b.last()) by {
            if ka < a.len() - 1 {
                assert(a[ka] < a[a.len() - 1]);
            }
            if kb < b.len() - 1 {
                assert(b[kb] < b[b.len() - 1]);
            }
        }
        let a1 = a.drop_last();
        let b1 = b.drop_last();
        assert(a1.to_set() =~= b1.to_set()) by {
            assert forall|x: i64| a1.to_set().contains(x) <==> b1.to_set().contains(x) by {
                if a1.to_set().contains(x) {
                    let k = choose|k: int| 0 <= k < a1.len() && a1[k] == x;
                    assert(a[k] == x && a[k] < a[a.len() - 1]);
                    assert(a.to_set().contains(x));
                    let m = choose|m: int| 0 <= m < b.len() && b[m] == x;
                    assert(b1[m] == x);
                }
                if b1.to_set().contains(x) {
                    let k = choose|k: int| 0 <= k < b1.len() && b1[k] == x;
                    assert(b[k] == x && b[k] < b[b.len() - 1]);
                    assert(b.to_set().contains(x));
                    let m = choose|m: int| 0 <= m < a.len() && a[m] == x;
                    assert(a1[m] == x);
                }
            }
        }
        lemma_increasing_unique(a1, b1);
        assert(a =~= a1.push(a.last()));
        assert(b =~= b1.push(b.last()));
    }
}

proof fn lemma_increasing_pair<K: Ord>(s: Seq<K>, a: int, b: int)
    requires
        vstd::laws_cmp::obeys_cmp::<K>(),
        vstd::std_specs::btree::increasing_seq(s),
        0 <= a < b < s.len(),
    ensures
        s[a].cmp_spec(&s[b]) is Less,
{
    vstd::std_specs::btree::axiom_increasing_seq_meaning::<K>(s);
}

/// The members of an ordered set, smallest first.
pub fn ascending_items(set: &BTreeSet<i64>) -> (out: Vec<i64>)
    ensures
        strictly_increasing(out@),
        out@.to_set() == set@,
{
    broadcast use vstd::std_specs::btree::group_btree_axioms;
    broadcast use vstd::laws_cmp::group_laws_cmp;

    let mut out: Vec<i64> = Vec::new();
    let ghost keys = set.iter().remaining();
    proof {
        assert(keys.unref().to_set() == set@);
        assert forall|a: int, b: int| 0 <= a < b < keys.len() implies *keys[a] < *keys[b] by {
            lemma_increasing_pair::<&i64>(keys, a, b);
        }
    }
    for k in it: set.iter()
        invariant
            it.seq() == keys,
            out@.len() == it.index(),
            forall|j: int| 0 <= j < out@.len() ==> out@[j] == *keys[j],
    {
        out.push(*k);
    }
    assert(out@ == keys.unref());
    out
}

/// The keys of a finite map in ascending order.
pub open spec fn ascending_keys<V>(m: Map<i64, V>) -> Seq<i64> {
    choose|s: Seq<i64>| strictly_increasing(s) && s.to_set() == m.dom()
}

/// The values of a finite map, by ascending key.
pub open spec fn values_by_key<V>(m: Map<i64, V>) -> Seq<V> {
    ascending_keys(m).map_values(|k: i64| m[k])
}

/// No element comes before a smaller one.
pub open spec fn ascending(s: Seq<i64>) -> bool {
    forall|i: int, j: int| 0 <= i < j < s.len() ==> s[i] <= s[j]
}

/// Puts the numbers in ascending order with `slice::sort`. Assumed of it:
/// the result holds the same numbers, each as often as before, and none
/// of them before a smaller one.
#[verifier::external_body]
fn sort_ascending(v: &mut Vec<i64>)
    ensures
        ascending(final(v)@),
        final(v)@.to_multiset() == old(v)@.to_multiset(),
{
    v.sort();
}

/// The keys of a map, each once, in ascending order.
pub fn sorted_keys(m: &HashMap<i64, (usize, usize)>) -> (out: Vec<i64>)
    ensures
        out@ == ascending_keys(m@),
        strictly_increasing(out@),
        out@.to_set() == m@.dom(),
{
    broadcast use vstd::std_specs::hash::group_hash_axioms;

    let mut out: Vec<i64> = Vec::new();
    let iter = m.keys();
    let ghost keys = iter.remaining();
    for k in it: iter
        invariant
            it.seq() == keys,
            out@.len() == it.index(),
            forall|j: int| 0 <= j < out@.len() ==> out@[j] == *keys[j],
    {
        out.push(*k);
    }
    let ghost given = out@;
    proof {
        assert(given =~= keys.unref());
        assert(given.no_duplicates()) by {
            assert forall|i: int, j: int|
                0 <= i < given.len() && 0 <= j < given.len() && i != j implies given[i]
                != given[j] by {
                assert(keys[i] != keys[j]);
            }
        }
        given.lemma_multiset_has_no_duplicates();
    }
    sort_ascending(&mut out);
    proof {
        out@.lemma_multiset_has_no_duplicates_conv();
        assert forall|i: int, j: int| 0 <= i < j < out@.len() implies out@[i] < out@[j] by {
            assert(out@[i] != out@[j]);
        }
        assert forall|x: i64| out@.to_set().contains(x) <==> m@.dom().contains(x) by {
            vstd::seq_lib::to_multiset_contains(out@, x);
            vstd::seq_lib::to_multiset_contains(given, x);
        }
        assert(out@.to_set() =~= m@.dom());
        lemma_increasing_unique(out@, ascending_keys(m@));
    }
    out
}

/// The values of a map, that of the smallest key first.
pub fn values_in_key_order(m: &HashMap<i64, (usize, usize)>) -> (out: Vec<(usize, usize)>)
    ensures
        out@ == values_by_key(m@),
        forall|j: int| 0 <= j < out@.len() ==> m@.contains_value(#[trigger] out@[j]),
{
    broadcast use vstd::std_specs::hash::group_hash_axioms;

    let sorted_distances: Vec<i64> = sorted_keys(m);
    let mut out: Vec<(usize, usize)> = Vec::new();
    let mut idx: usize = 0;
    while idx < sorted_distances.len()
        invariant
            idx <= sorted_distances@.len(),
            sorted_distances@ == ascending_keys(m@),
            sorted_distances@.to_set() == m@.dom(),
            out@.len() == idx,
            forall|j: int|
                0 <= j < idx ==> m@.contains_key(sorted_distances@[j]) && #[trigger] out@[j]
                    == m@[sorted_distances@[j]],
        decreases sorted_distances.len() - idx,
    {
        let dist: i64 = sorted_distances[idx];
        assert(sorted_distances@.to_set().contains(dist));
        assert(m@.contains_key(dist));
        match m.get(&dist) {
            Some(pair) => {
                out.push(*pair);
            },
            None => {
                assert(false);
            },
        }
        idx += 1;
    }
    assert(out@ =~= values_by_key(m@));
    out
}

} // verus!
