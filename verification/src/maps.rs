//! Walking ordered maps.

use std::collections::BTreeMap;
use vstd::prelude::*;
use vstd::std_specs::cmp::OrdSpec;
use vstd::std_specs::iter::IteratorSpec;

verus! {

/// The keys of a map, each once, in increasing order.
pub open spec fn lists_keys<V>(keys: Seq<u64>, m: Map<u64, V>) -> bool {
    &&& forall|i: int, j: int| 0 <= i < j < keys.len() ==> keys[i] < keys[j]
    &&& forall|k: u64| #[trigger] keys.contains(k) <==> m.contains_key(k)
}

/// The one increasing sequence that lists the keys of `m`.
pub open spec fn sorted_keys<V>(m: Map<u64, V>) -> Seq<u64> {
    choose|keys: Seq<u64>| lists_keys(keys, m)
}

/// Two increasing sequences of the same keys are the same sequence.
pub proof fn lemma_keys_unique<V>(a: Seq<u64>, b: Seq<u64>, m: Map<u64, V>)
    requires
        lists_keys(a, m),
        lists_keys(b, m),
    ensures
        a == b,
    decreases a.len(),
{
    if a.len() == 0 {
        if b.len() > 0 {
            assert(b.contains(b[0]));
            assert(a.contains(b[0]));
        }
    } else {
        assert(a.contains(a[0]));
        assert(b.contains(a[0]));
        let top_a = a.last();
        assert(a.contains(top_a));
        assert(b.contains(top_a));
        let top_b = b.last();
        assert(b.contains(top_b));
        assert(a.contains(top_b));
        let ia = choose|i: int| 0 <= i < a.len() && a[i] == top_b;
        let ib = choose|i: int| 0 <= i < b.len() && b[i] == top_a;
        assert(top_b <= top_a);
        assert(top_a <= top_b);
        let a1 = a.drop_last();
        let b1 = b.drop_last();
        let m1 = m.remove(top_a);
        assert(lists_keys(a1, m1)) by {
            assert forall|k: u64| #[trigger] a1.contains(k) <==> m1.contains_key(k) by {
                if a1.contains(k) {
                    let j = choose|j: int| 0 <= j < a1.len() && a1[j] == k;
                    assert(a[j] == k);
                    assert(a.contains(k));
                }
                if m1.contains_key(k) {
                    assert(a.contains(k));
                    let j = choose|j: int| 0 <= j < a.len() && a[j] == k;
                    assert(a1[j] == k);
                }
            }
        }
        assert(lists_keys(b1, m1)) by {
            assert forall|k: u64| #[trigger] b1.contains(k) <==> m1.contains_key(k) by {
                if b1.contains(k) {
                    let j = choose|j: int| 0 <= j < b1.len() && b1[j] == k;
                    assert(b[j] == k);
                    assert(b.contains(k));
                }
                if m1.contains_key(k) {
                    assert(b.contains(k));
                    let j = choose|j: int| 0 <= j < b.len() && b[j] == k;
                    assert(b1[j] == k);
                }
            }
        }
        lemma_keys_unique(a1, b1, m1);
        assert(a =~= a1.push(top_a));
        assert(b =~= b1.push(top_b));
    }
}

/// The keys of `m` in increasing order.
pub fn keys_of<V>(m: &BTreeMap<u64, V>) -> (keys: Vec<u64>)
    ensures
        lists_keys(keys@, m@),
        keys@ == sorted_keys(m@),
{
    broadcast use vstd::laws_cmp::group_laws_cmp;
    broadcast use vstd::std_specs::btree::group_btree_axioms;

    let mut keys: Vec<u64> = Vec::new();
    let it0 = m.iter();
    let ghost all = it0.remaining();
    let ghost sorted = all.map_values(|kv: (&u64, &V)| *kv.0);
    for kv in it: it0
        invariant
            keys@.len() == it.index(),
            it.seq() == all,
            forall|i: int| 0 <= i < keys@.len() ==> keys@[i] == *all[i].0,
    {
        keys.push(*kv.0);
    }
    proof {
        assert(keys@ =~= sorted);
        assert(vstd::std_specs::btree::increasing_seq(sorted));
        assert forall|i: int, j: int| 0 <= i < j < keys@.len() implies keys@[i] < keys@[j] by {
            assert(sorted[i].cmp_spec(&sorted[j]) is Less);
        }
        assert forall|k: u64| #[trigger] keys@.contains(k) <==> m@.contains_key(k) by {
            if keys@.contains(k) {
                let i = choose|i: int| 0 <= i < keys@.len() && keys@[i] == k;
                assert(m@.contains_key(*all[i].0));
            }
            if m@.contains_key(k) {
                assert(all.contains((&k, &m@[k])));
                let i = choose|i: int| 0 <= i < all.len() && all[i] == (&k, &m@[k]);
                assert(keys@[i] == k);
            }
        }
        assert(lists_keys(keys@, m@));
        lemma_keys_unique(keys@, sorted_keys(m@), m@);
    }
    keys
}

/// The ids of a table, each once, in increasing order.
pub open spec fn lists_ids<V>(keys: Seq<u32>, m: Map<u32, V>) -> bool {
    &&& forall|i: int, j: int| 0 <= i < j < keys.len() ==> keys[i] < keys[j]
    &&& forall|k: u32| #[trigger] keys.contains(k) <==> m.contains_key(k)
}

/// The keys of `m` in increasing order.
pub fn ids_of<V>(m: &BTreeMap<u32, V>) -> (keys: Vec<u32>)
    ensures
        lists_ids(keys@, m@),
{
    broadcast use vstd::laws_cmp::group_laws_cmp;
    broadcast use vstd::std_specs::btree::group_btree_axioms;

    let mut keys: Vec<u32> = Vec::new();
    let it0 = m.iter();
    let ghost all = it0.remaining();
    let ghost sorted = all.map_values(|kv: (&u32, &V)| *kv.0);
    for kv in it: it0
        invariant
            keys@.len() == it.index(),
            it.seq() == all,
            forall|i: int| 0 <= i < keys@.len() ==> keys@[i] == *all[i].0,
    {
        keys.push(*kv.0);
    }
    proof {
        assert(keys@ =~= sorted);
        assert(vstd::std_specs::btree::increasing_seq(sorted));
        assert forall|i: int, j: int| 0 <= i < j < keys@.len() implies keys@[i] < keys@[j] by {
            assert(sorted[i].cmp_spec(&sorted[j]) is Less);
        }
        assert forall|k: u32| #[trigger] keys@.contains(k) <==> m@.contains_key(k) by {
            if keys@.contains(k) {
                let i = choose|i: int| 0 <= i < keys@.len() && keys@[i] == k;
                assert(m@.contains_key(*all[i].0));
            }
            if m@.contains_key(k) {
                assert(all.contains((&k, &m@[k])));
                let i = choose|i: int| 0 <= i < all.len() && all[i] == (&k, &m@[k]);
                assert(keys@[i] == k);
            }
        }
    }
    keys
}

/// The sum of `f` over the values of a finite map.
pub open spec fn sum_by<K, V>(m: Map<K, V>, f: spec_fn(V) -> nat) -> nat
    decreases m.dom().len(),
    when m.dom().finite()
{
    if m.dom().len() == 0 {
        0
    } else {
        let k = m.dom().choose();
        f(m[k]) + sum_by(m.remove(k), f)
    }
}

/// The sum splits off any one key.
pub proof fn lemma_sum_split<K, V>(m: Map<K, V>, f: spec_fn(V) -> nat, k: K)
    requires
        m.dom().finite(),
        m.contains_key(k),
    ensures
        sum_by(m, f) == f(m[k]) + sum_by(m.remove(k), f),
    decreases m.dom().len(),
{
    let c = m.dom().choose();
    assert(m.dom().contains(k));
    assert(m.dom().len() > 0);
    assert(m.dom().contains(c));
    if c != k {
        let mc = m.remove(c);
        assert(mc.dom() =~= m.dom().remove(c));
        lemma_sum_split(mc, f, k);
        let mk = m.remove(k);
        assert(mk.dom() =~= m.dom().remove(k));
        lemma_sum_split(mk, f, c);
        assert(mc.remove(k) =~= mk.remove(c));
    } else {
        assert(m.remove(c).dom() =~= m.dom().remove(c));
    }
}

/// Setting a key adds its new value and takes its old one away.
pub proof fn lemma_sum_insert<K, V>(m: Map<K, V>, f: spec_fn(V) -> nat, k: K, v: V)
    requires
        m.dom().finite(),
    ensures
        sum_by(m.insert(k, v), f) + (if m.contains_key(k) {
            f(m[k])
        } else {
            0
        }) == sum_by(m, f) + f(v),
{
    let n = m.insert(k, v);
    assert(n.dom() =~= m.dom().insert(k));
    lemma_sum_split(n, f, k);
    if m.contains_key(k) {
        lemma_sum_split(m, f, k);
        assert(n.remove(k) =~= m.remove(k));
    } else {
        assert(n.remove(k) =~= m);
    }
}

} // verus!
