//! General laws of maps built by repeated insertion and emptied by repeated
//! removal. Together with the exact contracts of `Tree234::insert` and
//! `Tree234::remove` — whose effect on the tree's map is precisely
//! `Map::insert` and `Map::remove` — they say that inserting distinct keys
//! and then removing all of them, in any order, returns every originally
//! inserted value exactly once and ends with an empty tree.

use vstd::prelude::*;

use crate::node::Item;
use crate::tree234::{lemma_empty_tree, Tree234};

verus! {

/// The map obtained by binding each key of `ks` to the value of `vs` at the
/// same position, in order.
pub open spec fn map_of<V>(ks: Seq<u64>, vs: Seq<V>) -> Map<u64, V>
    decreases ks.len(),
{
    if ks.len() == 0 {
        Map::empty()
    } else {
        map_of(ks.drop_last(), vs.drop_last()).insert(ks.last(), vs.last())
    }
}

/// The map obtained from `m` by unbinding the keys of `ks`, front to back.
pub open spec fn remove_all<V>(m: Map<u64, V>, ks: Seq<u64>) -> Map<u64, V>
    decreases ks.len(),
{
    if ks.len() == 0 {
        m
    } else {
        remove_all(m.remove(ks[0]), ks.drop_first())
    }
}

/// Inserting distinct keys binds each key to exactly the value inserted
/// with it: no insertion replaces another, the domain is exactly the set of
/// inserted keys, and the size equals their number.
pub proof fn lemma_distinct_inserts<V>(ks: Seq<u64>, vs: Seq<V>)
    requires
        ks.len() == vs.len(),
        forall|i: int, j: int| 0 <= i < j < ks.len() ==> ks[i] != ks[j],
    ensures
        forall|k: u64| map_of(ks, vs).dom().contains(k) <==> ks.contains(k),
        forall|i: int| 0 <= i < ks.len() ==> map_of(ks, vs)[ks[i]] == vs[i],
        map_of(ks, vs).dom().finite(),
        map_of(ks, vs).dom().len() == ks.len(),
    decreases ks.len(),
{
    broadcast use vstd::set::group_set_axioms;

    if ks.len() == 0 {
        assert forall|k: u64| map_of(ks, vs).dom().contains(k) <==> ks.contains(k) by {
            assert(map_of(ks, vs).dom() =~= Set::<u64>::empty());
        }
    } else {
        let ks0 = ks.drop_last();
        let vs0 = vs.drop_last();
        let last = ks.last();
        lemma_distinct_inserts(ks0, vs0);
        assert(!ks0.contains(last)) by {
            if ks0.contains(last) {
                let i = choose|i: int| 0 <= i < ks0.len() && ks0[i] == last;
                assert(ks[i] == ks[ks.len() - 1]);
            }
        }
        assert forall|k: u64| map_of(ks, vs).dom().contains(k) <==> ks.contains(k) by {
            if map_of(ks, vs).dom().contains(k) {
                if k == last {
                    assert(ks[ks.len() - 1] == k);
                } else {
                    assert(ks0.contains(k));
                    let i = choose|i: int| 0 <= i < ks0.len() && ks0[i] == k;
                    assert(ks[i] == k);
                }
                assert(ks.contains(k));
            }
            if ks.contains(k) {
                let i = choose|i: int| 0 <= i < ks.len() && ks[i] == k;
                if i < ks.len() - 1 {
                    assert(ks0[i] == k);
                    assert(ks0.contains(k));
                }
            }
        }
        assert forall|i: int| 0 <= i < ks.len() implies map_of(ks, vs)[ks[i]] == vs[i] by {
            if i < ks.len() - 1 {
                assert(ks[i] != last);
                assert(ks0[i] == ks[i] && vs0[i] == vs[i]);
            }
        }
        assert(!map_of(ks0, vs0).dom().contains(last));
        assert(map_of(ks, vs).dom() =~= map_of(ks0, vs0).dom().insert(last));
    }
}

/// Extending the removal order by one key unbinds that key last.
pub proof fn lemma_remove_all_push<V>(m: Map<u64, V>, ks: Seq<u64>, k: u64)
    ensures
        remove_all(m, ks.push(k)) == remove_all(m, ks).remove(k),
    decreases ks.len(),
{
    if ks.len() == 0 {
        assert(ks.push(k)[0] == k);
        assert(ks.push(k).drop_first() =~= Seq::<u64>::empty());
        assert(remove_all(m, ks.push(k)) == remove_all(m.remove(k), ks.push(k).drop_first()));
        assert(remove_all(m.remove(k), ks.push(k).drop_first()) == m.remove(k));
        assert(remove_all(m, ks) == m);
    } else {
        assert(ks.push(k)[0] == ks[0]);
        assert(ks.push(k).drop_first() =~= ks.drop_first().push(k));
        lemma_remove_all_push(m.remove(ks[0]), ks.drop_first(), k);
        assert(remove_all(m, ks.push(k)) == remove_all(m.remove(ks[0]), ks.push(k).drop_first()));
        assert(remove_all(m, ks) == remove_all(m.remove(ks[0]), ks.drop_first()));
    }
}

/// Unbinding a batch of keys affects exactly those keys: a key stays bound,
/// with its original value, exactly when it was bound and is not among the
/// removed ones.
pub proof fn lemma_remove_all_membership<V>(m: Map<u64, V>, ks: Seq<u64>)
    ensures
        forall|k: u64| #![trigger remove_all(m, ks).dom().contains(k)]
            (remove_all(m, ks).dom().contains(k) <==> (m.dom().contains(k) && !ks.contains(k))),
        forall|k: u64| #![trigger remove_all(m, ks).dom().contains(k)]
            (remove_all(m, ks).dom().contains(k) ==> remove_all(m, ks)[k] == m[k]),
    decreases ks.len(),
{
    if ks.len() > 0 {
        let m1 = m.remove(ks[0]);
        let tail = ks.drop_first();
        lemma_remove_all_membership(m1, tail);
        assert(remove_all(m, ks) == remove_all(m1, tail));
        assert forall|k: u64|
            remove_all(m, ks).dom().contains(k) <==> (m.dom().contains(k)
                && !ks.contains(k)) by {
            assert(remove_all(m1, tail).dom().contains(k) <==> (m1.dom().contains(k)
                && !tail.contains(k)));
            if ks.contains(k) {
                let i = choose|i: int| 0 <= i < ks.len() && ks[i] == k;
                if i > 0 {
                    assert(tail[i - 1] == k);
                    assert(tail.contains(k));
                }
            }
            if tail.contains(k) {
                let i = choose|i: int| 0 <= i < tail.len() && tail[i] == k;
                assert(ks[i + 1] == k);
                assert(ks.contains(k));
            }
            if k == ks[0] {
                assert(ks.contains(k));
            }
        }
        assert forall|k: u64| #[trigger]
            remove_all(m, ks).dom().contains(k) implies remove_all(m, ks)[k] == m[k] by {
            assert(remove_all(m1, tail).dom().contains(k));
            assert(remove_all(m1, tail)[k] == m1[k]);
            assert(m1.dom().contains(k));
            assert(k != ks[0]);
        }
    }
}

/// Removing, in any order, exactly the keys a map holds returns each bound
/// value exactly once and ends with the empty map: before each removal its
/// key is still bound to its original value, and after the last removal
/// nothing remains.
pub proof fn lemma_remove_all_returns_each<V>(m: Map<u64, V>, ks: Seq<u64>)
    requires
        forall|i: int, j: int| 0 <= i < j < ks.len() ==> ks[i] != ks[j],
        forall|i: int| 0 <= i < ks.len() ==> m.dom().contains(ks[i]),
        forall|k: u64| m.dom().contains(k) ==> ks.contains(k),
    ensures
        forall|i: int|
            0 <= i < ks.len() ==> #[trigger] remove_all(m, ks.take(i)).dom().contains(ks[i])
                && remove_all(m, ks.take(i))[ks[i]] == m[ks[i]],
        remove_all(m, ks) == Map::<u64, V>::empty(),
{
    assert forall|i: int|
        0 <= i < ks.len() implies #[trigger] remove_all(m, ks.take(i)).dom().contains(ks[i])
        && remove_all(m, ks.take(i))[ks[i]] == m[ks[i]] by {
        lemma_remove_all_membership(m, ks.take(i));
        assert(!ks.take(i).contains(ks[i])) by {
            if ks.take(i).contains(ks[i]) {
                let j = choose|j: int| 0 <= j < i && ks.take(i)[j] == ks[i];
                assert(ks[j] == ks[i]);
            }
        }
        assert(m.dom().contains(ks[i]));
        assert(remove_all(m, ks.take(i)).dom().contains(ks[i]));
    }
    lemma_remove_all_membership(m, ks);
    assert(remove_all(m, ks) =~= Map::<u64, V>::empty());
}

/// The round-trip law, run and proved for any number of keys: insert
/// distinct keys with their values, then remove every key exactly once, in
/// any order; no insertion replaces another, each removal returns exactly
/// the value inserted with its key, and the tree ends empty — nothing left
/// to look up, traverse or iterate, and an empty root.
#[verifier::loop_isolation(false)]
pub fn insert_all_then_remove_all<V: Copy>(
    keys: &Vec<u64>,
    values: &Vec<V>,
    order: &Vec<usize>,
) -> (r: (Vec<V>, Tree234<V>))
    requires
        keys@.len() == values@.len(),
        keys@.len() < usize::MAX,
        forall|i: int, j: int| 0 <= i < j < keys@.len() ==> keys@[i] != keys@[j],
        order@.len() == keys@.len(),
        forall|i: int| 0 <= i < order@.len() ==> (#[trigger] order@[i]) < keys@.len(),
        forall|i: int, j: int| 0 <= i < j < order@.len() ==> order@[i] != order@[j],
        forall|v: int| 0 <= v < keys@.len() ==> #[trigger] order@.contains(v as usize),
    ensures
        r.0@.len() == keys@.len(),
        forall|i: int| 0 <= i < order@.len() ==> r.0@[i] == values@[order@[i] as int],
        r.1@ == Map::<u64, V>::empty(),
        r.1.in_order_seq() == Seq::<Item<V>>::empty(),
        r.1.height() == 0,
{
    let n = keys.len();
    let mut tree: Tree234<V> = Tree234::new();
    proof {
        lemma_distinct_inserts(keys@, values@);
    }
    let mut i: usize = 0;
    while i < n
        invariant
            i <= n,
            tree@ == map_of(keys@.take(i as int), values@.take(i as int)),
            tree@.dom().len() == i,
        decreases n - i,
    {
        proof {
            lemma_distinct_inserts(keys@.take(i as int), values@.take(i as int));
            assert(!keys@.take(i as int).contains(keys@[i as int])) by {
                if keys@.take(i as int).contains(keys@[i as int]) {
                    let p = choose|p: int|
                        0 <= p < i && keys@.take(i as int)[p] == keys@[i as int];
                    assert(keys@[p] == keys@[i as int]);
                }
            }
            assert(!tree@.dom().contains(keys@[i as int]));
        }
        let prev = tree.insert(keys[i], values[i]);
        proof {
            assert(prev is None);
            assert(keys@.take(i as int + 1).drop_last() =~= keys@.take(i as int));
            assert(values@.take(i as int + 1).drop_last() =~= values@.take(i as int));
            assert(keys@.take(i as int + 1).last() == keys@[i as int]);
            assert(values@.take(i as int + 1).last() == values@[i as int]);
        }
        i += 1;
    }
    proof {
        assert(keys@.take(n as int) =~= keys@);
        assert(values@.take(n as int) =~= values@);
    }
    let ghost m0 = tree@;
    let ghost ks_full = order@.map_values(|oi: usize| keys@[oi as int]);
    proof {
        assert forall|p: int, q: int|
            0 <= p < q < ks_full.len() implies ks_full[p] != ks_full[q] by {
            assert(ks_full[p] == keys@[order@[p] as int]);
            assert(ks_full[q] == keys@[order@[q] as int]);
            if order@[p] < order@[q] {
                assert(keys@[order@[p] as int] != keys@[order@[q] as int]);
            } else {
                assert(keys@[order@[q] as int] != keys@[order@[p] as int]);
            }
        }
        assert forall|p: int| 0 <= p < ks_full.len() implies m0.dom().contains(
            ks_full[p],
        ) by {
            let op = order@[p] as int;
            assert(keys@[op] == ks_full[p]);
            assert(keys@.contains(ks_full[p]));
        }
        assert forall|k: u64| m0.dom().contains(k) implies ks_full.contains(k) by {
            assert(keys@.contains(k));
            let v = choose|v: int| 0 <= v < keys@.len() && keys@[v] == k;
            assert(order@.contains(v as usize));
            let p = choose|p: int| 0 <= p < order@.len() && order@[p] == v as usize;
            assert(ks_full[p] == keys@[v]);
        }
        lemma_remove_all_returns_each(m0, ks_full);
    }
    let mut returned: Vec<V> = Vec::new();
    let mut j: usize = 0;
    while j < n
        invariant
            j <= n,
            returned@.len() == j,
            forall|p: int| 0 <= p < j ==> returned@[p] == values@[order@[p] as int],
            tree@ == remove_all(m0, ks_full.take(j as int)),
        decreases n - j,
    {
        let oj = order[j];
        let k = keys[oj];
        proof {
            assert(ks_full[j as int] == k);
            assert(remove_all(m0, ks_full.take(j as int)).dom().contains(ks_full[j as int]));
            assert(tree@[k] == m0[k]);
            assert(map_of(keys@, values@)[keys@[oj as int]] == values@[oj as int]);
        }
        let res = tree.remove(&k);
        returned.push(res.unwrap());
        proof {
            assert(ks_full.take(j as int + 1) =~= ks_full.take(j as int).push(
                ks_full[j as int],
            ));
            lemma_remove_all_push(m0, ks_full.take(j as int), k);
        }
        j += 1;
    }
    proof {
        assert(ks_full.take(n as int) =~= ks_full);
        assert(tree@ == Map::<u64, V>::empty());
        assert(tree@.dom() =~= Set::<u64>::empty());
        use_type_invariant(&tree);
        lemma_empty_tree(tree);
    }
    (returned, tree)
}

} // verus!
