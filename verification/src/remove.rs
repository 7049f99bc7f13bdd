//! Removal by top-down descent with bottom-up borrow/merge rebalancing.
//! Each recursive step reports whether the rebuilt subtree came back one
//! level thinner than its slot requires; the parent then either rotates an
//! item in from an adjacent sibling or merges the thin child with a sibling
//! through the separating item, and only a merge under a parent of one item
//! propagates the deficit further up.

use vstd::prelude::*;

use crate::node::{
    four_map, lemma_empty_iff_height_zero, three_map, two_map, Four, Node, Three, Two,
};

verus! {

/// What removal guarantees: the rebuilt subtree is well formed and holds the
/// map of the old subtree without `key`; the returned value is the one `key`
/// was bound to, if any; the item count shrinks exactly when the key was
/// present; the subtree came back one level thinner exactly when `reduced`
/// says so; and removing an absent key never signals underflow, since it
/// leaves the subtree unchanged.
pub open spec fn remove_post<V>(
    n: Node<V>,
    key: u64,
    node: Node<V>,
    result: Option<V>,
    reduced: bool,
) -> bool {
    &&& node.wf()
    &&& node.as_map() == n.as_map().remove(key)
    &&& result == (if n.as_map().dom().contains(key) {
        Some(n.as_map()[key])
    } else {
        None::<V>
    })
    &&& node.count() + (if n.as_map().dom().contains(key) {
        1int
    } else {
        0int
    }) == n.count()
    &&& node.height() + (if reduced {
        1int
    } else {
        0int
    }) == n.height()
    &&& !n.as_map().dom().contains(key) ==> !reduced
}

/// What smallest-item extraction guarantees: the extracted item is the
/// entry of the subtree's map with the least key, and the rebuilt subtree
/// holds the rest, one level thinner exactly when `reduced` says so.
pub open spec fn smallest_post<V>(n: Node<V>, small: (u64, V), node: Node<V>, reduced: bool) -> bool {
    &&& n.as_map().dom().contains(small.0)
    &&& small.1 == n.as_map()[small.0]
    &&& (forall|k: u64| n.as_map().dom().contains(k) ==> k >= small.0)
    &&& node.wf()
    &&& node.as_map() == n.as_map().remove(small.0)
    &&& node.count() + 1 == n.count()
    &&& node.height() + (if reduced {
        1int
    } else {
        0int
    }) == n.height()
}

impl<V> Node<V> {
    /// Consumes a subtree and returns it rebuilt without `key`, the value
    /// that was bound to `key` if any, and whether the subtree lost a level.
    pub(crate) fn remove(self, key: &u64) -> (r: (Box<Node<V>>, Option<V>, bool))
        requires
            self.wf(),
        ensures
            remove_post(self, *key, *r.0, r.1, r.2),
        decreases self.height(), 1int,
    {
        match self {
            Node::Empty => {
                let node = Node::empty();
                proof {
                    assert(node.as_map() =~= Map::<u64, V>::empty().remove(*key));
                }
                (node, None, false)
            },
            Node::Two(two) => Node::remove2(two, key),
            Node::Three(three) => Node::remove3(three, key),
            Node::Four(four) => Node::remove4(four, key),
        }
    }

    /// Removal from a node of one item.
    pub(crate) fn remove2(two: Two<V>, key: &u64) -> (r: (Box<Node<V>>, Option<V>, bool))
        requires
            Node::Two(two).wf(),
        ensures
            remove_post(Node::Two(two), *key, *r.0, r.1, r.2),
        decreases Node::Two(two).height(), 0int,
    {
        let ghost n = Node::Two(two);
        let Two { size: _, item, lhs, rhs } = two;
        if *key < item.0 {
            proof {
                assert(!rhs.as_map().dom().contains(*key));
            }
            let (new_lhs, result, reduced) = (*lhs).remove(key);
            if reduced {
                let fixed = Node::fix2_lhs(item, new_lhs, rhs, result);
                proof {
                    assert(fixed.0.as_map() =~= n.as_map().remove(*key));
                    if lhs.as_map().dom().contains(*key) {
                        assert(n.as_map()[*key] == lhs.as_map()[*key]);
                    }
                    assert(n.as_map().dom().contains(*key) == lhs.as_map().dom().contains(*key));
                }
                fixed
            } else {
                let node = Node::two(item, new_lhs, rhs);
                proof {
                    assert(node.as_map() =~= n.as_map().remove(*key));
                    if lhs.as_map().dom().contains(*key) {
                        assert(n.as_map()[*key] == lhs.as_map()[*key]);
                    }
                    assert(n.as_map().dom().contains(*key) == lhs.as_map().dom().contains(*key));
                }
                (node, result, false)
            }
        } else if *key == item.0 {
            proof {
                assert(n.as_map().dom().contains(*key));
                assert(n.as_map()[*key] == item.1);
                assert(!lhs.as_map().dom().contains(*key));
                assert(!rhs.as_map().dom().contains(*key));
            }
            if let Some((small, new_rhs, reduced)) = Node::remove_smallest(*rhs) {
                proof {
                    assert(small.0 > item.0);
                    assert forall|k: u64| new_rhs.as_map().dom().contains(k) implies k
                        > small.0 by {
                        assert(rhs.as_map().dom().contains(k));
                    }
                }
                if reduced {
                    let (node, result, reduced2) = Node::fix2_rhs(small, lhs, new_rhs, Some(
                        item.1,
                    ));
                    proof {
                        assert(node.as_map() =~= n.as_map().remove(*key));
                    }
                    (node, result, reduced2)
                } else {
                    let node = Node::two(small, lhs, new_rhs);
                    proof {
                        assert(node.as_map() =~= n.as_map().remove(*key));
                    }
                    (node, Some(item.1), false)
                }
            } else {
                proof {
                    lemma_empty_iff_height_zero(*lhs);
                    lemma_empty_iff_height_zero(*rhs);
                    assert((*lhs) is Empty);
                    assert(lhs.as_map() =~= n.as_map().remove(*key));
                }
                (lhs, Some(item.1), true)
            }
        } else {
            proof {
                assert(!lhs.as_map().dom().contains(*key));
            }
            let (new_rhs, result, reduced) = (*rhs).remove(key);
            if reduced {
                let fixed = Node::fix2_rhs(item, lhs, new_rhs, result);
                proof {
                    assert(fixed.0.as_map() =~= n.as_map().remove(*key));
                    if rhs.as_map().dom().contains(*key) {
                        assert(n.as_map()[*key] == rhs.as_map()[*key]);
                    }
                    assert(n.as_map().dom().contains(*key) == rhs.as_map().dom().contains(*key));
                }
                fixed
            } else {
                let node = Node::two(item, lhs, new_rhs);
                proof {
                    assert(node.as_map() =~= n.as_map().remove(*key));
                    if rhs.as_map().dom().contains(*key) {
                        assert(n.as_map()[*key] == rhs.as_map()[*key]);
                    }
                    assert(n.as_map().dom().contains(*key) == rhs.as_map().dom().contains(*key));
                }
                (node, result, false)
            }
        }
    }

    /// Extracts the smallest item of a subtree, or reports that the subtree
    /// is empty.
    pub(crate) fn remove_smallest(self) -> (r: Option<((u64, V), Box<Node<V>>, bool)>)
        requires
            self.wf(),
        ensures
            (r is None) <==> (self is Empty),
            r matches Some(t) ==> smallest_post(self, t.0, *t.1, t.2),
        decreases self.height(), 1int,
    {
        match self {
            Node::Empty => None,
            Node::Two(two) => Node::remove_smallest2(two),
            Node::Three(three) => Node::remove_smallest3(three),
            Node::Four(four) => Node::remove_smallest4(four),
        }
    }

    /// Smallest-item extraction from a node of one item.
    pub(crate) fn remove_smallest2(two: Two<V>) -> (r: Option<((u64, V), Box<Node<V>>, bool)>)
        requires
            Node::Two(two).wf(),
        ensures
            r is Some,
            r matches Some(t) ==> smallest_post(Node::Two(two), t.0, *t.1, t.2),
        decreases Node::Two(two).height(), 0int,
    {
        let ghost n = Node::Two(two);
        let Two { size: _, item, lhs, rhs } = two;
        if lhs.is_empty() {
            proof {
                lemma_empty_iff_height_zero(*lhs);
                lemma_empty_iff_height_zero(*rhs);
                assert((*rhs) is Empty);
                assert(rhs.as_map() =~= n.as_map().remove(item.0));
            }
            Some((item, rhs, true))
        } else {
            let (small, new_lhs, reduced) = Node::remove_smallest(*lhs).unwrap();
            proof {
                assert(small.0 < item.0);
                assert(n.as_map()[small.0] == lhs.as_map()[small.0]);
                assert forall|k: u64| n.as_map().dom().contains(k) implies k >= small.0 by {}
            }
            if reduced {
                let (node, _, reduced2) = Node::fix2_lhs(item, new_lhs, rhs, None);
                proof {
                    assert(node.as_map() =~= n.as_map().remove(small.0));
                }
                Some((small, node, reduced2))
            } else {
                let node = Node::two(item, new_lhs, rhs);
                proof {
                    assert(node.as_map() =~= n.as_map().remove(small.0));
                }
                Some((small, node, false))
            }
        }
    }

    /// Rebalances a node of one item whose left child came back one level
    /// thinner than its right sibling: rotates through the separating item
    /// when the sibling can spare an item, else — exactly when the sibling
    /// is itself a node of one item — merges and reports the deficit upward.
    pub(crate) fn fix2_lhs(
        orig_item: (u64, V),
        orig_lhs: Box<Node<V>>,
        orig_rhs: Box<Node<V>>,
        result: Option<V>,
    ) -> (r: (Box<Node<V>>, Option<V>, bool))
        requires
            orig_lhs.wf(),
            orig_rhs.wf(),
            orig_rhs.height() == orig_lhs.height() + 1,
            orig_lhs.keys_below(orig_item.0),
            orig_rhs.keys_above(orig_item.0),
            1 + orig_lhs.count() + orig_rhs.count() <= usize::MAX,
        ensures
            r.0.wf(),
            r.0.as_map() == two_map(orig_item, orig_lhs.as_map(), orig_rhs.as_map()),
            r.0.count() == 1 + orig_lhs.count() + orig_rhs.count(),
            r.1 == result,
            r.2 == ((*orig_rhs) is Two),
            r.0.height() + (if r.2 {
                1int
            } else {
                0int
            }) == orig_rhs.height() + 1,
    {
        let ghost gl = *orig_lhs;
        let ghost gs = *orig_rhs;
        match *orig_rhs {
            Node::Empty => {
                proof {
                    assert(false);
                }
                unreached()
            },
            Node::Two(two) => {
                let Two { size: _, item, lhs, rhs } = two;
                proof {
                    assert(gs.as_map().dom().contains(item.0));
                    assert forall|k: u64| lhs.as_map().dom().contains(k) implies k
                        > orig_item.0 by {
                        assert(gs.as_map().dom().contains(k));
                    }
                }
                let node = Node::three(orig_item, item, orig_lhs, lhs, rhs);
                proof {
                    assert(node.as_map() =~= two_map(orig_item, gl.as_map(), gs.as_map()));
                }
                (node, result, true)
            },
            Node::Three(three) => {
                let Three { size: _, item1, item2, lhs, mid, rhs } = three;
                proof {
                    assert(gs.as_map().dom().contains(item1.0));
                    assert(gs.as_map().dom().contains(item2.0));
                    assert forall|k: u64| lhs.as_map().dom().contains(k) implies k
                        > orig_item.0 by {
                        assert(gs.as_map().dom().contains(k));
                    }
                }
                let node1 = Node::two(orig_item, orig_lhs, lhs);
                let node2 = Node::two(item2, mid, rhs);
                proof {
                    assert forall|k: u64| node1.as_map().dom().contains(k) implies k
                        < item1.0 by {
                        if lhs.as_map().dom().contains(k) {
                            assert(gs.as_map().dom().contains(k));
                        } else if gl.as_map().dom().contains(k) {
                            assert(k < orig_item.0);
                        }
                    }
                    assert forall|k: u64| node2.as_map().dom().contains(k) implies k
                        > item1.0 by {
                        if mid.as_map().dom().contains(k) {
                            assert(gs.as_map().dom().contains(k));
                        } else if rhs.as_map().dom().contains(k) {
                            assert(gs.as_map().dom().contains(k));
                        }
                    }
                }
                let node = Node::two(item1, node1, node2);
                proof {
                    assert(node.as_map() =~= two_map(orig_item, gl.as_map(), gs.as_map()));
                }
                (node, result, false)
            },
            Node::Four(four) => {
                let Four { size: _, item1, item2, item3, lhs, lhs_mid, rhs_mid, rhs } = four;
                proof {
                    assert(gs.as_map().dom().contains(item1.0));
                    assert(gs.as_map().dom().contains(item2.0));
                    assert(gs.as_map().dom().contains(item3.0));
                    assert forall|k: u64| lhs.as_map().dom().contains(k) implies k
                        > orig_item.0 by {
                        assert(gs.as_map().dom().contains(k));
                    }
                    assert forall|k: u64| lhs_mid.as_map().dom().contains(k) implies k
                        > orig_item.0 by {
                        assert(gs.as_map().dom().contains(k));
                    }
                }
                let node1 = Node::three(orig_item, item1, orig_lhs, lhs, lhs_mid);
                let node2 = Node::two(item3, rhs_mid, rhs);
                proof {
                    assert forall|k: u64| node1.as_map().dom().contains(k) implies k
                        < item2.0 by {
                        if lhs.as_map().dom().contains(k) || lhs_mid.as_map().dom().contains(k) {
                            assert(gs.as_map().dom().contains(k));
                        } else if gl.as_map().dom().contains(k) {
                            assert(k < orig_item.0);
                        }
                    }
                    assert forall|k: u64| node2.as_map().dom().contains(k) implies k
                        > item2.0 by {
                        if rhs_mid.as_map().dom().contains(k) || rhs.as_map().dom().contains(k) {
                            assert(gs.as_map().dom().contains(k));
                        }
                    }
                }
                let node = Node::two(item2, node1, node2);
                proof {
                    assert(node.as_map() =~= two_map(orig_item, gl.as_map(), gs.as_map()));
                }
                (node, result, false)
            },
        }
    }

    /// Rebalances a node of one item whose right child came back one level
    /// thinner than its left sibling: rotates through the separating item
    /// when the sibling can spare an item, else — exactly when the sibling
    /// is itself a node of one item — merges and reports the deficit upward.
    pub(crate) fn fix2_rhs(
        orig_item: (u64, V),
        orig_lhs: Box<Node<V>>,
        orig_rhs: Box<Node<V>>,
        result: Option<V>,
    ) -> (r: (Box<Node<V>>, Option<V>, bool))
        requires
            orig_lhs.wf(),
            orig_rhs.wf(),
            orig_lhs.height() == orig_rhs.height() + 1,
            orig_lhs.keys_below(orig_item.0),
            orig_rhs.keys_above(orig_item.0),
            1 + orig_lhs.count() + orig_rhs.count() <= usize::MAX,
        ensures
            r.0.wf(),
            r.0.as_map() == two_map(orig_item, orig_lhs.as_map(), orig_rhs.as_map()),
            r.0.count() == 1 + orig_lhs.count() + orig_rhs.count(),
            r.1 == result,
            r.2 == ((*orig_lhs) is Two),
            r.0.height() + (if r.2 {
                1int
            } else {
                0int
            }) == orig_lhs.height() + 1,
    {
        let ghost gr = *orig_rhs;
        let ghost gs = *orig_lhs;
        match *orig_lhs {
            Node::Empty => {
                proof {
                    assert(false);
                }
                unreached()
            },
            Node::Two(two) => {
                let Two { size: _, item, lhs, rhs } = two;
                proof {
                    assert(gs.as_map().dom().contains(item.0));
                    assert forall|k: u64| rhs.as_map().dom().contains(k) implies k
                        < orig_item.0 by {
                        assert(gs.as_map().dom().contains(k));
                    }
                }
                let node = Node::three(item, orig_item, lhs, rhs, orig_rhs);
                proof {
                    assert(node.as_map() =~= two_map(orig_item, gs.as_map(), gr.as_map()));
                }
                (node, result, true)
            },
            Node::Three(three) => {
                let Three { size: _, item1, item2, lhs, mid, rhs } = three;
                proof {
                    assert(gs.as_map().dom().contains(item1.0));
                    assert(gs.as_map().dom().contains(item2.0));
                    assert forall|k: u64| rhs.as_map().dom().contains(k) implies k
                        < orig_item.0 by {
                        assert(gs.as_map().dom().contains(k));
                    }
                }
                let node1 = Node::two(item1, lhs, mid);
                let node2 = Node::two(orig_item, rhs, orig_rhs);
                proof {
                    assert forall|k: u64| node1.as_map().dom().contains(k) implies k
                        < item2.0 by {
                        if lhs.as_map().dom().contains(k) || mid.as_map().dom().contains(k) {
                            assert(gs.as_map().dom().contains(k));
                        }
                    }
                    assert forall|k: u64| node2.as_map().dom().contains(k) implies k
                        > item2.0 by {
                        if rhs.as_map().dom().contains(k) {
                            assert(gs.as_map().dom().contains(k));
                        } else if gr.as_map().dom().contains(k) {
                            assert(k > orig_item.0);
                        }
                    }
                }
                let node = Node::two(item2, node1, node2);
                proof {
                    assert(node.as_map() =~= two_map(orig_item, gs.as_map(), gr.as_map()));
                }
                (node, result, false)
            },
            Node::Four(four) => {
                let Four { size: _, item1, item2, item3, lhs, lhs_mid, rhs_mid, rhs } = four;
                proof {
                    assert(gs.as_map().dom().contains(item1.0));
                    assert(gs.as_map().dom().contains(item2.0));
                    assert(gs.as_map().dom().contains(item3.0));
                    assert forall|k: u64| rhs.as_map().dom().contains(k) implies k
                        < orig_item.0 by {
                        assert(gs.as_map().dom().contains(k));
                    }
                }
                let node1 = Node::three(item1, item2, lhs, lhs_mid, rhs_mid);
                let node2 = Node::two(orig_item, rhs, orig_rhs);
                proof {
                    assert forall|k: u64| node1.as_map().dom().contains(k) implies k
                        < item3.0 by {
                        if lhs.as_map().dom().contains(k) || lhs_mid.as_map().dom().contains(k)
                            || rhs_mid.as_map().dom().contains(k) {
                            assert(gs.as_map().dom().contains(k));
                        }
                    }
                    assert forall|k: u64| node2.as_map().dom().contains(k) implies k
                        > item3.0 by {
                        if rhs.as_map().dom().contains(k) {
                            assert(gs.as_map().dom().contains(k));
                        } else if gr.as_map().dom().contains(k) {
                            assert(k > orig_item.0);
                        }
                    }
                }
                let node = Node::two(item3, node1, node2);
                proof {
                    assert(node.as_map() =~= two_map(orig_item, gs.as_map(), gr.as_map()));
                }
                (node, result, false)
            },
        }
    }
    /// Removal from a node of two items. A parent of two items absorbs any
    /// child underflow itself — by rotation, or by merging down to a node of
    /// one item — so it never signals underflow upward.
    pub(crate) fn remove3(three: Three<V>, key: &u64) -> (r: (Box<Node<V>>, Option<V>, bool))
        requires
            Node::Three(three).wf(),
        ensures
            remove_post(Node::Three(three), *key, *r.0, r.1, r.2),
            r.2 == false,
        decreases Node::Three(three).height(), 0int,
    {
        let ghost n = Node::Three(three);
        let Three { size: _, item1, item2, lhs, mid, rhs } = three;
        if *key < item1.0 {
            proof {
                assert(!mid.as_map().dom().contains(*key));
                assert(!rhs.as_map().dom().contains(*key));
            }
            let (new_lhs, result, reduced) = (*lhs).remove(key);
            proof {
                assert(n.as_map().dom().contains(*key) == lhs.as_map().dom().contains(*key));
                if lhs.as_map().dom().contains(*key) {
                    assert(n.as_map()[*key] == lhs.as_map()[*key]);
                }
            }
            if reduced {
                let fixed = Node::fix3_lhs(item1, item2, new_lhs, mid, rhs, result);
                proof {
                    assert(fixed.0.as_map() =~= n.as_map().remove(*key));
                }
                fixed
            } else {
                let node = Node::three(item1, item2, new_lhs, mid, rhs);
                proof {
                    assert(node.as_map() =~= n.as_map().remove(*key));
                }
                (node, result, false)
            }
        } else if *key == item1.0 {
            proof {
                assert(n.as_map().dom().contains(*key));
                assert(n.as_map()[*key] == item1.1);
                assert(!lhs.as_map().dom().contains(*key));
                assert(!mid.as_map().dom().contains(*key));
                assert(!rhs.as_map().dom().contains(*key));
            }
            if let Some((small, new_mid, reduced)) = Node::remove_smallest(*mid) {
                proof {
                    assert(item1.0 < small.0 && small.0 < item2.0);
                    assert forall|k: u64| new_mid.as_map().dom().contains(k) implies k
                        > small.0 by {
                        assert(mid.as_map().dom().contains(k));
                    }
                    assert forall|k: u64| lhs.as_map().dom().contains(k) implies k
                        < small.0 by {}
                }
                if reduced {
                    let (node, result, reduced2) = Node::fix3_mid(small, item2, lhs, new_mid, rhs,
                        Some(item1.1));
                    proof {
                        assert(node.as_map() =~= n.as_map().remove(*key));
                    }
                    (node, result, reduced2)
                } else {
                    let node = Node::three(small, item2, lhs, new_mid, rhs);
                    proof {
                        assert(node.as_map() =~= n.as_map().remove(*key));
                    }
                    (node, Some(item1.1), false)
                }
            } else {
                proof {
                    lemma_empty_iff_height_zero(*lhs);
                    lemma_empty_iff_height_zero(*mid);
                    lemma_empty_iff_height_zero(*rhs);
                    assert((*lhs) is Empty && (*rhs) is Empty);
                    assert forall|k: u64| lhs.as_map().dom().contains(k) implies k
                        < item2.0 by {}
                }
                let node = Node::two(item2, lhs, rhs);
                proof {
                    assert(node.as_map() =~= n.as_map().remove(*key));
                }
                (node, Some(item1.1), false)
            }
        } else if *key < item2.0 {
            proof {
                assert(!lhs.as_map().dom().contains(*key));
                assert(!rhs.as_map().dom().contains(*key));
            }
            let (new_mid, result, reduced) = (*mid).remove(key);
            proof {
                assert(n.as_map().dom().contains(*key) == mid.as_map().dom().contains(*key));
                if mid.as_map().dom().contains(*key) {
                    assert(n.as_map()[*key] == mid.as_map()[*key]);
                }
            }
            if reduced {
                let fixed = Node::fix3_mid(item1, item2, lhs, new_mid, rhs, result);
                proof {
                    assert(fixed.0.as_map() =~= n.as_map().remove(*key));
                }
                fixed
            } else {
                let node = Node::three(item1, item2, lhs, new_mid, rhs);
                proof {
                    assert(node.as_map() =~= n.as_map().remove(*key));
                }
                (node, result, false)
            }
        } else if *key == item2.0 {
            proof {
                assert(n.as_map().dom().contains(*key));
                assert(n.as_map()[*key] == item2.1);
                assert(!lhs.as_map().dom().contains(*key));
                assert(!mid.as_map().dom().contains(*key));
                assert(!rhs.as_map().dom().contains(*key));
            }
            if let Some((small, new_rhs, reduced)) = Node::remove_smallest(*rhs) {
                proof {
                    assert(item2.0 < small.0);
                    assert forall|k: u64| new_rhs.as_map().dom().contains(k) implies k
                        > small.0 by {
                        assert(rhs.as_map().dom().contains(k));
                    }
                    assert forall|k: u64| mid.as_map().dom().contains(k) implies k
                        < small.0 by {}
                }
                if reduced {
                    let (node, result, reduced2) = Node::fix3_rhs(item1, small, lhs, mid, new_rhs,
                        Some(item2.1));
                    proof {
                        assert(node.as_map() =~= n.as_map().remove(*key));
                    }
                    (node, result, reduced2)
                } else {
                    let node = Node::three(item1, small, lhs, mid, new_rhs);
                    proof {
                        assert(node.as_map() =~= n.as_map().remove(*key));
                    }
                    (node, Some(item2.1), false)
                }
            } else {
                proof {
                    lemma_empty_iff_height_zero(*lhs);
                    lemma_empty_iff_height_zero(*rhs);
                    assert((*lhs) is Empty && (*mid) is Empty);
                }
                let node = Node::two(item1, lhs, mid);
                proof {
                    assert(node.as_map() =~= n.as_map().remove(*key));
                }
                (node, Some(item2.1), false)
            }
        } else {
            proof {
                assert(!lhs.as_map().dom().contains(*key));
                assert(!mid.as_map().dom().contains(*key));
            }
            let (new_rhs, result, reduced) = (*rhs).remove(key);
            proof {
                assert(n.as_map().dom().contains(*key) == rhs.as_map().dom().contains(*key));
                if rhs.as_map().dom().contains(*key) {
                    assert(n.as_map()[*key] == rhs.as_map()[*key]);
                }
            }
            if reduced {
                let fixed = Node::fix3_rhs(item1, item2, lhs, mid, new_rhs, result);
                proof {
                    assert(fixed.0.as_map() =~= n.as_map().remove(*key));
                }
                fixed
            } else {
                let node = Node::three(item1, item2, lhs, mid, new_rhs);
                proof {
                    assert(node.as_map() =~= n.as_map().remove(*key));
                }
                (node, result, false)
            }
        }
    }

    /// Smallest-item extraction from a node of two items; as with removal,
    /// a parent of two items absorbs any child underflow and never signals
    /// underflow upward.
    pub(crate) fn remove_smallest3(three: Three<V>) -> (r: Option<((u64, V), Box<Node<V>>, bool)>)
        requires
            Node::Three(three).wf(),
        ensures
            r is Some,
            r matches Some(t) ==> smallest_post(Node::Three(three), t.0, *t.1, t.2) && t.2
                == false,
        decreases Node::Three(three).height(), 0int,
    {
        let ghost n = Node::Three(three);
        let Three { size: _, item1, item2, lhs, mid, rhs } = three;
        if lhs.is_empty() {
            proof {
                lemma_empty_iff_height_zero(*lhs);
                lemma_empty_iff_height_zero(*mid);
                lemma_empty_iff_height_zero(*rhs);
                assert((*mid) is Empty && (*rhs) is Empty);
            }
            let node = Node::two(item2, mid, rhs);
            proof {
                assert(node.as_map() =~= n.as_map().remove(item1.0));
                assert(n.as_map()[item1.0] == item1.1);
            }
            Some((item1, node, false))
        } else {
            let (small, new_lhs, reduced) = Node::remove_smallest(*lhs).unwrap();
            proof {
                assert(small.0 < item1.0);
                assert(n.as_map()[small.0] == lhs.as_map()[small.0]);
                assert forall|k: u64| n.as_map().dom().contains(k) implies k >= small.0 by {}
            }
            if reduced {
                let (node, _, reduced2) = Node::fix3_lhs(item1, item2, new_lhs, mid, rhs, None);
                proof {
                    assert(node.as_map() =~= n.as_map().remove(small.0));
                }
                Some((small, node, reduced2))
            } else {
                let node = Node::three(item1, item2, new_lhs, mid, rhs);
                proof {
                    assert(node.as_map() =~= n.as_map().remove(small.0));
                }
                Some((small, node, false))
            }
        }
    }

    /// Rebalances a node of two items whose left child came back one level
    /// thinner, borrowing from or merging with the middle sibling.
    pub(crate) fn fix3_lhs(
        orig_item1: (u64, V),
        orig_item2: (u64, V),
        orig_lhs: Box<Node<V>>,
        orig_mid: Box<Node<V>>,
        orig_rhs: Box<Node<V>>,
        result: Option<V>,
    ) -> (r: (Box<Node<V>>, Option<V>, bool))
        requires
            orig_lhs.wf(),
            orig_mid.wf(),
            orig_rhs.wf(),
            orig_mid.height() == orig_rhs.height(),
            orig_mid.height() == orig_lhs.height() + 1,
            orig_item1.0 < orig_item2.0,
            orig_lhs.keys_below(orig_item1.0),
            orig_mid.keys_above(orig_item1.0),
            orig_mid.keys_below(orig_item2.0),
            orig_rhs.keys_above(orig_item2.0),
            2 + orig_lhs.count() + orig_mid.count() + orig_rhs.count() <= usize::MAX,
        ensures
            r.0.wf(),
            r.0.as_map() == three_map(
                orig_item1,
                orig_item2,
                orig_lhs.as_map(),
                orig_mid.as_map(),
                orig_rhs.as_map(),
            ),
            r.0.count() == 2 + orig_lhs.count() + orig_mid.count() + orig_rhs.count(),
            r.1 == result,
            r.2 == false,
            r.0.height() == orig_mid.height() + 1,
    {
        let ghost gl = *orig_lhs;
        let ghost gs = *orig_mid;
        let ghost gr = *orig_rhs;
        match *orig_mid {
            Node::Empty => {
                proof {
                    assert(false);
                }
                unreached()
            },
            Node::Two(two) => {
                let Two { size: _, item, lhs, rhs } = two;
                proof {
                    assert(gs.as_map().dom().contains(item.0));
                    assert forall|k: u64| lhs.as_map().dom().contains(k) implies orig_item1.0 < k
                        < item.0 by {
                        assert(gs.as_map().dom().contains(k));
                    }
                    assert forall|k: u64| rhs.as_map().dom().contains(k) implies k
                        < orig_item2.0 by {
                        assert(gs.as_map().dom().contains(k));
                    }
                }
                let node = Node::three(orig_item1, item, orig_lhs, lhs, rhs);
                proof {
                    assert forall|k: u64| node.as_map().dom().contains(k) implies k
                        < orig_item2.0 by {
                        if gl.as_map().dom().contains(k) {
                            assert(k < orig_item1.0);
                        } else if lhs.as_map().dom().contains(k) || rhs.as_map().dom().contains(
                            k,
                        ) {
                            assert(gs.as_map().dom().contains(k));
                        }
                    }
                }
                let top = Node::two(orig_item2, node, orig_rhs);
                proof {
                    assert(top.as_map() =~= three_map(
                        orig_item1,
                        orig_item2,
                        gl.as_map(),
                        gs.as_map(),
                        gr.as_map(),
                    ));
                }
                (top, result, false)
            },
            Node::Three(three) => {
                let Three { size: _, item1, item2, lhs, mid, rhs } = three;
                proof {
                    assert(gs.as_map().dom().contains(item1.0));
                    assert(gs.as_map().dom().contains(item2.0));
                    assert forall|k: u64| lhs.as_map().dom().contains(k) implies orig_item1.0
                        < k by {
                        assert(gs.as_map().dom().contains(k));
                    }
                }
                let node1 = Node::two(orig_item1, orig_lhs, lhs);
                let node2 = Node::two(item2, mid, rhs);
                proof {
                    assert forall|k: u64| node1.as_map().dom().contains(k) implies k
                        < item1.0 by {
                        if gl.as_map().dom().contains(k) {
                            assert(k < orig_item1.0);
                        } else if lhs.as_map().dom().contains(k) {
                            assert(gs.as_map().dom().contains(k));
                        }
                    }
                    assert forall|k: u64| node2.as_map().dom().contains(k) implies item1.0 < k
                        < orig_item2.0 by {
                        if mid.as_map().dom().contains(k) || rhs.as_map().dom().contains(k) {
                            assert(gs.as_map().dom().contains(k));
                        }
                    }
                }
                let top = Node::three(item1, orig_item2, node1, node2, orig_rhs);
                proof {
                    assert(top.as_map() =~= three_map(
                        orig_item1,
                        orig_item2,
                        gl.as_map(),
                        gs.as_map(),
                        gr.as_map(),
                    ));
                }
                (top, result, false)
            },
            Node::Four(four) => {
                let Four { size: _, item1, item2, item3, lhs, lhs_mid, rhs_mid, rhs } = four;
                proof {
                    assert(gs.as_map().dom().contains(item1.0));
                    assert(gs.as_map().dom().contains(item2.0));
                    assert(gs.as_map().dom().contains(item3.0));
                    assert forall|k: u64| lhs.as_map().dom().contains(k) implies orig_item1.0
                        < k by {
                        assert(gs.as_map().dom().contains(k));
                    }
                }
                let node1 = Node::two(orig_item1, orig_lhs, lhs);
                let node2 = Node::three(item2, item3, lhs_mid, rhs_mid, rhs);
                proof {
                    assert forall|k: u64| node1.as_map().dom().contains(k) implies k
                        < item1.0 by {
                        if gl.as_map().dom().contains(k) {
                            assert(k < orig_item1.0);
                        } else if lhs.as_map().dom().contains(k) {
                            assert(gs.as_map().dom().contains(k));
                        }
                    }
                    assert forall|k: u64| node2.as_map().dom().contains(k) implies item1.0 < k
                        < orig_item2.0 by {
                        if lhs_mid.as_map().dom().contains(k) || rhs_mid.as_map().dom().contains(
                            k,
                        ) || rhs.as_map().dom().contains(k) {
                            assert(gs.as_map().dom().contains(k));
                        }
                    }
                }
                let top = Node::three(item1, orig_item2, node1, node2, orig_rhs);
                proof {
                    assert(top.as_map() =~= three_map(
                        orig_item1,
                        orig_item2,
                        gl.as_map(),
                        gs.as_map(),
                        gr.as_map(),
                    ));
                }
                (top, result, false)
            },
        }
    }

    /// Rebalances a node of two items whose middle child came back one level
    /// thinner, borrowing from or merging with the left sibling.
    pub(crate) fn fix3_mid(
        orig_item1: (u64, V),
        orig_item2: (u64, V),
        orig_lhs: Box<Node<V>>,
        orig_mid: Box<Node<V>>,
        orig_rhs: Box<Node<V>>,
        result: Option<V>,
    ) -> (r: (Box<Node<V>>, Option<V>, bool))
        requires
            orig_lhs.wf(),
            orig_mid.wf(),
            orig_rhs.wf(),
            orig_lhs.height() == orig_rhs.height(),
            orig_lhs.height() == orig_mid.height() + 1,
            orig_item1.0 < orig_item2.0,
            orig_lhs.keys_below(orig_item1.0),
            orig_mid.keys_above(orig_item1.0),
            orig_mid.keys_below(orig_item2.0),
            orig_rhs.keys_above(orig_item2.0),
            2 + orig_lhs.count() + orig_mid.count() + orig_rhs.count() <= usize::MAX,
        ensures
            r.0.wf(),
            r.0.as_map() == three_map(
                orig_item1,
                orig_item2,
                orig_lhs.as_map(),
                orig_mid.as_map(),
                orig_rhs.as_map(),
            ),
            r.0.count() == 2 + orig_lhs.count() + orig_mid.count() + orig_rhs.count(),
            r.1 == result,
            r.2 == false,
            r.0.height() == orig_lhs.height() + 1,
    {
        let ghost gm = *orig_mid;
        let ghost gs = *orig_lhs;
        let ghost gr = *orig_rhs;
        match *orig_lhs {
            Node::Empty => {
                proof {
                    assert(false);
                }
                unreached()
            },
            Node::Two(two) => {
                let Two { size: _, item, lhs, rhs } = two;
                proof {
                    assert(gs.as_map().dom().contains(item.0));
                    assert forall|k: u64| rhs.as_map().dom().contains(k) implies item.0 < k
                        < orig_item1.0 by {
                        assert(gs.as_map().dom().contains(k));
                    }
                    assert forall|k: u64| lhs.as_map().dom().contains(k) implies k < item.0 by {
                        assert(gs.as_map().dom().contains(k));
                    }
                }
                let node = Node::three(item, orig_item1, lhs, rhs, orig_mid);
                proof {
                    assert forall|k: u64| node.as_map().dom().contains(k) implies k
                        < orig_item2.0 by {
                        if lhs.as_map().dom().contains(k) || rhs.as_map().dom().contains(k) {
                            assert(gs.as_map().dom().contains(k));
                        }
                    }
                }
                let top = Node::two(orig_item2, node, orig_rhs);
                proof {
                    assert(top.as_map() =~= three_map(
                        orig_item1,
                        orig_item2,
                        gs.as_map(),
                        gm.as_map(),
                        gr.as_map(),
                    ));
                }
                (top, result, false)
            },
            Node::Three(three) => {
                let Three { size: _, item1, item2, lhs, mid, rhs } = three;
                proof {
                    assert(gs.as_map().dom().contains(item1.0));
                    assert(gs.as_map().dom().contains(item2.0));
                    assert forall|k: u64| rhs.as_map().dom().contains(k) implies item2.0 < k
                        < orig_item1.0 by {
                        assert(gs.as_map().dom().contains(k));
                    }
                }
                let node1 = Node::two(item1, lhs, mid);
                let node2 = Node::two(orig_item1, rhs, orig_mid);
                proof {
                    assert forall|k: u64| node1.as_map().dom().contains(k) implies k
                        < item2.0 by {
                        if lhs.as_map().dom().contains(k) || mid.as_map().dom().contains(k) {
                            assert(gs.as_map().dom().contains(k));
                        }
                    }
                    assert forall|k: u64| node2.as_map().dom().contains(k) implies item2.0 < k
                        < orig_item2.0 by {
                        if rhs.as_map().dom().contains(k) {
                            assert(gs.as_map().dom().contains(k));
                        } else if gm.as_map().dom().contains(k) {
                            assert(k > orig_item1.0);
                        }
                    }
                }
                let top = Node::three(item2, orig_item2, node1, node2, orig_rhs);
                proof {
                    assert(top.as_map() =~= three_map(
                        orig_item1,
                        orig_item2,
                        gs.as_map(),
                        gm.as_map(),
                        gr.as_map(),
                    ));
                }
                (top, result, false)
            },
            Node::Four(four) => {
                let Four { size: _, item1, item2, item3, lhs, lhs_mid, rhs_mid, rhs } = four;
                proof {
                    assert(gs.as_map().dom().contains(item1.0));
                    assert(gs.as_map().dom().contains(item2.0));
                    assert(gs.as_map().dom().contains(item3.0));
                    assert forall|k: u64| rhs.as_map().dom().contains(k) implies item3.0 < k
                        < orig_item1.0 by {
                        assert(gs.as_map().dom().contains(k));
                    }
                }
                let node1 = Node::three(item1, item2, lhs, lhs_mid, rhs_mid);
                let node2 = Node::two(orig_item1, rhs, orig_mid);
                proof {
                    assert forall|k: u64| node1.as_map().dom().contains(k) implies k
                        < item3.0 by {
                        if lhs.as_map().dom().contains(k) || lhs_mid.as_map().dom().contains(k)
                            || rhs_mid.as_map().dom().contains(k) {
                            assert(gs.as_map().dom().contains(k));
                        }
                    }
                    assert forall|k: u64| node2.as_map().dom().contains(k) implies item3.0 < k
                        < orig_item2.0 by {
                        if rhs.as_map().dom().contains(k) {
                            assert(gs.as_map().dom().contains(k));
                        } else if gm.as_map().dom().contains(k) {
                            assert(k > orig_item1.0);
                        }
                    }
                }
                let top = Node::three(item3, orig_item2, node1, node2, orig_rhs);
                proof {
                    assert(top.as_map() =~= three_map(
                        orig_item1,
                        orig_item2,
                        gs.as_map(),
                        gm.as_map(),
                        gr.as_map(),
                    ));
                }
                (top, result, false)
            },
        }
    }

    /// Rebalances a node of two items whose right child came back one level
    /// thinner, borrowing from or merging with the middle sibling.
    pub(crate) fn fix3_rhs(
        orig_item1: (u64, V),
        orig_item2: (u64, V),
        orig_lhs: Box<Node<V>>,
        orig_mid: Box<Node<V>>,
        orig_rhs: Box<Node<V>>,
        result: Option<V>,
    ) -> (r: (Box<Node<V>>, Option<V>, bool))
        requires
            orig_lhs.wf(),
            orig_mid.wf(),
            orig_rhs.wf(),
            orig_lhs.height() == orig_mid.height(),
            orig_mid.height() == orig_rhs.height() + 1,
            orig_item1.0 < orig_item2.0,
            orig_lhs.keys_below(orig_item1.0),
            orig_mid.keys_above(orig_item1.0),
            orig_mid.keys_below(orig_item2.0),
            orig_rhs.keys_above(orig_item2.0),
            2 + orig_lhs.count() + orig_mid.count() + orig_rhs.count() <= usize::MAX,
        ensures
            r.0.wf(),
            r.0.as_map() == three_map(
                orig_item1,
                orig_item2,
                orig_lhs.as_map(),
                orig_mid.as_map(),
                orig_rhs.as_map(),
            ),
            r.0.count() == 2 + orig_lhs.count() + orig_mid.count() + orig_rhs.count(),
            r.1 == result,
            r.2 == false,
            r.0.height() == orig_mid.height() + 1,
    {
        let ghost gl = *orig_lhs;
        let ghost gs = *orig_mid;
        let ghost gr = *orig_rhs;
        match *orig_mid {
            Node::Empty => {
                proof {
                    lemma_empty_iff_height_zero(gs);
                    lemma_empty_iff_height_zero(gr);
                    assert(false);
                }
                unreached()
            },
            Node::Two(two) => {
                let Two { size: _, item, lhs, rhs } = two;
                proof {
                    assert(gs.as_map().dom().contains(item.0));
                    assert forall|k: u64| lhs.as_map().dom().contains(k) implies orig_item1.0
                        < k by {
                        assert(gs.as_map().dom().contains(k));
                    }
                    assert forall|k: u64| rhs.as_map().dom().contains(k) implies item.0 < k
                        < orig_item2.0 by {
                        assert(gs.as_map().dom().contains(k));
                    }
                }
                let node = Node::three(item, orig_item2, lhs, rhs, orig_rhs);
                proof {
                    assert forall|k: u64| node.as_map().dom().contains(k) implies k
                        > orig_item1.0 by {
                        if lhs.as_map().dom().contains(k) || rhs.as_map().dom().contains(k) {
                            assert(gs.as_map().dom().contains(k));
                        } else if gr.as_map().dom().contains(k) {
                            assert(k > orig_item2.0);
                        }
                    }
                }
                let top = Node::two(orig_item1, orig_lhs, node);
                proof {
                    assert(top.as_map() =~= three_map(
                        orig_item1,
                        orig_item2,
                        gl.as_map(),
                        gs.as_map(),
                        gr.as_map(),
                    ));
                }
                (top, result, false)
            },
            Node::Three(three) => {
                let Three { size: _, item1, item2, lhs, mid, rhs } = three;
                proof {
                    assert(gs.as_map().dom().contains(item1.0));
                    assert(gs.as_map().dom().contains(item2.0));
                    assert forall|k: u64| lhs.as_map().dom().contains(k) implies orig_item1.0
                        < k by {
                        assert(gs.as_map().dom().contains(k));
                    }
                    assert forall|k: u64| rhs.as_map().dom().contains(k) implies k
                        < orig_item2.0 by {
                        assert(gs.as_map().dom().contains(k));
                    }
                }
                let node1 = Node::two(item1, lhs, mid);
                let node2 = Node::two(orig_item2, rhs, orig_rhs);
                proof {
                    assert forall|k: u64| node1.as_map().dom().contains(k) implies orig_item1.0
                        < k < item2.0 by {
                        if lhs.as_map().dom().contains(k) || mid.as_map().dom().contains(k) {
                            assert(gs.as_map().dom().contains(k));
                        }
                    }
                    assert forall|k: u64| node2.as_map().dom().contains(k) implies k
                        > item2.0 by {
                        if rhs.as_map().dom().contains(k) {
                            assert(gs.as_map().dom().contains(k));
                        } else if gr.as_map().dom().contains(k) {
                            assert(k > orig_item2.0);
                        }
                    }
                }
                let top = Node::three(orig_item1, item2, orig_lhs, node1, node2);
                proof {
                    assert(top.as_map() =~= three_map(
                        orig_item1,
                        orig_item2,
                        gl.as_map(),
                        gs.as_map(),
                        gr.as_map(),
                    ));
                }
                (top, result, false)
            },
            Node::Four(four) => {
                let Four { size: _, item1, item2, item3, lhs, lhs_mid, rhs_mid, rhs } = four;
                proof {
                    assert(gs.as_map().dom().contains(item1.0));
                    assert(gs.as_map().dom().contains(item2.0));
                    assert(gs.as_map().dom().contains(item3.0));
                    assert forall|k: u64| lhs.as_map().dom().contains(k) implies orig_item1.0
                        < k by {
                        assert(gs.as_map().dom().contains(k));
                    }
                    assert forall|k: u64| rhs.as_map().dom().contains(k) implies k
                        < orig_item2.0 by {
                        assert(gs.as_map().dom().contains(k));
                    }
                }
                let node1 = Node::three(item1, item2, lhs, lhs_mid, rhs_mid);
                let node2 = Node::two(orig_item2, rhs, orig_rhs);
                proof {
                    assert forall|k: u64| node1.as_map().dom().contains(k) implies orig_item1.0
                        < k < item3.0 by {
                        if lhs.as_map().dom().contains(k) || lhs_mid.as_map().dom().contains(k)
                            || rhs_mid.as_map().dom().contains(k) {
                            assert(gs.as_map().dom().contains(k));
                        }
                    }
                    assert forall|k: u64| node2.as_map().dom().contains(k) implies k
                        > item3.0 by {
                        if rhs.as_map().dom().contains(k) {
                            assert(gs.as_map().dom().contains(k));
                        } else if gr.as_map().dom().contains(k) {
                            assert(k > orig_item2.0);
                        }
                    }
                }
                let top = Node::three(orig_item1, item3, orig_lhs, node1, node2);
                proof {
                    assert(top.as_map() =~= three_map(
                        orig_item1,
                        orig_item2,
                        gl.as_map(),
                        gs.as_map(),
                        gr.as_map(),
                    ));
                }
                (top, result, false)
            },
        }
    }
    /// Removal from a node of three items. A parent of three items absorbs
    /// any child underflow itself — by rotation, or by merging down to a
    /// node of two items — so it never signals underflow upward.
    pub(crate) fn remove4(four: Four<V>, key: &u64) -> (r: (Box<Node<V>>, Option<V>, bool))
        requires
            Node::Four(four).wf(),
        ensures
            remove_post(Node::Four(four), *key, *r.0, r.1, r.2),
            r.2 == false,
        decreases Node::Four(four).height(), 0int,
    {
        let ghost n = Node::Four(four);
        let Four { size: _, item1, item2, item3, lhs, lhs_mid, rhs_mid, rhs } = four;
        if *key < item1.0 {
            proof {
                assert(!lhs_mid.as_map().dom().contains(*key));
                assert(!rhs_mid.as_map().dom().contains(*key));
                assert(!rhs.as_map().dom().contains(*key));
            }
            let (new_lhs, result, reduced) = (*lhs).remove(key);
            proof {
                assert(n.as_map().dom().contains(*key) == lhs.as_map().dom().contains(*key));
                if lhs.as_map().dom().contains(*key) {
                    assert(n.as_map()[*key] == lhs.as_map()[*key]);
                }
            }
            if reduced {
                let fixed = Node::fix4_lhs(item1, item2, item3, new_lhs, lhs_mid, rhs_mid, rhs,
                    result);
                proof {
                    assert(fixed.0.as_map() =~= n.as_map().remove(*key));
                }
                fixed
            } else {
                let node = Node::four(item1, item2, item3, new_lhs, lhs_mid, rhs_mid, rhs);
                proof {
                    assert(node.as_map() =~= n.as_map().remove(*key));
                }
                (node, result, false)
            }
        } else if *key == item1.0 {
            proof {
                assert(n.as_map().dom().contains(*key));
                assert(n.as_map()[*key] == item1.1);
                assert(!lhs.as_map().dom().contains(*key));
                assert(!lhs_mid.as_map().dom().contains(*key));
                assert(!rhs_mid.as_map().dom().contains(*key));
                assert(!rhs.as_map().dom().contains(*key));
            }
            if let Some((small, new_lm, reduced)) = Node::remove_smallest(*lhs_mid) {
                proof {
                    assert(item1.0 < small.0 && small.0 < item2.0);
                    assert forall|k: u64| new_lm.as_map().dom().contains(k) implies k
                        > small.0 by {
                        assert(lhs_mid.as_map().dom().contains(k));
                    }
                    assert forall|k: u64| lhs.as_map().dom().contains(k) implies k
                        < small.0 by {}
                }
                if reduced {
                    let (node, result, reduced2) = Node::fix4_lhs_mid(small, item2, item3, lhs,
                        new_lm, rhs_mid, rhs, Some(item1.1));
                    proof {
                        assert(node.as_map() =~= n.as_map().remove(*key));
                    }
                    (node, result, reduced2)
                } else {
                    let node = Node::four(small, item2, item3, lhs, new_lm, rhs_mid, rhs);
                    proof {
                        assert(node.as_map() =~= n.as_map().remove(*key));
                    }
                    (node, Some(item1.1), false)
                }
            } else {
                proof {
                    lemma_empty_iff_height_zero(*lhs);
                    lemma_empty_iff_height_zero(*lhs_mid);
                    lemma_empty_iff_height_zero(*rhs_mid);
                    lemma_empty_iff_height_zero(*rhs);
                    assert((*lhs) is Empty && (*rhs_mid) is Empty && (*rhs) is Empty);
                    assert forall|k: u64| lhs.as_map().dom().contains(k) implies k
                        < item2.0 by {}
                }
                let node = Node::three(item2, item3, lhs, rhs_mid, rhs);
                proof {
                    assert(node.as_map() =~= n.as_map().remove(*key));
                }
                (node, Some(item1.1), false)
            }
        } else if *key < item2.0 {
            proof {
                assert(!lhs.as_map().dom().contains(*key));
                assert(!rhs_mid.as_map().dom().contains(*key));
                assert(!rhs.as_map().dom().contains(*key));
            }
            let (new_lm, result, reduced) = (*lhs_mid).remove(key);
            proof {
                assert(n.as_map().dom().contains(*key) == lhs_mid.as_map().dom().contains(*key));
                if lhs_mid.as_map().dom().contains(*key) {
                    assert(n.as_map()[*key] == lhs_mid.as_map()[*key]);
                }
            }
            if reduced {
                let fixed = Node::fix4_lhs_mid(item1, item2, item3, lhs, new_lm, rhs_mid, rhs,
                    result);
                proof {
                    assert(fixed.0.as_map() =~= n.as_map().remove(*key));
                }
                fixed
            } else {
                let node = Node::four(item1, item2, item3, lhs, new_lm, rhs_mid, rhs);
                proof {
                    assert(node.as_map() =~= n.as_map().remove(*key));
                }
                (node, result, false)
            }
        } else if *key == item2.0 {
            proof {
                assert(n.as_map().dom().contains(*key));
                assert(n.as_map()[*key] == item2.1);
                assert(!lhs.as_map().dom().contains(*key));
                assert(!lhs_mid.as_map().dom().contains(*key));
                assert(!rhs_mid.as_map().dom().contains(*key));
                assert(!rhs.as_map().dom().contains(*key));
            }
            if let Some((small, new_rm, reduced)) = Node::remove_smallest(*rhs_mid) {
                proof {
                    assert(item2.0 < small.0 && small.0 < item3.0);
                    assert forall|k: u64| new_rm.as_map().dom().contains(k) implies k
                        > small.0 by {
                        assert(rhs_mid.as_map().dom().contains(k));
                    }
                    assert forall|k: u64| lhs_mid.as_map().dom().contains(k) implies k
                        < small.0 by {}
                }
                if reduced {
                    let (node, result, reduced2) = Node::fix4_rhs_mid(item1, small, item3, lhs,
                        lhs_mid, new_rm, rhs, Some(item2.1));
                    proof {
                        assert(node.as_map() =~= n.as_map().remove(*key));
                    }
                    (node, result, reduced2)
                } else {
                    let node = Node::four(item1, small, item3, lhs, lhs_mid, new_rm, rhs);
                    proof {
                        assert(node.as_map() =~= n.as_map().remove(*key));
                    }
                    (node, Some(item2.1), false)
                }
            } else {
                proof {
                    lemma_empty_iff_height_zero(*lhs);
                    lemma_empty_iff_height_zero(*rhs_mid);
                    assert((*lhs) is Empty && (*lhs_mid) is Empty && (*rhs) is Empty);
                    assert forall|k: u64| lhs_mid.as_map().dom().contains(k) implies k
                        < item3.0 by {}
                }
                let node = Node::three(item1, item3, lhs, lhs_mid, rhs);
                proof {
                    assert(node.as_map() =~= n.as_map().remove(*key));
                }
                (node, Some(item2.1), false)
            }
        } else if *key < item3.0 {
            proof {
                assert(!lhs.as_map().dom().contains(*key));
                assert(!lhs_mid.as_map().dom().contains(*key));
                assert(!rhs.as_map().dom().contains(*key));
            }
            let (new_rm, result, reduced) = (*rhs_mid).remove(key);
            proof {
                assert(n.as_map().dom().contains(*key) == rhs_mid.as_map().dom().contains(*key));
                if rhs_mid.as_map().dom().contains(*key) {
                    assert(n.as_map()[*key] == rhs_mid.as_map()[*key]);
                }
            }
            if reduced {
                let fixed = Node::fix4_rhs_mid(item1, item2, item3, lhs, lhs_mid, new_rm, rhs,
                    result);
                proof {
                    assert(fixed.0.as_map() =~= n.as_map().remove(*key));
                }
                fixed
            } else {
                let node = Node::four(item1, item2, item3, lhs, lhs_mid, new_rm, rhs);
                proof {
                    assert(node.as_map() =~= n.as_map().remove(*key));
                }
                (node, result, false)
            }
        } else if *key == item3.0 {
            proof {
                assert(n.as_map().dom().contains(*key));
                assert(n.as_map()[*key] == item3.1);
                assert(!lhs.as_map().dom().contains(*key));
                assert(!lhs_mid.as_map().dom().contains(*key));
                assert(!rhs_mid.as_map().dom().contains(*key));
                assert(!rhs.as_map().dom().contains(*key));
            }
            if let Some((small, new_rhs, reduced)) = Node::remove_smallest(*rhs) {
                proof {
                    assert(item3.0 < small.0);
                    assert forall|k: u64| new_rhs.as_map().dom().contains(k) implies k
                        > small.0 by {
                        assert(rhs.as_map().dom().contains(k));
                    }
                    assert forall|k: u64| rhs_mid.as_map().dom().contains(k) implies k
                        < small.0 by {}
                }
                if reduced {
                    let (node, result, reduced2) = Node::fix4_rhs(item1, item2, small, lhs,
                        lhs_mid, rhs_mid, new_rhs, Some(item3.1));
                    proof {
                        assert(node.as_map() =~= n.as_map().remove(*key));
                    }
                    (node, result, reduced2)
                } else {
                    let node = Node::four(item1, item2, small, lhs, lhs_mid, rhs_mid, new_rhs);
                    proof {
                        assert(node.as_map() =~= n.as_map().remove(*key));
                    }
                    (node, Some(item3.1), false)
                }
            } else {
                proof {
                    lemma_empty_iff_height_zero(*lhs);
                    lemma_empty_iff_height_zero(*rhs);
                    assert((*lhs) is Empty && (*lhs_mid) is Empty && (*rhs_mid) is Empty);
                }
                let node = Node::three(item1, item2, lhs, lhs_mid, rhs_mid);
                proof {
                    assert(node.as_map() =~= n.as_map().remove(*key));
                }
                (node, Some(item3.1), false)
            }
        } else {
            proof {
                assert(!lhs.as_map().dom().contains(*key));
                assert(!lhs_mid.as_map().dom().contains(*key));
                assert(!rhs_mid.as_map().dom().contains(*key));
            }
            let (new_rhs, result, reduced) = (*rhs).remove(key);
            proof {
                assert(n.as_map().dom().contains(*key) == rhs.as_map().dom().contains(*key));
                if rhs.as_map().dom().contains(*key) {
                    assert(n.as_map()[*key] == rhs.as_map()[*key]);
                }
            }
            if reduced {
                let fixed = Node::fix4_rhs(item1, item2, item3, lhs, lhs_mid, rhs_mid, new_rhs,
                    result);
                proof {
                    assert(fixed.0.as_map() =~= n.as_map().remove(*key));
                }
                fixed
            } else {
                let node = Node::four(item1, item2, item3, lhs, lhs_mid, rhs_mid, new_rhs);
                proof {
                    assert(node.as_map() =~= n.as_map().remove(*key));
                }
                (node, result, false)
            }
        }
    }

    /// Smallest-item extraction from a node of three items; as with removal,
    /// a parent of three items absorbs any child underflow and never signals
    /// underflow upward.
    pub(crate) fn remove_smallest4(four: Four<V>) -> (r: Option<((u64, V), Box<Node<V>>, bool)>)
        requires
            Node::Four(four).wf(),
        ensures
            r is Some,
            r matches Some(t) ==> smallest_post(Node::Four(four), t.0, *t.1, t.2) && t.2
                == false,
        decreases Node::Four(four).height(), 0int,
    {
        let ghost n = Node::Four(four);
        let Four { size: _, item1, item2, item3, lhs, lhs_mid, rhs_mid, rhs } = four;
        if lhs.is_empty() {
            proof {
                lemma_empty_iff_height_zero(*lhs);
                lemma_empty_iff_height_zero(*lhs_mid);
                lemma_empty_iff_height_zero(*rhs_mid);
                lemma_empty_iff_height_zero(*rhs);
                assert((*lhs_mid) is Empty && (*rhs_mid) is Empty && (*rhs) is Empty);
            }
            let node = Node::three(item2, item3, lhs_mid, rhs_mid, rhs);
            proof {
                assert(node.as_map() =~= n.as_map().remove(item1.0));
                assert(n.as_map()[item1.0] == item1.1);
            }
            Some((item1, node, false))
        } else {
            let (small, new_lhs, reduced) = Node::remove_smallest(*lhs).unwrap();
            proof {
                assert(small.0 < item1.0);
                assert(n.as_map()[small.0] == lhs.as_map()[small.0]);
                assert forall|k: u64| n.as_map().dom().contains(k) implies k >= small.0 by {}
            }
            if reduced {
                let (node, _, reduced2) = Node::fix4_lhs(item1, item2, item3, new_lhs, lhs_mid,
                    rhs_mid, rhs, None);
                proof {
                    assert(node.as_map() =~= n.as_map().remove(small.0));
                }
                Some((small, node, reduced2))
            } else {
                let node = Node::four(item1, item2, item3, new_lhs, lhs_mid, rhs_mid, rhs);
                proof {
                    assert(node.as_map() =~= n.as_map().remove(small.0));
                }
                Some((small, node, false))
            }
        }
    }

    /// Rebalances a node of three items whose leftmost child came back one
    /// level thinner, borrowing from or merging with its right sibling.
    pub(crate) fn fix4_lhs(
        orig_item1: (u64, V),
        orig_item2: (u64, V),
        orig_item3: (u64, V),
        orig_lhs: Box<Node<V>>,
        orig_lhs_mid: Box<Node<V>>,
        orig_rhs_mid: Box<Node<V>>,
        orig_rhs: Box<Node<V>>,
        result: Option<V>,
    ) -> (r: (Box<Node<V>>, Option<V>, bool))
        requires
            orig_lhs.wf(),
            orig_lhs_mid.wf(),
            orig_rhs_mid.wf(),
            orig_rhs.wf(),
            orig_lhs_mid.height() == orig_rhs_mid.height(),
            orig_rhs_mid.height() == orig_rhs.height(),
            orig_lhs_mid.height() == orig_lhs.height() + 1,
            orig_item1.0 < orig_item2.0,
            orig_item2.0 < orig_item3.0,
            orig_lhs.keys_below(orig_item1.0),
            orig_lhs_mid.keys_above(orig_item1.0),
            orig_lhs_mid.keys_below(orig_item2.0),
            orig_rhs_mid.keys_above(orig_item2.0),
            orig_rhs_mid.keys_below(orig_item3.0),
            orig_rhs.keys_above(orig_item3.0),
            3 + orig_lhs.count() + orig_lhs_mid.count() + orig_rhs_mid.count() + orig_rhs.count()
                <= usize::MAX,
        ensures
            r.0.wf(),
            r.0.as_map() == four_map(
                orig_item1,
                orig_item2,
                orig_item3,
                orig_lhs.as_map(),
                orig_lhs_mid.as_map(),
                orig_rhs_mid.as_map(),
                orig_rhs.as_map(),
            ),
            r.0.count() == 3 + orig_lhs.count() + orig_lhs_mid.count() + orig_rhs_mid.count()
                + orig_rhs.count(),
            r.1 == result,
            r.2 == false,
            r.0.height() == orig_lhs_mid.height() + 1,
    {
        let ghost gl = *orig_lhs;
        let ghost gs = *orig_lhs_mid;
        match *orig_lhs_mid {
            Node::Empty => {
                proof {
                    assert(false);
                }
                unreached()
            },
            Node::Two(two) => {
                let Two { size: _, item, lhs, rhs } = two;
                proof {
                    assert(gs.as_map().dom().contains(item.0));
                    assert forall|k: u64| lhs.as_map().dom().contains(k) implies orig_item1.0 < k
                        < item.0 by {
                        assert(gs.as_map().dom().contains(k));
                    }
                    assert forall|k: u64| rhs.as_map().dom().contains(k) implies k
                        < orig_item2.0 by {
                        assert(gs.as_map().dom().contains(k));
                    }
                }
                let node = Node::three(orig_item1, item, orig_lhs, lhs, rhs);
                proof {
                    assert forall|k: u64| node.as_map().dom().contains(k) implies k
                        < orig_item2.0 by {
                        if gl.as_map().dom().contains(k) {
                            assert(k < orig_item1.0);
                        } else if lhs.as_map().dom().contains(k) || rhs.as_map().dom().contains(
                            k,
                        ) {
                            assert(gs.as_map().dom().contains(k));
                        }
                    }
                }
                let top = Node::three(orig_item2, orig_item3, node, orig_rhs_mid, orig_rhs);
                proof {
                    assert(top.as_map() =~= four_map(
                        orig_item1,
                        orig_item2,
                        orig_item3,
                        gl.as_map(),
                        gs.as_map(),
                        orig_rhs_mid.as_map(),
                        orig_rhs.as_map(),
                    ));
                }
                (top, result, false)
            },
            Node::Three(three) => {
                let Three { size: _, item1, item2, lhs, mid, rhs } = three;
                proof {
                    assert(gs.as_map().dom().contains(item1.0));
                    assert(gs.as_map().dom().contains(item2.0));
                    assert forall|k: u64| lhs.as_map().dom().contains(k) implies orig_item1.0
                        < k by {
                        assert(gs.as_map().dom().contains(k));
                    }
                }
                let node1 = Node::two(orig_item1, orig_lhs, lhs);
                let node2 = Node::two(item2, mid, rhs);
                proof {
                    assert forall|k: u64| node1.as_map().dom().contains(k) implies k
                        < item1.0 by {
                        if gl.as_map().dom().contains(k) {
                            assert(k < orig_item1.0);
                        } else if lhs.as_map().dom().contains(k) {
                            assert(gs.as_map().dom().contains(k));
                        }
                    }
                    assert forall|k: u64| node2.as_map().dom().contains(k) implies item1.0 < k
                        < orig_item2.0 by {
                        if mid.as_map().dom().contains(k) || rhs.as_map().dom().contains(k) {
                            assert(gs.as_map().dom().contains(k));
                        }
                    }
                }
                let top = Node::four(item1, orig_item2, orig_item3, node1, node2, orig_rhs_mid,
                    orig_rhs);
                proof {
                    assert(top.as_map() =~= four_map(
                        orig_item1,
                        orig_item2,
                        orig_item3,
                        gl.as_map(),
                        gs.as_map(),
                        orig_rhs_mid.as_map(),
                        orig_rhs.as_map(),
                    ));
                }
                (top, result, false)
            },
            Node::Four(four) => {
                let Four { size: _, item1, item2, item3, lhs, lhs_mid, rhs_mid, rhs } = four;
                proof {
                    assert(gs.as_map().dom().contains(item1.0));
                    assert(gs.as_map().dom().contains(item2.0));
                    assert(gs.as_map().dom().contains(item3.0));
                    assert forall|k: u64| lhs.as_map().dom().contains(k) implies orig_item1.0
                        < k by {
                        assert(gs.as_map().dom().contains(k));
                    }
                }
                let node1 = Node::two(orig_item1, orig_lhs, lhs);
                let node2 = Node::three(item2, item3, lhs_mid, rhs_mid, rhs);
                proof {
                    assert forall|k: u64| node1.as_map().dom().contains(k) implies k
                        < item1.0 by {
                        if gl.as_map().dom().contains(k) {
                            assert(k < orig_item1.0);
                        } else if lhs.as_map().dom().contains(k) {
                            assert(gs.as_map().dom().contains(k));
                        }
                    }
                    assert forall|k: u64| node2.as_map().dom().contains(k) implies item1.0 < k
                        < orig_item2.0 by {
                        if lhs_mid.as_map().dom().contains(k) || rhs_mid.as_map().dom().contains(
                            k,
                        ) || rhs.as_map().dom().contains(k) {
                            assert(gs.as_map().dom().contains(k));
                        }
                    }
                }
                let top = Node::four(item1, orig_item2, orig_item3, node1, node2, orig_rhs_mid,
                    orig_rhs);
                proof {
                    assert(top.as_map() =~= four_map(
                        orig_item1,
                        orig_item2,
                        orig_item3,
                        gl.as_map(),
                        gs.as_map(),
                        orig_rhs_mid.as_map(),
                        orig_rhs.as_map(),
                    ));
                }
                (top, result, false)
            },
        }
    }

    /// Rebalances a node of three items whose second child came back one
    /// level thinner, borrowing from or merging with the third child.
    pub(crate) fn fix4_lhs_mid(
        orig_item1: (u64, V),
        orig_item2: (u64, V),
        orig_item3: (u64, V),
        orig_lhs: Box<Node<V>>,
        orig_lhs_mid: Box<Node<V>>,
        orig_rhs_mid: Box<Node<V>>,
        orig_rhs: Box<Node<V>>,
        result: Option<V>,
    ) -> (r: (Box<Node<V>>, Option<V>, bool))
        requires
            orig_lhs.wf(),
            orig_lhs_mid.wf(),
            orig_rhs_mid.wf(),
            orig_rhs.wf(),
            orig_lhs.height() == orig_rhs_mid.height(),
            orig_rhs_mid.height() == orig_rhs.height(),
            orig_lhs.height() == orig_lhs_mid.height() + 1,
            orig_item1.0 < orig_item2.0,
            orig_item2.0 < orig_item3.0,
            orig_lhs.keys_below(orig_item1.0),
            orig_lhs_mid.keys_above(orig_item1.0),
            orig_lhs_mid.keys_below(orig_item2.0),
            orig_rhs_mid.keys_above(orig_item2.0),
            orig_rhs_mid.keys_below(orig_item3.0),
            orig_rhs.keys_above(orig_item3.0),
            3 + orig_lhs.count() + orig_lhs_mid.count() + orig_rhs_mid.count() + orig_rhs.count()
                <= usize::MAX,
        ensures
            r.0.wf(),
            r.0.as_map() == four_map(
                orig_item1,
                orig_item2,
                orig_item3,
                orig_lhs.as_map(),
                orig_lhs_mid.as_map(),
                orig_rhs_mid.as_map(),
                orig_rhs.as_map(),
            ),
            r.0.count() == 3 + orig_lhs.count() + orig_lhs_mid.count() + orig_rhs_mid.count()
                + orig_rhs.count(),
            r.1 == result,
            r.2 == false,
            r.0.height() == orig_lhs.height() + 1,
    {
        let ghost gm = *orig_lhs_mid;
        let ghost gs = *orig_rhs_mid;
        match *orig_rhs_mid {
            Node::Empty => {
                proof {
                    assert(false);
                }
                unreached()
            },
            Node::Two(two) => {
                let Two { size: _, item, lhs, rhs } = two;
                proof {
                    assert(gs.as_map().dom().contains(item.0));
                    assert forall|k: u64| lhs.as_map().dom().contains(k) implies orig_item2.0 < k
                        < item.0 by {
                        assert(gs.as_map().dom().contains(k));
                    }
                    assert forall|k: u64| rhs.as_map().dom().contains(k) implies k
                        < orig_item3.0 by {
                        assert(gs.as_map().dom().contains(k));
                    }
                }
                let node = Node::three(orig_item2, item, orig_lhs_mid, lhs, rhs);
                proof {
                    assert forall|k: u64| node.as_map().dom().contains(k) implies orig_item1.0 < k
                        < orig_item3.0 by {
                        if gm.as_map().dom().contains(k) {
                            assert(k > orig_item1.0);
                        } else if lhs.as_map().dom().contains(k) || rhs.as_map().dom().contains(
                            k,
                        ) {
                            assert(gs.as_map().dom().contains(k));
                        }
                    }
                }
                let top = Node::three(orig_item1, orig_item3, orig_lhs, node, orig_rhs);
                proof {
                    assert(top.as_map() =~= four_map(
                        orig_item1,
                        orig_item2,
                        orig_item3,
                        orig_lhs.as_map(),
                        gm.as_map(),
                        gs.as_map(),
                        orig_rhs.as_map(),
                    ));
                }
                (top, result, false)
            },
            Node::Three(three) => {
                let Three { size: _, item1, item2, lhs, mid, rhs } = three;
                proof {
                    assert(gs.as_map().dom().contains(item1.0));
                    assert(gs.as_map().dom().contains(item2.0));
                    assert forall|k: u64| lhs.as_map().dom().contains(k) implies orig_item2.0
                        < k by {
                        assert(gs.as_map().dom().contains(k));
                    }
                }
                let node1 = Node::two(orig_item2, orig_lhs_mid, lhs);
                let node2 = Node::two(item2, mid, rhs);
                proof {
                    assert forall|k: u64| node1.as_map().dom().contains(k) implies orig_item1.0
                        < k < item1.0 by {
                        if gm.as_map().dom().contains(k) {
                            assert(k > orig_item1.0 && k < orig_item2.0);
                        } else if lhs.as_map().dom().contains(k) {
                            assert(gs.as_map().dom().contains(k));
                        }
                    }
                    assert forall|k: u64| node2.as_map().dom().contains(k) implies item1.0 < k
                        < orig_item3.0 by {
                        if mid.as_map().dom().contains(k) || rhs.as_map().dom().contains(k) {
                            assert(gs.as_map().dom().contains(k));
                        }
                    }
                }
                let top = Node::four(orig_item1, item1, orig_item3, orig_lhs, node1, node2,
                    orig_rhs);
                proof {
                    assert(top.as_map() =~= four_map(
                        orig_item1,
                        orig_item2,
                        orig_item3,
                        orig_lhs.as_map(),
                        gm.as_map(),
                        gs.as_map(),
                        orig_rhs.as_map(),
                    ));
                }
                (top, result, false)
            },
            Node::Four(four) => {
                let Four { size: _, item1, item2, item3, lhs, lhs_mid, rhs_mid, rhs } = four;
                proof {
                    assert(gs.as_map().dom().contains(item1.0));
                    assert(gs.as_map().dom().contains(item2.0));
                    assert(gs.as_map().dom().contains(item3.0));
                    assert forall|k: u64| lhs.as_map().dom().contains(k) implies orig_item2.0
                        < k by {
                        assert(gs.as_map().dom().contains(k));
                    }
                }
                let node1 = Node::two(orig_item2, orig_lhs_mid, lhs);
                let node2 = Node::three(item2, item3, lhs_mid, rhs_mid, rhs);
                proof {
                    assert forall|k: u64| node1.as_map().dom().contains(k) implies orig_item1.0
                        < k < item1.0 by {
                        if gm.as_map().dom().contains(k) {
                            assert(k > orig_item1.0 && k < orig_item2.0);
                        } else if lhs.as_map().dom().contains(k) {
                            assert(gs.as_map().dom().contains(k));
                        }
                    }
                    assert forall|k: u64| node2.as_map().dom().contains(k) implies item1.0 < k
                        < orig_item3.0 by {
                        if lhs_mid.as_map().dom().contains(k) || rhs_mid.as_map().dom().contains(
                            k,
                        ) || rhs.as_map().dom().contains(k) {
                            assert(gs.as_map().dom().contains(k));
                        }
                    }
                }
                let top = Node::four(orig_item1, item1, orig_item3, orig_lhs, node1, node2,
                    orig_rhs);
                proof {
                    assert(top.as_map() =~= four_map(
                        orig_item1,
                        orig_item2,
                        orig_item3,
                        orig_lhs.as_map(),
                        gm.as_map(),
                        gs.as_map(),
                        orig_rhs.as_map(),
                    ));
                }
                (top, result, false)
            },
        }
    }

    /// Rebalances a node of three items whose third child came back one
    /// level thinner, borrowing from or merging with the rightmost child.
    pub(crate) fn fix4_rhs_mid(
        orig_item1: (u64, V),
        orig_item2: (u64, V),
        orig_item3: (u64, V),
        orig_lhs: Box<Node<V>>,
        orig_lhs_mid: Box<Node<V>>,
        orig_rhs_mid: Box<Node<V>>,
        orig_rhs: Box<Node<V>>,
        result: Option<V>,
    ) -> (r: (Box<Node<V>>, Option<V>, bool))
        requires
            orig_lhs.wf(),
            orig_lhs_mid.wf(),
            orig_rhs_mid.wf(),
            orig_rhs.wf(),
            orig_lhs.height() == orig_lhs_mid.height(),
            orig_lhs_mid.height() == orig_rhs.height(),
            orig_lhs.height() == orig_rhs_mid.height() + 1,
            orig_item1.0 < orig_item2.0,
            orig_item2.0 < orig_item3.0,
            orig_lhs.keys_below(orig_item1.0),
            orig_lhs_mid.keys_above(orig_item1.0),
            orig_lhs_mid.keys_below(orig_item2.0),
            orig_rhs_mid.keys_above(orig_item2.0),
            orig_rhs_mid.keys_below(orig_item3.0),
            orig_rhs.keys_above(orig_item3.0),
            3 + orig_lhs.count() + orig_lhs_mid.count() + orig_rhs_mid.count() + orig_rhs.count()
                <= usize::MAX,
        ensures
            r.0.wf(),
            r.0.as_map() == four_map(
                orig_item1,
                orig_item2,
                orig_item3,
                orig_lhs.as_map(),
                orig_lhs_mid.as_map(),
                orig_rhs_mid.as_map(),
                orig_rhs.as_map(),
            ),
            r.0.count() == 3 + orig_lhs.count() + orig_lhs_mid.count() + orig_rhs_mid.count()
                + orig_rhs.count(),
            r.1 == result,
            r.2 == false,
            r.0.height() == orig_lhs.height() + 1,
    {
        let ghost gm = *orig_rhs_mid;
        let ghost gs = *orig_rhs;
        match *orig_rhs {
            Node::Empty => {
                proof {
                    assert(false);
                }
                unreached()
            },
            Node::Two(two) => {
                let Two { size: _, item, lhs, rhs } = two;
                proof {
                    assert(gs.as_map().dom().contains(item.0));
                    assert forall|k: u64| lhs.as_map().dom().contains(k) implies orig_item3.0 < k
                        < item.0 by {
                        assert(gs.as_map().dom().contains(k));
                    }
                }
                let node = Node::three(orig_item3, item, orig_rhs_mid, lhs, rhs);
                proof {
                    assert forall|k: u64| node.as_map().dom().contains(k) implies k
                        > orig_item2.0 by {
                        if gm.as_map().dom().contains(k) {
                            assert(k > orig_item2.0);
                        } else if lhs.as_map().dom().contains(k) || rhs.as_map().dom().contains(
                            k,
                        ) {
                            assert(gs.as_map().dom().contains(k));
                        }
                    }
                }
                let top = Node::three(orig_item1, orig_item2, orig_lhs, orig_lhs_mid, node);
                proof {
                    assert(top.as_map() =~= four_map(
                        orig_item1,
                        orig_item2,
                        orig_item3,
                        orig_lhs.as_map(),
                        orig_lhs_mid.as_map(),
                        gm.as_map(),
                        gs.as_map(),
                    ));
                }
                (top, result, false)
            },
            Node::Three(three) => {
                let Three { size: _, item1, item2, lhs, mid, rhs } = three;
                proof {
                    assert(gs.as_map().dom().contains(item1.0));
                    assert(gs.as_map().dom().contains(item2.0));
                    assert forall|k: u64| lhs.as_map().dom().contains(k) implies orig_item3.0
                        < k by {
                        assert(gs.as_map().dom().contains(k));
                    }
                }
                let node1 = Node::two(orig_item3, orig_rhs_mid, lhs);
                let node2 = Node::two(item2, mid, rhs);
                proof {
                    assert forall|k: u64| node1.as_map().dom().contains(k) implies orig_item2.0
                        < k < item1.0 by {
                        if gm.as_map().dom().contains(k) {
                            assert(k > orig_item2.0 && k < orig_item3.0);
                        } else if lhs.as_map().dom().contains(k) {
                            assert(gs.as_map().dom().contains(k));
                        }
                    }
                    assert forall|k: u64| node2.as_map().dom().contains(k) implies k
                        > item1.0 by {
                        if mid.as_map().dom().contains(k) || rhs.as_map().dom().contains(k) {
                            assert(gs.as_map().dom().contains(k));
                        }
                    }
                }
                let top = Node::four(orig_item1, orig_item2, item1, orig_lhs, orig_lhs_mid, node1,
                    node2);
                proof {
                    assert(top.as_map() =~= four_map(
                        orig_item1,
                        orig_item2,
                        orig_item3,
                        orig_lhs.as_map(),
                        orig_lhs_mid.as_map(),
                        gm.as_map(),
                        gs.as_map(),
                    ));
                }
                (top, result, false)
            },
            Node::Four(four) => {
                let Four { size: _, item1, item2, item3, lhs, lhs_mid, rhs_mid, rhs } = four;
                proof {
                    assert(gs.as_map().dom().contains(item1.0));
                    assert(gs.as_map().dom().contains(item2.0));
                    assert(gs.as_map().dom().contains(item3.0));
                    assert forall|k: u64| lhs.as_map().dom().contains(k) implies orig_item3.0
                        < k by {
                        assert(gs.as_map().dom().contains(k));
                    }
                }
                let node1 = Node::two(orig_item3, orig_rhs_mid, lhs);
                let node2 = Node::three(item2, item3, lhs_mid, rhs_mid, rhs);
                proof {
                    assert forall|k: u64| node1.as_map().dom().contains(k) implies orig_item2.0
                        < k < item1.0 by {
                        if gm.as_map().dom().contains(k) {
                            assert(k > orig_item2.0 && k < orig_item3.0);
                        } else if lhs.as_map().dom().contains(k) {
                            assert(gs.as_map().dom().contains(k));
                        }
                    }
                    assert forall|k: u64| node2.as_map().dom().contains(k) implies k
                        > item1.0 by {
                        if lhs_mid.as_map().dom().contains(k) || rhs_mid.as_map().dom().contains(
                            k,
                        ) || rhs.as_map().dom().contains(k) {
                            assert(gs.as_map().dom().contains(k));
                        }
                    }
                }
                let top = Node::four(orig_item1, orig_item2, item1, orig_lhs, orig_lhs_mid, node1,
                    node2);
                proof {
                    assert(top.as_map() =~= four_map(
                        orig_item1,
                        orig_item2,
                        orig_item3,
                        orig_lhs.as_map(),
                        orig_lhs_mid.as_map(),
                        gm.as_map(),
                        gs.as_map(),
                    ));
                }
                (top, result, false)
            },
        }
    }

    /// Rebalances a node of three items whose rightmost child came back one
    /// level thinner, borrowing from or merging with its left sibling.
    pub(crate) fn fix4_rhs(
        orig_item1: (u64, V),
        orig_item2: (u64, V),
        orig_item3: (u64, V),
        orig_lhs: Box<Node<V>>,
        orig_lhs_mid: Box<Node<V>>,
        orig_rhs_mid: Box<Node<V>>,
        orig_rhs: Box<Node<V>>,
        result: Option<V>,
    ) -> (r: (Box<Node<V>>, Option<V>, bool))
        requires
            orig_lhs.wf(),
            orig_lhs_mid.wf(),
            orig_rhs_mid.wf(),
            orig_rhs.wf(),
            orig_lhs.height() == orig_lhs_mid.height(),
            orig_lhs_mid.height() == orig_rhs_mid.height(),
            orig_lhs.height() == orig_rhs.height() + 1,
            orig_item1.0 < orig_item2.0,
            orig_item2.0 < orig_item3.0,
            orig_lhs.keys_below(orig_item1.0),
            orig_lhs_mid.keys_above(orig_item1.0),
            orig_lhs_mid.keys_below(orig_item2.0),
            orig_rhs_mid.keys_above(orig_item2.0),
            orig_rhs_mid.keys_below(orig_item3.0),
            orig_rhs.keys_above(orig_item3.0),
            3 + orig_lhs.count() + orig_lhs_mid.count() + orig_rhs_mid.count() + orig_rhs.count()
                <= usize::MAX,
        ensures
            r.0.wf(),
            r.0.as_map() == four_map(
                orig_item1,
                orig_item2,
                orig_item3,
                orig_lhs.as_map(),
                orig_lhs_mid.as_map(),
                orig_rhs_mid.as_map(),
                orig_rhs.as_map(),
            ),
            r.0.count() == 3 + orig_lhs.count() + orig_lhs_mid.count() + orig_rhs_mid.count()
                + orig_rhs.count(),
            r.1 == result,
            r.2 == false,
            r.0.height() == orig_lhs.height() + 1,
    {
        let ghost gr = *orig_rhs;
        let ghost gs = *orig_rhs_mid;
        match *orig_rhs_mid {
            Node::Empty => {
                proof {
                    assert(false);
                }
                unreached()
            },
            Node::Two(two) => {
                let Two { size: _, item, lhs, rhs } = two;
                proof {
                    assert(gs.as_map().dom().contains(item.0));
                    assert forall|k: u64| rhs.as_map().dom().contains(k) implies item.0 < k
                        < orig_item3.0 by {
                        assert(gs.as_map().dom().contains(k));
                    }
                    assert forall|k: u64| lhs.as_map().dom().contains(k) implies k < item.0 by {
                        assert(gs.as_map().dom().contains(k));
                    }
                }
                let node = Node::three(item, orig_item3, lhs, rhs, orig_rhs);
                proof {
                    assert forall|k: u64| node.as_map().dom().contains(k) implies k
                        > orig_item2.0 by {
                        if lhs.as_map().dom().contains(k) || rhs.as_map().dom().contains(k) {
                            assert(gs.as_map().dom().contains(k));
                        } else if gr.as_map().dom().contains(k) {
                            assert(k > orig_item3.0);
                        }
                    }
                }
                let top = Node::three(orig_item1, orig_item2, orig_lhs, orig_lhs_mid, node);
                proof {
                    assert(top.as_map() =~= four_map(
                        orig_item1,
                        orig_item2,
                        orig_item3,
                        orig_lhs.as_map(),
                        orig_lhs_mid.as_map(),
                        gs.as_map(),
                        gr.as_map(),
                    ));
                }
                (top, result, false)
            },
            Node::Three(three) => {
                let Three { size: _, item1, item2, lhs, mid, rhs } = three;
                proof {
                    assert(gs.as_map().dom().contains(item1.0));
                    assert(gs.as_map().dom().contains(item2.0));
                    assert forall|k: u64| rhs.as_map().dom().contains(k) implies item2.0 < k
                        < orig_item3.0 by {
                        assert(gs.as_map().dom().contains(k));
                    }
                }
                let node1 = Node::two(item1, lhs, mid);
                let node2 = Node::two(orig_item3, rhs, orig_rhs);
                proof {
                    assert forall|k: u64| node1.as_map().dom().contains(k) implies orig_item2.0
                        < k < item2.0 by {
                        if lhs.as_map().dom().contains(k) || mid.as_map().dom().contains(k) {
                            assert(gs.as_map().dom().contains(k));
                        }
                    }
                    assert forall|k: u64| node2.as_map().dom().contains(k) implies k
                        > item2.0 by {
                        if rhs.as_map().dom().contains(k) {
                            assert(gs.as_map().dom().contains(k));
                        } else if gr.as_map().dom().contains(k) {
                            assert(k > orig_item3.0);
                        }
                    }
                }
                let top = Node::four(orig_item1, orig_item2, item2, orig_lhs, orig_lhs_mid, node1,
                    node2);
                proof {
                    assert(top.as_map() =~= four_map(
                        orig_item1,
                        orig_item2,
                        orig_item3,
                        orig_lhs.as_map(),
                        orig_lhs_mid.as_map(),
                        gs.as_map(),
                        gr.as_map(),
                    ));
                }
                (top, result, false)
            },
            Node::Four(four) => {
                let Four { size: _, item1, item2, item3, lhs, lhs_mid, rhs_mid, rhs } = four;
                proof {
                    assert(gs.as_map().dom().contains(item1.0));
                    assert(gs.as_map().dom().contains(item2.0));
                    assert(gs.as_map().dom().contains(item3.0));
                    assert forall|k: u64| rhs.as_map().dom().contains(k) implies item3.0 < k
                        < orig_item3.0 by {
                        assert(gs.as_map().dom().contains(k));
                    }
                }
                let node1 = Node::three(item1, item2, lhs, lhs_mid, rhs_mid);
                let node2 = Node::two(orig_item3, rhs, orig_rhs);
                proof {
                    assert forall|k: u64| node1.as_map().dom().contains(k) implies orig_item2.0
                        < k < item3.0 by {
                        if lhs.as_map().dom().contains(k) || lhs_mid.as_map().dom().contains(k)
                            || rhs_mid.as_map().dom().contains(k) {
                            assert(gs.as_map().dom().contains(k));
                        }
                    }
                    assert forall|k: u64| node2.as_map().dom().contains(k) implies k
                        > item3.0 by {
                        if rhs.as_map().dom().contains(k) {
                            assert(gs.as_map().dom().contains(k));
                        } else if gr.as_map().dom().contains(k) {
                            assert(k > orig_item3.0);
                        }
                    }
                }
                let top = Node::four(orig_item1, orig_item2, item3, orig_lhs, orig_lhs_mid, node1,
                    node2);
                proof {
                    assert(top.as_map() =~= four_map(
                        orig_item1,
                        orig_item2,
                        orig_item3,
                        orig_lhs.as_map(),
                        orig_lhs_mid.as_map(),
                        gs.as_map(),
                        gr.as_map(),
                    ));
                }
                (top, result, false)
            },
        }
    }
}

} // verus!
