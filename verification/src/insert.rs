//! Insertion with top-down preemptive splitting: a node holding three items
//! is split into a promoted median and two halves before the descent passes
//! through it, so no node ever needs to hold more than three items and no
//! split propagates back upward.

use vstd::prelude::*;

use crate::node::{lemma_empty_iff_height_zero, two_map, Four, Node, Three, Two};

verus! {

/// What insertion guarantees: the rebuilt subtree is well formed and holds
/// the map of the old subtree with `key` bound to `value`; the returned
/// value is the one `key` was bound to before, if any; and the item count
/// grows exactly when the key was absent.
pub open spec fn insert_post<V>(
    n: Node<V>,
    key: u64,
    value: V,
    node: Node<V>,
    prev: Option<V>,
) -> bool {
    &&& node.wf()
    &&& node.as_map() == n.as_map().insert(key, value)
    &&& prev == (if n.as_map().dom().contains(key) {
        Some(n.as_map()[key])
    } else {
        None::<V>
    })
    &&& node.count() == n.count() + (if n.as_map().dom().contains(key) {
        0int
    } else {
        1int
    })
}

impl<V> Node<V> {
    /// Splits a node of three items into its median item and two nodes of
    /// one item each, both as tall as the node they came from.
    pub(crate) fn split_four(four: Four<V>) -> (r: ((u64, V), Box<Node<V>>, Box<Node<V>>))
        requires
            Node::Four(four).wf(),
        ensures
            r.0 == four.item2,
            r.1.wf(),
            r.2.wf(),
            (*r.1) is Two,
            (*r.2) is Two,
            r.1.height() == Node::Four(four).height(),
            r.2.height() == Node::Four(four).height(),
            r.1.count() + r.2.count() + 1 == Node::Four(four).count(),
            r.1.keys_below(four.item2.0),
            r.2.keys_above(four.item2.0),
            Node::Four(four).as_map() == two_map(four.item2, r.1.as_map(), r.2.as_map()),
    {
        let ghost n = Node::Four(four);
        let Four { size: _, item1, item2, item3, lhs, lhs_mid, rhs_mid, rhs } = four;
        let left = Node::two(item1, lhs, lhs_mid);
        let right = Node::two(item3, rhs_mid, rhs);
        proof {
            assert forall|k: u64| left.as_map().dom().contains(k) implies k < item2.0 by {}
            assert forall|k: u64| right.as_map().dom().contains(k) implies k > item2.0 by {}
            assert(n.as_map() =~= two_map(item2, left.as_map(), right.as_map()));
        }
        (item2, left, right)
    }

    /// Consumes a subtree and returns it rebuilt with one item added or
    /// replaced, together with the value previously bound to the key, if
    /// any. The height grows exactly when this subtree is empty or already
    /// holds three items.
    pub fn insert(self, key: u64, value: V) -> (r: (Box<Node<V>>, Option<V>))
        requires
            self.wf(),
            self.count() + 1 <= usize::MAX,
        ensures
            insert_post(self, key, value, *r.0, r.1),
            r.0.height() == self.height() + (if self is Two || self is Three {
                0int
            } else {
                1int
            }),
        decreases self.height(), (if self is Four { 1int } else { 0int }), 1int,
    {
        match self {
            Node::Empty => {
                let node = Node::two((key, value), Node::empty(), Node::empty());
                proof {
                    assert(node.as_map() =~= Map::<u64, V>::empty().insert(key, value));
                }
                (node, None)
            },
            Node::Two(two) => Node::insert2(two, key, value),
            Node::Three(three) => Node::insert3(three, key, value),
            Node::Four(four) => {
                let ghost n = Node::Four(four);
                let (mid_item, mid_lhs, mid_rhs) = Node::split_four(four);
                let ghost lm = mid_lhs.as_map();
                let ghost rm = mid_rhs.as_map();
                if key < mid_item.0 {
                    let (new_lhs, prev) = (*mid_lhs).insert(key, value);
                    let node = Node::two(mid_item, new_lhs, mid_rhs);
                    proof {
                        assert(!rm.dom().contains(key));
                        assert(node.as_map() =~= n.as_map().insert(key, value));
                        assert(n.as_map().dom().contains(key) == lm.dom().contains(key));
                        if lm.dom().contains(key) {
                            assert(n.as_map()[key] == lm[key]);
                        }
                    }
                    (node, prev)
                } else if key == mid_item.0 {
                    let (mk, mv) = mid_item;
                    let node = Node::two((mk, value), mid_lhs, mid_rhs);
                    proof {
                        assert(node.as_map() =~= n.as_map().insert(key, value));
                        assert(n.as_map().dom().contains(key));
                        assert(n.as_map()[key] == mv);
                    }
                    (node, Some(mv))
                } else {
                    let (new_rhs, prev) = (*mid_rhs).insert(key, value);
                    let node = Node::two(mid_item, mid_lhs, new_rhs);
                    proof {
                        assert(!lm.dom().contains(key));
                        assert(node.as_map() =~= n.as_map().insert(key, value));
                        assert(n.as_map().dom().contains(key) == rm.dom().contains(key));
                        if rm.dom().contains(key) {
                            assert(n.as_map()[key] == rm[key]);
                        }
                    }
                    (node, prev)
                }
            },
        }
    }

    /// Insertion into a node of one item.
    pub(crate) fn insert2(two: Two<V>, key: u64, value: V) -> (r: (Box<Node<V>>, Option<V>))
        requires
            Node::Two(two).wf(),
            Node::Two(two).count() + 1 <= usize::MAX,
        ensures
            insert_post(Node::Two(two), key, value, *r.0, r.1),
            r.0.height() == Node::Two(two).height(),
        decreases Node::Two(two).height(), 0int, 0int,
    {
        let ghost n = Node::Two(two);
        let Two { size: _, item, lhs, rhs } = two;
        if lhs.is_empty() {
            proof {
                lemma_empty_iff_height_zero(*lhs);
                lemma_empty_iff_height_zero(*rhs);
                assert((*rhs) is Empty);
            }
            if key < item.0 {
                let node = Node::three((key, value), item, lhs, Node::empty(), rhs);
                proof {
                    assert(!n.as_map().dom().contains(key));
                    assert(node.as_map() =~= n.as_map().insert(key, value));
                }
                (node, None)
            } else if key == item.0 {
                let (ik, iv) = item;
                let node = Node::two((ik, value), lhs, rhs);
                proof {
                    assert(n.as_map().dom().contains(key));
                    assert(n.as_map()[key] == iv);
                    assert(node.as_map() =~= n.as_map().insert(key, value));
                }
                (node, Some(iv))
            } else {
                let node = Node::three(item, (key, value), lhs, Node::empty(), rhs);
                proof {
                    assert(!n.as_map().dom().contains(key));
                    assert(node.as_map() =~= n.as_map().insert(key, value));
                }
                (node, None)
            }
        } else {
            if key < item.0 {
                proof {
                    assert(!rhs.as_map().dom().contains(key));
                }
                match *lhs {
                    Node::Empty => {
                        proof {
                            assert(false);
                        }
                        unreached()
                    },
                    Node::Two(two_child) => {
                        let ghost c = Node::Two(two_child);
                        let (new_lhs, prev) = Node::insert2(two_child, key, value);
                        let node = Node::two(item, new_lhs, rhs);
                        proof {
                            assert(node.as_map() =~= n.as_map().insert(key, value));
                            assert(n.as_map().dom().contains(key) == c.as_map().dom().contains(
                                key,
                            ));
                            if c.as_map().dom().contains(key) {
                                assert(n.as_map()[key] == c.as_map()[key]);
                            }
                        }
                        (node, prev)
                    },
                    Node::Three(three_child) => {
                        let ghost c = Node::Three(three_child);
                        let (new_lhs, prev) = Node::insert3(three_child, key, value);
                        let node = Node::two(item, new_lhs, rhs);
                        proof {
                            assert(node.as_map() =~= n.as_map().insert(key, value));
                            assert(n.as_map().dom().contains(key) == c.as_map().dom().contains(
                                key,
                            ));
                            if c.as_map().dom().contains(key) {
                                assert(n.as_map()[key] == c.as_map()[key]);
                            }
                        }
                        (node, prev)
                    },
                    Node::Four(four_child) => {
                        let ghost c = Node::Four(four_child);
                        let (mid_item, mid_lhs, mid_rhs) = Node::split_four(four_child);
                        let ghost lm = mid_lhs.as_map();
                        let ghost rm = mid_rhs.as_map();
                        proof {
                            assert(c.as_map().dom().contains(mid_item.0));
                            assert(mid_item.0 < item.0);
                            assert forall|k: u64| rm.dom().contains(k) implies k < item.0 by {
                                assert(c.as_map().dom().contains(k));
                            }
                            assert forall|k: u64| lm.dom().contains(k) implies k < item.0 by {
                                assert(c.as_map().dom().contains(k));
                            }
                        }
                        if key < mid_item.0 {
                            let (new_ml, prev) = (*mid_lhs).insert(key, value);
                            let node = Node::three(mid_item, item, new_ml, mid_rhs, rhs);
                            proof {
                                assert(!rm.dom().contains(key));
                                assert(node.as_map() =~= n.as_map().insert(key, value));
                                assert(n.as_map().dom().contains(key) == lm.dom().contains(key));
                                if lm.dom().contains(key) {
                                    assert(n.as_map()[key] == lm[key]);
                                }
                            }
                            (node, prev)
                        } else if key == mid_item.0 {
                            let (mk, mv) = mid_item;
                            let node = Node::three((mk, value), item, mid_lhs, mid_rhs, rhs);
                            proof {
                                assert(n.as_map().dom().contains(key));
                                assert(n.as_map()[key] == mv);
                                assert(node.as_map() =~= n.as_map().insert(key, value));
                            }
                            (node, Some(mv))
                        } else {
                            let (new_mr, prev) = (*mid_rhs).insert(key, value);
                            let node = Node::three(mid_item, item, mid_lhs, new_mr, rhs);
                            proof {
                                assert(!lm.dom().contains(key));
                                assert(node.as_map() =~= n.as_map().insert(key, value));
                                assert(n.as_map().dom().contains(key) == rm.dom().contains(key));
                                if rm.dom().contains(key) {
                                    assert(n.as_map()[key] == rm[key]);
                                }
                            }
                            (node, prev)
                        }
                    },
                }
            } else if key == item.0 {
                let (ik, iv) = item;
                let node = Node::two((ik, value), lhs, rhs);
                proof {
                    assert(n.as_map().dom().contains(key));
                    assert(n.as_map()[key] == iv);
                    assert(node.as_map() =~= n.as_map().insert(key, value));
                }
                (node, Some(iv))
            } else {
                proof {
                    assert(!lhs.as_map().dom().contains(key));
                }
                match *rhs {
                    Node::Empty => {
                        proof {
                            lemma_empty_iff_height_zero(*lhs);
                            lemma_empty_iff_height_zero(*rhs);
                            assert(false);
                        }
                        unreached()
                    },
                    Node::Two(two_child) => {
                        let ghost c = Node::Two(two_child);
                        let (new_rhs, prev) = Node::insert2(two_child, key, value);
                        let node = Node::two(item, lhs, new_rhs);
                        proof {
                            assert(node.as_map() =~= n.as_map().insert(key, value));
                            assert(n.as_map().dom().contains(key) == c.as_map().dom().contains(
                                key,
                            ));
                            if c.as_map().dom().contains(key) {
                                assert(n.as_map()[key] == c.as_map()[key]);
                            }
                        }
                        (node, prev)
                    },
                    Node::Three(three_child) => {
                        let ghost c = Node::Three(three_child);
                        let (new_rhs, prev) = Node::insert3(three_child, key, value);
                        let node = Node::two(item, lhs, new_rhs);
                        proof {
                            assert(node.as_map() =~= n.as_map().insert(key, value));
                            assert(n.as_map().dom().contains(key) == c.as_map().dom().contains(
                                key,
                            ));
                            if c.as_map().dom().contains(key) {
                                assert(n.as_map()[key] == c.as_map()[key]);
                            }
                        }
                        (node, prev)
                    },
                    Node::Four(four_child) => {
                        let ghost c = Node::Four(four_child);
                        let (mid_item, mid_lhs, mid_rhs) = Node::split_four(four_child);
                        let ghost lm = mid_lhs.as_map();
                        let ghost rm = mid_rhs.as_map();
                        proof {
                            assert(c.as_map().dom().contains(mid_item.0));
                            assert(mid_item.0 > item.0);
                            assert forall|k: u64| rm.dom().contains(k) implies k > item.0 by {
                                assert(c.as_map().dom().contains(k));
                            }
                            assert forall|k: u64| lm.dom().contains(k) implies k > item.0 by {
                                assert(c.as_map().dom().contains(k));
                            }
                        }
                        if key < mid_item.0 {
                            let (new_ml, prev) = (*mid_lhs).insert(key, value);
                            let node = Node::three(item, mid_item, lhs, new_ml, mid_rhs);
                            proof {
                                assert(!rm.dom().contains(key));
                                assert(node.as_map() =~= n.as_map().insert(key, value));
                                assert(n.as_map().dom().contains(key) == lm.dom().contains(key));
                                if lm.dom().contains(key) {
                                    assert(n.as_map()[key] == lm[key]);
                                }
                            }
                            (node, prev)
                        } else if key == mid_item.0 {
                            let (mk, mv) = mid_item;
                            let node = Node::three(item, (mk, value), lhs, mid_lhs, mid_rhs);
                            proof {
                                assert(n.as_map().dom().contains(key));
                                assert(n.as_map()[key] == mv);
                                assert(node.as_map() =~= n.as_map().insert(key, value));
                            }
                            (node, Some(mv))
                        } else {
                            let (new_mr, prev) = (*mid_rhs).insert(key, value);
                            let node = Node::three(item, mid_item, lhs, mid_lhs, new_mr);
                            proof {
                                assert(!lm.dom().contains(key));
                                assert(node.as_map() =~= n.as_map().insert(key, value));
                                assert(n.as_map().dom().contains(key) == rm.dom().contains(key));
                                if rm.dom().contains(key) {
                                    assert(n.as_map()[key] == rm[key]);
                                }
                            }
                            (node, prev)
                        }
                    },
                }
            }
        }
    }
    /// Insertion into a node of two items.
    pub(crate) fn insert3(three: Three<V>, key: u64, value: V) -> (r: (Box<Node<V>>, Option<V>))
        requires
            Node::Three(three).wf(),
            Node::Three(three).count() + 1 <= usize::MAX,
        ensures
            insert_post(Node::Three(three), key, value, *r.0, r.1),
            r.0.height() == Node::Three(three).height(),
        decreases Node::Three(three).height(), 0int, 0int,
    {
        let ghost n = Node::Three(three);
        let Three { size: _, item1, item2, lhs, mid, rhs } = three;
        if lhs.is_empty() {
            proof {
                lemma_empty_iff_height_zero(*lhs);
                lemma_empty_iff_height_zero(*mid);
                lemma_empty_iff_height_zero(*rhs);
                assert((*mid) is Empty);
                assert((*rhs) is Empty);
            }
            if key < item1.0 {
                let node = Node::four((key, value), item1, item2, lhs, mid, Node::empty(), rhs);
                proof {
                    assert(!n.as_map().dom().contains(key));
                    assert(node.as_map() =~= n.as_map().insert(key, value));
                }
                (node, None)
            } else if key == item1.0 {
                let (ik, iv) = item1;
                let node = Node::three((ik, value), item2, lhs, mid, rhs);
                proof {
                    assert(n.as_map().dom().contains(key));
                    assert(n.as_map()[key] == iv);
                    assert(node.as_map() =~= n.as_map().insert(key, value));
                }
                (node, Some(iv))
            } else if key < item2.0 {
                let node = Node::four(item1, (key, value), item2, lhs, mid, Node::empty(), rhs);
                proof {
                    assert(!n.as_map().dom().contains(key));
                    assert(node.as_map() =~= n.as_map().insert(key, value));
                }
                (node, None)
            } else if key == item2.0 {
                let (ik, iv) = item2;
                let node = Node::three(item1, (ik, value), lhs, mid, rhs);
                proof {
                    assert(n.as_map().dom().contains(key));
                    assert(n.as_map()[key] == iv);
                    assert(node.as_map() =~= n.as_map().insert(key, value));
                }
                (node, Some(iv))
            } else {
                let node = Node::four(item1, item2, (key, value), lhs, mid, Node::empty(), rhs);
                proof {
                    assert(!n.as_map().dom().contains(key));
                    assert(node.as_map() =~= n.as_map().insert(key, value));
                }
                (node, None)
            }
        } else {
            if key < item1.0 {
                proof {
                    assert(!mid.as_map().dom().contains(key));
                    assert(!rhs.as_map().dom().contains(key));
                }
                match *lhs {
                    Node::Empty => {
                        proof {
                            assert(false);
                        }
                        unreached()
                    },
                    Node::Two(two_child) => {
                        let ghost c = Node::Two(two_child);
                        let (new_lhs, prev) = Node::insert2(two_child, key, value);
                        let node = Node::three(item1, item2, new_lhs, mid, rhs);
                        proof {
                            assert(node.as_map() =~= n.as_map().insert(key, value));
                            assert(n.as_map().dom().contains(key) == c.as_map().dom().contains(
                                key,
                            ));
                            if c.as_map().dom().contains(key) {
                                assert(n.as_map()[key] == c.as_map()[key]);
                            }
                        }
                        (node, prev)
                    },
                    Node::Three(three_child) => {
                        let ghost c = Node::Three(three_child);
                        let (new_lhs, prev) = Node::insert3(three_child, key, value);
                        let node = Node::three(item1, item2, new_lhs, mid, rhs);
                        proof {
                            assert(node.as_map() =~= n.as_map().insert(key, value));
                            assert(n.as_map().dom().contains(key) == c.as_map().dom().contains(
                                key,
                            ));
                            if c.as_map().dom().contains(key) {
                                assert(n.as_map()[key] == c.as_map()[key]);
                            }
                        }
                        (node, prev)
                    },
                    Node::Four(four_child) => {
                        let ghost c = Node::Four(four_child);
                        let (mid_item, mid_lhs, mid_rhs) = Node::split_four(four_child);
                        let ghost lm = mid_lhs.as_map();
                        let ghost rm = mid_rhs.as_map();
                        proof {
                            assert(c.as_map().dom().contains(mid_item.0));
                            assert(mid_item.0 < item1.0);
                            assert forall|k: u64| rm.dom().contains(k) implies k < item1.0 by {
                                assert(c.as_map().dom().contains(k));
                            }
                            assert forall|k: u64| lm.dom().contains(k) implies k < item1.0 by {
                                assert(c.as_map().dom().contains(k));
                            }
                        }
                        if key < mid_item.0 {
                            let (new_ml, prev) = (*mid_lhs).insert(key, value);
                            let node = Node::four(
                                mid_item,
                                item1,
                                item2,
                                new_ml,
                                mid_rhs,
                                mid,
                                rhs,
                            );
                            proof {
                                assert(!rm.dom().contains(key));
                                assert(node.as_map() =~= n.as_map().insert(key, value));
                                assert(n.as_map().dom().contains(key) == lm.dom().contains(key));
                                if lm.dom().contains(key) {
                                    assert(n.as_map()[key] == lm[key]);
                                }
                            }
                            (node, prev)
                        } else if key == mid_item.0 {
                            let (mk, mv) = mid_item;
                            let node = Node::four(
                                (mk, value),
                                item1,
                                item2,
                                mid_lhs,
                                mid_rhs,
                                mid,
                                rhs,
                            );
                            proof {
                                assert(n.as_map().dom().contains(key));
                                assert(n.as_map()[key] == mv);
                                assert(node.as_map() =~= n.as_map().insert(key, value));
                            }
                            (node, Some(mv))
                        } else {
                            let (new_mr, prev) = (*mid_rhs).insert(key, value);
                            let node = Node::four(
                                mid_item,
                                item1,
                                item2,
                                mid_lhs,
                                new_mr,
                                mid,
                                rhs,
                            );
                            proof {
                                assert(!lm.dom().contains(key));
                                assert(node.as_map() =~= n.as_map().insert(key, value));
                                assert(n.as_map().dom().contains(key) == rm.dom().contains(key));
                                if rm.dom().contains(key) {
                                    assert(n.as_map()[key] == rm[key]);
                                }
                            }
                            (node, prev)
                        }
                    },
                }
            } else if key == item1.0 {
                let (ik, iv) = item1;
                let node = Node::three((ik, value), item2, lhs, mid, rhs);
                proof {
                    assert(n.as_map().dom().contains(key));
                    assert(n.as_map()[key] == iv);
                    assert(node.as_map() =~= n.as_map().insert(key, value));
                }
                (node, Some(iv))
            } else if key < item2.0 {
                proof {
                    assert(!lhs.as_map().dom().contains(key));
                    assert(!rhs.as_map().dom().contains(key));
                }
                match *mid {
                    Node::Empty => {
                        proof {
                            lemma_empty_iff_height_zero(*lhs);
                            lemma_empty_iff_height_zero(*mid);
                            assert(false);
                        }
                        unreached()
                    },
                    Node::Two(two_child) => {
                        let ghost c = Node::Two(two_child);
                        let (new_mid, prev) = Node::insert2(two_child, key, value);
                        let node = Node::three(item1, item2, lhs, new_mid, rhs);
                        proof {
                            assert(node.as_map() =~= n.as_map().insert(key, value));
                            assert(n.as_map().dom().contains(key) == c.as_map().dom().contains(
                                key,
                            ));
                            if c.as_map().dom().contains(key) {
                                assert(n.as_map()[key] == c.as_map()[key]);
                            }
                        }
                        (node, prev)
                    },
                    Node::Three(three_child) => {
                        let ghost c = Node::Three(three_child);
                        let (new_mid, prev) = Node::insert3(three_child, key, value);
                        let node = Node::three(item1, item2, lhs, new_mid, rhs);
                        proof {
                            assert(node.as_map() =~= n.as_map().insert(key, value));
                            assert(n.as_map().dom().contains(key) == c.as_map().dom().contains(
                                key,
                            ));
                            if c.as_map().dom().contains(key) {
                                assert(n.as_map()[key] == c.as_map()[key]);
                            }
                        }
                        (node, prev)
                    },
                    Node::Four(four_child) => {
                        let ghost c = Node::Four(four_child);
                        let (mid_item, mid_lhs, mid_rhs) = Node::split_four(four_child);
                        let ghost lm = mid_lhs.as_map();
                        let ghost rm = mid_rhs.as_map();
                        proof {
                            assert(c.as_map().dom().contains(mid_item.0));
                            assert(item1.0 < mid_item.0 && mid_item.0 < item2.0);
                            assert forall|k: u64| rm.dom().contains(k) implies item1.0 < k < item2.0 by {
                                assert(c.as_map().dom().contains(k));
                            }
                            assert forall|k: u64| lm.dom().contains(k) implies item1.0 < k < item2.0 by {
                                assert(c.as_map().dom().contains(k));
                            }
                        }
                        if key < mid_item.0 {
                            let (new_ml, prev) = (*mid_lhs).insert(key, value);
                            let node = Node::four(
                                item1,
                                mid_item,
                                item2,
                                lhs,
                                new_ml,
                                mid_rhs,
                                rhs,
                            );
                            proof {
                                assert(!rm.dom().contains(key));
                                assert(node.as_map() =~= n.as_map().insert(key, value));
                                assert(n.as_map().dom().contains(key) == lm.dom().contains(key));
                                if lm.dom().contains(key) {
                                    assert(n.as_map()[key] == lm[key]);
                                }
                            }
                            (node, prev)
                        } else if key == mid_item.0 {
                            let (mk, mv) = mid_item;
                            let node = Node::four(
                                item1,
                                (mk, value),
                                item2,
                                lhs,
                                mid_lhs,
                                mid_rhs,
                                rhs,
                            );
                            proof {
                                assert(n.as_map().dom().contains(key));
                                assert(n.as_map()[key] == mv);
                                assert(node.as_map() =~= n.as_map().insert(key, value));
                            }
                            (node, Some(mv))
                        } else {
                            let (new_mr, prev) = (*mid_rhs).insert(key, value);
                            let node = Node::four(
                                item1,
                                mid_item,
                                item2,
                                lhs,
                                mid_lhs,
                                new_mr,
                                rhs,
                            );
                            proof {
                                assert(!lm.dom().contains(key));
                                assert(node.as_map() =~= n.as_map().insert(key, value));
                                assert(n.as_map().dom().contains(key) == rm.dom().contains(key));
                                if rm.dom().contains(key) {
                                    assert(n.as_map()[key] == rm[key]);
                                }
                            }
                            (node, prev)
                        }
                    },
                }
            } else if key == item2.0 {
                let (ik, iv) = item2;
                let node = Node::three(item1, (ik, value), lhs, mid, rhs);
                proof {
                    assert(n.as_map().dom().contains(key));
                    assert(n.as_map()[key] == iv);
                    assert(node.as_map() =~= n.as_map().insert(key, value));
                }
                (node, Some(iv))
            } else {
                proof {
                    assert(!lhs.as_map().dom().contains(key));
                    assert(!mid.as_map().dom().contains(key));
                }
                match *rhs {
                    Node::Empty => {
                        proof {
                            lemma_empty_iff_height_zero(*lhs);
                            lemma_empty_iff_height_zero(*rhs);
                            assert(false);
                        }
                        unreached()
                    },
                    Node::Two(two_child) => {
                        let ghost c = Node::Two(two_child);
                        let (new_rhs, prev) = Node::insert2(two_child, key, value);
                        let node = Node::three(item1, item2, lhs, mid, new_rhs);
                        proof {
                            assert(node.as_map() =~= n.as_map().insert(key, value));
                            assert(n.as_map().dom().contains(key) == c.as_map().dom().contains(
                                key,
                            ));
                            if c.as_map().dom().contains(key) {
                                assert(n.as_map()[key] == c.as_map()[key]);
                            }
                        }
                        (node, prev)
                    },
                    Node::Three(three_child) => {
                        let ghost c = Node::Three(three_child);
                        let (new_rhs, prev) = Node::insert3(three_child, key, value);
                        let node = Node::three(item1, item2, lhs, mid, new_rhs);
                        proof {
                            assert(node.as_map() =~= n.as_map().insert(key, value));
                            assert(n.as_map().dom().contains(key) == c.as_map().dom().contains(
                                key,
                            ));
                            if c.as_map().dom().contains(key) {
                                assert(n.as_map()[key] == c.as_map()[key]);
                            }
                        }
                        (node, prev)
                    },
                    Node::Four(four_child) => {
                        let ghost c = Node::Four(four_child);
                        let (mid_item, mid_lhs, mid_rhs) = Node::split_four(four_child);
                        let ghost lm = mid_lhs.as_map();
                        let ghost rm = mid_rhs.as_map();
                        proof {
                            assert(c.as_map().dom().contains(mid_item.0));
                            assert(mid_item.0 > item2.0);
                            assert forall|k: u64| rm.dom().contains(k) implies k > item2.0 by {
                                assert(c.as_map().dom().contains(k));
                            }
                            assert forall|k: u64| lm.dom().contains(k) implies k > item2.0 by {
                                assert(c.as_map().dom().contains(k));
                            }
                        }
                        if key < mid_item.0 {
                            let (new_ml, prev) = (*mid_lhs).insert(key, value);
                            let node = Node::four(
                                item1,
                                item2,
                                mid_item,
                                lhs,
                                mid,
                                new_ml,
                                mid_rhs,
                            );
                            proof {
                                assert(!rm.dom().contains(key));
                                assert(node.as_map() =~= n.as_map().insert(key, value));
                                assert(n.as_map().dom().contains(key) == lm.dom().contains(key));
                                if lm.dom().contains(key) {
                                    assert(n.as_map()[key] == lm[key]);
                                }
                            }
                            (node, prev)
                        } else if key == mid_item.0 {
                            let (mk, mv) = mid_item;
                            let node = Node::four(
                                item1,
                                item2,
                                (mk, value),
                                lhs,
                                mid,
                                mid_lhs,
                                mid_rhs,
                            );
                            proof {
                                assert(n.as_map().dom().contains(key));
                                assert(n.as_map()[key] == mv);
                                assert(node.as_map() =~= n.as_map().insert(key, value));
                            }
                            (node, Some(mv))
                        } else {
                            let (new_mr, prev) = (*mid_rhs).insert(key, value);
                            let node = Node::four(
                                item1,
                                item2,
                                mid_item,
                                lhs,
                                mid,
                                mid_lhs,
                                new_mr,
                            );
                            proof {
                                assert(!lm.dom().contains(key));
                                assert(node.as_map() =~= n.as_map().insert(key, value));
                                assert(n.as_map().dom().contains(key) == rm.dom().contains(key));
                                if rm.dom().contains(key) {
                                    assert(n.as_map()[key] == rm[key]);
                                }
                            }
                            (node, prev)
                        }
                    },
                }
            }
        }
    }
}

} // verus!
