//! The tree handle owning the root node, and the ordered iterator. The
//! handle is viewed as the map from keys to values it holds; mutation swaps
//! the root out, rebuilds it through the node operations and installs the
//! result, so the structural invariants hold before and after every public
//! operation.

use std::collections::VecDeque;

use vstd::prelude::*;

use crate::either::Either;
use crate::node::{
    deref_items, lemma_balanced, lemma_model, seq_matches_map, sorted_by_keys, Item, Node,
};

verus! {

/// A 2-3-4 tree mapping `u64` keys to values of type `V`.
pub struct Tree234<V> {
    root: Box<Node<V>>,
}

impl<V> View for Tree234<V> {
    type V = Map<u64, V>;

    /// The map from keys to values this tree holds.
    closed spec fn view(&self) -> Map<u64, V> {
        self.root.as_map()
    }
}

impl<V> Tree234<V> {
    /// The structural invariants of the tree: sorted and key-partitioned
    /// nodes, every leaf at the same depth, true cached sizes. Every tree
    /// the public operations can produce satisfies this.
    #[verifier::type_invariant]
    pub closed spec fn well_formed(self) -> bool {
        self.root.wf()
    }

    /// The items this tree holds, in ascending key order.
    pub closed spec fn in_order_seq(self) -> Seq<Item<V>> {
        self.root.in_order()
    }

    /// The height of the tree: the number of steps from the root to any
    /// empty subtree.
    pub closed spec fn height(self) -> nat {
        self.root.height()
    }

    /// Whether some downward path of exactly `d` steps reaches an empty
    /// subtree, that is, whether some leaf position sits at depth `d`.
    pub closed spec fn empty_at_depth(self, d: nat) -> bool {
        self.root.empty_at_depth(d)
    }

    /// A fresh empty tree.
    pub fn new() -> (t: Tree234<V>)
        ensures
            t@ == Map::<u64, V>::empty(),
            t.in_order_seq() == Seq::<Item<V>>::empty(),
            t.height() == 0,
    {
        Tree234 { root: Node::empty() }
    }

    /// The number of items in the tree, read from the root's cached count
    /// in constant time.
    pub fn size(&self) -> (n: usize)
        ensures
            n == self@.dom().len(),
            n == self.in_order_seq().len(),
    {
        proof {
            use_type_invariant(self);
            lemma_model(*self.root);
        }
        self.root.size()
    }

    /// Looks a key up, returning the item holding it, if any.
    pub fn get(&self, key: &u64) -> (r: Option<&Item<V>>)
        ensures
            match r {
                Some(p) => self@.dom().contains(*key) && p.0 == *key && p.1 == self@[*key],
                None => !self@.dom().contains(*key),
            },
    {
        proof {
            use_type_invariant(self);
        }
        self.root.get(key)
    }

    /// Binds `key` to `value`, returning the value previously bound to
    /// `key`, if any: the size grows exactly when the key was absent, and
    /// stays unchanged when the prior value is replaced.
    pub fn insert(&mut self, key: u64, value: V) -> (prev: Option<V>)
        requires
            old(self)@.dom().len() < usize::MAX,
        ensures
            final(self)@ == old(self)@.insert(key, value),
            prev == (if old(self)@.dom().contains(key) {
                Some(old(self)@[key])
            } else {
                None::<V>
            }),
            final(self)@.dom().len() == old(self)@.dom().len() + (if old(self)@.dom().contains(
                key,
            ) {
                0int
            } else {
                1int
            }),
    {
        proof {
            use_type_invariant(&*self);
            lemma_model(*self.root);
        }
        let mut root = Node::empty();
        std::mem::swap(&mut self.root, &mut root);
        let (new_root, prev) = (*root).insert(key, value);
        proof {
            lemma_model(*new_root);
        }
        self.root = new_root;
        prev
    }

    /// Unbinds `key`, returning the value it was bound to, if any: the size
    /// shrinks exactly when the key was present, and the map is unchanged
    /// when it was absent.
    pub fn remove(&mut self, key: &u64) -> (r: Option<V>)
        ensures
            final(self)@ == old(self)@.remove(*key),
            r == (if old(self)@.dom().contains(*key) {
                Some(old(self)@[*key])
            } else {
                None::<V>
            }),
            final(self)@.dom().len() == old(self)@.dom().len() - (if old(self)@.dom().contains(
                *key,
            ) {
                1int
            } else {
                0int
            }),
    {
        proof {
            use_type_invariant(&*self);
            lemma_model(*self.root);
        }
        let mut root = Node::empty();
        std::mem::swap(&mut self.root, &mut root);
        let (new_root, result, _reduced) = (*root).remove(key);
        proof {
            lemma_model(*new_root);
        }
        self.root = new_root;
        result
    }

    /// Discards all contents; the size becomes zero.
    pub fn clear(&mut self)
        ensures
            final(self)@ == Map::<u64, V>::empty(),
            final(self).in_order_seq() == Seq::<Item<V>>::empty(),
            final(self).height() == 0,
    {
        self.root = Node::empty();
    }

    /// Full synchronous in-order traversal: the items of the tree, in
    /// ascending key order.
    pub fn visit(&self) -> (r: Vec<&Item<V>>)
        ensures
            deref_items(r@) == self.in_order_seq(),
            r@.len() == self.in_order_seq().len(),
    {
        proof {
            use_type_invariant(self);
        }
        let r = self.root.visit();
        proof {
            assert(deref_items(r@).len() == r@.len());
        }
        r
    }

    /// A fresh iterator over the tree's items in ascending key order. Each
    /// call re-walks the tree independently: iterators constructed over the
    /// same tree state traverse the same sequence, the one `visit` yields.
    pub fn iter(&self) -> (it: Tree234Iterator<'_, V>)
        ensures
            it.remaining() == self.in_order_seq(),
    {
        Tree234Iterator::new(self)
    }
}

/// An entry of the iterator's work queue: either a single item to yield or
/// a whole subtree still to be expanded.
pub(crate) type QueueEntry<'a, V> = Either<&'a Item<V>, &'a Node<V>>;

/// The items an entry stands for, in order.
pub(crate) open spec fn entry_seq<V>(e: QueueEntry<'_, V>) -> Seq<Item<V>> {
    match e {
        Either::Left(p) => seq![*p],
        Either::Right(n) => n.in_order(),
    }
}

/// The items a whole queue stands for, front to back.
pub(crate) open spec fn entries_seq<V>(s: Seq<QueueEntry<'_, V>>) -> Seq<Item<V>>
    decreases s.len(),
{
    if s.len() == 0 {
        Seq::empty()
    } else {
        entry_seq(s[0]) + entries_seq(s.drop_first())
    }
}

/// The structural weight of an entry; expanding a subtree entry into its
/// children and items strictly lowers the queue's total weight.
pub(crate) open spec fn entry_weight<V>(e: QueueEntry<'_, V>) -> nat {
    match e {
        Either::Left(p) => 1,
        Either::Right(n) => n.weight(),
    }
}

/// The total structural weight of a queue.
pub(crate) open spec fn entries_weight<V>(s: Seq<QueueEntry<'_, V>>) -> nat
    decreases s.len(),
{
    if s.len() == 0 {
        0
    } else {
        entry_weight(s[0]) + entries_weight(s.drop_first())
    }
}

/// Prepending one entry prepends its items and adds its weight.
proof fn lemma_entries_cons<V>(e: QueueEntry<'_, V>, s: Seq<QueueEntry<'_, V>>)
    ensures
        entries_seq(seq![e] + s) == entry_seq(e) + entries_seq(s),
        entries_weight(seq![e] + s) == entry_weight(e) + entries_weight(s),
{
    let t = seq![e] + s;
    assert(t[0] == e);
    assert(t.drop_first() =~= s);
}

/// A lazy, restartable in-order iterator over a tree's items, driven by an
/// explicit double-ended work queue seeded with the whole tree.
pub struct Tree234Iterator<'a, V> {
    items: VecDeque<QueueEntry<'a, V>>,
}

impl<'a, V> Tree234Iterator<'a, V> {
    /// The items this iterator has yet to yield, in order.
    pub closed spec fn remaining(self) -> Seq<Item<V>> {
        entries_seq(self.items@)
    }

    /// A fresh iterator whose pending items are exactly the tree's items in
    /// ascending key order.
    pub fn new(tree: &'a Tree234<V>) -> (it: Tree234Iterator<'a, V>)
        ensures
            it.remaining() == tree.in_order_seq(),
    {
        let mut items: VecDeque<QueueEntry<'a, V>> = VecDeque::new();
        items.push_back(Either::Right(&*tree.root));
        proof {
            let e = Either::Right::<&'a Item<V>, &'a Node<V>>(&*tree.root);
            assert(items@ =~= seq![e] + Seq::<QueueEntry<'a, V>>::empty());
            lemma_entries_cons(e, Seq::empty());
            assert(entries_seq(items@) =~= tree.root.in_order());
        }
        Tree234Iterator { items }
    }

    /// Yields the next pending item, or nothing once the traversal is done.
    /// Subtree entries at the front of the queue are expanded in place into
    /// the in-order interleaving of their children and items until an item
    /// surfaces.
    #[verifier::rlimit(40)]
    pub fn next(&mut self) -> (r: Option<&'a Item<V>>)
        ensures
            match r {
                Some(p) => old(self).remaining().len() > 0 && *p == old(self).remaining()[0]
                    && final(self).remaining() == old(self).remaining().drop_first(),
                None => old(self).remaining().len() == 0 && final(self).remaining()
                    == old(self).remaining(),
            },
    {
        loop
            invariant
                entries_seq(self.items@) == old(self).remaining(),
            decreases entries_weight(self.items@),
        {
            let ghost q0 = self.items@;
            match self.items.pop_front() {
                None => {
                    return None;
                },
                Some(thing) => {
                    proof {
                        assert(self.items@ =~= q0.drop_first());
                    }
                    match thing {
                        Either::Left(item) => {
                            proof {
                                assert(entry_seq::<V>(Either::Left(item)) == seq![*item]);
                                assert(old(self).remaining()[0] == *item);
                                assert(entries_seq(self.items@) =~= old(
                                    self,
                                ).remaining().drop_first());
                            }
                            return Some(item);
                        },
                        Either::Right(node) => {
                            match node {
                                Node::Empty => {
                                    proof {
                                        assert(entries_seq(q0) =~= entries_seq(self.items@));
                                    }
                                },
                                Node::Two(t) => {
                                    self.items.push_front(Either::Right(&*t.rhs));
                                    self.items.push_front(Either::Left(&t.item));
                                    self.items.push_front(Either::Right(&*t.lhs));
                                    proof {
                                        let rest = q0.drop_first();
                                        let e1 = Either::Right::<&'a Item<V>, &'a Node<V>>(
                                            &*t.rhs,
                                        );
                                        let e2 = Either::Left::<&'a Item<V>, &'a Node<V>>(
                                            &t.item,
                                        );
                                        let e3 = Either::Right::<&'a Item<V>, &'a Node<V>>(
                                            &*t.lhs,
                                        );
                                        lemma_entries_cons(e1, rest);
                                        lemma_entries_cons(e2, seq![e1] + rest);
                                        lemma_entries_cons(e3, seq![e2] + (seq![e1] + rest));
                                        assert(self.items@ =~= seq![e3] + (seq![e2] + (seq![e1]
                                            + rest)));
                                        assert(entries_seq(self.items@) =~= entries_seq(q0));
                                    }
                                },
                                Node::Three(t) => {
                                    self.items.push_front(Either::Right(&*t.rhs));
                                    self.items.push_front(Either::Left(&t.item2));
                                    self.items.push_front(Either::Right(&*t.mid));
                                    self.items.push_front(Either::Left(&t.item1));
                                    self.items.push_front(Either::Right(&*t.lhs));
                                    proof {
                                        let rest = q0.drop_first();
                                        let e1 = Either::Right::<&'a Item<V>, &'a Node<V>>(
                                            &*t.rhs,
                                        );
                                        let e2 = Either::Left::<&'a Item<V>, &'a Node<V>>(
                                            &t.item2,
                                        );
                                        let e3 = Either::Right::<&'a Item<V>, &'a Node<V>>(
                                            &*t.mid,
                                        );
                                        let e4 = Either::Left::<&'a Item<V>, &'a Node<V>>(
                                            &t.item1,
                                        );
                                        let e5 = Either::Right::<&'a Item<V>, &'a Node<V>>(
                                            &*t.lhs,
                                        );
                                        lemma_entries_cons(e1, rest);
                                        lemma_entries_cons(e2, seq![e1] + rest);
                                        lemma_entries_cons(e3, seq![e2] + (seq![e1] + rest));
                                        lemma_entries_cons(e4, seq![e3] + (seq![e2] + (seq![e1]
                                            + rest)));
                                        lemma_entries_cons(e5, seq![e4] + (seq![e3] + (seq![e2]
                                            + (seq![e1] + rest))));
                                        assert(self.items@ =~= seq![e5] + (seq![e4] + (seq![e3]
                                            + (seq![e2] + (seq![e1] + rest)))));
                                        assert(entries_seq(self.items@) =~= entries_seq(q0));
                                    }
                                },
                                Node::Four(t) => {
                                    self.items.push_front(Either::Right(&*t.rhs));
                                    self.items.push_front(Either::Left(&t.item3));
                                    self.items.push_front(Either::Right(&*t.rhs_mid));
                                    self.items.push_front(Either::Left(&t.item2));
                                    self.items.push_front(Either::Right(&*t.lhs_mid));
                                    self.items.push_front(Either::Left(&t.item1));
                                    self.items.push_front(Either::Right(&*t.lhs));
                                    proof {
                                        let rest = q0.drop_first();
                                        let e1 = Either::Right::<&'a Item<V>, &'a Node<V>>(
                                            &*t.rhs,
                                        );
                                        let e2 = Either::Left::<&'a Item<V>, &'a Node<V>>(
                                            &t.item3,
                                        );
                                        let e3 = Either::Right::<&'a Item<V>, &'a Node<V>>(
                                            &*t.rhs_mid,
                                        );
                                        let e4 = Either::Left::<&'a Item<V>, &'a Node<V>>(
                                            &t.item2,
                                        );
                                        let e5 = Either::Right::<&'a Item<V>, &'a Node<V>>(
                                            &*t.lhs_mid,
                                        );
                                        let e6 = Either::Left::<&'a Item<V>, &'a Node<V>>(
                                            &t.item1,
                                        );
                                        let e7 = Either::Right::<&'a Item<V>, &'a Node<V>>(
                                            &*t.lhs,
                                        );
                                        lemma_entries_cons(e1, rest);
                                        lemma_entries_cons(e2, seq![e1] + rest);
                                        lemma_entries_cons(e3, seq![e2] + (seq![e1] + rest));
                                        lemma_entries_cons(e4, seq![e3] + (seq![e2] + (seq![e1]
                                            + rest)));
                                        lemma_entries_cons(e5, seq![e4] + (seq![e3] + (seq![e2]
                                            + (seq![e1] + rest))));
                                        lemma_entries_cons(e6, seq![e5] + (seq![e4] + (seq![e3]
                                            + (seq![e2] + (seq![e1] + rest)))));
                                        lemma_entries_cons(e7, seq![e6] + (seq![e5] + (seq![e4]
                                            + (seq![e3] + (seq![e2] + (seq![e1] + rest))))));
                                        assert(self.items@ =~= seq![e7] + (seq![e6] + (seq![e5]
                                            + (seq![e4] + (seq![e3] + (seq![e2] + (seq![e1]
                                            + rest)))))));
                                        assert(entries_seq(self.items@) =~= entries_seq(q0));
                                    }
                                },
                            }
                        },
                    }
                },
            }
        }
    }
}

/// The in-order traversal of a well-formed tree lists exactly the entries
/// of its map, in strictly increasing key order, and is as long as the tree
/// is large; it holds after every operation, since every tree the public
/// operations produce is well formed.
pub proof fn lemma_traversal_sorted<V>(t: Tree234<V>)
    requires
        t.well_formed(),
    ensures
        sorted_by_keys(t.in_order_seq()),
        seq_matches_map(t.in_order_seq(), t@),
        t.in_order_seq().len() == t@.dom().len(),
{
    lemma_model(*t.root);
}

/// Every leaf of a well-formed tree sits at the same depth: a downward path
/// reaches an empty subtree exactly after as many steps as the tree is
/// tall.
pub proof fn lemma_equal_leaf_depth<V>(t: Tree234<V>)
    requires
        t.well_formed(),
    ensures
        forall|d: nat| t.empty_at_depth(d) <==> d == t.height(),
{
    lemma_balanced(*t.root);
}

/// The traversal is determined by the map alone: well-formed trees holding
/// equal maps traverse equal sequences, whatever their shapes. In
/// particular, an operation that leaves the map unchanged — removing an
/// absent key — leaves the traversal, and so every fresh iterator's output,
/// unchanged too.
pub proof fn lemma_traversal_canonical<V>(t1: Tree234<V>, t2: Tree234<V>)
    requires
        t1.well_formed(),
        t2.well_formed(),
        t1@ == t2@,
    ensures
        t1.in_order_seq() == t2.in_order_seq(),
{
    lemma_model(*t1.root);
    lemma_model(*t2.root);
    crate::node::lemma_sorted_listing_unique(t1.root.in_order(), t2.root.in_order(),
        t1.root.as_map());
}

/// A tree whose map is empty holds no items at all: its traversal is empty
/// and its root is an empty node of height zero.
pub proof fn lemma_empty_tree<V>(t: Tree234<V>)
    requires
        t.well_formed(),
        t@.dom() =~= Set::<u64>::empty(),
    ensures
        t.in_order_seq() == Seq::<Item<V>>::empty(),
        t.height() == 0,
{
    lemma_model(*t.root);
    crate::node::lemma_empty_iff_height_zero(*t.root);
    crate::node::lemma_empty_iff_count_zero(*t.root);
    assert(t.in_order_seq().len() == 0);
    assert(t.in_order_seq() =~= Seq::<Item<V>>::empty());
}

} // verus!
