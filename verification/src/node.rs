//! The node representation of the 2-3-4 tree: a tagged variant with 0, 1, 2
//! or 3 items and 0, 2, 3 or 4 exclusively owned child subtrees, together
//! with its mathematical model (a map from keys to values and the ascending
//! in-order sequence of items) and the read-only operations.

use vstd::prelude::*;

verus! {

/// An item stored in the tree: a key paired with its value.
pub type Item<V> = (u64, V);

/// A node holding one item and two child subtrees.
pub struct Two<V> {
    /// Cached count of items in the subtree rooted here.
    pub size: usize,
    pub item: Item<V>,
    pub lhs: Box<Node<V>>,
    pub rhs: Box<Node<V>>,
}

/// A node holding two sorted items and three child subtrees.
pub struct Three<V> {
    /// Cached count of items in the subtree rooted here.
    pub size: usize,
    pub item1: Item<V>,
    pub item2: Item<V>,
    pub lhs: Box<Node<V>>,
    pub mid: Box<Node<V>>,
    pub rhs: Box<Node<V>>,
}

/// A node holding three sorted items and four child subtrees.
pub struct Four<V> {
    /// Cached count of items in the subtree rooted here.
    pub size: usize,
    pub item1: Item<V>,
    pub item2: Item<V>,
    pub item3: Item<V>,
    pub lhs: Box<Node<V>>,
    pub lhs_mid: Box<Node<V>>,
    pub rhs_mid: Box<Node<V>>,
    pub rhs: Box<Node<V>>,
}

/// A subtree of the 2-3-4 tree.
pub enum Node<V> {
    Empty,
    Two(Two<V>),
    Three(Three<V>),
    Four(Four<V>),
}

/// All keys of `m` lie strictly below `bound`.
pub open spec fn map_below<V>(m: Map<u64, V>, bound: u64) -> bool {
    forall|k: u64| m.dom().contains(k) ==> k < bound
}

/// All keys of `m` lie strictly above `bound`.
pub open spec fn map_above<V>(m: Map<u64, V>, bound: u64) -> bool {
    forall|k: u64| m.dom().contains(k) ==> k > bound
}

/// The keys of the items of `s` are strictly increasing.
pub open spec fn sorted_by_keys<V>(s: Seq<Item<V>>) -> bool {
    forall|i: int, j: int| 0 <= i < j < s.len() ==> s[i].0 < s[j].0
}

/// `s` lists exactly the entries of `m`: it is as long as `m`'s domain and
/// each of its items is an entry of `m`.
pub open spec fn seq_matches_map<V>(s: Seq<Item<V>>, m: Map<u64, V>) -> bool {
    &&& s.len() == m.dom().len()
    &&& forall|i: int|
        0 <= i < s.len() ==> m.dom().contains((#[trigger] s[i]).0) && m[s[i].0] == s[i].1
}

/// The map held by a node of one item whose subtrees hold `lhs` and `rhs`.
pub open spec fn two_map<V>(item: Item<V>, lhs: Map<u64, V>, rhs: Map<u64, V>) -> Map<u64, V> {
    lhs.union_prefer_right(rhs).insert(item.0, item.1)
}

/// The map held by a node of two items whose subtrees hold `lhs`, `mid`, `rhs`.
pub open spec fn three_map<V>(
    item1: Item<V>,
    item2: Item<V>,
    lhs: Map<u64, V>,
    mid: Map<u64, V>,
    rhs: Map<u64, V>,
) -> Map<u64, V> {
    lhs.union_prefer_right(mid).union_prefer_right(rhs).insert(item1.0, item1.1).insert(
        item2.0,
        item2.1,
    )
}

/// The map held by a node of three items and four subtrees.
pub open spec fn four_map<V>(
    item1: Item<V>,
    item2: Item<V>,
    item3: Item<V>,
    lhs: Map<u64, V>,
    lhs_mid: Map<u64, V>,
    rhs_mid: Map<u64, V>,
    rhs: Map<u64, V>,
) -> Map<u64, V> {
    lhs.union_prefer_right(lhs_mid).union_prefer_right(rhs_mid).union_prefer_right(rhs).insert(
        item1.0,
        item1.1,
    ).insert(item2.0, item2.1).insert(item3.0, item3.1)
}

impl<V> Node<V> {
    /// The key-to-value map this subtree represents.
    pub open spec fn as_map(self) -> Map<u64, V>
        decreases self,
    {
        match self {
            Node::Empty => Map::empty(),
            Node::Two(t) => two_map(t.item, t.lhs.as_map(), t.rhs.as_map()),
            Node::Three(t) => three_map(
                t.item1,
                t.item2,
                t.lhs.as_map(),
                t.mid.as_map(),
                t.rhs.as_map(),
            ),
            Node::Four(t) => four_map(
                t.item1,
                t.item2,
                t.item3,
                t.lhs.as_map(),
                t.lhs_mid.as_map(),
                t.rhs_mid.as_map(),
                t.rhs.as_map(),
            ),
        }
    }

    /// The number of items in this subtree.
    pub open spec fn count(self) -> nat
        decreases self,
    {
        match self {
            Node::Empty => 0,
            Node::Two(t) => 1 + t.lhs.count() + t.rhs.count(),
            Node::Three(t) => 2 + t.lhs.count() + t.mid.count() + t.rhs.count(),
            Node::Four(t) => 3 + t.lhs.count() + t.lhs_mid.count() + t.rhs_mid.count()
                + t.rhs.count(),
        }
    }

    /// The height of this subtree; an empty subtree has height zero.
    pub open spec fn height(self) -> nat
        decreases self,
    {
        match self {
            Node::Empty => 0,
            Node::Two(t) => 1 + t.lhs.height(),
            Node::Three(t) => 1 + t.lhs.height(),
            Node::Four(t) => 1 + t.lhs.height(),
        }
    }

    /// The items of this subtree, in ascending key order.
    pub open spec fn in_order(self) -> Seq<Item<V>>
        decreases self,
    {
        match self {
            Node::Empty => Seq::empty(),
            Node::Two(t) => t.lhs.in_order() + seq![t.item] + t.rhs.in_order(),
            Node::Three(t) => t.lhs.in_order() + seq![t.item1] + t.mid.in_order() + seq![t.item2]
                + t.rhs.in_order(),
            Node::Four(t) => t.lhs.in_order() + seq![t.item1] + t.lhs_mid.in_order()
                + seq![t.item2] + t.rhs_mid.in_order() + seq![t.item3] + t.rhs.in_order(),
        }
    }

    /// A structural measure of this subtree: one for an empty subtree, else
    /// the node's arity plus the weights of its children. An in-order
    /// expansion of a node into its children and items always weighs less
    /// than the node itself.
    pub open spec fn weight(self) -> nat
        decreases self,
    {
        match self {
            Node::Empty => 1,
            Node::Two(t) => 2 + t.lhs.weight() + t.rhs.weight(),
            Node::Three(t) => 3 + t.lhs.weight() + t.mid.weight() + t.rhs.weight(),
            Node::Four(t) => 4 + t.lhs.weight() + t.lhs_mid.weight() + t.rhs_mid.weight()
                + t.rhs.weight(),
        }
    }

    /// Whether some downward path of exactly `d` steps from this subtree
    /// reaches an empty subtree, that is, whether some leaf position sits at
    /// depth `d`.
    pub open spec fn empty_at_depth(self, d: nat) -> bool
        decreases self,
    {
        match self {
            Node::Empty => d == 0,
            Node::Two(t) => d > 0 && (t.lhs.empty_at_depth((d - 1) as nat) || t.rhs.empty_at_depth(
                (d - 1) as nat,
            )),
            Node::Three(t) => d > 0 && (t.lhs.empty_at_depth((d - 1) as nat)
                || t.mid.empty_at_depth((d - 1) as nat) || t.rhs.empty_at_depth((d - 1) as nat)),
            Node::Four(t) => d > 0 && (t.lhs.empty_at_depth((d - 1) as nat)
                || t.lhs_mid.empty_at_depth((d - 1) as nat) || t.rhs_mid.empty_at_depth(
                (d - 1) as nat,
            ) || t.rhs.empty_at_depth((d - 1) as nat)),
        }
    }

    /// All keys in this subtree lie strictly below `bound`.
    pub open spec fn keys_below(self, bound: u64) -> bool {
        map_below(self.as_map(), bound)
    }

    /// All keys in this subtree lie strictly above `bound`.
    pub open spec fn keys_above(self, bound: u64) -> bool {
        map_above(self.as_map(), bound)
    }

    /// Well-formedness: item keys strictly increase within a node and
    /// partition the keys of the child subtrees; all children of a node have
    /// equal height (so every leaf sits at the same depth); and the cached
    /// size equals the true item count.
    pub open spec fn wf(self) -> bool
        decreases self,
    {
        match self {
            Node::Empty => true,
            Node::Two(t) => {
                &&& t.lhs.wf()
                &&& t.rhs.wf()
                &&& t.lhs.height() == t.rhs.height()
                &&& t.lhs.keys_below(t.item.0)
                &&& t.rhs.keys_above(t.item.0)
                &&& t.size == 1 + t.lhs.count() + t.rhs.count()
            },
            Node::Three(t) => {
                &&& t.lhs.wf()
                &&& t.mid.wf()
                &&& t.rhs.wf()
                &&& t.lhs.height() == t.mid.height()
                &&& t.mid.height() == t.rhs.height()
                &&& t.item1.0 < t.item2.0
                &&& t.lhs.keys_below(t.item1.0)
                &&& t.mid.keys_above(t.item1.0)
                &&& t.mid.keys_below(t.item2.0)
                &&& t.rhs.keys_above(t.item2.0)
                &&& t.size == 2 + t.lhs.count() + t.mid.count() + t.rhs.count()
            },
            Node::Four(t) => {
                &&& t.lhs.wf()
                &&& t.lhs_mid.wf()
                &&& t.rhs_mid.wf()
                &&& t.rhs.wf()
                &&& t.lhs.height() == t.lhs_mid.height()
                &&& t.lhs_mid.height() == t.rhs_mid.height()
                &&& t.rhs_mid.height() == t.rhs.height()
                &&& t.item1.0 < t.item2.0
                &&& t.item2.0 < t.item3.0
                &&& t.lhs.keys_below(t.item1.0)
                &&& t.lhs_mid.keys_above(t.item1.0)
                &&& t.lhs_mid.keys_below(t.item2.0)
                &&& t.rhs_mid.keys_above(t.item2.0)
                &&& t.rhs_mid.keys_below(t.item3.0)
                &&& t.rhs.keys_above(t.item3.0)
                &&& t.size == 3 + t.lhs.count() + t.lhs_mid.count() + t.rhs_mid.count()
                    + t.rhs.count()
            },
        }
    }

    /// A fresh empty subtree.
    pub fn empty() -> (r: Box<Node<V>>)
        ensures
            r.wf(),
            (*r) is Empty,
            r.height() == 0,
            r.count() == 0,
            r.as_map() == Map::<u64, V>::empty(),
            r.in_order() == Seq::<Item<V>>::empty(),
    {
        Box::new(Node::Empty)
    }

    /// Builds a node of one item from its parts, recomputing the cached size.
    pub fn two(item: Item<V>, lhs: Box<Node<V>>, rhs: Box<Node<V>>) -> (r: Box<Node<V>>)
        requires
            lhs.wf(),
            rhs.wf(),
            lhs.height() == rhs.height(),
            lhs.keys_below(item.0),
            rhs.keys_above(item.0),
            1 + lhs.count() + rhs.count() <= usize::MAX,
        ensures
            r.wf(),
            (*r) is Two,
            r.height() == 1 + lhs.height(),
            r.count() == 1 + lhs.count() + rhs.count(),
            r.as_map() == two_map(item, lhs.as_map(), rhs.as_map()),
            r.in_order() == lhs.in_order() + seq![item] + rhs.in_order(),
    {
        let size = 1 + lhs.size() + rhs.size();
        Box::new(Node::Two(Two { size, item, lhs, rhs }))
    }

    /// Builds a node of two items from its parts, recomputing the cached size.
    pub fn three(
        item1: Item<V>,
        item2: Item<V>,
        lhs: Box<Node<V>>,
        mid: Box<Node<V>>,
        rhs: Box<Node<V>>,
    ) -> (r: Box<Node<V>>)
        requires
            lhs.wf(),
            mid.wf(),
            rhs.wf(),
            lhs.height() == mid.height(),
            mid.height() == rhs.height(),
            item1.0 < item2.0,
            lhs.keys_below(item1.0),
            mid.keys_above(item1.0),
            mid.keys_below(item2.0),
            rhs.keys_above(item2.0),
            2 + lhs.count() + mid.count() + rhs.count() <= usize::MAX,
        ensures
            r.wf(),
            (*r) is Three,
            r.height() == 1 + lhs.height(),
            r.count() == 2 + lhs.count() + mid.count() + rhs.count(),
            r.as_map() == three_map(item1, item2, lhs.as_map(), mid.as_map(), rhs.as_map()),
            r.in_order() == lhs.in_order() + seq![item1] + mid.in_order() + seq![item2]
                + rhs.in_order(),
    {
        let size = 2 + lhs.size() + mid.size() + rhs.size();
        Box::new(Node::Three(Three { size, item1, item2, lhs, mid, rhs }))
    }

    /// Builds a node of three items from its parts, recomputing the cached size.
    pub fn four(
        item1: Item<V>,
        item2: Item<V>,
        item3: Item<V>,
        lhs: Box<Node<V>>,
        lhs_mid: Box<Node<V>>,
        rhs_mid: Box<Node<V>>,
        rhs: Box<Node<V>>,
    ) -> (r: Box<Node<V>>)
        requires
            lhs.wf(),
            lhs_mid.wf(),
            rhs_mid.wf(),
            rhs.wf(),
            lhs.height() == lhs_mid.height(),
            lhs_mid.height() == rhs_mid.height(),
            rhs_mid.height() == rhs.height(),
            item1.0 < item2.0,
            item2.0 < item3.0,
            lhs.keys_below(item1.0),
            lhs_mid.keys_above(item1.0),
            lhs_mid.keys_below(item2.0),
            rhs_mid.keys_above(item2.0),
            rhs_mid.keys_below(item3.0),
            rhs.keys_above(item3.0),
            3 + lhs.count() + lhs_mid.count() + rhs_mid.count() + rhs.count() <= usize::MAX,
        ensures
            r.wf(),
            (*r) is Four,
            r.height() == 1 + lhs.height(),
            r.count() == 3 + lhs.count() + lhs_mid.count() + rhs_mid.count() + rhs.count(),
            r.as_map() == four_map(
                item1,
                item2,
                item3,
                lhs.as_map(),
                lhs_mid.as_map(),
                rhs_mid.as_map(),
                rhs.as_map(),
            ),
            r.in_order() == lhs.in_order() + seq![item1] + lhs_mid.in_order() + seq![item2]
                + rhs_mid.in_order() + seq![item3] + rhs.in_order(),
    {
        let size = 3 + lhs.size() + lhs_mid.size() + rhs_mid.size() + rhs.size();
        Box::new(Node::Four(Four { size, item1, item2, item3, lhs, lhs_mid, rhs_mid, rhs }))
    }

    /// True exactly when this subtree is empty.
    pub(crate) fn is_empty(&self) -> (r: bool)
        ensures
            r == (self is Empty),
    {
        match self {
            Node::Empty => true,
            _ => false,
        }
    }

    /// The number of items in this subtree, read from the cache in constant
    /// time.
    pub fn size(&self) -> (n: usize)
        requires
            self.wf(),
        ensures
            n == self.count(),
    {
        match self {
            Node::Empty => 0,
            Node::Two(t) => t.size,
            Node::Three(t) => t.size,
            Node::Four(t) => t.size,
        }
    }

    /// Looks the key up by descending the subtree, comparing against each
    /// node's stored keys in ascending order.
    pub fn get(&self, key: &u64) -> (r: Option<&Item<V>>)
        requires
            self.wf(),
        ensures
            match r {
                Some(p) => self.as_map().dom().contains(*key) && p.0 == *key && p.1
                    == self.as_map()[*key],
                None => !self.as_map().dom().contains(*key),
            },
        decreases self,
    {
        match self {
            Node::Empty => None,
            Node::Two(t) => {
                if *key < t.item.0 {
                    proof {
                        assert(!t.rhs.as_map().dom().contains(*key));
                    }
                    t.lhs.get(key)
                } else if *key == t.item.0 {
                    Some(&t.item)
                } else {
                    proof {
                        assert(!t.lhs.as_map().dom().contains(*key));
                    }
                    t.rhs.get(key)
                }
            },
            Node::Three(t) => {
                if *key < t.item1.0 {
                    proof {
                        assert(!t.mid.as_map().dom().contains(*key));
                        assert(!t.rhs.as_map().dom().contains(*key));
                    }
                    t.lhs.get(key)
                } else if *key == t.item1.0 {
                    Some(&t.item1)
                } else if *key < t.item2.0 {
                    proof {
                        assert(!t.lhs.as_map().dom().contains(*key));
                        assert(!t.rhs.as_map().dom().contains(*key));
                    }
                    t.mid.get(key)
                } else if *key == t.item2.0 {
                    Some(&t.item2)
                } else {
                    proof {
                        assert(!t.lhs.as_map().dom().contains(*key));
                        assert(!t.mid.as_map().dom().contains(*key));
                    }
                    t.rhs.get(key)
                }
            },
            Node::Four(t) => {
                if *key < t.item1.0 {
                    proof {
                        assert(!t.lhs_mid.as_map().dom().contains(*key));
                        assert(!t.rhs_mid.as_map().dom().contains(*key));
                        assert(!t.rhs.as_map().dom().contains(*key));
                    }
                    t.lhs.get(key)
                } else if *key == t.item1.0 {
                    Some(&t.item1)
                } else if *key < t.item2.0 {
                    proof {
                        assert(!t.lhs.as_map().dom().contains(*key));
                        assert(!t.rhs_mid.as_map().dom().contains(*key));
                        assert(!t.rhs.as_map().dom().contains(*key));
                    }
                    t.lhs_mid.get(key)
                } else if *key == t.item2.0 {
                    Some(&t.item2)
                } else if *key < t.item3.0 {
                    proof {
                        assert(!t.lhs.as_map().dom().contains(*key));
                        assert(!t.lhs_mid.as_map().dom().contains(*key));
                        assert(!t.rhs.as_map().dom().contains(*key));
                    }
                    t.rhs_mid.get(key)
                } else if *key == t.item3.0 {
                    Some(&t.item3)
                } else {
                    proof {
                        assert(!t.lhs.as_map().dom().contains(*key));
                        assert(!t.lhs_mid.as_map().dom().contains(*key));
                        assert(!t.rhs_mid.as_map().dom().contains(*key));
                    }
                    t.rhs.get(key)
                }
            },
        }
    }
}

/// The items a sequence of item references points at.
pub open spec fn deref_items<V>(s: Seq<&Item<V>>) -> Seq<Item<V>> {
    s.map_values(|p: &Item<V>| *p)
}

/// Joining a sorted listing of `ml`, one separating item and a sorted
/// listing of `mr` lists exactly the entries of the joined map, in strictly
/// increasing key order, when the separating key parts the two domains.
proof fn lemma_join<V>(item: Item<V>, ml: Map<u64, V>, mr: Map<u64, V>, sl: Seq<Item<V>>, sr: Seq<
    Item<V>,
>)
    requires
        ml.dom().finite(),
        mr.dom().finite(),
        map_below(ml, item.0),
        map_above(mr, item.0),
        sorted_by_keys(sl),
        sorted_by_keys(sr),
        seq_matches_map(sl, ml),
        seq_matches_map(sr, mr),
    ensures
        two_map(item, ml, mr).dom().finite(),
        sorted_by_keys(sl + seq![item] + sr),
        seq_matches_map(sl + seq![item] + sr, two_map(item, ml, mr)),
{
    broadcast use vstd::set::group_set_axioms, vstd::set_lib::lemma_set_disjoint_lens;

    let m = two_map(item, ml, mr);
    let s = sl + seq![item] + sr;
    assert(ml.dom().disjoint(mr.dom()));
    assert(m.dom() =~= (ml.dom() + mr.dom()).insert(item.0));
    assert(!(ml.dom() + mr.dom()).contains(item.0));
    assert((ml.dom() + mr.dom()).len() == ml.dom().len() + mr.dom().len());
    assert(m.dom().len() == ml.dom().len() + mr.dom().len() + 1);
    assert(s.len() == sl.len() + 1 + sr.len());
    assert forall|i: int| 0 <= i < s.len() implies m.dom().contains((#[trigger] s[i]).0)
        && m[s[i].0] == s[i].1 by {
        if i < sl.len() {
            assert(s[i] == sl[i]);
            assert(ml.dom().contains(sl[i].0));
            assert(!mr.dom().contains(sl[i].0));
            assert(sl[i].0 != item.0);
        } else if i == sl.len() {
            assert(s[i] == item);
        } else {
            let j = i - sl.len() - 1;
            assert(s[i] == sr[j]);
            assert(mr.dom().contains(sr[j].0));
            assert(sr[j].0 != item.0);
        }
    }
    assert forall|i: int, j: int| 0 <= i < j < s.len() implies s[i].0 < s[j].0 by {
        if i < sl.len() {
            assert(s[i] == sl[i]);
            assert(ml.dom().contains(sl[i].0));
            assert(sl[i].0 < item.0);
        }
        if j < sl.len() {
            assert(s[j] == sl[j]);
        }
        if i > sl.len() {
            assert(s[i] == sr[i - sl.len() - 1]);
        }
        if j > sl.len() {
            let q = j - sl.len() - 1;
            assert(s[j] == sr[q]);
            assert(mr.dom().contains(sr[q].0));
            assert(sr[q].0 > item.0);
        }
    }
}

/// A subtree is empty exactly when its height is zero.
pub proof fn lemma_empty_iff_height_zero<V>(n: Node<V>)
    ensures
        (n is Empty) <==> n.height() == 0,
{
    match n {
        Node::Empty => {},
        Node::Two(t) => {},
        Node::Three(t) => {},
        Node::Four(t) => {},
    }
}

/// A subtree is empty exactly when it holds no items.
pub proof fn lemma_empty_iff_count_zero<V>(n: Node<V>)
    ensures
        (n is Empty) <==> n.count() == 0,
{
    match n {
        Node::Empty => {},
        Node::Two(t) => {},
        Node::Three(t) => {},
        Node::Four(t) => {},
    }
}

/// Structural balance: in a well-formed subtree a downward path reaches an
/// empty subtree exactly after as many steps as the subtree is tall, so
/// every leaf sits at the same depth.
pub proof fn lemma_balanced<V>(n: Node<V>)
    requires
        n.wf(),
    ensures
        forall|d: nat| n.empty_at_depth(d) <==> d == n.height(),
    decreases n,
{
    match n {
        Node::Empty => {
            assert forall|d: nat| n.empty_at_depth(d) <==> d == n.height() by {
                assert(n.empty_at_depth(d) == (d == 0));
            }
        },
        Node::Two(t) => {
            lemma_balanced(*t.lhs);
            lemma_balanced(*t.rhs);
            assert forall|d: nat| n.empty_at_depth(d) <==> d == n.height() by {
                if d > 0 {
                    assert(t.lhs.empty_at_depth((d - 1) as nat) <==> (d - 1) as nat
                        == t.lhs.height());
                    assert(t.rhs.empty_at_depth((d - 1) as nat) <==> (d - 1) as nat
                        == t.rhs.height());
                }
            }
        },
        Node::Three(t) => {
            lemma_balanced(*t.lhs);
            lemma_balanced(*t.mid);
            lemma_balanced(*t.rhs);
            assert forall|d: nat| n.empty_at_depth(d) <==> d == n.height() by {
                if d > 0 {
                    assert(t.lhs.empty_at_depth((d - 1) as nat) <==> (d - 1) as nat
                        == t.lhs.height());
                    assert(t.mid.empty_at_depth((d - 1) as nat) <==> (d - 1) as nat
                        == t.mid.height());
                    assert(t.rhs.empty_at_depth((d - 1) as nat) <==> (d - 1) as nat
                        == t.rhs.height());
                }
            }
        },
        Node::Four(t) => {
            lemma_balanced(*t.lhs);
            lemma_balanced(*t.lhs_mid);
            lemma_balanced(*t.rhs_mid);
            lemma_balanced(*t.rhs);
            assert forall|d: nat| n.empty_at_depth(d) <==> d == n.height() by {
                if d > 0 {
                    assert(t.lhs.empty_at_depth((d - 1) as nat) <==> (d - 1) as nat
                        == t.lhs.height());
                    assert(t.lhs_mid.empty_at_depth((d - 1) as nat) <==> (d - 1) as nat
                        == t.lhs_mid.height());
                    assert(t.rhs_mid.empty_at_depth((d - 1) as nat) <==> (d - 1) as nat
                        == t.rhs_mid.height());
                    assert(t.rhs.empty_at_depth((d - 1) as nat) <==> (d - 1) as nat
                        == t.rhs.height());
                }
            }
        },
    }
}

/// The correspondence between a well-formed subtree's in-order item sequence
/// and its map: the sequence is strictly increasing in keys, lists exactly
/// the entries of the map, and its length is the subtree's item count.
pub proof fn lemma_model<V>(n: Node<V>)
    requires
        n.wf(),
    ensures
        n.as_map().dom().finite(),
        n.as_map().dom().len() == n.count(),
        n.in_order().len() == n.count(),
        sorted_by_keys(n.in_order()),
        seq_matches_map(n.in_order(), n.as_map()),
    decreases n,
{
    broadcast use vstd::set::group_set_axioms;

    match n {
        Node::Empty => {
            assert(n.as_map().dom() =~= Set::empty());
        },
        Node::Two(t) => {
            lemma_model(*t.lhs);
            lemma_model(*t.rhs);
            lemma_join(t.item, t.lhs.as_map(), t.rhs.as_map(), t.lhs.in_order(), t.rhs.in_order());
        },
        Node::Three(t) => {
            lemma_model(*t.lhs);
            lemma_model(*t.mid);
            lemma_model(*t.rhs);
            let ml = t.lhs.as_map();
            let mm = t.mid.as_map();
            let mr = t.rhs.as_map();
            lemma_join(t.item1, ml, mm, t.lhs.in_order(), t.mid.in_order());
            let mv = two_map(t.item1, ml, mm);
            let sv = t.lhs.in_order() + seq![t.item1] + t.mid.in_order();
            assert(map_below(mv, t.item2.0));
            lemma_join(t.item2, mv, mr, sv, t.rhs.in_order());
            assert(n.as_map() =~= two_map(t.item2, mv, mr));
            assert(n.in_order() =~= sv + seq![t.item2] + t.rhs.in_order());
        },
        Node::Four(t) => {
            lemma_model(*t.lhs);
            lemma_model(*t.lhs_mid);
            lemma_model(*t.rhs_mid);
            lemma_model(*t.rhs);
            let m1 = t.lhs.as_map();
            let m2 = t.lhs_mid.as_map();
            let m3 = t.rhs_mid.as_map();
            let m4 = t.rhs.as_map();
            lemma_join(t.item1, m1, m2, t.lhs.in_order(), t.lhs_mid.in_order());
            let mv1 = two_map(t.item1, m1, m2);
            let sv1 = t.lhs.in_order() + seq![t.item1] + t.lhs_mid.in_order();
            assert(map_below(mv1, t.item2.0));
            lemma_join(t.item2, mv1, m3, sv1, t.rhs_mid.in_order());
            let mv2 = two_map(t.item2, mv1, m3);
            let sv2 = sv1 + seq![t.item2] + t.rhs_mid.in_order();
            assert(map_below(mv2, t.item3.0));
            lemma_join(t.item3, mv2, m4, sv2, t.rhs.in_order());
            assert(n.as_map() =~= two_map(t.item3, mv2, m4));
            assert(n.in_order() =~= sv2 + seq![t.item3] + t.rhs.in_order());
        },
    }
}

/// Dropping the head of a sorted listing of a finite map leaves a sorted
/// listing of the map without the head's key.
proof fn lemma_drop_head_matches<V>(s: Seq<Item<V>>, m: Map<u64, V>)
    requires
        sorted_by_keys(s),
        seq_matches_map(s, m),
        m.dom().finite(),
        s.len() > 0,
    ensures
        sorted_by_keys(s.drop_first()),
        seq_matches_map(s.drop_first(), m.remove(s[0].0)),
        m.remove(s[0].0).dom().finite(),
{
    broadcast use vstd::set::group_set_axioms;

    let key0 = s[0].0;
    let tail = s.drop_first();
    let m1 = m.remove(key0);
    assert(m1.dom() =~= m.dom().remove(key0));
    assert(m1.dom().len() == m.dom().len() - 1);
    assert forall|i: int, j: int| 0 <= i < j < tail.len() implies tail[i].0 < tail[j].0 by {
        assert(tail[i] == s[i + 1]);
        assert(tail[j] == s[j + 1]);
    }
    assert forall|i: int|
        0 <= i < tail.len() implies m1.dom().contains((#[trigger] tail[i]).0) && m1[tail[i].0]
        == tail[i].1 by {
        assert(tail[i] == s[i + 1]);
        assert(s[0].0 < s[i + 1].0);
    }
}

/// In a sorted listing of a finite map every entry of the map appears.
proof fn lemma_matches_complete<V>(s: Seq<Item<V>>, m: Map<u64, V>, k: u64)
    requires
        sorted_by_keys(s),
        seq_matches_map(s, m),
        m.dom().finite(),
        m.dom().contains(k),
    ensures
        exists|i: int| 0 <= i < s.len() && s[i] == (k, m[k]),
    decreases s.len(),
{
    if s.len() == 0 {
        m.dom().lemma_len0_is_empty();
    } else {
        let key0 = s[0].0;
        if k == key0 {
            assert(s[0] == (k, m[k]));
        } else {
            lemma_drop_head_matches(s, m);
            let tail = s.drop_first();
            let m1 = m.remove(key0);
            lemma_matches_complete(tail, m1, k);
            let i = choose|i: int| 0 <= i < tail.len() && tail[i] == (k, m1[k]);
            assert(s[i + 1] == (k, m[k]));
        }
    }
}

/// A finite map has exactly one sorted listing: any two sequences that list
/// its entries in strictly increasing key order are equal. So the in-order
/// traversal of a well-formed tree is a function of the map it holds.
pub proof fn lemma_sorted_listing_unique<V>(s1: Seq<Item<V>>, s2: Seq<Item<V>>, m: Map<u64, V>)
    requires
        sorted_by_keys(s1),
        sorted_by_keys(s2),
        seq_matches_map(s1, m),
        seq_matches_map(s2, m),
        m.dom().finite(),
    ensures
        s1 == s2,
    decreases s1.len(),
{
    if s1.len() == 0 {
        assert(s1 =~= s2);
    } else {
        let k1 = s1[0].0;
        let k2 = s2[0].0;
        lemma_matches_complete(s2, m, k1);
        let i = choose|i: int| 0 <= i < s2.len() && s2[i] == (k1, m[k1]);
        assert(k1 >= k2);
        lemma_matches_complete(s1, m, k2);
        let j = choose|j: int| 0 <= j < s1.len() && s1[j] == (k2, m[k2]);
        assert(k2 >= k1);
        assert(s1[0].1 == m[k1] && s2[0].1 == m[k1]);
        lemma_drop_head_matches(s1, m);
        lemma_drop_head_matches(s2, m);
        lemma_sorted_listing_unique(s1.drop_first(), s2.drop_first(), m.remove(k1));
        assert forall|p: int| 0 <= p < s1.len() implies s1[p] == s2[p] by {
            if p > 0 {
                assert(s1[p] == s1.drop_first()[p - 1]);
                assert(s2[p] == s2.drop_first()[p - 1]);
            }
        }
        assert(s1 =~= s2);
    }
}

impl<V> Node<V> {
    /// Appends the items of this subtree to `out` in ascending key order.
    fn visit_into<'a>(&'a self, out: &mut Vec<&'a Item<V>>)
        ensures
            deref_items(final(out)@) == deref_items(old(out)@) + self.in_order(),
        decreases self,
    {
        match self {
            Node::Empty => {
                assert(deref_items(out@) =~= deref_items(out@) + self.in_order());
            },
            Node::Two(t) => {
                let ghost s0 = deref_items(out@);
                t.lhs.visit_into(out);
                out.push(&t.item);
                assert(deref_items(out@) =~= s0 + t.lhs.in_order() + seq![t.item]);
                t.rhs.visit_into(out);
                assert(deref_items(out@) =~= s0 + self.in_order());
            },
            Node::Three(t) => {
                let ghost s0 = deref_items(out@);
                t.lhs.visit_into(out);
                out.push(&t.item1);
                assert(deref_items(out@) =~= s0 + t.lhs.in_order() + seq![t.item1]);
                t.mid.visit_into(out);
                out.push(&t.item2);
                assert(deref_items(out@) =~= s0 + t.lhs.in_order() + seq![t.item1]
                    + t.mid.in_order() + seq![t.item2]);
                t.rhs.visit_into(out);
                assert(deref_items(out@) =~= s0 + self.in_order());
            },
            Node::Four(t) => {
                let ghost s0 = deref_items(out@);
                t.lhs.visit_into(out);
                out.push(&t.item1);
                assert(deref_items(out@) =~= s0 + t.lhs.in_order() + seq![t.item1]);
                t.lhs_mid.visit_into(out);
                out.push(&t.item2);
                assert(deref_items(out@) =~= s0 + t.lhs.in_order() + seq![t.item1]
                    + t.lhs_mid.in_order() + seq![t.item2]);
                t.rhs_mid.visit_into(out);
                out.push(&t.item3);
                assert(deref_items(out@) =~= s0 + t.lhs.in_order() + seq![t.item1]
                    + t.lhs_mid.in_order() + seq![t.item2] + t.rhs_mid.in_order()
                    + seq![t.item3]);
                t.rhs.visit_into(out);
                assert(deref_items(out@) =~= s0 + self.in_order());
            },
        }
    }

    /// Full synchronous in-order traversal: the items of this subtree, in
    /// ascending key order.
    pub fn visit(&self) -> (r: Vec<&Item<V>>)
        ensures
            deref_items(r@) == self.in_order(),
    {
        let mut out: Vec<&Item<V>> = Vec::new();
        assert(deref_items(out@) =~= Seq::<Item<V>>::empty());
        self.visit_into(&mut out);
        assert(deref_items(out@) =~= self.in_order());
        out
    }
}

} // verus!
