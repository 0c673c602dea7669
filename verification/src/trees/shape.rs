//! The mathematical model of a tree: its shape, with the key at every node.
//!
//! A key is the number of a handle. Every contract of the strategies is
//! stated over a `Shape`; the arena is tied to it in the `tree` module.

use vstd::prelude::*;

verus! {

/// A binary tree of keys.
pub enum Shape {
    Leaf,
    Node(Box<Shape>, nat, Box<Shape>),
}

impl Shape {
    /// The tree with `k` at the root over `l` and `r`.
    pub open spec fn node(l: Shape, k: nat, r: Shape) -> Shape {
        Shape::Node(Box::new(l), k, Box::new(r))
    }

    /// The tree of one key.
    pub open spec fn single(k: nat) -> Shape {
        Shape::node(Shape::Leaf, k, Shape::Leaf)
    }

    /// The left subtree (a leaf has none, and gives a leaf).
    pub open spec fn left(self) -> Shape {
        match self {
            Shape::Leaf => Shape::Leaf,
            Shape::Node(l, _, _) => *l,
        }
    }

    /// The right subtree.
    pub open spec fn right(self) -> Shape {
        match self {
            Shape::Leaf => Shape::Leaf,
            Shape::Node(_, _, r) => *r,
        }
    }

    /// The key at the root, if there is one.
    pub open spec fn root(self) -> Option<nat> {
        match self {
            Shape::Leaf => None,
            Shape::Node(_, k, _) => Some(k),
        }
    }

    /// The number of nodes.
    pub open spec fn count(self) -> nat
        decreases self,
    {
        match self {
            Shape::Leaf => 0,
            Shape::Node(l, _, r) => l.count() + r.count() + 1,
        }
    }

    /// The set of keys.
    pub open spec fn keys(self) -> Set<nat>
        decreases self,
    {
        match self {
            Shape::Leaf => Set::empty(),
            Shape::Node(l, k, r) => l.keys().union(r.keys()).insert(k),
        }
    }

    /// Whether `k` is one of the keys.
    pub open spec fn contains(self, k: nat) -> bool {
        self.keys().contains(k)
    }

    /// Search-tree order: at every node the keys to the left are smaller and
    /// the keys to the right are larger.
    pub open spec fn ordered(self) -> bool
        decreases self,
    {
        match self {
            Shape::Leaf => true,
            Shape::Node(l, k, r) => {
                &&& l.ordered()
                &&& r.ordered()
                &&& forall|x: nat| #[trigger] l.keys().contains(x) ==> x < k
                &&& forall|x: nat| #[trigger] r.keys().contains(x) ==> k < x
            },
        }
    }

    /// The number of nodes that a search for `k` visits.
    pub open spec fn depth(self, k: nat) -> nat
        decreases self,
    {
        match self {
            Shape::Leaf => 0,
            Shape::Node(l, key, r) => if k < key {
                1 + l.depth(k)
            } else if key < k {
                1 + r.depth(k)
            } else {
                1
            },
        }
    }

    /// The keys from left to right.
    pub open spec fn in_order(self) -> Seq<nat>
        decreases self,
    {
        match self {
            Shape::Leaf => Seq::empty(),
            Shape::Node(l, k, r) => l.in_order().push(k) + r.in_order(),
        }
    }

    /// The tree after a rotation to the left: the right child of the root
    /// comes up, and the root becomes its left child. A tree whose root has
    /// no right child stays as it is.
    pub open spec fn rotated_left(self) -> Shape {
        match self {
            Shape::Leaf => self,
            Shape::Node(l, k, r) => match *r {
                Shape::Leaf => self,
                Shape::Node(rl, rk, rr) => Shape::node(Shape::node(*l, k, *rl), rk, *rr),
            },
        }
    }

    /// The tree after a rotation to the right: the left child of the root
    /// comes up, and the root becomes its right child. A tree whose root has
    /// no left child stays as it is.
    pub open spec fn rotated_right(self) -> Shape {
        match self {
            Shape::Leaf => self,
            Shape::Node(l, k, r) => match *l {
                Shape::Leaf => self,
                Shape::Node(ll, lk, lr) => Shape::node(*ll, lk, Shape::node(*lr, k, *r)),
            },
        }
    }

    /// The key of the leftmost node (of a leaf: 0).
    pub open spec fn first(self) -> nat
        decreases self,
    {
        match self {
            Shape::Leaf => 0,
            Shape::Node(l, k, _) => if *l is Leaf { k } else { l.first() },
        }
    }

    /// The key of the rightmost node (of a leaf: 0).
    pub open spec fn last(self) -> nat
        decreases self,
    {
        match self {
            Shape::Leaf => 0,
            Shape::Node(_, k, r) => if *r is Leaf { k } else { r.last() },
        }
    }
}

/// Whether the numbers of `s` grow from each place to the next.
pub open spec fn increasing(s: Seq<nat>) -> bool {
    forall|i: int, j: int| 0 <= i < j < s.len() ==> s[i] < s[j]
}

/// A tree has as many nodes as keys only if no key repeats; an ordered tree
/// whose keys lie in `lo..hi` has at most `hi - lo` nodes.
pub proof fn lemma_count_bound(t: Shape, lo: nat, hi: nat)
    requires
        t.ordered(),
        forall|x: nat| #[trigger] t.keys().contains(x) ==> lo <= x < hi,
    ensures
        t.count() + lo <= hi || t is Leaf,
        t is Leaf ==> t.count() == 0,
    decreases t,
{
    match t {
        Shape::Leaf => {},
        Shape::Node(l, k, r) => {
            assert(t.keys().contains(k));
            assert forall|x: nat| #[trigger] l.keys().contains(x) implies lo <= x < k by {
                assert(t.keys().contains(x));
            }
            assert forall|x: nat| #[trigger] r.keys().contains(x) implies k + 1 <= x < hi by {
                assert(t.keys().contains(x));
            }
            lemma_count_bound(*l, lo, k);
            lemma_count_bound(*r, k + 1, hi);
        },
    }
}

/// The tree of one key is ordered and holds that key alone.
pub proof fn lemma_single(k: nat)
    ensures
        Shape::single(k).ordered(),
        Shape::single(k).keys() =~= set![k],
        Shape::single(k).count() == 1,
{
    reveal_with_fuel(Shape::ordered, 2);
    reveal_with_fuel(Shape::keys, 2);
    reveal_with_fuel(Shape::count, 2);
}

/// A tree without nodes is a leaf and has no keys.
pub proof fn lemma_empty(t: Shape)
    ensures
        t.count() == 0 <==> t is Leaf,
        t is Leaf ==> t.keys() =~= Set::<nat>::empty(),
{
}

/// A tree without keys is a leaf.
pub proof fn lemma_no_keys_is_leaf(t: Shape)
    requires
        t.keys() =~= Set::<nat>::empty(),
    ensures
        t is Leaf,
{
    match t {
        Shape::Leaf => {},
        Shape::Node(l, k, r) => {
            assert(t.keys().contains(k));
        },
    }
}

/// In an ordered tree a search for `k` that goes by comparisons finds every
/// key: `k` is in the subtree on its side of the root, or nowhere.
pub proof fn lemma_search_side(t: Shape, k: nat)
    requires
        t.ordered(),
    ensures
        match t {
            Shape::Leaf => !t.contains(k),
            Shape::Node(l, key, r) => if k < key {
                t.contains(k) == l.contains(k)
            } else if key < k {
                t.contains(k) == r.contains(k)
            } else {
                t.contains(k)
            },
        },
{
    match t {
        Shape::Leaf => {},
        Shape::Node(l, key, r) => {
            if k < key {
                assert(!r.keys().contains(k));
            } else if key < k {
                assert(!l.keys().contains(k));
            }
        },
    }
}

/// In an ordered tree that is no leaf, the leftmost key is a key and no key
/// is smaller.
pub proof fn lemma_first_is_least(t: Shape)
    requires
        t.ordered(),
        !(t is Leaf),
    ensures
        t.contains(t.first()),
        forall|x: nat| #[trigger] t.keys().contains(x) ==> t.first() <= x,
    decreases t,
{
    match t {
        Shape::Leaf => {},
        Shape::Node(l, k, r) => {
            if !(*l is Leaf) {
                lemma_first_is_least(*l);
                assert(l.keys().contains(l.first()));
            }
            assert forall|x: nat| #[trigger] t.keys().contains(x) implies t.first() <= x by {
                if l.keys().contains(x) {
                } else if r.keys().contains(x) {
                }
            }
        },
    }
}

/// In an ordered tree that is no leaf, the rightmost key is a key and no key
/// is larger.
pub proof fn lemma_last_is_greatest(t: Shape)
    requires
        t.ordered(),
        !(t is Leaf),
    ensures
        t.contains(t.last()),
        forall|x: nat| #[trigger] t.keys().contains(x) ==> x <= t.last(),
    decreases t,
{
    match t {
        Shape::Leaf => {},
        Shape::Node(l, k, r) => {
            if !(*r is Leaf) {
                lemma_last_is_greatest(*r);
                assert(r.keys().contains(r.last()));
            }
            assert forall|x: nat| #[trigger] t.keys().contains(x) implies x <= t.last() by {
                if l.keys().contains(x) {
                } else if r.keys().contains(x) {
                }
            }
        },
    }
}

/// A rotation keeps the keys, their number and the search-tree order.
pub proof fn lemma_rotated_left(t: Shape)
    requires
        t.ordered(),
    ensures
        t.rotated_left().ordered(),
        t.rotated_left().keys() =~= t.keys(),
        t.rotated_left().count() == t.count(),
{
    reveal_with_fuel(Shape::ordered, 3);
    reveal_with_fuel(Shape::keys, 3);
    reveal_with_fuel(Shape::count, 3);
    match t {
        Shape::Leaf => {},
        Shape::Node(l, k, r) => match *r {
            Shape::Leaf => {},
            Shape::Node(rl, rk, rr) => {
                let inner = Shape::node(*l, k, *rl);
                assert(r.keys().contains(rk));
                assert forall|x: nat| #[trigger] rl.keys().contains(x) implies k < x by {
                    assert(r.keys().contains(x));
                }
                assert forall|x: nat| #[trigger] inner.keys().contains(x) implies x < rk by {
                    if l.keys().contains(x) {
                    } else if rl.keys().contains(x) {
                    }
                }
                assert(inner.ordered());
                assert(t.rotated_left().ordered());
            },
        },
    }
}

/// A rotation keeps the keys, their number and the search-tree order.
pub proof fn lemma_rotated_right(t: Shape)
    requires
        t.ordered(),
    ensures
        t.rotated_right().ordered(),
        t.rotated_right().keys() =~= t.keys(),
        t.rotated_right().count() == t.count(),
{
    reveal_with_fuel(Shape::ordered, 3);
    reveal_with_fuel(Shape::keys, 3);
    reveal_with_fuel(Shape::count, 3);
    match t {
        Shape::Leaf => {},
        Shape::Node(l, k, r) => match *l {
            Shape::Leaf => {},
            Shape::Node(ll, lk, lr) => {
                let inner = Shape::node(*lr, k, *r);
                assert(l.keys().contains(lk));
                assert forall|x: nat| #[trigger] lr.keys().contains(x) implies x < k by {
                    assert(l.keys().contains(x));
                }
                assert forall|x: nat| #[trigger] inner.keys().contains(x) implies lk < x by {
                    if lr.keys().contains(x) {
                    } else if r.keys().contains(x) {
                    }
                }
                assert(inner.ordered());
                assert(t.rotated_right().ordered());
            },
        },
    }
}

/// The walk from left to right visits exactly the keys.
pub proof fn lemma_in_order_keys(t: Shape)
    ensures
        t.in_order().len() == t.count(),
        forall|x: nat| t.in_order().contains(x) <==> #[trigger] t.keys().contains(x),
    decreases t,
{
    match t {
        Shape::Leaf => {},
        Shape::Node(l, k, r) => {
            lemma_in_order_keys(*l);
            lemma_in_order_keys(*r);
            let a = l.in_order().push(k);
            let b = r.in_order();
            let s = t.in_order();
            assert(s =~= a + b);
            assert forall|x: nat| s.contains(x) <==> #[trigger] t.keys().contains(x) by {
                let la = l.in_order();
                if s.contains(x) {
                    let i = choose|i: int| 0 <= i < s.len() && s[i] == x;
                    if i < la.len() {
                        assert(la[i] == x);
                        assert(la.contains(x));
                        assert(l.keys().contains(x));
                    } else if i == la.len() {
                        assert(x == k);
                    } else {
                        assert(b[i - a.len()] == x);
                        assert(b.contains(x));
                        assert(r.keys().contains(x));
                    }
                    assert(t.keys().contains(x));
                }
                if t.keys().contains(x) {
                    if l.keys().contains(x) {
                        assert(la.contains(x));
                        let i = choose|i: int| 0 <= i < la.len() && la[i] == x;
                        assert(s[i] == x);
                    } else if r.keys().contains(x) {
                        assert(b.contains(x));
                        let i = choose|i: int| 0 <= i < b.len() && b[i] == x;
                        assert(s[a.len() + i] == x);
                    } else {
                        assert(x == k);
                        assert(s[la.len() as int] == k);
                    }
                    assert(s.contains(x));
                }
            }
        },
    }
}

/// The walk from left to right over an ordered tree meets the keys in
/// strictly growing order.
pub proof fn lemma_in_order_increasing(t: Shape)
    requires
        t.ordered(),
    ensures
        increasing(t.in_order()),
    decreases t,
{
    match t {
        Shape::Leaf => {},
        Shape::Node(l, k, r) => {
            lemma_in_order_increasing(*l);
            lemma_in_order_increasing(*r);
            lemma_in_order_keys(*l);
            lemma_in_order_keys(*r);
            let a = l.in_order();
            let b = r.in_order();
            let s = t.in_order();
            assert forall|i: int, j: int| 0 <= i < j < s.len() implies s[i] < s[j] by {
                if i < a.len() {
                    assert(a.contains(a[i]));
                    assert(l.keys().contains(s[i]));
                }
                if i > a.len() {
                    assert(b.contains(b[i - a.len() - 1]));
                    assert(r.keys().contains(s[i]));
                }
                if j < a.len() {
                    assert(a.contains(a[j]));
                    assert(l.keys().contains(s[j]));
                }
                if j > a.len() {
                    assert(b.contains(b[j - a.len() - 1]));
                    assert(r.keys().contains(s[j]));
                }
            }
        },
    }
}

} // verus!
