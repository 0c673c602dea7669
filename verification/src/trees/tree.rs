//! The navigation interface of a node store, and what ties an arena of
//! records to the shape of the tree that it holds.

use vstd::prelude::*;
use crate::trees::node::{Idx, Node};
use crate::trees::shape::{Shape, lemma_search_side};

verus! {

/// The child links of `nodes`, followed from `root`, spell out the tree `t`:
/// every node of `t` sits in the slot of its key, and its two child slots
/// hold the roots of its two subtrees.
pub open spec fn linked<T: Idx>(nodes: Seq<Node<T>>, root: Option<T>, t: Shape) -> bool
    decreases t,
{
    match t {
        Shape::Leaf => root is None,
        Shape::Node(l, k, r) => match root {
            None => false,
            Some(h) => {
                &&& h.value() == k
                &&& k < nodes.len()
                &&& linked(nodes, nodes[k as int].left, *l)
                &&& linked(nodes, nodes[k as int].right, *r)
            },
        },
    }
}

/// What is reachable from `root` is a search tree.
pub open spec fn is_tree<T: Idx>(nodes: Seq<Node<T>>, root: Option<T>) -> bool {
    exists|t: Shape| linked(nodes, root, t) && t.ordered()
}

/// The tree that is reachable from `root`.
pub open spec fn shape_of<T: Idx>(nodes: Seq<Node<T>>, root: Option<T>) -> Shape {
    choose|t: Shape| linked(nodes, root, t)
}

/// The handles that are reachable from `root`, by their numbers.
pub open spec fn keys_of<T: Idx>(nodes: Seq<Node<T>>, root: Option<T>) -> Set<nat> {
    shape_of(nodes, root).keys()
}

/// Every slot whose number is no key of `t` holds the empty record.
pub open spec fn idle_outside<T: Idx>(nodes: Seq<Node<T>>, t: Shape) -> bool {
    forall|i: int| 0 <= i < nodes.len() && !t.keys().contains(i as nat) ==> #[trigger] nodes[i]
        == Node::<T>::empty()
}

/// The records `a` and `b` agree in every slot whose number is a key of `t`.
pub open spec fn same_on<T: Idx>(a: Seq<Node<T>>, b: Seq<Node<T>>, t: Shape) -> bool {
    &&& a.len() == b.len()
    &&& forall|k: nat| #[trigger] t.keys().contains(k) && k < a.len() ==> a[k as int] == b[k as int]
}

/// The records `a` and `b` agree in every slot whose number is no key of `t`
/// and is not `k`.
pub open spec fn same_outside<T: Idx>(a: Seq<Node<T>>, b: Seq<Node<T>>, t: Shape, k: nat) -> bool {
    &&& a.len() == b.len()
    &&& forall|i: int|
        0 <= i < a.len() && !t.keys().contains(i as nat) && i != k ==> #[trigger] b[i] == a[i]
}

/// Every key of a tree that the arena holds is the number of a slot.
pub proof fn lemma_linked_in_range<T: Idx>(nodes: Seq<Node<T>>, root: Option<T>, t: Shape)
    requires
        linked(nodes, root, t),
    ensures
        forall|k: nat| #[trigger] t.keys().contains(k) ==> k < nodes.len(),
    decreases t,
{
    match t {
        Shape::Leaf => {},
        Shape::Node(l, k, r) => {
            lemma_linked_in_range(nodes, nodes[k as int].left, *l);
            lemma_linked_in_range(nodes, nodes[k as int].right, *r);
            assert forall|x: nat| #[trigger] t.keys().contains(x) implies x < nodes.len() by {
                if l.keys().contains(x) {
                } else if r.keys().contains(x) {
                }
            }
        },
    }
}

/// From one root the links spell out at most one tree.
pub proof fn lemma_linked_unique<T: Idx>(nodes: Seq<Node<T>>, root: Option<T>, a: Shape, b: Shape)
    requires
        linked(nodes, root, a),
        linked(nodes, root, b),
    ensures
        a == b,
    decreases a,
{
    match a {
        Shape::Leaf => {},
        Shape::Node(l, k, r) => {
            match b {
                Shape::Leaf => {},
                Shape::Node(bl, bk, br) => {
                    lemma_linked_unique(nodes, nodes[k as int].left, *l, *bl);
                    lemma_linked_unique(nodes, nodes[k as int].right, *r, *br);
                    assert(l == bl) by {
                        assert(*l == *bl);
                    }
                    assert(r == br) by {
                        assert(*r == *br);
                    }
                },
            }
        },
    }
}

/// Where the links spell out `t`, `t` is the tree that `shape_of` names.
pub proof fn lemma_shape_of<T: Idx>(nodes: Seq<Node<T>>, root: Option<T>, t: Shape)
    requires
        linked(nodes, root, t),
    ensures
        shape_of(nodes, root) == t,
        is_tree(nodes, root) <==> t.ordered(),
{
    lemma_linked_unique(nodes, root, shape_of(nodes, root), t);
    if is_tree(nodes, root) {
        let u = choose|u: Shape| linked(nodes, root, u) && u.ordered();
        lemma_linked_unique(nodes, root, u, t);
    }
}

/// A tree stays where it is when nothing is written to the slots of its keys.
pub proof fn lemma_linked_frame<T: Idx>(a: Seq<Node<T>>, b: Seq<Node<T>>, root: Option<T>, t: Shape)
    requires
        linked(a, root, t),
        same_on(a, b, t),
    ensures
        linked(b, root, t),
    decreases t,
{
    match t {
        Shape::Leaf => {},
        Shape::Node(l, k, r) => {
            assert(t.keys().contains(k));
            assert forall|x: nat| #[trigger] l.keys().contains(x) && x < a.len() implies a[x as int]
                == b[x as int] by {
                assert(t.keys().contains(x));
            }
            assert forall|x: nat| #[trigger] r.keys().contains(x) && x < a.len() implies a[x as int]
                == b[x as int] by {
                assert(t.keys().contains(x));
            }
            lemma_linked_frame(a, b, a[k as int].left, *l);
            lemma_linked_frame(a, b, a[k as int].right, *r);
        },
    }
}

/// A record written over the root joins two trees into one.
pub proof fn lemma_linked_join<T: Idx>(
    b: Seq<Node<T>>,
    c: Seq<Node<T>>,
    root: T,
    rec: Node<T>,
    l: Shape,
    r: Shape,
)
    requires
        linked(b, rec.left, l),
        linked(b, rec.right, r),
        !l.keys().contains(root.value()),
        !r.keys().contains(root.value()),
        root.value() < b.len(),
        c == b.update(root.value() as int, rec),
    ensures
        linked(c, Some(root), Shape::node(l, root.value(), r)),
{
    assert forall|x: nat| #[trigger] l.keys().contains(x) && x < b.len() implies b[x as int]
        == c[x as int] by {}
    assert forall|x: nat| #[trigger] r.keys().contains(x) && x < b.len() implies b[x as int]
        == c[x as int] by {}
    lemma_linked_frame(b, c, rec.left, l);
    lemma_linked_frame(b, c, rec.right, r);
}

/// The links after a rotation to the left spell out the rotated tree.
pub proof fn lemma_rotate_left_linked<T: Idx>(
    a: Seq<Node<T>>,
    b: Seq<Node<T>>,
    root: T,
    right: T,
    t: Shape,
)
    requires
        linked(a, Some(root), t),
        t.ordered(),
        a[root.value() as int].right == Some(right),
        right.value() < a.len(),
        b.len() == a.len(),
        b[root.value() as int].left == a[root.value() as int].left,
        b[root.value() as int].right == a[right.value() as int].left,
        b[right.value() as int].left == Some(root),
        b[right.value() as int].right == a[right.value() as int].right,
        forall|i: int|
            0 <= i < a.len() && i != root.value() && i != right.value() ==> #[trigger] b[i] == a[i],
    ensures
        t.right() is Node,
        linked(b, Some(right), t.rotated_left()),
{
    let key = root.value();
    let rk = right.value();
    let l = t.left();
    let r = t.right();
    let n = a[key as int];
    let rn = a[rk as int];
    assert(linked(a, n.right, r));
    let rl = r.left();
    let rr = r.right();
    assert(r.ordered());
    assert(r.keys().contains(rk));
    assert(key < rk);
    assert forall|x: nat| #[trigger] l.keys().contains(x) && x < a.len() implies a[x as int]
        == b[x as int] by {}
    assert forall|x: nat| #[trigger] rl.keys().contains(x) && x < a.len() implies a[x as int]
        == b[x as int] by {
        assert(r.keys().contains(x));
    }
    assert forall|x: nat| #[trigger] rr.keys().contains(x) && x < a.len() implies a[x as int]
        == b[x as int] by {
        assert(r.keys().contains(x));
    }
    lemma_linked_frame(a, b, n.left, l);
    lemma_linked_frame(a, b, rn.left, rl);
    lemma_linked_frame(a, b, rn.right, rr);
    let inner = Shape::node(l, key, rl);
    assert(t.rotated_left() == Shape::node(inner, rk, rr));
    assert(linked(b, Some(root), inner));
}

/// The links after a rotation to the right spell out the rotated tree.
pub proof fn lemma_rotate_right_linked<T: Idx>(
    a: Seq<Node<T>>,
    b: Seq<Node<T>>,
    root: T,
    left: T,
    t: Shape,
)
    requires
        linked(a, Some(root), t),
        t.ordered(),
        a[root.value() as int].left == Some(left),
        left.value() < a.len(),
        b.len() == a.len(),
        b[root.value() as int].right == a[root.value() as int].right,
        b[root.value() as int].left == a[left.value() as int].right,
        b[left.value() as int].right == Some(root),
        b[left.value() as int].left == a[left.value() as int].left,
        forall|i: int|
            0 <= i < a.len() && i != root.value() && i != left.value() ==> #[trigger] b[i] == a[i],
    ensures
        t.left() is Node,
        linked(b, Some(left), t.rotated_right()),
{
    let key = root.value();
    let lk = left.value();
    let l = t.left();
    let r = t.right();
    let n = a[key as int];
    let ln = a[lk as int];
    assert(linked(a, n.left, l));
    let ll = l.left();
    let lr = l.right();
    assert(l.ordered());
    assert(l.keys().contains(lk));
    assert(lk < key);
    assert forall|x: nat| #[trigger] r.keys().contains(x) && x < a.len() implies a[x as int]
        == b[x as int] by {}
    assert forall|x: nat| #[trigger] ll.keys().contains(x) && x < a.len() implies a[x as int]
        == b[x as int] by {
        assert(l.keys().contains(x));
    }
    assert forall|x: nat| #[trigger] lr.keys().contains(x) && x < a.len() implies a[x as int]
        == b[x as int] by {
        assert(l.keys().contains(x));
    }
    lemma_linked_frame(a, b, n.right, r);
    lemma_linked_frame(a, b, ln.left, ll);
    lemma_linked_frame(a, b, ln.right, lr);
    let inner = Shape::node(lr, key, r);
    assert(t.rotated_right() == Shape::node(ll, lk, inner));
    assert(linked(b, Some(root), inner));
}

/// What a node store offers to the balancing strategies: point access to a
/// record by its handle, and the order of the handles. Everything else is
/// derived from these, so the strategies work on any store.
pub trait Tree<T: Idx>: Sized {
    /// The records of the store, slot by slot.
    spec fn view(&self) -> Seq<Node<T>>;

    /// The store has no more slots than a `usize` can count.
    proof fn lemma_capacity(&self)
        ensures
            self@.len() <= usize::MAX,
    ;

    /// The record at `idx`, or `None` beyond the store's capacity.
    fn get(&self, idx: T) -> (r: Option<Node<T>>)
        ensures
            r == (if idx.value() < self@.len() {
                Some(self@[idx.value() as int])
            } else {
                None
            }),
    ;

    /// Overwrites the record at `idx`; no effect beyond the store's capacity.
    fn set(&mut self, idx: T, node: Node<T>)
        ensures
            final(self)@ == (if idx.value() < old(self)@.len() {
                old(self)@.update(idx.value() as int, node)
            } else {
                old(self)@
            }),
    ;

    /// The left child slot of `idx`, to be written in place; `None` where
    /// `idx` has no left child or lies beyond the store's capacity.
    fn left_mut(&mut self, idx: T) -> (r: Option<&mut T>)
        ensures
            match r {
                Some(slot) => {
                    &&& idx.value() < old(self)@.len()
                    &&& old(self)@[idx.value() as int].left == Some(*slot)
                    &&& final(self)@ == old(self)@.update(
                        idx.value() as int,
                        Node { left: Some(*final(slot)), ..old(self)@[idx.value() as int] },
                    )
                },
                None => {
                    &&& final(self)@ == old(self)@
                    &&& idx.value() < old(self)@.len() ==> old(self)@[idx.value() as int].left
                        is None
                },
            },
    ;

    /// The right child slot of `idx`, to be written in place; `None` where
    /// `idx` has no right child or lies beyond the store's capacity.
    fn right_mut(&mut self, idx: T) -> (r: Option<&mut T>)
        ensures
            match r {
                Some(slot) => {
                    &&& idx.value() < old(self)@.len()
                    &&& old(self)@[idx.value() as int].right == Some(*slot)
                    &&& final(self)@ == old(self)@.update(
                        idx.value() as int,
                        Node { right: Some(*final(slot)), ..old(self)@[idx.value() as int] },
                    )
                },
                None => {
                    &&& final(self)@ == old(self)@
                    &&& idx.value() < old(self)@.len() ==> old(self)@[idx.value() as int].right
                        is None
                },
            },
    ;

    /// Whether `first` sorts before `second`: handles sort by their numbers.
    fn is_left_of(&self, first: T, second: T) -> (r: bool)
        ensures
            r == (first.value() < second.value()),
    {
        first.as_usize() < second.as_usize()
    }

    /// Whether `first` sorts after `second`.
    fn is_right_of(&self, first: T, second: T) -> (r: bool)
        ensures
            r == (first.value() > second.value()),
    {
        first.as_usize() > second.as_usize()
    }

    /// The left child of `idx`; `None` beyond the store's capacity.
    fn left(&self, idx: T) -> (r: Option<T>)
        ensures
            r == (if idx.value() < self@.len() {
                self@[idx.value() as int].left
            } else {
                None
            }),
    {
        match self.get(idx) {
            Some(n) => n.left,
            None => None,
        }
    }

    /// The right child of `idx`; `None` beyond the store's capacity.
    fn right(&self, idx: T) -> (r: Option<T>)
        ensures
            r == (if idx.value() < self@.len() {
                self@[idx.value() as int].right
            } else {
                None
            }),
    {
        match self.get(idx) {
            Some(n) => n.right,
            None => None,
        }
    }

    /// Writes the left child of `idx`; no effect beyond the store's capacity.
    fn set_left(&mut self, idx: T, left: Option<T>)
        ensures
            final(self)@ == (if idx.value() < old(self)@.len() {
                old(self)@.update(
                    idx.value() as int,
                    Node { left, ..old(self)@[idx.value() as int] },
                )
            } else {
                old(self)@
            }),
    {
        match self.get(idx) {
            Some(n) => {
                self.set(idx, Node { size: n.size, left, right: n.right });
            },
            None => {},
        }
    }

    /// Writes the right child of `idx`; no effect beyond the store's capacity.
    fn set_right(&mut self, idx: T, right: Option<T>)
        ensures
            final(self)@ == (if idx.value() < old(self)@.len() {
                old(self)@.update(
                    idx.value() as int,
                    Node { right, ..old(self)@[idx.value() as int] },
                )
            } else {
                old(self)@
            }),
    {
        match self.get(idx) {
            Some(n) => {
                self.set(idx, Node { size: n.size, left: n.left, right });
            },
            None => {},
        }
    }

    /// Resets the record at `idx` to the empty record.
    fn clear(&mut self, idx: T)
        ensures
            final(self)@ == (if idx.value() < old(self)@.len() {
                old(self)@.update(idx.value() as int, Node::<T>::empty())
            } else {
                old(self)@
            }),
    {
        self.set(idx, Node::new());
    }

    /// The leftmost handle of the tree under `root`: its smallest.
    fn leftest(&self, root: T) -> (r: T)
        requires
            is_tree(self@, Some(root)),
        ensures
            r.value() == shape_of(self@, Some(root)).first(),
    {
        let ghost t = shape_of(self@, Some(root));
        let mut cur = root;
        let ghost mut sub = t;
        proof {
            let u = choose|u: Shape| linked(self@, Some(root), u) && u.ordered();
            lemma_shape_of(self@, Some(root), u);
        }
        loop
            invariant
                linked(self@, Some(cur), sub),
                sub.first() == t.first(),
                t == shape_of(self@, Some(root)),
            decreases sub.count(),
        {
            match self.left(cur) {
                Some(l) => {
                    proof {
                        assert(linked(self@, Some(l), sub.left()));
                        sub = sub.left();
                    }
                    cur = l;
                },
                None => {
                    assert(linked(self@, None::<T>, sub.left()));
                    return cur;
                },
            }
        }
    }

    /// The rightmost handle of the tree under `root`: its largest.
    fn rightest(&self, root: T) -> (r: T)
        requires
            is_tree(self@, Some(root)),
        ensures
            r.value() == shape_of(self@, Some(root)).last(),
    {
        let ghost t = shape_of(self@, Some(root));
        let mut cur = root;
        let ghost mut sub = t;
        proof {
            let u = choose|u: Shape| linked(self@, Some(root), u) && u.ordered();
            lemma_shape_of(self@, Some(root), u);
        }
        loop
            invariant
                linked(self@, Some(cur), sub),
                sub.last() == t.last(),
                t == shape_of(self@, Some(root)),
            decreases sub.count(),
        {
            match self.right(cur) {
                Some(r) => {
                    proof {
                        assert(linked(self@, Some(r), sub.right()));
                        sub = sub.right();
                    }
                    cur = r;
                },
                None => {
                    assert(linked(self@, None::<T>, sub.right()));
                    return cur;
                },
            }
        }
    }

    /// Whether `idx` is in the tree under `root`.
    fn contains(&self, root: T, idx: T) -> (r: bool)
        requires
            is_tree(self@, Some(root)),
        ensures
            r == keys_of(self@, Some(root)).contains(idx.value()),
    {
        let ghost t = shape_of(self@, Some(root));
        let mut cur = root;
        let ghost mut sub = t;
        proof {
            let u = choose|u: Shape| linked(self@, Some(root), u) && u.ordered();
            lemma_shape_of(self@, Some(root), u);
        }
        loop
            invariant
                linked(self@, Some(cur), sub),
                sub.ordered(),
                t.contains(idx.value()) == sub.contains(idx.value()),
                t == shape_of(self@, Some(root)),
            decreases sub.count(),
        {
            proof {
                lemma_search_side(sub, idx.value());
            }
            let next = if self.is_left_of(idx, cur) {
                proof {
                    sub = sub.left();
                }
                self.left(cur)
            } else if self.is_right_of(idx, cur) {
                proof {
                    sub = sub.right();
                }
                self.right(cur)
            } else {
                return true;
            };
            match next {
                Some(n) => {
                    cur = n;
                },
                None => {
                    assert(linked(self@, None::<T>, sub));
                    return false;
                },
            }
        }
    }
}

} // verus!
