//! The size-balanced strategy: every record holds the number of nodes of the
//! subtree under it, and insertion rotates on the way down wherever the side
//! it is about to descend into is already as large as the other.

use vstd::prelude::*;
use crate::trees::node::{Idx, Node};
use crate::trees::shape::{
    Shape, lemma_count_bound, lemma_empty, lemma_first_is_least, lemma_last_is_greatest,
    lemma_rotated_left, lemma_rotated_right, lemma_search_side, lemma_single,
};
use crate::trees::tree::{
    Tree, idle_outside, keys_of, lemma_linked_frame, lemma_linked_in_range, lemma_shape_of,
    linked, same_on, same_outside, shape_of,
};

verus! {

/// A rotation towards the side away from `k` brings the place of `k` one step
/// nearer to the root.
pub proof fn lemma_depth_after_rotation(t: Shape, k: nat)
    ensures
        t.left() is Node && k < t.root().unwrap() && k < t.left().root().unwrap()
            ==> t.rotated_right().depth(k) < t.depth(k),
        t.right() is Node && t.root().unwrap() < k && t.right().root().unwrap() < k
            ==> t.rotated_left().depth(k) < t.depth(k),
        t.left() is Node && t.left().right() is Node && k < t.root().unwrap()
            && t.left().root().unwrap() < k ==> Shape::node(
            t.left().rotated_left(),
            t.root().unwrap(),
            t.right(),
        ).rotated_right().depth(k) < t.depth(k),
        t.right() is Node && t.right().left() is Node && t.root().unwrap() < k
            && k < t.right().root().unwrap() ==> Shape::node(
            t.left(),
            t.root().unwrap(),
            t.right().rotated_right(),
        ).rotated_left().depth(k) < t.depth(k),
{
    reveal_with_fuel(Shape::depth, 4);
}

/// The tree that takes in the new key `k`.
///
/// At every node the key goes to the side that the order gives. Before it
/// descends, the sizes decide: where the subtree that the key is headed for
/// is at least as large as the subtree on the other side of the node, the
/// node is rotated (once, or twice where the key lies between the node and
/// its child) and the decision is taken again at the new top.
pub open spec fn sbt_attach(t: Shape, k: nat) -> Shape
    decreases t.depth(k),
{
    match t {
        Shape::Leaf => Shape::single(k),
        Shape::Node(l, key, r) => if k < key {
            match *l {
                Shape::Leaf => Shape::node(Shape::single(k), key, *r),
                Shape::Node(ll, lk, lr) => if k < lk {
                    if l.count() >= r.count() {
                        proof {
                            lemma_depth_after_rotation(t, k);
                        }
                        sbt_attach(t.rotated_right(), k)
                    } else {
                        Shape::node(sbt_attach(*l, k), key, *r)
                    }
                } else if lk < k {
                    if lr.count() >= r.count() {
                        if lr.count() == 0 && r.count() == 0 {
                            Shape::node(*l, k, Shape::single(key))
                        } else {
                            proof {
                                lemma_depth_after_rotation(t, k);
                            }
                            sbt_attach(Shape::node(l.rotated_left(), key, *r).rotated_right(), k)
                        }
                    } else {
                        Shape::node(sbt_attach(*l, k), key, *r)
                    }
                } else {
                    t
                },
            }
        } else if key < k {
            match *r {
                Shape::Leaf => Shape::node(*l, key, Shape::single(k)),
                Shape::Node(rl, rk, rr) => if rk < k {
                    if r.count() >= l.count() {
                        proof {
                            lemma_depth_after_rotation(t, k);
                        }
                        sbt_attach(t.rotated_left(), k)
                    } else {
                        Shape::node(*l, key, sbt_attach(*r, k))
                    }
                } else if k < rk {
                    if rl.count() >= l.count() {
                        if rl.count() == 0 && l.count() == 0 {
                            Shape::node(Shape::single(key), k, *r)
                        } else {
                            proof {
                                lemma_depth_after_rotation(t, k);
                            }
                            sbt_attach(Shape::node(*l, key, r.rotated_right()).rotated_left(), k)
                        }
                    } else {
                        Shape::node(*l, key, sbt_attach(*r, k))
                    }
                } else {
                    t
                },
            }
        } else {
            t
        },
    }
}

/// The tree after the insertion of `k`: a key that is there already changes
/// nothing.
pub open spec fn sbt_insert(t: Shape, k: nat) -> Shape {
    if t.contains(k) {
        t
    } else {
        sbt_attach(t, k)
    }
}

/// The tree after the removal of `k`, by plain search-tree deletion: a node
/// with at most one child gives way to that child; a node with two children
/// gives way to its neighbour in the order, taken from the larger of its two
/// subtrees (from the right one where they are equal).
pub open spec fn sbt_remove(t: Shape, k: nat) -> Shape
    decreases t,
{
    match t {
        Shape::Leaf => Shape::Leaf,
        Shape::Node(l, key, r) => if k < key {
            Shape::node(sbt_remove(*l, k), key, *r)
        } else if key < k {
            Shape::node(*l, key, sbt_remove(*r, k))
        } else if *l is Leaf {
            *r
        } else if *r is Leaf {
            *l
        } else if l.count() > r.count() {
            Shape::node(sbt_remove(*l, l.last()), l.last(), *r)
        } else {
            Shape::node(*l, r.first(), sbt_remove(*r, r.first()))
        },
    }
}

/// The new key comes in and nothing else changes: the tree that takes in a
/// key that it did not hold keeps the search-tree order, holds that key
/// beside the keys it held, and has one node more.
pub proof fn lemma_sbt_attach(t: Shape, k: nat)
    requires
        t.ordered(),
        !t.contains(k),
    ensures
        sbt_attach(t, k).ordered(),
        sbt_attach(t, k).keys() =~= t.keys().insert(k),
        sbt_attach(t, k).count() == t.count() + 1,
    decreases t.depth(k),
{
    lemma_depth_after_rotation(t, k);
    let res = sbt_attach(t, k);
    match t {
        Shape::Leaf => {
            lemma_single(k);
        },
        Shape::Node(l, key, r) => if k < key {
            match *l {
                Shape::Leaf => {
                    lemma_single(k);
                    assert(res == Shape::node(Shape::single(k), key, *r));
                    assert(l.keys() =~= Set::<nat>::empty());
                    assert(l.count() == 0);
                },
                Shape::Node(ll, lk, lr) => if k < lk {
                    if l.count() >= r.count() {
                        lemma_rotated_right(t);
                        lemma_sbt_attach(t.rotated_right(), k);
                    } else {
                        lemma_sbt_attach(*l, k);
                        assert(res == Shape::node(sbt_attach(*l, k), key, *r));
                    }
                } else if lk < k {
                    if lr.count() >= r.count() {
                        if lr.count() == 0 && r.count() == 0 {
                            lemma_single(key);
                            lemma_empty(*lr);
                            lemma_empty(*r);
                            assert(res == Shape::node(*l, k, Shape::single(key)));
                            assert(l.keys().contains(lk));
                            assert(l.ordered());
                            assert forall|x: nat| #[trigger] l.keys().contains(x) implies x < k by {
                                if ll.keys().contains(x) {
                                    assert(x < lk);
                                } else if lr.keys().contains(x) {
                                } else {
                                    assert(x == lk);
                                }
                            }
                        } else {
                            lemma_rotated_left(*l);
                            let mid = Shape::node(l.rotated_left(), key, *r);
                            assert(mid.ordered());
                            assert(mid.keys() =~= t.keys());
                            assert(mid.count() == t.count());
                            lemma_rotated_right(mid);
                            lemma_sbt_attach(mid.rotated_right(), k);
                        }
                    } else {
                        lemma_sbt_attach(*l, k);
                        assert(res == Shape::node(sbt_attach(*l, k), key, *r));
                    }
                } else {
                    assert(l.keys().contains(k));
                },
            }
        } else if key < k {
            match *r {
                Shape::Leaf => {
                    lemma_single(k);
                    assert(res == Shape::node(*l, key, Shape::single(k)));
                    assert(r.keys() =~= Set::<nat>::empty());
                    assert(r.count() == 0);
                },
                Shape::Node(rl, rk, rr) => if rk < k {
                    if r.count() >= l.count() {
                        lemma_rotated_left(t);
                        lemma_sbt_attach(t.rotated_left(), k);
                    } else {
                        lemma_sbt_attach(*r, k);
                        assert(res == Shape::node(*l, key, sbt_attach(*r, k)));
                    }
                } else if k < rk {
                    if rl.count() >= l.count() {
                        if rl.count() == 0 && l.count() == 0 {
                            lemma_single(key);
                            lemma_empty(*rl);
                            lemma_empty(*l);
                            assert(res == Shape::node(Shape::single(key), k, *r));
                            assert(r.keys().contains(rk));
                            assert(r.ordered());
                            assert forall|x: nat| #[trigger] r.keys().contains(x) implies k < x by {
                                if rr.keys().contains(x) {
                                    assert(rk < x);
                                } else if rl.keys().contains(x) {
                                } else {
                                    assert(x == rk);
                                }
                            }
                        } else {
                            lemma_rotated_right(*r);
                            let mid = Shape::node(*l, key, r.rotated_right());
                            assert(mid.ordered());
                            assert(mid.keys() =~= t.keys());
                            assert(mid.count() == t.count());
                            lemma_rotated_left(mid);
                            lemma_sbt_attach(mid.rotated_left(), k);
                        }
                    } else {
                        lemma_sbt_attach(*r, k);
                        assert(res == Shape::node(*l, key, sbt_attach(*r, k)));
                    }
                } else {
                    assert(r.keys().contains(k));
                },
            }
        } else {
        },
    }
}

/// A removal takes the key out and nothing else: the tree keeps the
/// search-tree order, and where it held the key it has one node less.
pub proof fn lemma_sbt_remove(t: Shape, k: nat)
    requires
        t.ordered(),
    ensures
        sbt_remove(t, k).ordered(),
        sbt_remove(t, k).keys() =~= t.keys().remove(k),
        t.contains(k) ==> sbt_remove(t, k).count() + 1 == t.count(),
        !t.contains(k) ==> sbt_remove(t, k) == t,
    decreases t,
{
    let res = sbt_remove(t, k);
    match t {
        Shape::Leaf => {},
        Shape::Node(l, key, r) => {
            lemma_search_side(t, k);
            if k < key {
                lemma_sbt_remove(*l, k);
                assert(res == Shape::node(sbt_remove(*l, k), key, *r));
                assert(!r.keys().contains(k));
            } else if key < k {
                lemma_sbt_remove(*r, k);
                assert(res == Shape::node(*l, key, sbt_remove(*r, k)));
                assert(!l.keys().contains(k));
            } else if *l is Leaf {
                lemma_empty(*l);
                assert(!r.keys().contains(k));
            } else if *r is Leaf {
                lemma_empty(*r);
                assert(!l.keys().contains(k));
            } else if l.count() > r.count() {
                let m = l.last();
                lemma_last_is_greatest(*l);
                lemma_sbt_remove(*l, m);
                assert(l.keys().contains(m));
                assert(res == Shape::node(sbt_remove(*l, m), m, *r));
                assert(!r.keys().contains(k));
                assert(!l.keys().contains(k));
                assert forall|x: nat| #[trigger] r.keys().contains(x) implies m < x by {
                }
            } else {
                let m = r.first();
                lemma_first_is_least(*r);
                lemma_sbt_remove(*r, m);
                assert(r.keys().contains(m));
                assert(res == Shape::node(*l, m, sbt_remove(*r, m)));
                assert(!r.keys().contains(k));
                assert(!l.keys().contains(k));
                assert forall|x: nat| #[trigger] l.keys().contains(x) implies x < m by {
                }
            }
        },
    }
}

/// Every node of `t` has in its record the number of nodes of the subtree
/// under it: one more than the sizes of its two subtrees together.
pub open spec fn sized<T: Idx>(nodes: Seq<Node<T>>, t: Shape) -> bool
    decreases t,
{
    match t {
        Shape::Leaf => true,
        Shape::Node(l, k, r) => {
            &&& k < nodes.len()
            &&& nodes[k as int].size == l.count() + r.count() + 1
            &&& sized(nodes, *l)
            &&& sized(nodes, *r)
        },
    }
}

/// The arena holds under `root` the size-balanced tree `t`: the links spell
/// it out, it is in search-tree order, and every size is right.
pub open spec fn holds_sbt<T: Idx>(nodes: Seq<Node<T>>, root: Option<T>, t: Shape) -> bool {
    &&& linked(nodes, root, t)
    &&& t.ordered()
    &&& sized(nodes, t)
}

/// What is reachable from `root` is a size-balanced tree.
pub open spec fn is_sbt<T: Idx>(nodes: Seq<Node<T>>, root: Option<T>) -> bool {
    holds_sbt(nodes, root, shape_of(nodes, root))
}

/// What the size-balanced strategy keeps true between calls: what is
/// reachable from `root` is a size-balanced tree, and every other slot is
/// empty.
pub open spec fn sbt_valid<T: Idx>(nodes: Seq<Node<T>>, root: Option<T>) -> bool {
    &&& is_sbt(nodes, root)
    &&& idle_outside(nodes, shape_of(nodes, root))
}

/// The number in the record of `child`; 0 where there is no child or the
/// child lies beyond the arena.
pub open spec fn size_at<T: Idx>(nodes: Seq<Node<T>>, child: Option<T>) -> nat {
    match child {
        Some(c) => if c.value() < nodes.len() {
            nodes[c.value() as int].size as nat
        } else {
            0
        },
        None => 0,
    }
}

/// A size-balanced tree stays one when nothing is written to the slots of
/// its keys.
pub proof fn lemma_sbt_frame<T: Idx>(a: Seq<Node<T>>, b: Seq<Node<T>>, root: Option<T>, t: Shape)
    requires
        holds_sbt(a, root, t),
        same_on(a, b, t),
    ensures
        holds_sbt(b, root, t),
{
    lemma_linked_frame(a, b, root, t);
    lemma_linked_in_range(a, root, t);
    lemma_sized_frame(a, b, t);
}

/// The sizes of a tree stay right when nothing is written to the slots of
/// its keys.
proof fn lemma_sized_frame<T: Idx>(a: Seq<Node<T>>, b: Seq<Node<T>>, t: Shape)
    requires
        sized(a, t),
        same_on(a, b, t),
    ensures
        sized(b, t),
    decreases t,
{
    match t {
        Shape::Leaf => {},
        Shape::Node(l, k, r) => {
            assert(t.keys().contains(k));
            assert forall|x: nat| #[trigger] l.keys().contains(x) && x < a.len() implies a[x as int]
                == b[x as int] by {
                assert(t.keys().contains(x));
            }
            assert forall|x: nat| #[trigger] r.keys().contains(x) && x < a.len() implies a[x as int]
                == b[x as int] by {
                assert(t.keys().contains(x));
            }
            lemma_sized_frame(a, b, *l);
            lemma_sized_frame(a, b, *r);
        },
    }
}

/// The size in the record of a child is the number of nodes under it.
pub proof fn lemma_size_at<T: Idx>(nodes: Seq<Node<T>>, root: Option<T>, t: Shape)
    requires
        linked(nodes, root, t),
        sized(nodes, t),
    ensures
        size_at(nodes, root) == t.count(),
        t.count() <= usize::MAX,
{
}

/// The size in the record of `child`; 0 where there is none.
fn child_size<T: Idx, S: Tree<T>>(s: &S, child: Option<T>) -> (r: usize)
    ensures
        r == size_at(s@, child),
{
    match child {
        Some(c) => match s.get(c) {
            Some(n) => n.size,
            None => 0,
        },
        None => 0,
    }
}

/// Rotates the tree under `root` to the left and returns the new top;
/// `None`, and nothing written, where `root` has no right child.
fn rotate_left_in<T: Idx, S: Tree<T>>(s: &mut S, root: T) -> (r: Option<T>)
    requires
        is_sbt(old(s)@, Some(root)),
    ensures
        final(s)@.len() == old(s)@.len(),
        match r {
            None => shape_of(old(s)@, Some(root)).right() is Leaf && final(s)@ == old(s)@,
            Some(top) => {
                &&& shape_of(old(s)@, Some(root)).right() is Node
                &&& holds_sbt(final(s)@, Some(top), shape_of(old(s)@, Some(root)).rotated_left())
                &&& forall|i: int|
                    0 <= i < old(s)@.len() && i != root.value() && i != top.value()
                        ==> #[trigger] final(s)@[i] == old(s)@[i]
            },
        },
{
    let ghost t = shape_of(s@, Some(root));
    let ghost a = s@;
    match s.get(root) {
        None => None,
        Some(n) => match n.right {
            None => {
                proof {
                    assert(linked(a, n.right, t.right()));
                }
                None
            },
            Some(right) => match s.get(right) {
                None => {
                    proof {
                        assert(linked(a, n.right, t.right()));
                    }
                    None
                },
                Some(rn) => {
                    proof {
                        assert(linked(a, n.right, t.right()));
                        lemma_rotate_left_sizes(a, root, t);
                    }
                    let inner = child_size(s, n.left) + child_size(s, rn.left) + 1;
                    s.set(root, Node { size: inner, left: n.left, right: rn.left });
                    s.set(right, Node { size: n.size, left: Some(root), right: rn.right });
                    proof {
                        lemma_rotate_left_holds(a, s@, root, right, t);
                    }
                    Some(right)
                },
            },
        },
    }
}

/// What a rotation to the left reads: the right child is there, and the
/// sizes that go into the new size of the root are those of its subtrees.
proof fn lemma_rotate_left_sizes<T: Idx>(a: Seq<Node<T>>, root: T, t: Shape)
    requires
        holds_sbt(a, Some(root), t),
        t.right() is Node,
    ensures
        size_at(a, a[root.value() as int].left) == t.left().count(),
        a[root.value() as int].right is Some,
        a[root.value() as int].right.unwrap().value() == t.right().root().unwrap(),
        t.right().root().unwrap() < a.len(),
        size_at(a, a[t.right().root().unwrap() as int].left) == t.right().left().count(),
        t.left().count() + t.right().left().count() + 1 <= usize::MAX,
        a[root.value() as int].size == t.count(),
{
    let n = a[root.value() as int];
    let rk = t.right().root().unwrap();
    assert(linked(a, n.right, t.right()));
    assert(sized(a, t.right()));
    lemma_size_at(a, n.left, t.left());
    lemma_size_at(a, a[rk as int].left, t.right().left());
    assert(t.count() == t.left().count() + t.right().count() + 1);
    assert(t.right().count() == t.right().left().count() + t.right().right().count() + 1);
}

/// The two records that a rotation to the left writes make the rotated
/// tree, with its sizes.
proof fn lemma_rotate_left_holds<T: Idx>(
    a: Seq<Node<T>>,
    b: Seq<Node<T>>,
    root: T,
    right: T,
    t: Shape,
)
    requires
        holds_sbt(a, Some(root), t),
        t.right() is Node,
        a[root.value() as int].right == Some(right),
        b == a.update(
            root.value() as int,
            (Node {
                size: (t.left().count() + t.right().left().count() + 1) as usize,
                left: a[root.value() as int].left,
                right: a[right.value() as int].left,
            }),
        ).update(
            right.value() as int,
            (Node {
                size: a[root.value() as int].size,
                left: Some(root),
                right: a[right.value() as int].right,
            }),
        ),
    ensures
        holds_sbt(b, Some(right), t.rotated_left()),
{
    lemma_rotate_left_sizes(a, root, t);
    lemma_rotated_left(t);
    let key = root.value();
    let rk = right.value();
    let l = t.left();
    let r = t.right();
    let rl = r.left();
    let rr = r.right();
    let n = a[key as int];
    let rn = a[rk as int];
    assert(linked(a, n.right, r));
    assert(sized(a, r));
    assert(r.ordered());
    assert(r.keys().contains(rk));
    assert(key < rk);
    assert forall|x: nat| #[trigger] l.keys().contains(x) implies x != key && x != rk by {}
    assert forall|x: nat| #[trigger] rl.keys().contains(x) implies x != key && x != rk by {
        assert(r.keys().contains(x));
    }
    assert forall|x: nat| #[trigger] rr.keys().contains(x) implies x != key && x != rk by {
        assert(r.keys().contains(x));
    }
    lemma_sbt_frame(a, b, n.left, l);
    lemma_sbt_frame(a, b, rn.left, rl);
    lemma_sbt_frame(a, b, rn.right, rr);
    let inner = Shape::node(l, key, rl);
    assert(t.rotated_left() == Shape::node(inner, rk, rr));
    assert(linked(b, Some(root), inner));
    assert(sized(b, inner));
    assert(linked(b, Some(right), t.rotated_left()));
    assert(sized(b, t.rotated_left()));
}

/// Rotates the tree under `root` to the right and returns the new top;
/// `None`, and nothing written, where `root` has no left child.
fn rotate_right_in<T: Idx, S: Tree<T>>(s: &mut S, root: T) -> (r: Option<T>)
    requires
        is_sbt(old(s)@, Some(root)),
    ensures
        final(s)@.len() == old(s)@.len(),
        match r {
            None => shape_of(old(s)@, Some(root)).left() is Leaf && final(s)@ == old(s)@,
            Some(top) => {
                &&& shape_of(old(s)@, Some(root)).left() is Node
                &&& holds_sbt(final(s)@, Some(top), shape_of(old(s)@, Some(root)).rotated_right())
                &&& forall|i: int|
                    0 <= i < old(s)@.len() && i != root.value() && i != top.value()
                        ==> #[trigger] final(s)@[i] == old(s)@[i]
            },
        },
{
    let ghost t = shape_of(s@, Some(root));
    let ghost a = s@;
    match s.get(root) {
        None => None,
        Some(n) => match n.left {
            None => {
                proof {
                    assert(linked(a, n.left, t.left()));
                }
                None
            },
            Some(left) => match s.get(left) {
                None => {
                    proof {
                        assert(linked(a, n.left, t.left()));
                    }
                    None
                },
                Some(ln) => {
                    proof {
                        assert(linked(a, n.left, t.left()));
                        lemma_rotate_right_sizes(a, root, t);
                    }
                    let inner = child_size(s, n.right) + child_size(s, ln.right) + 1;
                    s.set(root, Node { size: inner, left: ln.right, right: n.right });
                    s.set(left, Node { size: n.size, left: ln.left, right: Some(root) });
                    proof {
                        lemma_rotate_right_holds(a, s@, root, left, t);
                    }
                    Some(left)
                },
            },
        },
    }
}

/// What a rotation to the right reads: the left child is there, and the
/// sizes that go into the new size of the root are those of its subtrees.
proof fn lemma_rotate_right_sizes<T: Idx>(a: Seq<Node<T>>, root: T, t: Shape)
    requires
        holds_sbt(a, Some(root), t),
        t.left() is Node,
    ensures
        size_at(a, a[root.value() as int].right) == t.right().count(),
        a[root.value() as int].left is Some,
        a[root.value() as int].left.unwrap().value() == t.left().root().unwrap(),
        t.left().root().unwrap() < a.len(),
        size_at(a, a[t.left().root().unwrap() as int].right) == t.left().right().count(),
        t.right().count() + t.left().right().count() + 1 <= usize::MAX,
        a[root.value() as int].size == t.count(),
{
    let n = a[root.value() as int];
    let lk = t.left().root().unwrap();
    assert(linked(a, n.left, t.left()));
    assert(sized(a, t.left()));
    lemma_size_at(a, n.right, t.right());
    lemma_size_at(a, a[lk as int].right, t.left().right());
    assert(t.count() == t.right().count() + t.left().count() + 1);
    assert(t.left().count() == t.left().right().count() + t.left().left().count() + 1);
}

/// The two records that a rotation to the right writes make the rotated
/// tree, with its sizes.
proof fn lemma_rotate_right_holds<T: Idx>(
    a: Seq<Node<T>>,
    b: Seq<Node<T>>,
    root: T,
    left: T,
    t: Shape,
)
    requires
        holds_sbt(a, Some(root), t),
        t.left() is Node,
        a[root.value() as int].left == Some(left),
        b == a.update(
            root.value() as int,
            (Node {
                size: (t.left().right().count() + t.right().count() + 1) as usize,
                left: a[left.value() as int].right,
                right: a[root.value() as int].right,
            }),
        ).update(
            left.value() as int,
            (Node {
                size: a[root.value() as int].size,
                left: a[left.value() as int].left,
                right: Some(root),
            }),
        ),
    ensures
        holds_sbt(b, Some(left), t.rotated_right()),
{
    lemma_rotate_right_sizes(a, root, t);
    lemma_rotated_right(t);
    let key = root.value();
    let lk = left.value();
    let l = t.left();
    let r = t.right();
    let ll = l.left();
    let lr = l.right();
    let n = a[key as int];
    let ln = a[lk as int];
    assert(linked(a, n.left, l));
    assert(sized(a, l));
    assert(l.ordered());
    assert(l.keys().contains(lk));
    assert(lk < key);
    assert forall|x: nat| #[trigger] r.keys().contains(x) implies x != key && x != lk by {}
    assert forall|x: nat| #[trigger] lr.keys().contains(x) implies x != key && x != lk by {
        assert(l.keys().contains(x));
    }
    assert forall|x: nat| #[trigger] ll.keys().contains(x) implies x != key && x != lk by {
        assert(l.keys().contains(x));
    }
    lemma_sbt_frame(a, b, n.right, r);
    lemma_sbt_frame(a, b, ln.right, lr);
    lemma_sbt_frame(a, b, ln.left, ll);
    let inner = Shape::node(lr, key, r);
    assert(t.rotated_right() == Shape::node(ll, lk, inner));
    assert(linked(b, Some(root), inner));
    assert(sized(b, inner));
    assert(linked(b, Some(left), t.rotated_right()));
    assert(sized(b, t.rotated_right()));
}

/// A record written over the root joins two size-balanced trees into one.
proof fn lemma_sbt_join<T: Idx>(
    b: Seq<Node<T>>,
    c: Seq<Node<T>>,
    root: T,
    rec: Node<T>,
    l: Shape,
    r: Shape,
)
    requires
        holds_sbt(b, rec.left, l),
        holds_sbt(b, rec.right, r),
        forall|x: nat| #[trigger] l.keys().contains(x) ==> x < root.value(),
        forall|x: nat| #[trigger] r.keys().contains(x) ==> root.value() < x,
        root.value() < b.len(),
        c == b.update(root.value() as int, rec),
        rec.size == l.count() + r.count() + 1,
    ensures
        holds_sbt(c, Some(root), Shape::node(l, root.value(), r)),
{
    assert forall|x: nat| #[trigger] l.keys().contains(x) && x < b.len() implies b[x as int]
        == c[x as int] by {}
    assert forall|x: nat| #[trigger] r.keys().contains(x) && x < b.len() implies b[x as int]
        == c[x as int] by {}
    lemma_sbt_frame(b, c, rec.left, l);
    lemma_sbt_frame(b, c, rec.right, r);
}

/// Puts `idx`, which is not in the tree `t` under `root`, into it, and
/// returns the new top of that tree.
fn insert_impl<T: Idx, S: Tree<T>>(s: &mut S, root: T, idx: T, Ghost(t): Ghost<Shape>) -> (r: T)
    requires
        holds_sbt(old(s)@, Some(root), t),
        !t.contains(idx.value()),
        idx.value() < old(s)@.len(),
        old(s)@[idx.value() as int] == Node::<T>::empty(),
        t.count() < usize::MAX,
    ensures
        holds_sbt(final(s)@, Some(r), sbt_attach(t, idx.value())),
        same_outside(old(s)@, final(s)@, t, idx.value()),
    decreases t.depth(idx.value()), 1nat,
{
    proof {
        assert(t.keys().contains(root.value()));
    }
    match s.get(root) {
        Some(n) => if s.is_left_of(idx, root) {
            insert_left(s, root, idx, n, Ghost(t))
        } else {
            insert_right(s, root, idx, n, Ghost(t))
        },
        None => root,
    }
}

/// The insertion of `idx` at `root` where `idx` sorts before `root`.
fn insert_left<T: Idx, S: Tree<T>>(s: &mut S, root: T, idx: T, n: Node<T>, Ghost(t): Ghost<Shape>) -> (r: T)
    requires
        holds_sbt(old(s)@, Some(root), t),
        !t.contains(idx.value()),
        idx.value() < old(s)@.len(),
        old(s)@[idx.value() as int] == Node::<T>::empty(),
        t.count() < usize::MAX,
        n == old(s)@[root.value() as int],
        idx.value() < root.value(),
    ensures
        holds_sbt(final(s)@, Some(r), sbt_attach(t, idx.value())),
        same_outside(old(s)@, final(s)@, t, idx.value()),
    decreases t.depth(idx.value()), 0nat,
{
    let ghost a = s@;
    let ghost k = idx.value();
    let ghost key = root.value();
    let ghost l = t.left();
    let ghost rt = t.right();
    proof {
        lemma_depth_after_rotation(t, k);
        lemma_shape_of(a, Some(root), t);
        lemma_single(k);
        assert(t.keys().contains(key));
        assert(holds_sbt(a, n.left, l));
        assert(holds_sbt(a, n.right, rt));
        lemma_size_at(a, n.left, l);
        lemma_size_at(a, n.right, rt);
    }
    match n.left {
        None => {
            s.set(idx, Node { size: 1, left: None, right: None });
            proof {
                lemma_empty(l);
                let b = s@;
                assert(holds_sbt(b, Some(idx), Shape::single(k))) by {
                    reveal_with_fuel(linked, 2);
                    reveal_with_fuel(sized, 2);
                    reveal_with_fuel(Shape::count, 2);
                }
                assert forall|x: nat| #[trigger] rt.keys().contains(x) && x < a.len() implies a[x as int]
                    == b[x as int] by {}
                lemma_sbt_frame(a, b, n.right, rt);
            }
            let ghost b = s@;
            let rec = Node { size: n.size + 1, left: Some(idx), right: n.right };
            s.set(root, rec);
            proof {
                lemma_sbt_join(b, s@, root, rec, Shape::single(k), rt);
            }
            root
        },
        Some(left) => {
            let ln = match s.get(left) {
                Some(ln) => ln,
                None => {
                    return root;
                },
            };
            let left_size = ln.size;
            let right_size = child_size(s, n.right);
            proof {
                assert(l.keys().contains(left.value()));
                assert(holds_sbt(a, ln.left, l.left()));
                assert(holds_sbt(a, ln.right, l.right()));
                lemma_size_at(a, ln.right, l.right());
            }
            if s.is_left_of(idx, left) {
                if left_size >= right_size {
                    proof {
                        lemma_rotated_right(t);
                    }
                    let top = match rotate_right_in(s, root) {
                        Some(top) => top,
                        None => {
                            return root;
                        },
                    };
                    proof {
                        assert(t.keys().contains(top.value()));
                    }
                    insert_impl(s, top, idx, Ghost(t.rotated_right()))
                } else {
                    let nl = insert_impl(s, left, idx, Ghost(l));
                    proof {
                        lemma_sbt_attach(l, k);
                        let b = s@;
                        assert forall|x: nat| #[trigger] rt.keys().contains(x) && x < a.len() implies a[x as int]
                            == b[x as int] by {}
                        lemma_sbt_frame(a, b, n.right, rt);
                    }
                    let ghost b = s@;
                    let rec = Node { size: n.size + 1, left: Some(nl), right: n.right };
                    s.set(root, rec);
                    proof {
                        lemma_sbt_join(b, s@, root, rec, sbt_attach(l, k), rt);
                    }
                    root
                }
            } else {
                let lr_size = child_size(s, ln.right);
                if lr_size >= right_size {
                    if lr_size == 0 && right_size == 0 {
                        proof {
                            lemma_empty(l.right());
                            lemma_empty(rt);
                        }
                        let rec = Node { size: 1, left: None, right: n.right };
                        s.set(root, rec);
                        let ghost b = s@;
                        proof {
                            assert(holds_sbt(b, Some(root), Shape::single(key))) by {
                                reveal_with_fuel(linked, 2);
                                reveal_with_fuel(sized, 2);
                                reveal_with_fuel(Shape::count, 2);
                                lemma_single(key);
                            }
                            assert forall|x: nat| #[trigger] l.keys().contains(x) && x < a.len() implies a[x as int]
                                == b[x as int] by {}
                            lemma_sbt_frame(a, b, Some(left), l);
                            assert forall|x: nat| #[trigger] l.keys().contains(x) implies x < k by {
                                if l.left().keys().contains(x) {
                                    assert(x < left.value());
                                }
                            }
                        }
                        let top = Node { size: left_size + 2, left: Some(left), right: Some(root) };
                        s.set(idx, top);
                        proof {
                            lemma_sbt_join(b, s@, idx, top, l, Shape::single(key));
                        }
                        idx
                    } else {
                        proof {
                            lemma_shape_of(a, Some(left), l);
                            lemma_rotated_left(l);
                        }
                        let nl = rotate_left_in(s, left);
                        let ghost b = s@;
                        proof {
                            assert(l.keys().contains(nl.unwrap().value()));
                            assert forall|x: nat| #[trigger] rt.keys().contains(x) && x < a.len() implies a[x as int]
                                == b[x as int] by {}
                            lemma_sbt_frame(a, b, n.right, rt);
                        }
                        let rec = Node { size: n.size, left: nl, right: n.right };
                        s.set(root, rec);
                        let ghost mid = Shape::node(l.rotated_left(), key, rt);
                        proof {
                            lemma_sbt_join(b, s@, root, rec, l.rotated_left(), rt);
                            lemma_shape_of(s@, Some(root), mid);
                            lemma_rotated_right(mid);
                        }
                        let top = match rotate_right_in(s, root) {
                            Some(top) => top,
                            None => {
                                return root;
                            },
                        };
                        proof {
                            assert(mid.keys().contains(top.value()));
                        }
                        insert_impl(s, top, idx, Ghost(mid.rotated_right()))
                    }
                } else {
                    let nl = insert_impl(s, left, idx, Ghost(l));
                    proof {
                        lemma_sbt_attach(l, k);
                        let b = s@;
                        assert forall|x: nat| #[trigger] rt.keys().contains(x) && x < a.len() implies a[x as int]
                            == b[x as int] by {}
                        lemma_sbt_frame(a, b, n.right, rt);
                    }
                    let ghost b = s@;
                    let rec = Node { size: n.size + 1, left: Some(nl), right: n.right };
                    s.set(root, rec);
                    proof {
                        lemma_sbt_join(b, s@, root, rec, sbt_attach(l, k), rt);
                    }
                    root
                }
            }
        },
    }
}

/// The insertion of `idx` at `root` where `idx` sorts after `root`.
fn insert_right<T: Idx, S: Tree<T>>(s: &mut S, root: T, idx: T, n: Node<T>, Ghost(t): Ghost<Shape>) -> (r: T)
    requires
        holds_sbt(old(s)@, Some(root), t),
        !t.contains(idx.value()),
        idx.value() < old(s)@.len(),
        old(s)@[idx.value() as int] == Node::<T>::empty(),
        t.count() < usize::MAX,
        n == old(s)@[root.value() as int],
        idx.value() > root.value(),
    ensures
        holds_sbt(final(s)@, Some(r), sbt_attach(t, idx.value())),
        same_outside(old(s)@, final(s)@, t, idx.value()),
    decreases t.depth(idx.value()), 0nat,
{
    let ghost a = s@;
    let ghost k = idx.value();
    let ghost key = root.value();
    let ghost l = t.left();
    let ghost rt = t.right();
    proof {
        lemma_depth_after_rotation(t, k);
        lemma_shape_of(a, Some(root), t);
        lemma_single(k);
        assert(t.keys().contains(key));
        assert(holds_sbt(a, n.left, l));
        assert(holds_sbt(a, n.right, rt));
        lemma_size_at(a, n.left, l);
        lemma_size_at(a, n.right, rt);
    }
    match n.right {
        None => {
            s.set(idx, Node { size: 1, left: None, right: None });
            proof {
                lemma_empty(rt);
                let b = s@;
                assert(holds_sbt(b, Some(idx), Shape::single(k))) by {
                    reveal_with_fuel(linked, 2);
                    reveal_with_fuel(sized, 2);
                    reveal_with_fuel(Shape::count, 2);
                }
                assert forall|x: nat| #[trigger] l.keys().contains(x) && x < a.len() implies a[x as int]
                    == b[x as int] by {}
                lemma_sbt_frame(a, b, n.left, l);
            }
            let ghost b = s@;
            let rec = Node { size: n.size + 1, left: n.left, right: Some(idx) };
            s.set(root, rec);
            proof {
                lemma_sbt_join(b, s@, root, rec, l, Shape::single(k));
            }
            root
        },
        Some(right) => {
            let rn = match s.get(right) {
                Some(rn) => rn,
                None => {
                    return root;
                },
            };
            let right_size = rn.size;
            let left_size = child_size(s, n.left);
            proof {
                assert(rt.keys().contains(right.value()));
                assert(holds_sbt(a, rn.right, rt.right()));
                assert(holds_sbt(a, rn.left, rt.left()));
                lemma_size_at(a, rn.left, rt.left());
            }
            if s.is_right_of(idx, right) {
                if right_size >= left_size {
                    proof {
                        lemma_rotated_left(t);
                    }
                    let top = match rotate_left_in(s, root) {
                        Some(top) => top,
                        None => {
                            return root;
                        },
                    };
                    proof {
                        assert(t.keys().contains(top.value()));
                    }
                    insert_impl(s, top, idx, Ghost(t.rotated_left()))
                } else {
                    let nr = insert_impl(s, right, idx, Ghost(rt));
                    proof {
                        lemma_sbt_attach(rt, k);
                        let b = s@;
                        assert forall|x: nat| #[trigger] l.keys().contains(x) && x < a.len() implies a[x as int]
                            == b[x as int] by {}
                        lemma_sbt_frame(a, b, n.left, l);
                    }
                    let ghost b = s@;
                    let rec = Node { size: n.size + 1, left: n.left, right: Some(nr) };
                    s.set(root, rec);
                    proof {
                        lemma_sbt_join(b, s@, root, rec, l, sbt_attach(rt, k));
                    }
                    root
                }
            } else {
                let rl_size = child_size(s, rn.left);
                if rl_size >= left_size {
                    if rl_size == 0 && left_size == 0 {
                        proof {
                            lemma_empty(rt.left());
                            lemma_empty(l);
                        }
                        let rec = Node { size: 1, left: n.left, right: None };
                        s.set(root, rec);
                        let ghost b = s@;
                        proof {
                            assert(holds_sbt(b, Some(root), Shape::single(key))) by {
                                reveal_with_fuel(linked, 2);
                                reveal_with_fuel(sized, 2);
                                reveal_with_fuel(Shape::count, 2);
                                lemma_single(key);
                            }
                            assert forall|x: nat| #[trigger] rt.keys().contains(x) && x < a.len() implies a[x as int]
                                == b[x as int] by {}
                            lemma_sbt_frame(a, b, Some(right), rt);
                            assert forall|x: nat| #[trigger] rt.keys().contains(x) implies k < x by {
                                if rt.right().keys().contains(x) {
                                    assert(right.value() < x);
                                }
                            }
                        }
                        let top = Node { size: right_size + 2, left: Some(root), right: Some(right) };
                        s.set(idx, top);
                        proof {
                            lemma_sbt_join(b, s@, idx, top, Shape::single(key), rt);
                        }
                        idx
                    } else {
                        proof {
                            lemma_shape_of(a, Some(right), rt);
                            lemma_rotated_right(rt);
                        }
                        let nr = rotate_right_in(s, right);
                        let ghost b = s@;
                        proof {
                            assert(rt.keys().contains(nr.unwrap().value()));
                            assert forall|x: nat| #[trigger] l.keys().contains(x) && x < a.len() implies a[x as int]
                                == b[x as int] by {}
                            lemma_sbt_frame(a, b, n.left, l);
                        }
                        let rec = Node { size: n.size, left: n.left, right: nr };
                        s.set(root, rec);
                        let ghost mid = Shape::node(l, key, rt.rotated_right());
                        proof {
                            lemma_sbt_join(b, s@, root, rec, l, rt.rotated_right());
                            lemma_shape_of(s@, Some(root), mid);
                            lemma_rotated_left(mid);
                        }
                        let top = match rotate_left_in(s, root) {
                            Some(top) => top,
                            None => {
                                return root;
                            },
                        };
                        proof {
                            assert(mid.keys().contains(top.value()));
                        }
                        insert_impl(s, top, idx, Ghost(mid.rotated_left()))
                    }
                } else {
                    let nr = insert_impl(s, right, idx, Ghost(rt));
                    proof {
                        lemma_sbt_attach(rt, k);
                        let b = s@;
                        assert forall|x: nat| #[trigger] l.keys().contains(x) && x < a.len() implies a[x as int]
                            == b[x as int] by {}
                        lemma_sbt_frame(a, b, n.left, l);
                    }
                    let ghost b = s@;
                    let rec = Node { size: n.size + 1, left: n.left, right: Some(nr) };
                    s.set(root, rec);
                    proof {
                        lemma_sbt_join(b, s@, root, rec, l, sbt_attach(rt, k));
                    }
                    root
                }
            }
        },
    }
}

/// Takes `idx`, which is in the tree `t` under `root`, out of it, resets its
/// record, and returns the new top of that tree.
fn remove_node<T: Idx, S: Tree<T>>(s: &mut S, root: T, idx: T, Ghost(t): Ghost<Shape>) -> (r:
    Option<T>)
    requires
        holds_sbt(old(s)@, Some(root), t),
        t.contains(idx.value()),
    ensures
        holds_sbt(final(s)@, r, sbt_remove(t, idx.value())),
        final(s)@.len() == old(s)@.len(),
        forall|i: int|
            0 <= i < old(s)@.len() && !t.keys().contains(i as nat) ==> #[trigger] final(s)@[i]
                == old(s)@[i],
        idx.value() < old(s)@.len(),
        final(s)@[idx.value() as int] == Node::<T>::empty(),
    decreases t,
{
    let ghost a = s@;
    let ghost k = idx.value();
    let ghost key = root.value();
    let ghost l = t.left();
    let ghost rt = t.right();
    proof {
        lemma_search_side(t, k);
        lemma_sbt_remove(t, k);
        lemma_linked_in_range(a, Some(root), t);
        assert(t.keys().contains(key));
    }
    let n = match s.get(root) {
        Some(n) => n,
        None => {
            return None;
        },
    };
    proof {
        assert(holds_sbt(a, n.left, l));
        assert(holds_sbt(a, n.right, rt));
        lemma_size_at(a, n.left, l);
        lemma_size_at(a, n.right, rt);
        lemma_empty(l);
        lemma_empty(rt);
    }
    if s.is_left_of(idx, root) {
        match n.left {
            None => None,
            Some(left) => {
                let nl = remove_node(s, left, idx, Ghost(l));
                let ghost b = s@;
                proof {
                    lemma_sbt_remove(l, k);
                    assert forall|x: nat| #[trigger] rt.keys().contains(x) && x < a.len() implies a[x as int]
                        == b[x as int] by {}
                    lemma_sbt_frame(a, b, n.right, rt);
                }
                let rec = Node { size: n.size - 1, left: nl, right: n.right };
                s.set(root, rec);
                proof {
                    lemma_sbt_join(b, s@, root, rec, sbt_remove(l, k), rt);
                }
                Some(root)
            },
        }
    } else if s.is_right_of(idx, root) {
        match n.right {
            None => None,
            Some(right) => {
                let nr = remove_node(s, right, idx, Ghost(rt));
                let ghost b = s@;
                proof {
                    lemma_sbt_remove(rt, k);
                    assert forall|x: nat| #[trigger] l.keys().contains(x) && x < a.len() implies a[x as int]
                        == b[x as int] by {}
                    lemma_sbt_frame(a, b, n.left, l);
                }
                let rec = Node { size: n.size - 1, left: n.left, right: nr };
                s.set(root, rec);
                proof {
                    lemma_sbt_join(b, s@, root, rec, l, sbt_remove(rt, k));
                }
                Some(root)
            },
        }
    } else {
        match (n.left, n.right) {
            (None, None) => {
                s.clear(root);
                None
            },
            (Some(left), None) => {
                s.clear(root);
                proof {
                    assert forall|x: nat| #[trigger] l.keys().contains(x) && x < a.len() implies a[x as int]
                        == s@[x as int] by {}
                    lemma_sbt_frame(a, s@, n.left, l);
                }
                Some(left)
            },
            (None, Some(right)) => {
                s.clear(root);
                proof {
                    assert forall|x: nat| #[trigger] rt.keys().contains(x) && x < a.len() implies a[x as int]
                        == s@[x as int] by {}
                    lemma_sbt_frame(a, s@, n.right, rt);
                }
                Some(right)
            },
            (Some(left), Some(right)) => {
                let left_size = child_size(s, n.left);
                let right_size = child_size(s, n.right);
                if left_size > right_size {
                    proof {
                        lemma_shape_of(a, Some(left), l);
                        lemma_last_is_greatest(l);
                    }
                    let m = s.rightest(left);
                    let nl = remove_node(s, left, m, Ghost(l));
                    let ghost b = s@;
                    s.clear(root);
                    let ghost mid = s@;
                    let ghost l2 = sbt_remove(l, m.value());
                    proof {
                        lemma_sbt_remove(l, m.value());
                        assert(l.keys().contains(m.value()));
                        assert forall|x: nat| #[trigger] rt.keys().contains(x) && x < a.len() implies a[x as int]
                            == mid[x as int] by {}
                        lemma_sbt_frame(a, mid, n.right, rt);
                        assert forall|x: nat| #[trigger] l2.keys().contains(x) && x < b.len() implies b[x as int]
                            == mid[x as int] by {
                            assert(l.keys().contains(x));
                        }
                        lemma_sbt_frame(b, mid, nl, l2);
                        assert forall|x: nat| #[trigger] l2.keys().contains(x) implies x < m.value() by {
                            assert(l.keys().contains(x));
                        }
                    }
                    let rec = Node { size: n.size - 1, left: nl, right: n.right };
                    s.set(m, rec);
                    proof {
                        lemma_sbt_join(mid, s@, m, rec, l2, rt);
                    }
                    Some(m)
                } else {
                    proof {
                        lemma_shape_of(a, Some(right), rt);
                        lemma_first_is_least(rt);
                    }
                    let m = s.leftest(right);
                    let nr = remove_node(s, right, m, Ghost(rt));
                    let ghost b = s@;
                    s.clear(root);
                    let ghost mid = s@;
                    let ghost r2 = sbt_remove(rt, m.value());
                    proof {
                        lemma_sbt_remove(rt, m.value());
                        assert(rt.keys().contains(m.value()));
                        assert forall|x: nat| #[trigger] l.keys().contains(x) && x < a.len() implies a[x as int]
                            == mid[x as int] by {}
                        lemma_sbt_frame(a, mid, n.left, l);
                        assert forall|x: nat| #[trigger] r2.keys().contains(x) && x < b.len() implies b[x as int]
                            == mid[x as int] by {
                            assert(rt.keys().contains(x));
                        }
                        lemma_sbt_frame(b, mid, nr, r2);
                        assert forall|x: nat| #[trigger] r2.keys().contains(x) implies m.value() < x by {
                            assert(rt.keys().contains(x));
                        }
                    }
                    let rec = Node { size: n.size - 1, left: n.left, right: nr };
                    s.set(m, rec);
                    proof {
                        lemma_sbt_join(mid, s@, m, rec, l, r2);
                    }
                    Some(m)
                }
            },
        }
    }
}

/// The number in the record of `child`, where there is such a record.
pub open spec fn size_of_child<T: Idx>(nodes: Seq<Node<T>>, child: Option<T>) -> Option<usize> {
    match child {
        Some(c) => if c.value() < nodes.len() {
            Some(nodes[c.value() as int].size)
        } else {
            None
        },
        None => None,
    }
}

/// A valid tree that takes in a handle of the arena has room for it in its
/// sizes, and is valid again with the handle in it.
proof fn lemma_insert_valid<T: Idx>(a: Seq<Node<T>>, b: Seq<Node<T>>, root: Option<T>, top: Option<T>, k: nat)
    requires
        sbt_valid(a, root),
        k < a.len(),
        a.len() <= usize::MAX,
        !shape_of(a, root).contains(k),
    ensures
        shape_of(a, root).count() < usize::MAX,
        a[k as int] == Node::<T>::empty(),
        holds_sbt(b, top, sbt_attach(shape_of(a, root), k)) && same_outside(
            a,
            b,
            shape_of(a, root),
            k,
        ) ==> sbt_valid(b, top) && shape_of(b, top) == sbt_attach(shape_of(a, root), k),
{
    let t = shape_of(a, root);
    let t2 = sbt_attach(t, k);
    lemma_sbt_attach(t, k);
    lemma_linked_in_range(a, root, t);
    assert forall|x: nat| #[trigger] t2.keys().contains(x) implies 0 <= x < a.len() by {}
    lemma_count_bound(t2, 0, a.len());
    if holds_sbt(b, top, t2) && same_outside(a, b, t, k) {
        lemma_shape_of(b, top, t2);
    }
}

/// The size-balanced strategy over any node store.
pub trait SizeBalanced<T: Idx>: Tree<T> {
    /// The size in the record at `idx`; `None` beyond the store's capacity.
    fn size(&self, idx: T) -> (r: Option<usize>)
        ensures
            r == size_of_child(self@, Some(idx)),
    {
        match self.get(idx) {
            Some(n) => Some(n.size),
            None => None,
        }
    }

    /// Writes the size in the record at `idx`; no effect beyond the store's
    /// capacity.
    fn set_size(&mut self, idx: T, size: usize)
        ensures
            final(self)@ == (if idx.value() < old(self)@.len() {
                old(self)@.update(
                    idx.value() as int,
                    Node { size, ..old(self)@[idx.value() as int] },
                )
            } else {
                old(self)@
            }),
    {
        match self.get(idx) {
            Some(n) => {
                self.set(idx, Node { size, left: n.left, right: n.right });
            },
            None => {},
        }
    }

    /// The size in the record of the left child of `idx`; `None` where there
    /// is no such record.
    fn left_size(&self, idx: T) -> (r: Option<usize>)
        ensures
            r == (if idx.value() < self@.len() {
                size_of_child(self@, self@[idx.value() as int].left)
            } else {
                None
            }),
    {
        match self.left(idx) {
            Some(l) => self.size(l),
            None => None,
        }
    }

    /// The size in the record of the right child of `idx`; `None` where
    /// there is no such record.
    fn right_size(&self, idx: T) -> (r: Option<usize>)
        ensures
            r == (if idx.value() < self@.len() {
                size_of_child(self@, self@[idx.value() as int].right)
            } else {
                None
            }),
    {
        match self.right(idx) {
            Some(r) => self.size(r),
            None => None,
        }
    }

    /// Adds one to the size in the record at `idx`; no effect beyond the
    /// store's capacity.
    fn inc_size(&mut self, idx: T)
        requires
            idx.value() < old(self)@.len() ==> old(self)@[idx.value() as int].size < usize::MAX,
        ensures
            final(self)@ == (if idx.value() < old(self)@.len() {
                old(self)@.update(
                    idx.value() as int,
                    Node {
                        size: (old(self)@[idx.value() as int].size + 1) as usize,
                        ..old(self)@[idx.value() as int]
                    },
                )
            } else {
                old(self)@
            }),
    {
        match self.size(idx) {
            Some(size) => {
                self.set_size(idx, size + 1);
            },
            None => {},
        }
    }

    /// Takes one from the size in the record at `idx`; no effect beyond the
    /// store's capacity.
    fn dec_size(&mut self, idx: T)
        requires
            idx.value() < old(self)@.len() ==> old(self)@[idx.value() as int].size > 0,
        ensures
            final(self)@ == (if idx.value() < old(self)@.len() {
                old(self)@.update(
                    idx.value() as int,
                    Node {
                        size: (old(self)@[idx.value() as int].size - 1) as usize,
                        ..old(self)@[idx.value() as int]
                    },
                )
            } else {
                old(self)@
            }),
    {
        match self.size(idx) {
            Some(size) => {
                self.set_size(idx, size - 1);
            },
            None => {},
        }
    }

    /// Sets the size in the record at `idx` to one more than the sizes of
    /// its two children together; no effect beyond the store's capacity.
    fn fix_size(&mut self, idx: T)
        requires
            idx.value() < old(self)@.len() ==> size_at(
                old(self)@,
                old(self)@[idx.value() as int].left,
            ) + size_at(old(self)@, old(self)@[idx.value() as int].right) + 1 <= usize::MAX,
        ensures
            final(self)@ == (if idx.value() < old(self)@.len() {
                old(self)@.update(
                    idx.value() as int,
                    Node {
                        size: (size_at(old(self)@, old(self)@[idx.value() as int].left) + size_at(
                            old(self)@,
                            old(self)@[idx.value() as int].right,
                        ) + 1) as usize,
                        ..old(self)@[idx.value() as int]
                    },
                )
            } else {
                old(self)@
            }),
    {
        let l = match self.left_size(idx) {
            Some(n) => n,
            None => 0,
        };
        let r = match self.right_size(idx) {
            Some(n) => n,
            None => 0,
        };
        if self.get(idx).is_some() {
            self.set_size(idx, l + r + 1);
        }
    }

    /// Rotates the tree under `root` to the left: its right child comes up
    /// and is returned, `root` becomes the left child of it, and the two
    /// sizes are set right. `None`, and nothing written, where `root` has no
    /// right child.
    fn rotate_left(&mut self, root: T) -> (r: Option<T>)
        requires
            is_sbt(old(self)@, Some(root)),
        ensures
            final(self)@.len() == old(self)@.len(),
            match r {
                None => shape_of(old(self)@, Some(root)).right() is Leaf && final(self)@ == old(
                    self,
                )@,
                Some(top) => {
                    &&& shape_of(old(self)@, Some(root)).right() is Node
                    &&& holds_sbt(
                        final(self)@,
                        Some(top),
                        shape_of(old(self)@, Some(root)).rotated_left(),
                    )
                    &&& forall|i: int|
                        0 <= i < old(self)@.len() && i != root.value() && i != top.value()
                            ==> #[trigger] final(self)@[i] == old(self)@[i]
                },
            },
    {
        rotate_left_in(self, root)
    }

    /// Rotates the tree under `root` to the right: its left child comes up
    /// and is returned, `root` becomes the right child of it, and the two
    /// sizes are set right. `None`, and nothing written, where `root` has no
    /// left child.
    fn rotate_right(&mut self, root: T) -> (r: Option<T>)
        requires
            is_sbt(old(self)@, Some(root)),
        ensures
            final(self)@.len() == old(self)@.len(),
            match r {
                None => shape_of(old(self)@, Some(root)).left() is Leaf && final(self)@ == old(
                    self,
                )@,
                Some(top) => {
                    &&& shape_of(old(self)@, Some(root)).left() is Node
                    &&& holds_sbt(
                        final(self)@,
                        Some(top),
                        shape_of(old(self)@, Some(root)).rotated_right(),
                    )
                    &&& forall|i: int|
                        0 <= i < old(self)@.len() && i != root.value() && i != top.value()
                            ==> #[trigger] final(self)@[i] == old(self)@[i]
                },
            },
    {
        rotate_right_in(self, root)
    }

    /// Inserts `idx` into the tree under `root` and returns the new root.
    ///
    /// The tree afterwards is the one that `sbt_insert` gives: it holds
    /// `idx` beside what it held. A handle that is in the tree already, or
    /// beyond the store's capacity, changes nothing.
    fn insert_sbt(&mut self, root: Option<T>, idx: T) -> (r: Option<T>)
        requires
            sbt_valid(old(self)@, root),
        ensures
            sbt_valid(final(self)@, r),
            final(self)@.len() == old(self)@.len(),
            idx.value() < old(self)@.len() ==> shape_of(final(self)@, r) == sbt_insert(
                shape_of(old(self)@, root),
                idx.value(),
            ),
            idx.value() < old(self)@.len() ==> keys_of(final(self)@, r) == keys_of(
                old(self)@,
                root,
            ).insert(idx.value()),
            idx.value() >= old(self)@.len() || keys_of(old(self)@, root).contains(idx.value())
                ==> r == root && final(self)@ == old(self)@,
    {
        let ghost a = self@;
        let ghost t = shape_of(a, root);
        let ghost k = idx.value();
        proof {
            lemma_linked_in_range(a, root, t);
            self.lemma_capacity();
        }
        if self.get(idx).is_none() {
            return root;
        }
        match root {
            None => {
                self.set_size(idx, 1);
                proof {
                    lemma_insert_valid(a, self@, root, Some(idx), k);
                    lemma_single(k);
                    assert(holds_sbt(self@, Some(idx), Shape::single(k))) by {
                        reveal_with_fuel(linked, 2);
                        reveal_with_fuel(sized, 2);
                        reveal_with_fuel(Shape::count, 2);
                    }
                    assert(t.keys() =~= Set::<nat>::empty());
                    assert(keys_of(self@, Some(idx)) =~= keys_of(a, root).insert(k));
                }
                Some(idx)
            },
            Some(top) => {
                if self.contains(top, idx) {
                    return root;
                }
                proof {
                    lemma_insert_valid(a, a, root, root, k);
                }
                let r = insert_impl(self, top, idx, Ghost(t));
                proof {
                    lemma_insert_valid(a, self@, root, Some(r), k);
                    lemma_sbt_attach(t, k);
                    assert(keys_of(self@, Some(r)) =~= keys_of(a, root).insert(k));
                }
                Some(r)
            },
        }
    }

    /// Removes `idx` from the tree under `root`, resets its record, and
    /// returns the new root: `None` once the tree is empty.
    ///
    /// The tree afterwards is the one that `sbt_remove` gives: it holds what
    /// it held but `idx`. A handle that is not in the tree changes nothing.
    fn remove_sbt(&mut self, root: Option<T>, idx: T) -> (r: Option<T>)
        requires
            sbt_valid(old(self)@, root),
        ensures
            sbt_valid(final(self)@, r),
            final(self)@.len() == old(self)@.len(),
            shape_of(final(self)@, r) == sbt_remove(shape_of(old(self)@, root), idx.value()),
            keys_of(final(self)@, r) == keys_of(old(self)@, root).remove(idx.value()),
            !keys_of(old(self)@, root).contains(idx.value()) ==> r == root && final(self)@ == old(
                self,
            )@,
    {
        let ghost a = self@;
        let ghost t = shape_of(a, root);
        let ghost k = idx.value();
        proof {
            lemma_sbt_remove(t, k);
            assert(keys_of(a, root).remove(k) =~= sbt_remove(t, k).keys());
        }
        match root {
            None => None,
            Some(top) => {
                if !self.contains(top, idx) {
                    return root;
                }
                let r = remove_node(self, top, idx, Ghost(t));
                proof {
                    lemma_shape_of(self@, r, sbt_remove(t, k));
                }
                r
            },
        }
    }
}

} // verus!
