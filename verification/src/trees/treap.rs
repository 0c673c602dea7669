//! The treap strategy: a search tree by handle that is at the same time a
//! heap by a priority computed from the handle.

use vstd::prelude::*;
use crate::trees::node::{Idx, Node};
use crate::trees::shape::{
    Shape, lemma_empty, lemma_rotated_left, lemma_rotated_right, lemma_search_side, lemma_single,
};
use crate::trees::tree::{
    Tree, idle_outside, is_tree, keys_of, lemma_linked_frame, lemma_linked_in_range,
    lemma_linked_join, lemma_rotate_left_linked, lemma_rotate_right_linked, lemma_shape_of,
    linked, same_outside, shape_of,
};

verus! {

/// The priority of the handle with number `k`: the product of `k` and
/// 2654435761, cut to the width of a `usize`, without its lowest bit.
#[verifier::opaque]
pub open spec fn priority(k: nat) -> nat {
    ((k * 2654435761) % (usize::MAX as nat + 1)) / 2
}

/// The priority of the key at the root of `t`; 0 for a leaf.
pub open spec fn top_priority(t: Shape) -> nat {
    match t {
        Shape::Leaf => 0,
        Shape::Node(_, k, _) => priority(k),
    }
}

/// Heap order: no node has a priority below that of a node under it.
pub open spec fn heap(t: Shape) -> bool
    decreases t,
{
    match t {
        Shape::Leaf => true,
        Shape::Node(l, k, r) => {
            &&& heap(*l)
            &&& heap(*r)
            &&& forall|x: nat| #[trigger] l.keys().contains(x) ==> priority(x) <= priority(k)
            &&& forall|x: nat| #[trigger] r.keys().contains(x) ==> priority(x) <= priority(k)
        },
    }
}

/// The tree after the insertion of `k`: the key goes down to the leaf that
/// the order gives it, and on the way back every node whose child on that
/// side now has the higher priority is rotated under that child. A key that
/// is there already changes nothing.
pub open spec fn treap_insert(t: Shape, k: nat) -> Shape
    decreases t,
{
    match t {
        Shape::Leaf => Shape::single(k),
        Shape::Node(l, key, r) => if k < key {
            let grown = treap_insert(*l, k);
            if top_priority(grown) > priority(key) {
                Shape::node(grown, key, *r).rotated_right()
            } else {
                Shape::node(grown, key, *r)
            }
        } else if key < k {
            let grown = treap_insert(*r, k);
            if top_priority(grown) > priority(key) {
                Shape::node(*l, key, grown).rotated_left()
            } else {
                Shape::node(*l, key, grown)
            }
        } else {
            t
        },
    }
}

/// A rotation leaves under the new top a tree that is smaller than the
/// whole.
pub proof fn lemma_count_after_rotation(t: Shape)
    ensures
        t.left() is Node ==> t.rotated_right().right().count() < t.count(),
        t.left() is Node ==> t.rotated_right().right() == Shape::node(
            t.left().right(),
            t.root().unwrap(),
            t.right(),
        ),
        t.right() is Node ==> t.rotated_left().left().count() < t.count(),
        t.right() is Node ==> t.rotated_left().left() == Shape::node(
            t.left(),
            t.root().unwrap(),
            t.right().left(),
        ),
{
    reveal_with_fuel(Shape::count, 3);
}

/// The tree after the removal of `k`: a node with at most one child gives
/// way to that child; a node with two children is rotated under the child
/// of higher priority (under the right one where they are equal) and removed
/// from where it then stands.
pub open spec fn treap_remove(t: Shape, k: nat) -> Shape
    decreases t.count(),
{
    match t {
        Shape::Leaf => Shape::Leaf,
        Shape::Node(l, key, r) => if k < key {
            Shape::node(treap_remove(*l, k), key, *r)
        } else if key < k {
            Shape::node(*l, key, treap_remove(*r, k))
        } else {
            match (*l, *r) {
                (Shape::Leaf, _) => *r,
                (_, Shape::Leaf) => *l,
                (Shape::Node(ll, lk, lr), Shape::Node(rl, rk, rr)) => if priority(lk) > priority(
                    rk,
                ) {
                    proof {
                        lemma_count_after_rotation(t);
                    }
                    Shape::node(*ll, lk, treap_remove(Shape::node(*lr, key, *r), k))
                } else {
                    proof {
                        lemma_count_after_rotation(t);
                    }
                    Shape::node(treap_remove(Shape::node(*l, key, *rl), k), rk, *rr)
                },
            }
        },
    }
}

/// Heap order but for the node that holds `k`, which may stand too high.
pub open spec fn heap_but(t: Shape, k: nat) -> bool {
    match t {
        Shape::Leaf => true,
        Shape::Node(l, key, r) => if key == k {
            heap(*l) && heap(*r)
        } else {
            heap(t)
        },
    }
}

/// In a heap no key has a higher priority than the key at the root; and a
/// heap is a heap whichever node is let off.
pub proof fn lemma_heap_top(t: Shape, k: nat)
    requires
        heap(t),
    ensures
        forall|x: nat| #[trigger] t.keys().contains(x) ==> priority(x) <= top_priority(t),
        heap_but(t, k),
{
    match t {
        Shape::Leaf => {},
        Shape::Node(l, key, r) => {
            assert forall|x: nat| #[trigger] t.keys().contains(x) implies priority(x) <= priority(
                key,
            ) by {
                if l.keys().contains(x) {
                } else if r.keys().contains(x) {
                }
            }
        },
    }
}

/// An insertion keeps the search-tree order and the heap order, and the
/// tree holds the new key beside the keys it held.
pub proof fn lemma_treap_insert(t: Shape, k: nat)
    requires
        t.ordered(),
        heap(t),
    ensures
        treap_insert(t, k).ordered(),
        heap(treap_insert(t, k)),
        treap_insert(t, k).keys() =~= t.keys().insert(k),
        !(treap_insert(t, k) is Leaf),
        t.contains(k) ==> treap_insert(t, k) == t,
    decreases t,
{
    let res = treap_insert(t, k);
    match t {
        Shape::Leaf => {
            lemma_single(k);
            assert(heap(Shape::single(k))) by {
                reveal_with_fuel(heap, 2);
                reveal_with_fuel(Shape::keys, 2);
            }
        },
        Shape::Node(l, key, r) => {
            lemma_search_side(t, k);
            if k < key {
                lemma_treap_insert(*l, k);
                let grown = treap_insert(*l, k);
                let joined = Shape::node(grown, key, *r);
                assert(joined.ordered());
                assert(joined.keys() =~= t.keys().insert(k));
                lemma_heap_top(grown, k);
                if top_priority(grown) > priority(key) {
                    lemma_rotated_right(joined);
                    assert(res == joined.rotated_right());
                    let top = grown.root().unwrap();
                    assert(grown.keys().contains(top));
                    assert(top == k);
                    let inner = Shape::node(grown.right(), key, *r);
                    assert(res == Shape::node(grown.left(), top, inner));
                    assert(heap(grown.right()) && heap(grown.left()));
                    assert forall|x: nat| #[trigger] grown.right().keys().contains(x) implies priority(x)
                        <= priority(key) by {
                        assert(grown.keys().contains(x));
                        assert(top < x);
                    }
                    assert(heap(inner));
                    assert forall|x: nat| #[trigger] inner.keys().contains(x) implies priority(x)
                        <= priority(top) by {
                        if grown.right().keys().contains(x) {
                            assert(grown.keys().contains(x));
                        } else if r.keys().contains(x) {
                            assert(priority(x) <= priority(key));
                        } else {
                            assert(x == key);
                        }
                    }
                    assert forall|x: nat| #[trigger] grown.left().keys().contains(x) implies priority(x)
                        <= priority(top) by {
                        assert(grown.keys().contains(x));
                    }
                    assert(heap(res));
                } else {
                    assert(res == joined);
                    assert forall|x: nat| #[trigger] grown.keys().contains(x) implies priority(x)
                        <= priority(key) by {}
                    assert(heap(res));
                }
            } else if key < k {
                lemma_treap_insert(*r, k);
                let grown = treap_insert(*r, k);
                let joined = Shape::node(*l, key, grown);
                assert(joined.ordered());
                assert(joined.keys() =~= t.keys().insert(k));
                lemma_heap_top(grown, k);
                if top_priority(grown) > priority(key) {
                    lemma_rotated_left(joined);
                    assert(res == joined.rotated_left());
                    let top = grown.root().unwrap();
                    assert(grown.keys().contains(top));
                    assert(top == k);
                    let inner = Shape::node(*l, key, grown.left());
                    assert(res == Shape::node(inner, top, grown.right()));
                    assert(heap(grown.right()) && heap(grown.left()));
                    assert forall|x: nat| #[trigger] grown.left().keys().contains(x) implies priority(x)
                        <= priority(key) by {
                        assert(grown.keys().contains(x));
                        assert(x < top);
                    }
                    assert(heap(inner));
                    assert forall|x: nat| #[trigger] inner.keys().contains(x) implies priority(x)
                        <= priority(top) by {
                        if grown.left().keys().contains(x) {
                            assert(grown.keys().contains(x));
                        } else if l.keys().contains(x) {
                            assert(priority(x) <= priority(key));
                        } else {
                            assert(x == key);
                        }
                    }
                    assert forall|x: nat| #[trigger] grown.right().keys().contains(x) implies priority(x)
                        <= priority(top) by {
                        assert(grown.keys().contains(x));
                    }
                    assert(heap(res));
                } else {
                    assert(res == joined);
                    assert forall|x: nat| #[trigger] grown.keys().contains(x) implies priority(x)
                        <= priority(key) by {}
                    assert(heap(res));
                }
            } else {
            }
        },
    }
}

/// A removal keeps the search-tree order and restores the heap order, and
/// the tree holds what it held but the key.
pub proof fn lemma_treap_remove(t: Shape, k: nat)
    requires
        t.ordered(),
        heap_but(t, k),
    ensures
        treap_remove(t, k).ordered(),
        heap(treap_remove(t, k)),
        treap_remove(t, k).keys() =~= t.keys().remove(k),
        !t.contains(k) ==> treap_remove(t, k) == t,
    decreases t.count(),
{
    let res = treap_remove(t, k);
    match t {
        Shape::Leaf => {},
        Shape::Node(l, key, r) => {
            lemma_search_side(t, k);
            if k < key {
                lemma_heap_top(*l, k);
                lemma_treap_remove(*l, k);
                assert(res == Shape::node(treap_remove(*l, k), key, *r));
                assert(!r.keys().contains(k));
            } else if key < k {
                lemma_heap_top(*r, k);
                lemma_treap_remove(*r, k);
                assert(res == Shape::node(*l, key, treap_remove(*r, k)));
                assert(!l.keys().contains(k));
            } else {
                assert(!l.keys().contains(k));
                assert(!r.keys().contains(k));
                lemma_empty(*l);
                lemma_empty(*r);
                match (*l, *r) {
                    (Shape::Leaf, _) => {},
                    (_, Shape::Leaf) => {},
                    (Shape::Node(ll, lk, lr), Shape::Node(rl, rk, rr)) => {
                        assert(l.keys().contains(lk));
                        assert(r.keys().contains(rk));
                        lemma_heap_top(*l, k);
                        lemma_heap_top(*r, k);
                        if priority(lk) > priority(rk) {
                            lemma_rotated_right(t);
                            lemma_count_after_rotation(t);
                            let sub = Shape::node(*lr, key, *r);
                            assert(t.rotated_right() == Shape::node(*ll, lk, sub));
                            assert(sub.ordered());
                            lemma_treap_remove(sub, k);
                            let rest = treap_remove(sub, k);
                            assert(res == Shape::node(*ll, lk, rest));
                            assert(rest.keys() =~= lr.keys().union(r.keys()));
                            assert forall|x: nat| #[trigger] rest.keys().contains(x) implies lk < x
                                && priority(x) <= priority(lk) by {
                                assert(sub.keys().contains(x));
                                if lr.keys().contains(x) {
                                    assert(l.keys().contains(x));
                                }
                            }
                            assert(res.ordered());
                            assert(heap(res));
                        } else {
                            lemma_rotated_left(t);
                            lemma_count_after_rotation(t);
                            let sub = Shape::node(*l, key, *rl);
                            assert(t.rotated_left() == Shape::node(sub, rk, *rr));
                            assert(sub.ordered());
                            lemma_treap_remove(sub, k);
                            let rest = treap_remove(sub, k);
                            assert(res == Shape::node(rest, rk, *rr));
                            assert(rest.keys() =~= l.keys().union(rl.keys()));
                            assert forall|x: nat| #[trigger] rest.keys().contains(x) implies x < rk
                                && priority(x) <= priority(rk) by {
                                assert(sub.keys().contains(x));
                                if rl.keys().contains(x) {
                                    assert(r.keys().contains(x));
                                }
                            }
                            assert(res.ordered());
                            assert(heap(res));
                        }
                    },
                }
            }
        },
    }
}

/// Every node of `t` has its priority in its record.
pub open spec fn prioritized<T: Idx>(nodes: Seq<Node<T>>, t: Shape) -> bool {
    forall|k: nat| #[trigger]
        t.keys().contains(k) && k < nodes.len() ==> nodes[k as int].size == priority(k)
}

/// The arena holds under `root` the tree `t`: the links spell it out, it is
/// in search-tree order, and every node has its priority in its record.
pub open spec fn holds_treap<T: Idx>(nodes: Seq<Node<T>>, root: Option<T>, t: Shape) -> bool {
    &&& linked(nodes, root, t)
    &&& t.ordered()
    &&& prioritized(nodes, t)
}

/// What is reachable from `root` is a treap: a search tree in heap order.
pub open spec fn is_treap<T: Idx>(nodes: Seq<Node<T>>, root: Option<T>) -> bool {
    &&& holds_treap(nodes, root, shape_of(nodes, root))
    &&& heap(shape_of(nodes, root))
}

/// What the treap strategy keeps true between calls: what is reachable from
/// `root` is a treap, and every other slot is empty.
pub open spec fn treap_valid<T: Idx>(nodes: Seq<Node<T>>, root: Option<T>) -> bool {
    &&& is_treap(nodes, root)
    &&& idle_outside(nodes, shape_of(nodes, root))
}

/// The priority of `idx`.
fn priority_of<T: Idx>(idx: T) -> (r: usize)
    ensures
        r == priority(idx.value()),
{
    let val = idx.as_usize();
    let m = val.wrapping_mul(2654435761);
    proof {
        reveal(priority);
        assert(m >> 1 == m / 2) by (bit_vector);
    }
    m >> 1
}

/// Rotates the tree under `root` to the left and returns the new top;
/// `None`, and nothing written, where `root` has no right child.
fn rotate_left_in<T: Idx, S: Tree<T>>(s: &mut S, root: T) -> (r: Option<T>)
    requires
        is_tree(old(s)@, Some(root)),
    ensures
        final(s)@.len() == old(s)@.len(),
        forall|i: int| 0 <= i < old(s)@.len() ==> (#[trigger] final(s)@[i]).size == old(s)@[i].size,
        match r {
            None => shape_of(old(s)@, Some(root)).right() is Leaf && final(s)@ == old(s)@,
            Some(top) => {
                &&& shape_of(old(s)@, Some(root)).right() is Node
                &&& linked(final(s)@, Some(top), shape_of(old(s)@, Some(root)).rotated_left())
                &&& forall|i: int|
                    0 <= i < old(s)@.len() && i != root.value() && i != top.value()
                        ==> #[trigger] final(s)@[i] == old(s)@[i]
            },
        },
{
    let ghost a = s@;
    let ghost t = shape_of(a, Some(root));
    proof {
        let u = choose|u: Shape| linked(a, Some(root), u) && u.ordered();
        lemma_shape_of(a, Some(root), u);
    }
    match s.get(root) {
        None => None,
        Some(n) => match n.right {
            None => {
                proof {
                    assert(linked(a, n.right, t.right()));
                }
                None
            },
            Some(right) => {
                proof {
                    assert(linked(a, n.right, t.right()));
                }
                match s.get(right) {
                    None => None,
                    Some(rn) => {
                        s.set(root, Node { size: n.size, left: n.left, right: rn.left });
                        s.set(right, Node { size: rn.size, left: Some(root), right: rn.right });
                        proof {
                            assert(t.right().ordered());
                            assert(t.right().keys().contains(right.value()));
                            lemma_rotate_left_linked(a, s@, root, right, t);
                        }
                        Some(right)
                    },
                }
            },
        },
    }
}

/// Rotates the tree under `root` to the right and returns the new top;
/// `None`, and nothing written, where `root` has no left child.
fn rotate_right_in<T: Idx, S: Tree<T>>(s: &mut S, root: T) -> (r: Option<T>)
    requires
        is_tree(old(s)@, Some(root)),
    ensures
        final(s)@.len() == old(s)@.len(),
        forall|i: int| 0 <= i < old(s)@.len() ==> (#[trigger] final(s)@[i]).size == old(s)@[i].size,
        match r {
            None => shape_of(old(s)@, Some(root)).left() is Leaf && final(s)@ == old(s)@,
            Some(top) => {
                &&& shape_of(old(s)@, Some(root)).left() is Node
                &&& linked(final(s)@, Some(top), shape_of(old(s)@, Some(root)).rotated_right())
                &&& forall|i: int|
                    0 <= i < old(s)@.len() && i != root.value() && i != top.value()
                        ==> #[trigger] final(s)@[i] == old(s)@[i]
            },
        },
{
    let ghost a = s@;
    let ghost t = shape_of(a, Some(root));
    proof {
        let u = choose|u: Shape| linked(a, Some(root), u) && u.ordered();
        lemma_shape_of(a, Some(root), u);
    }
    match s.get(root) {
        None => None,
        Some(n) => match n.left {
            None => {
                proof {
                    assert(linked(a, n.left, t.left()));
                }
                None
            },
            Some(left) => {
                proof {
                    assert(linked(a, n.left, t.left()));
                }
                match s.get(left) {
                    None => None,
                    Some(ln) => {
                        s.set(root, Node { size: n.size, left: ln.right, right: n.right });
                        s.set(left, Node { size: ln.size, left: ln.left, right: Some(root) });
                        proof {
                            assert(t.left().ordered());
                            assert(t.left().keys().contains(left.value()));
                            lemma_rotate_right_linked(a, s@, root, left, t);
                        }
                        Some(left)
                    },
                }
            },
        },
    }
}

/// A treap stays where it is when nothing is written to the slots of its
/// keys.
proof fn lemma_treap_frame<T: Idx>(a: Seq<Node<T>>, b: Seq<Node<T>>, root: Option<T>, t: Shape)
    requires
        holds_treap(a, root, t),
        a.len() == b.len(),
        forall|k: nat| #[trigger] t.keys().contains(k) && k < a.len() ==> a[k as int] == b[k as int],
    ensures
        holds_treap(b, root, t),
{
    lemma_linked_frame(a, b, root, t);
}

/// Under a node of a treap stand two treaps.
proof fn lemma_treap_children<T: Idx>(a: Seq<Node<T>>, root: Option<T>, t: Shape)
    requires
        holds_treap(a, root, t),
        t is Node,
    ensures
        root is Some,
        root.unwrap().value() == t.root().unwrap(),
        t.root().unwrap() < a.len(),
        a[t.root().unwrap() as int].size == priority(t.root().unwrap()),
        holds_treap(a, a[t.root().unwrap() as int].left, t.left()),
        holds_treap(a, a[t.root().unwrap() as int].right, t.right()),
        forall|x: nat| #[trigger] t.left().keys().contains(x) ==> x < t.root().unwrap(),
        forall|x: nat| #[trigger] t.right().keys().contains(x) ==> t.root().unwrap() < x,
{
    let key = t.root().unwrap();
    assert(t.keys().contains(key));
    assert forall|x: nat| #[trigger] t.left().keys().contains(x) && x < a.len() implies a[x as int].size
        == priority(x) by {
        assert(t.keys().contains(x));
    }
    assert forall|x: nat| #[trigger] t.right().keys().contains(x) && x < a.len() implies a[x as int].size
        == priority(x) by {
        assert(t.keys().contains(x));
    }
}

/// Puts `idx`, which is not in the tree `t` under `root`, into it, and
/// returns the new top of that tree.
fn attach<T: Idx, S: Tree<T>>(s: &mut S, root: Option<T>, idx: T, Ghost(t): Ghost<Shape>) -> (r: T)
    requires
        holds_treap(old(s)@, root, t),
        !t.contains(idx.value()),
        idx.value() < old(s)@.len(),
        old(s)@[idx.value() as int] == Node::<T>::empty(),
    ensures
        holds_treap(final(s)@, Some(r), treap_insert(t, idx.value())),
        same_outside(old(s)@, final(s)@, t, idx.value()),
    decreases t,
{
    let ghost a = s@;
    let ghost k = idx.value();
    let rt = match root {
        None => {
            let p = priority_of(idx);
            s.set(idx, Node { size: p, left: None, right: None });
            proof {
                lemma_single(k);
                assert(linked(s@, Some(idx), Shape::single(k))) by {
                    reveal_with_fuel(linked, 2);
                }
            }
            return idx;
        },
        Some(rt) => rt,
    };
    let ghost key = rt.value();
    let ghost l = t.left();
    let ghost r = t.right();
    proof {
        assert(t.keys().contains(key));
        lemma_linked_in_range(a, root, t);
    }
    let n = match s.get(rt) {
        Some(n) => n,
        None => {
            return rt;
        },
    };
    proof {
        lemma_treap_children(a, root, t);
    }
    if s.is_left_of(idx, rt) {
        let nl = attach(s, n.left, idx, Ghost(l));
        let ghost b = s@;
        let ghost grown = treap_insert(l, k);
        proof {
            lemma_linked_in_range(b, Some(nl), grown);
            lemma_treap_keys(l, k);
            assert(grown.keys().contains(nl.value()));
            lemma_treap_frame(a, b, n.right, r);
        }
        let rec = Node { size: n.size, left: Some(nl), right: n.right };
        s.set(rt, rec);
        let ghost joined = Shape::node(grown, key, r);
        proof {
            lemma_linked_join(b, s@, rt, rec, grown, r);
            assert(joined.ordered());
            lemma_shape_of(s@, Some(rt), joined);
            assert forall|x: nat| #[trigger] joined.keys().contains(x) && x < b.len() implies s@[x as int].size
                == priority(x) by {
                if grown.keys().contains(x) {
                } else if l.keys().contains(x) {
                } else if r.keys().contains(x) {
                }
            }
        }
        let cn = match s.get(nl) {
            Some(cn) => cn,
            None => {
                return rt;
            },
        };
        if cn.size > n.size {
            proof {
                lemma_rotated_right(joined);
            }
            match rotate_right_in(s, rt) {
                Some(top) => top,
                None => rt,
            }
        } else {
            rt
        }
    } else {
        let nr = attach(s, n.right, idx, Ghost(r));
        let ghost b = s@;
        let ghost grown = treap_insert(r, k);
        proof {
            lemma_linked_in_range(b, Some(nr), grown);
            lemma_treap_keys(r, k);
            assert(grown.keys().contains(nr.value()));
            lemma_treap_frame(a, b, n.left, l);
        }
        let rec = Node { size: n.size, left: n.left, right: Some(nr) };
        s.set(rt, rec);
        let ghost joined = Shape::node(l, key, grown);
        proof {
            lemma_linked_join(b, s@, rt, rec, l, grown);
            assert(joined.ordered());
            lemma_shape_of(s@, Some(rt), joined);
            assert forall|x: nat| #[trigger] joined.keys().contains(x) && x < b.len() implies s@[x as int].size
                == priority(x) by {
                if grown.keys().contains(x) {
                } else if l.keys().contains(x) {
                } else if r.keys().contains(x) {
                }
            }
        }
        let cn = match s.get(nr) {
            Some(cn) => cn,
            None => {
                return rt;
            },
        };
        if cn.size > n.size {
            proof {
                lemma_rotated_left(joined);
            }
            match rotate_left_in(s, rt) {
                Some(top) => top,
                None => rt,
            }
        } else {
            rt
        }
    }
}

/// An insertion keeps the search-tree order, whatever the priorities are,
/// and the tree holds the new key beside the keys it held.
proof fn lemma_treap_keys(t: Shape, k: nat)
    requires
        t.ordered(),
    ensures
        treap_insert(t, k).ordered(),
        treap_insert(t, k).keys() =~= t.keys().insert(k),
        !(treap_insert(t, k) is Leaf),
    decreases t,
{
    match t {
        Shape::Leaf => {
            lemma_single(k);
        },
        Shape::Node(l, key, r) => {
            if k < key {
                lemma_treap_keys(*l, k);
                let joined = Shape::node(treap_insert(*l, k), key, *r);
                assert(joined.ordered());
                lemma_rotated_right(joined);
            } else if key < k {
                lemma_treap_keys(*r, k);
                let joined = Shape::node(*l, key, treap_insert(*r, k));
                assert(joined.ordered());
                lemma_rotated_left(joined);
            }
        },
    }
}

/// Takes `idx`, which is in the tree `t` under `root`, out of it, resets its
/// record, and returns the new top of that tree.
fn detach<T: Idx, S: Tree<T>>(s: &mut S, root: T, idx: T, Ghost(t): Ghost<Shape>) -> (r: Option<T>)
    requires
        holds_treap(old(s)@, Some(root), t),
        t.contains(idx.value()),
    ensures
        holds_treap(final(s)@, r, treap_remove(t, idx.value())),
        final(s)@.len() == old(s)@.len(),
        forall|i: int|
            0 <= i < old(s)@.len() && !t.keys().contains(i as nat) ==> #[trigger] final(s)@[i]
                == old(s)@[i],
        idx.value() < old(s)@.len(),
        final(s)@[idx.value() as int] == Node::<T>::empty(),
    decreases t.count(),
{
    let ghost a = s@;
    let ghost k = idx.value();
    let ghost key = root.value();
    let ghost l = t.left();
    let ghost r = t.right();
    proof {
        lemma_search_side(t, k);
        lemma_detach_keys(t, k);
        lemma_linked_in_range(a, Some(root), t);
        lemma_treap_children(a, Some(root), t);
        lemma_empty(l);
        lemma_empty(r);
    }
    let n = match s.get(root) {
        Some(n) => n,
        None => {
            return None;
        },
    };
    if s.is_left_of(idx, root) {
        match n.left {
            None => None,
            Some(left) => {
                let nl = detach(s, left, idx, Ghost(l));
                let ghost b = s@;
                let ghost rest = treap_remove(l, k);
                proof {
                    lemma_detach_keys(l, k);
                    lemma_treap_frame(a, b, n.right, r);
                }
                let rec = Node { size: n.size, left: nl, right: n.right };
                s.set(root, rec);
                proof {
                    lemma_linked_join(b, s@, root, rec, rest, r);
                    let joined = Shape::node(rest, key, r);
                    assert forall|x: nat| #[trigger] joined.keys().contains(x) && x < b.len() implies s@[x as int].size
                        == priority(x) by {
                        if rest.keys().contains(x) {
                        } else if r.keys().contains(x) {
                        }
                    }
                }
                Some(root)
            },
        }
    } else if s.is_right_of(idx, root) {
        match n.right {
            None => None,
            Some(right) => {
                let nr = detach(s, right, idx, Ghost(r));
                let ghost b = s@;
                let ghost rest = treap_remove(r, k);
                proof {
                    lemma_detach_keys(r, k);
                    lemma_treap_frame(a, b, n.left, l);
                }
                let rec = Node { size: n.size, left: n.left, right: nr };
                s.set(root, rec);
                proof {
                    lemma_linked_join(b, s@, root, rec, l, rest);
                    let joined = Shape::node(l, key, rest);
                    assert forall|x: nat| #[trigger] joined.keys().contains(x) && x < b.len() implies s@[x as int].size
                        == priority(x) by {
                        if rest.keys().contains(x) {
                        } else if l.keys().contains(x) {
                        }
                    }
                }
                Some(root)
            },
        }
    } else {
        match (n.left, n.right) {
            (None, None) => {
                s.clear(root);
                None
            },
            (Some(left), None) => {
                s.clear(root);
                proof {
                    lemma_treap_frame(a, s@, n.left, l);
                }
                Some(left)
            },
            (None, Some(right)) => {
                s.clear(root);
                proof {
                    lemma_treap_frame(a, s@, n.right, r);
                }
                Some(right)
            },
            (Some(left), Some(right)) => {
                proof {
                    lemma_treap_children(a, n.left, l);
                    lemma_treap_children(a, n.right, r);
                    lemma_shape_of(a, Some(root), t);
                    lemma_count_after_rotation(t);
                }
                let pl = match s.get(left) {
                    Some(ln) => ln.size,
                    None => 0,
                };
                let pr = match s.get(right) {
                    Some(rn) => rn.size,
                    None => 0,
                };
                if pl > pr {
                    proof {
                        lemma_rotated_right(t);
                    }
                    let top = match rotate_right_in(s, root) {
                        Some(top) => top,
                        None => {
                            return None;
                        },
                    };
                    let ghost b = s@;
                    let ghost sub = t.rotated_right().right();
                    proof {
                        assert(linked(b, b[top.value() as int].right, sub));
                        assert(linked(b, Some(root), sub));
                        assert(sub.ordered());
                        assert(sub.keys().contains(key));
                        assert forall|x: nat| #[trigger] sub.keys().contains(x) && x < b.len() implies b[x as int].size
                            == priority(x) by {
                            assert(t.keys().contains(x));
                        }
                    }
                    let nr = detach(s, root, idx, Ghost(sub));
                    let ghost c = s@;
                    let ghost rest = treap_remove(sub, k);
                    let tn = match s.get(top) {
                        Some(tn) => tn,
                        None => {
                            return None;
                        },
                    };
                    let rec = Node { size: tn.size, left: tn.left, right: nr };
                    s.set(top, rec);
                    proof {
                        lemma_detach_keys(sub, k);
                        let ll = l.left();
                        assert(l.keys().contains(top.value()));
                        assert(linked(b, b[top.value() as int].left, ll));
                        assert forall|x: nat| #[trigger] ll.keys().contains(x) implies !sub.keys().contains(x)
                            && l.keys().contains(x) by {}
                        lemma_linked_frame(b, c, tn.left, ll);
                        lemma_linked_join(c, s@, top, rec, ll, rest);
                        let joined = Shape::node(ll, top.value(), rest);
                        assert(treap_remove(t, k) == joined);
                        assert forall|x: nat| #[trigger] joined.keys().contains(x) && x < b.len() implies s@[x as int].size
                            == priority(x) by {
                            if rest.keys().contains(x) {
                                assert(sub.keys().contains(x));
                            } else if ll.keys().contains(x) {
                                assert(t.keys().contains(x));
                            } else {
                                assert(t.keys().contains(x));
                            }
                        }
                        assert forall|x: nat| #[trigger] rest.keys().contains(x) implies top.value() < x by {
                            assert(sub.keys().contains(x));
                        }
                        assert(joined.ordered());
                    }
                    Some(top)
                } else {
                    proof {
                        lemma_rotated_left(t);
                    }
                    let top = match rotate_left_in(s, root) {
                        Some(top) => top,
                        None => {
                            return None;
                        },
                    };
                    let ghost b = s@;
                    let ghost sub = t.rotated_left().left();
                    proof {
                        assert(linked(b, b[top.value() as int].left, sub));
                        assert(linked(b, Some(root), sub));
                        assert(sub.ordered());
                        assert(sub.keys().contains(key));
                        assert forall|x: nat| #[trigger] sub.keys().contains(x) && x < b.len() implies b[x as int].size
                            == priority(x) by {
                            assert(t.keys().contains(x));
                        }
                    }
                    let nl = detach(s, root, idx, Ghost(sub));
                    let ghost c = s@;
                    let ghost rest = treap_remove(sub, k);
                    let tn = match s.get(top) {
                        Some(tn) => tn,
                        None => {
                            return None;
                        },
                    };
                    let rec = Node { size: tn.size, left: nl, right: tn.right };
                    s.set(top, rec);
                    proof {
                        lemma_detach_keys(sub, k);
                        let rr = r.right();
                        assert(r.keys().contains(top.value()));
                        assert(linked(b, b[top.value() as int].right, rr));
                        assert forall|x: nat| #[trigger] rr.keys().contains(x) implies !sub.keys().contains(x)
                            && r.keys().contains(x) by {}
                        lemma_linked_frame(b, c, tn.right, rr);
                        lemma_linked_join(c, s@, top, rec, rest, rr);
                        let joined = Shape::node(rest, top.value(), rr);
                        assert(treap_remove(t, k) == joined);
                        assert forall|x: nat| #[trigger] joined.keys().contains(x) && x < b.len() implies s@[x as int].size
                            == priority(x) by {
                            if rest.keys().contains(x) {
                                assert(sub.keys().contains(x));
                            } else if rr.keys().contains(x) {
                                assert(t.keys().contains(x));
                            } else {
                                assert(t.keys().contains(x));
                            }
                        }
                        assert forall|x: nat| #[trigger] rest.keys().contains(x) implies x < top.value() by {
                            assert(sub.keys().contains(x));
                        }
                        assert(joined.ordered());
                    }
                    Some(top)
                }
            },
        }
    }
}

/// A removal keeps the search-tree order, whatever the priorities are, and
/// the tree holds what it held but the key.
proof fn lemma_detach_keys(t: Shape, k: nat)
    requires
        t.ordered(),
    ensures
        treap_remove(t, k).ordered(),
        treap_remove(t, k).keys() =~= t.keys().remove(k),
    decreases t.count(),
{
    let res = treap_remove(t, k);
    match t {
        Shape::Leaf => {},
        Shape::Node(l, key, r) => {
            lemma_search_side(t, k);
            if k < key {
                lemma_detach_keys(*l, k);
                assert(res == Shape::node(treap_remove(*l, k), key, *r));
                assert(!r.keys().contains(k));
            } else if key < k {
                lemma_detach_keys(*r, k);
                assert(res == Shape::node(*l, key, treap_remove(*r, k)));
                assert(!l.keys().contains(k));
            } else {
                assert(!l.keys().contains(k));
                assert(!r.keys().contains(k));
                lemma_empty(*l);
                lemma_empty(*r);
                match (*l, *r) {
                    (Shape::Leaf, _) => {},
                    (_, Shape::Leaf) => {},
                    (Shape::Node(ll, lk, lr), Shape::Node(rl, rk, rr)) => {
                        assert(l.keys().contains(lk));
                        assert(r.keys().contains(rk));
                        lemma_count_after_rotation(t);
                        if priority(lk) > priority(rk) {
                            lemma_rotated_right(t);
                            let sub = Shape::node(*lr, key, *r);
                            assert(t.rotated_right() == Shape::node(*ll, lk, sub));
                            assert(sub.ordered());
                            lemma_detach_keys(sub, k);
                            let rest = treap_remove(sub, k);
                            assert(res == Shape::node(*ll, lk, rest));
                            assert forall|x: nat| #[trigger] rest.keys().contains(x) implies lk < x by {
                                assert(sub.keys().contains(x));
                            }
                            assert(res.ordered());
                        } else {
                            lemma_rotated_left(t);
                            let sub = Shape::node(*l, key, *rl);
                            assert(t.rotated_left() == Shape::node(sub, rk, *rr));
                            assert(sub.ordered());
                            lemma_detach_keys(sub, k);
                            let rest = treap_remove(sub, k);
                            assert(res == Shape::node(rest, rk, *rr));
                            assert forall|x: nat| #[trigger] rest.keys().contains(x) implies x < rk by {
                                assert(sub.keys().contains(x));
                            }
                            assert(res.ordered());
                        }
                    },
                }
            }
        },
    }
}

/// The treap strategy over any node store.
pub trait Treap<T: Idx>: Tree<T> {
    /// The priority in the record at `idx`; `None` beyond the store's
    /// capacity.
    fn priority(&self, idx: T) -> (r: Option<usize>)
        ensures
            r == (if idx.value() < self@.len() {
                Some(self@[idx.value() as int].size)
            } else {
                None
            }),
    {
        match self.get(idx) {
            Some(n) => Some(n.size),
            None => None,
        }
    }

    /// Writes the priority in the record at `idx`; no effect beyond the
    /// store's capacity.
    fn set_priority(&mut self, idx: T, priority: usize)
        ensures
            final(self)@ == (if idx.value() < old(self)@.len() {
                old(self)@.update(
                    idx.value() as int,
                    Node { size: priority, ..old(self)@[idx.value() as int] },
                )
            } else {
                old(self)@
            }),
    {
        match self.get(idx) {
            Some(n) => {
                self.set(idx, Node { size: priority, left: n.left, right: n.right });
            },
            None => {},
        }
    }

    /// The priority that belongs to `idx`: a function of its number alone.
    fn hash_priority(&self, idx: T) -> (r: usize)
        ensures
            r == priority(idx.value()),
    {
        priority_of(idx)
    }

    /// Rotates the tree under `root` to the left: its right child comes up
    /// and is returned, and `root` becomes the left child of it. No priority
    /// is touched. `None`, and nothing written, where `root` has no right
    /// child.
    fn rotate_left(&mut self, root: T) -> (r: Option<T>)
        requires
            is_tree(old(self)@, Some(root)),
        ensures
            final(self)@.len() == old(self)@.len(),
            forall|i: int|
                0 <= i < old(self)@.len() ==> (#[trigger] final(self)@[i]).size == old(
                    self,
                )@[i].size,
            match r {
                None => shape_of(old(self)@, Some(root)).right() is Leaf && final(self)@ == old(
                    self,
                )@,
                Some(top) => {
                    &&& shape_of(old(self)@, Some(root)).right() is Node
                    &&& linked(
                        final(self)@,
                        Some(top),
                        shape_of(old(self)@, Some(root)).rotated_left(),
                    )
                    &&& forall|i: int|
                        0 <= i < old(self)@.len() && i != root.value() && i != top.value()
                            ==> #[trigger] final(self)@[i] == old(self)@[i]
                },
            },
    {
        rotate_left_in(self, root)
    }

    /// Rotates the tree under `root` to the right: its left child comes up
    /// and is returned, and `root` becomes the right child of it. No
    /// priority is touched. `None`, and nothing written, where `root` has no
    /// left child.
    fn rotate_right(&mut self, root: T) -> (r: Option<T>)
        requires
            is_tree(old(self)@, Some(root)),
        ensures
            final(self)@.len() == old(self)@.len(),
            forall|i: int|
                0 <= i < old(self)@.len() ==> (#[trigger] final(self)@[i]).size == old(
                    self,
                )@[i].size,
            match r {
                None => shape_of(old(self)@, Some(root)).left() is Leaf && final(self)@ == old(
                    self,
                )@,
                Some(top) => {
                    &&& shape_of(old(self)@, Some(root)).left() is Node
                    &&& linked(
                        final(self)@,
                        Some(top),
                        shape_of(old(self)@, Some(root)).rotated_right(),
                    )
                    &&& forall|i: int|
                        0 <= i < old(self)@.len() && i != root.value() && i != top.value()
                            ==> #[trigger] final(self)@[i] == old(self)@[i]
                },
            },
    {
        rotate_right_in(self, root)
    }

    /// Inserts `idx` into the tree under `root` and returns the new root.
    ///
    /// The tree afterwards is the one that `treap_insert` gives: it holds
    /// `idx` beside what it held, in search-tree order and in heap order. A
    /// handle that is in the tree already, or beyond the store's capacity,
    /// changes nothing.
    fn insert_treap(&mut self, root: Option<T>, idx: T) -> (r: Option<T>)
        requires
            treap_valid(old(self)@, root),
        ensures
            treap_valid(final(self)@, r),
            final(self)@.len() == old(self)@.len(),
            idx.value() < old(self)@.len() ==> shape_of(final(self)@, r) == treap_insert(
                shape_of(old(self)@, root),
                idx.value(),
            ),
            idx.value() < old(self)@.len() ==> keys_of(final(self)@, r) == keys_of(
                old(self)@,
                root,
            ).insert(idx.value()),
            idx.value() >= old(self)@.len() || keys_of(old(self)@, root).contains(idx.value())
                ==> r == root && final(self)@ == old(self)@,
    {
        let ghost a = self@;
        let ghost t = shape_of(a, root);
        let ghost k = idx.value();
        proof {
            lemma_linked_in_range(a, root, t);
            lemma_treap_insert(t, k);
        }
        if self.get(idx).is_none() {
            return root;
        }
        match root {
            Some(top) => {
                proof {
                    assert(is_tree(a, root));
                }
                if self.contains(top, idx) {
                    return root;
                }
            },
            None => {
                proof {
                    assert(t.keys() =~= Set::<nat>::empty());
                }
            },
        }
        let r = attach(self, root, idx, Ghost(t));
        proof {
            lemma_shape_of(self@, Some(r), treap_insert(t, k));
            assert(keys_of(self@, Some(r)) =~= keys_of(a, root).insert(k));
        }
        Some(r)
    }

    /// Removes `idx` from the tree under `root`, resets its record, and
    /// returns the new root: `None` once the tree is empty.
    ///
    /// The tree afterwards is the one that `treap_remove` gives: it holds
    /// what it held but `idx`, in search-tree order and in heap order. A
    /// handle that is not in the tree changes nothing.
    fn remove_treap(&mut self, root: Option<T>, idx: T) -> (r: Option<T>)
        requires
            treap_valid(old(self)@, root),
        ensures
            treap_valid(final(self)@, r),
            final(self)@.len() == old(self)@.len(),
            shape_of(final(self)@, r) == treap_remove(shape_of(old(self)@, root), idx.value()),
            keys_of(final(self)@, r) == keys_of(old(self)@, root).remove(idx.value()),
            !keys_of(old(self)@, root).contains(idx.value()) ==> r == root && final(self)@ == old(
                self,
            )@,
    {
        let ghost a = self@;
        let ghost t = shape_of(a, root);
        let ghost k = idx.value();
        proof {
            lemma_heap_top(t, k);
            lemma_treap_remove(t, k);
            assert(keys_of(a, root).remove(k) =~= treap_remove(t, k).keys());
        }
        match root {
            None => None,
            Some(top) => {
                proof {
                    assert(is_tree(a, root));
                }
                if !self.contains(top, idx) {
                    return root;
                }
                let r = detach(self, top, idx, Ghost(t));
                proof {
                    lemma_shape_of(self@, r, treap_remove(t, k));
                }
                r
            },
        }
    }
}

/// A fixed array of node records that holds a treap.
#[derive(Debug, Clone)]
pub struct TreapStore<T> {
    nodes: Vec<Node<T>>,
}

impl<T: Idx> TreapStore<T> {
    /// A store of `capacity` empty records: it holds the empty tree.
    pub fn new(capacity: usize) -> (r: Self)
        ensures
            r@.len() == capacity,
            forall|i: int| 0 <= i < capacity ==> #[trigger] r@[i] == Node::<T>::empty(),
            treap_valid(r@, None),
            shape_of(r@, None::<T>) == Shape::Leaf,
    {
        let mut nodes: Vec<Node<T>> = Vec::new();
        let mut i: usize = 0;
        while i < capacity
            invariant
                i <= capacity,
                nodes@.len() == i,
                forall|j: int| 0 <= j < i ==> #[trigger] nodes@[j] == Node::<T>::empty(),
            decreases capacity - i,
        {
            nodes.push(Node::new());
            i = i + 1;
        }
        let r = TreapStore { nodes };
        proof {
            lemma_shape_of(r@, None::<T>, Shape::Leaf);
        }
        r
    }

    /// The records, slot by slot.
    pub fn nodes(&self) -> (r: &[Node<T>])
        ensures
            r@ == self@,
    {
        self.nodes.as_slice()
    }

    /// Makes every record empty again; the capacity stays.
    pub fn reset(&mut self)
        ensures
            final(self)@.len() == old(self)@.len(),
            forall|i: int|
                0 <= i < final(self)@.len() ==> #[trigger] final(self)@[i] == Node::<T>::empty(),
            treap_valid(final(self)@, None),
            shape_of(final(self)@, None::<T>) == Shape::Leaf,
    {
        let n = self.nodes.len();
        let mut i: usize = 0;
        while i < n
            invariant
                i <= n,
                self.nodes@.len() == n,
                forall|j: int| 0 <= j < i ==> #[trigger] self.nodes@[j] == Node::<T>::empty(),
            decreases n - i,
        {
            self.nodes.set(i, Node::new());
            i = i + 1;
        }
        proof {
            lemma_shape_of(self@, None::<T>, Shape::Leaf);
        }
    }

    /// Inserts `idx` into the tree under `root` and returns the new root:
    /// the insertion of the treap strategy.
    pub fn insert(&mut self, root: Option<T>, idx: T) -> (r: Option<T>)
        requires
            treap_valid(old(self)@, root),
        ensures
            treap_valid(final(self)@, r),
            final(self)@.len() == old(self)@.len(),
            idx.value() < old(self)@.len() ==> shape_of(final(self)@, r) == treap_insert(
                shape_of(old(self)@, root),
                idx.value(),
            ),
            idx.value() < old(self)@.len() ==> keys_of(final(self)@, r) == keys_of(
                old(self)@,
                root,
            ).insert(idx.value()),
            idx.value() >= old(self)@.len() || keys_of(old(self)@, root).contains(idx.value())
                ==> r == root && final(self)@ == old(self)@,
    {
        self.insert_treap(root, idx)
    }

    /// Removes `idx` from the tree under `root` and returns the new root:
    /// the removal of the treap strategy.
    pub fn remove(&mut self, root: Option<T>, idx: T) -> (r: Option<T>)
        requires
            treap_valid(old(self)@, root),
        ensures
            treap_valid(final(self)@, r),
            final(self)@.len() == old(self)@.len(),
            shape_of(final(self)@, r) == treap_remove(shape_of(old(self)@, root), idx.value()),
            keys_of(final(self)@, r) == keys_of(old(self)@, root).remove(idx.value()),
            !keys_of(old(self)@, root).contains(idx.value()) ==> r == root && final(self)@ == old(
                self,
            )@,
    {
        self.remove_treap(root, idx)
    }
}

impl<T: Idx> Tree<T> for TreapStore<T> {
    closed spec fn view(&self) -> Seq<Node<T>> {
        self.nodes@
    }

    proof fn lemma_capacity(&self) {
        assert(self.nodes.len() == self.nodes@.len());
    }

    fn get(&self, idx: T) -> (r: Option<Node<T>>) {
        let i = idx.as_usize();
        if i < self.nodes.len() {
            Some(self.nodes[i])
        } else {
            None
        }
    }

    fn set(&mut self, idx: T, node: Node<T>) {
        let i = idx.as_usize();
        if i < self.nodes.len() {
            self.nodes.set(i, node);
        }
    }

    fn left_mut(&mut self, idx: T) -> (r: Option<&mut T>) {
        let i = idx.as_usize();
        if i < self.nodes.len() {
            self.nodes[i].left.as_mut()
        } else {
            None
        }
    }

    fn right_mut(&mut self, idx: T) -> (r: Option<&mut T>) {
        let i = idx.as_usize();
        if i < self.nodes.len() {
            self.nodes[i].right.as_mut()
        } else {
            None
        }
    }
}

impl<T: Idx> Treap<T> for TreapStore<T> {

}

} // verus!
