//! What holds of the two strategies over every run of insertions and
//! removals.

use vstd::prelude::*;
use crate::trees::node::{Idx, Node};
use crate::trees::sbt::{
    is_sbt, lemma_sbt_attach, lemma_sbt_remove, sbt_insert, sbt_remove, sbt_valid, size_at, sized,
};
use crate::trees::shape::{
    Shape, increasing, lemma_in_order_increasing, lemma_no_keys_is_leaf, lemma_search_side,
};
use crate::trees::treap::{
    heap, is_treap, lemma_heap_top, lemma_treap_insert, lemma_treap_remove, priority,
    treap_insert, treap_remove, treap_valid,
};
use crate::trees::tree::{idle_outside, lemma_linked_in_range, linked, shape_of};

verus! {

/// The tree after the size-balanced insertions of `ks`, one after the other,
/// into `t`.
pub open spec fn sbt_insert_all(t: Shape, ks: Seq<nat>) -> Shape
    decreases ks.len(),
{
    if ks.len() == 0 {
        t
    } else {
        sbt_insert(sbt_insert_all(t, ks.drop_last()), ks.last())
    }
}

/// The tree after the size-balanced removals of `ks`, one after the other,
/// from `t`.
pub open spec fn sbt_remove_all(t: Shape, ks: Seq<nat>) -> Shape
    decreases ks.len(),
{
    if ks.len() == 0 {
        t
    } else {
        sbt_remove(sbt_remove_all(t, ks.drop_last()), ks.last())
    }
}

/// The tree after the treap insertions of `ks`, one after the other, into `t`.
pub open spec fn treap_insert_all(t: Shape, ks: Seq<nat>) -> Shape
    decreases ks.len(),
{
    if ks.len() == 0 {
        t
    } else {
        treap_insert(treap_insert_all(t, ks.drop_last()), ks.last())
    }
}

/// The tree after the treap removals of `ks`, one after the other, from `t`.
pub open spec fn treap_remove_all(t: Shape, ks: Seq<nat>) -> Shape
    decreases ks.len(),
{
    if ks.len() == 0 {
        t
    } else {
        treap_remove(treap_remove_all(t, ks.drop_last()), ks.last())
    }
}

/// Membership under the size-balanced strategy: after the insertion of `k`
/// the tree holds `k` and what it held; after the removal of `k` it holds
/// what it held but `k`.
pub proof fn law_sbt_membership(t: Shape, k: nat, h: nat)
    requires
        t.ordered(),
    ensures
        sbt_insert(t, k).ordered(),
        sbt_remove(t, k).ordered(),
        sbt_insert(t, k).contains(k),
        !sbt_remove(t, k).contains(k),
        sbt_insert(t, k).contains(h) == (h == k || t.contains(h)),
        sbt_remove(t, k).contains(h) == (h != k && t.contains(h)),
{
    if !t.contains(k) {
        lemma_sbt_attach(t, k);
    }
    lemma_sbt_remove(t, k);
}

/// Membership under the treap strategy: after the insertion of `k` the tree
/// holds `k` and what it held; after the removal of `k` it holds what it
/// held but `k`; and both keep the heap order.
pub proof fn law_treap_membership(t: Shape, k: nat, h: nat)
    requires
        t.ordered(),
        heap(t),
    ensures
        treap_insert(t, k).ordered(),
        treap_remove(t, k).ordered(),
        heap(treap_insert(t, k)),
        heap(treap_remove(t, k)),
        treap_insert(t, k).contains(k),
        !treap_remove(t, k).contains(k),
        treap_insert(t, k).contains(h) == (h == k || t.contains(h)),
        treap_remove(t, k).contains(h) == (h != k && t.contains(h)),
{
    lemma_treap_insert(t, k);
    lemma_heap_top(t, k);
    lemma_treap_remove(t, k);
}

/// Whatever is inserted into an ordered tree under the size-balanced
/// strategy, in whatever order, the tree stays ordered and holds what it
/// held and what was inserted.
pub proof fn law_sbt_insert_all(t: Shape, ks: Seq<nat>)
    requires
        t.ordered(),
    ensures
        sbt_insert_all(t, ks).ordered(),
        forall|x: nat| #[trigger]
            sbt_insert_all(t, ks).contains(x) <==> t.contains(x) || ks.contains(x),
    decreases ks.len(),
{
    if ks.len() > 0 {
        let front = ks.drop_last();
        let mid = sbt_insert_all(t, front);
        law_sbt_insert_all(t, front);
        assert forall|x: nat| #[trigger]
            sbt_insert_all(t, ks).contains(x) <==> t.contains(x) || ks.contains(x) by {
            law_sbt_membership(mid, ks.last(), x);
            lemma_contains_last(ks, x);
        }
        law_sbt_membership(mid, ks.last(), 0);
    }
}

/// Whatever is removed from an ordered tree under the size-balanced
/// strategy, in whatever order, the tree stays ordered and holds what it
/// held but what was removed.
pub proof fn law_sbt_remove_all(t: Shape, ks: Seq<nat>)
    requires
        t.ordered(),
    ensures
        sbt_remove_all(t, ks).ordered(),
        forall|x: nat| #[trigger]
            sbt_remove_all(t, ks).contains(x) <==> t.contains(x) && !ks.contains(x),
    decreases ks.len(),
{
    if ks.len() > 0 {
        let front = ks.drop_last();
        let mid = sbt_remove_all(t, front);
        law_sbt_remove_all(t, front);
        assert forall|x: nat| #[trigger]
            sbt_remove_all(t, ks).contains(x) <==> t.contains(x) && !ks.contains(x) by {
            law_sbt_membership(mid, ks.last(), x);
            lemma_contains_last(ks, x);
        }
        law_sbt_membership(mid, ks.last(), 0);
    }
}

/// Whatever is inserted into a treap, in whatever order, it stays a treap
/// and holds what it held and what was inserted.
pub proof fn law_treap_insert_all(t: Shape, ks: Seq<nat>)
    requires
        t.ordered(),
        heap(t),
    ensures
        treap_insert_all(t, ks).ordered(),
        heap(treap_insert_all(t, ks)),
        forall|x: nat| #[trigger]
            treap_insert_all(t, ks).contains(x) <==> t.contains(x) || ks.contains(x),
    decreases ks.len(),
{
    if ks.len() > 0 {
        let front = ks.drop_last();
        let mid = treap_insert_all(t, front);
        law_treap_insert_all(t, front);
        assert forall|x: nat| #[trigger]
            treap_insert_all(t, ks).contains(x) <==> t.contains(x) || ks.contains(x) by {
            law_treap_membership(mid, ks.last(), x);
            lemma_contains_last(ks, x);
        }
        law_treap_membership(mid, ks.last(), 0);
    }
}

/// Whatever is removed from a treap, in whatever order, it stays a treap and
/// holds what it held but what was removed.
pub proof fn law_treap_remove_all(t: Shape, ks: Seq<nat>)
    requires
        t.ordered(),
        heap(t),
    ensures
        treap_remove_all(t, ks).ordered(),
        heap(treap_remove_all(t, ks)),
        forall|x: nat| #[trigger]
            treap_remove_all(t, ks).contains(x) <==> t.contains(x) && !ks.contains(x),
    decreases ks.len(),
{
    if ks.len() > 0 {
        let front = ks.drop_last();
        let mid = treap_remove_all(t, front);
        law_treap_remove_all(t, front);
        assert forall|x: nat| #[trigger]
            treap_remove_all(t, ks).contains(x) <==> t.contains(x) && !ks.contains(x) by {
            law_treap_membership(mid, ks.last(), x);
            lemma_contains_last(ks, x);
        }
        law_treap_membership(mid, ks.last(), 0);
    }
}

/// What a sequence holds is what it holds before its last item, and that
/// item.
proof fn lemma_contains_last(ks: Seq<nat>, x: nat)
    requires
        ks.len() > 0,
    ensures
        ks.contains(x) <==> ks.drop_last().contains(x) || x == ks.last(),
{
    let front = ks.drop_last();
    if ks.contains(x) {
        let i = choose|i: int| 0 <= i < ks.len() && ks[i] == x;
        if i < ks.len() - 1 {
            assert(front[i] == x);
        }
    }
    if front.contains(x) {
        let i = choose|i: int| 0 <= i < front.len() && front[i] == x;
        assert(ks[i] == x);
    }
    if x == ks.last() {
        assert(ks[ks.len() - 1] == x);
    }
}

/// Search-tree order: whatever handles are inserted into the empty tree, in
/// whatever order and under either strategy, a walk of the tree from left to
/// right meets the handles in strictly growing order.
pub proof fn law_inserts_walk_in_order(ks: Seq<nat>)
    ensures
        increasing(sbt_insert_all(Shape::Leaf, ks).in_order()),
        increasing(treap_insert_all(Shape::Leaf, ks).in_order()),
{
    law_sbt_insert_all(Shape::Leaf, ks);
    law_treap_insert_all(Shape::Leaf, ks);
    lemma_in_order_increasing(sbt_insert_all(Shape::Leaf, ks));
    lemma_in_order_increasing(treap_insert_all(Shape::Leaf, ks));
}

/// Round trip: where handles are inserted into the empty tree and then all
/// of them removed, in whatever order and under either strategy, the tree is
/// empty again.
pub proof fn law_round_trip(ins: Seq<nat>, outs: Seq<nat>)
    requires
        forall|x: nat| ins.contains(x) ==> outs.contains(x),
    ensures
        sbt_remove_all(sbt_insert_all(Shape::Leaf, ins), outs) == Shape::Leaf,
        treap_remove_all(treap_insert_all(Shape::Leaf, ins), outs) == Shape::Leaf,
{
    let full = sbt_insert_all(Shape::Leaf, ins);
    law_sbt_insert_all(Shape::Leaf, ins);
    law_sbt_remove_all(full, outs);
    let rest = sbt_remove_all(full, outs);
    assert forall|x: nat| !rest.keys().contains(x) by {
        assert(rest.contains(x) <==> full.contains(x) && !outs.contains(x));
        assert(full.contains(x) <==> Shape::Leaf.contains(x) || ins.contains(x));
    }
    assert(rest.keys() =~= Set::<nat>::empty());
    lemma_no_keys_is_leaf(rest);

    let full = treap_insert_all(Shape::Leaf, ins);
    law_treap_insert_all(Shape::Leaf, ins);
    law_treap_remove_all(full, outs);
    let rest = treap_remove_all(full, outs);
    assert forall|x: nat| !rest.keys().contains(x) by {
        assert(rest.contains(x) <==> full.contains(x) && !outs.contains(x));
        assert(full.contains(x) <==> Shape::Leaf.contains(x) || ins.contains(x));
    }
    assert(rest.keys() =~= Set::<nat>::empty());
    lemma_no_keys_is_leaf(rest);
}

/// A store whose tree is empty has no root and nothing but empty records.
pub proof fn law_empty_tree_is_blank<T: Idx>(nodes: Seq<Node<T>>, root: Option<T>)
    requires
        sbt_valid(nodes, root) || treap_valid(nodes, root),
        shape_of(nodes, root) is Leaf,
    ensures
        root is None,
        forall|i: int| 0 <= i < nodes.len() ==> #[trigger] nodes[i] == Node::<T>::empty(),
{
    let t = shape_of(nodes, root);
    assert(linked(nodes, root, t));
    assert(idle_outside(nodes, t));
}

/// Size consistency: in a size-balanced tree the size in the record of every
/// reachable handle is one more than the sizes of its two children together,
/// an absent child counting 0.
pub proof fn law_sizes_add_up<T: Idx>(nodes: Seq<Node<T>>, root: Option<T>, k: nat)
    requires
        is_sbt(nodes, root),
        shape_of(nodes, root).contains(k),
    ensures
        k < nodes.len(),
        nodes[k as int].size == 1 + size_at(nodes, nodes[k as int].left) + size_at(
            nodes,
            nodes[k as int].right,
        ),
{
    lemma_sizes_add_up(nodes, root, shape_of(nodes, root), k);
}

/// The same of a tree that the links spell out, by descent to the handle.
proof fn lemma_sizes_add_up<T: Idx>(nodes: Seq<Node<T>>, root: Option<T>, t: Shape, k: nat)
    requires
        linked(nodes, root, t),
        t.ordered(),
        sized(nodes, t),
        t.contains(k),
    ensures
        k < nodes.len(),
        nodes[k as int].size == 1 + size_at(nodes, nodes[k as int].left) + size_at(
            nodes,
            nodes[k as int].right,
        ),
    decreases t,
{
    match t {
        Shape::Leaf => {},
        Shape::Node(l, key, r) => {
            lemma_search_side(t, k);
            let n = nodes[key as int];
            if k < key {
                lemma_sizes_add_up(nodes, n.left, *l, k);
            } else if key < k {
                lemma_sizes_add_up(nodes, n.right, *r, k);
            } else {
                crate::trees::sbt::lemma_size_at(nodes, n.left, *l);
                crate::trees::sbt::lemma_size_at(nodes, n.right, *r);
            }
        },
    }
}

/// The priority in the record of `child`; 0 where there is no child.
pub open spec fn priority_at<T: Idx>(nodes: Seq<Node<T>>, child: Option<T>) -> nat {
    size_at(nodes, child)
}

/// Heap order: in a treap the record of every reachable handle holds the
/// priority of that handle, and it is at least the priority in the record of
/// each of its children.
pub proof fn law_parent_outranks_children<T: Idx>(nodes: Seq<Node<T>>, root: Option<T>, k: nat)
    requires
        is_treap(nodes, root),
        shape_of(nodes, root).contains(k),
    ensures
        k < nodes.len(),
        nodes[k as int].size == priority(k),
        priority_at(nodes, nodes[k as int].left) <= nodes[k as int].size,
        priority_at(nodes, nodes[k as int].right) <= nodes[k as int].size,
{
    let t = shape_of(nodes, root);
    lemma_linked_in_range(nodes, root, t);
    assert forall|x: nat| #[trigger] t.keys().contains(x) implies nodes[x as int].size == priority(
        x,
    ) by {}
    lemma_parent_outranks_children(nodes, root, t, k);
}

/// The same of a tree that the links spell out, by descent to the handle.
proof fn lemma_parent_outranks_children<T: Idx>(
    nodes: Seq<Node<T>>,
    root: Option<T>,
    t: Shape,
    k: nat,
)
    requires
        linked(nodes, root, t),
        t.ordered(),
        heap(t),
        forall|x: nat| #[trigger] t.keys().contains(x) ==> nodes[x as int].size == priority(x),
        t.contains(k),
    ensures
        k < nodes.len(),
        nodes[k as int].size == priority(k),
        priority_at(nodes, nodes[k as int].left) <= nodes[k as int].size,
        priority_at(nodes, nodes[k as int].right) <= nodes[k as int].size,
    decreases t,
{
    match t {
        Shape::Leaf => {},
        Shape::Node(l, key, r) => {
            lemma_search_side(t, k);
            let n = nodes[key as int];
            assert forall|x: nat| #[trigger] l.keys().contains(x) implies nodes[x as int].size
                == priority(x) by {
                assert(t.keys().contains(x));
            }
            assert forall|x: nat| #[trigger] r.keys().contains(x) implies nodes[x as int].size
                == priority(x) by {
                assert(t.keys().contains(x));
            }
            if k < key {
                lemma_parent_outranks_children(nodes, n.left, *l, k);
            } else if key < k {
                lemma_parent_outranks_children(nodes, n.right, *r, k);
            } else {
                assert(t.keys().contains(key));
                assert(linked(nodes, n.left, *l));
                assert(linked(nodes, n.right, *r));
                match *l {
                    Shape::Leaf => {},
                    Shape::Node(_, lk, _) => {
                        assert(l.keys().contains(lk));
                    },
                }
                match *r {
                    Shape::Leaf => {},
                    Shape::Node(_, rk, _) => {
                        assert(r.keys().contains(rk));
                    },
                }
            }
        },
    }
}

/// The balance of a size-balanced tree: at every node neither subtree of a
/// child is larger than the subtree of the other child.
pub open spec fn balanced(t: Shape) -> bool
    decreases t,
{
    match t {
        Shape::Leaf => true,
        Shape::Node(l, _, r) => {
            &&& balanced(*l)
            &&& balanced(*r)
            &&& l.left().count() <= r.count()
            &&& l.right().count() <= r.count()
            &&& r.left().count() <= l.count()
            &&& r.right().count() <= l.count()
        },
    }
}

/// Whether the insertion of `k` into `t` goes down to a leaf without a
/// rotation: at every node on the way the subtree that the key is headed
/// for is smaller than the subtree on the other side of the node.
pub open spec fn descends(t: Shape, k: nat) -> bool
    decreases t,
{
    match t {
        Shape::Leaf => true,
        Shape::Node(l, key, r) => if k < key {
            match *l {
                Shape::Leaf => true,
                Shape::Node(_, lk, lr) => if k < lk {
                    l.count() < r.count() && descends(*l, k)
                } else {
                    lr.count() < r.count() && descends(*l, k)
                },
            }
        } else {
            match *r {
                Shape::Leaf => true,
                Shape::Node(rl, rk, _) => if rk < k {
                    r.count() < l.count() && descends(*r, k)
                } else {
                    rl.count() < l.count() && descends(*r, k)
                },
            }
        },
    }
}

/// The tree with `k` hung as a leaf where the order puts it.
pub open spec fn hung(t: Shape, k: nat) -> Shape
    decreases t,
{
    match t {
        Shape::Leaf => Shape::single(k),
        Shape::Node(l, key, r) => if k < key {
            Shape::node(hung(*l, k), key, *r)
        } else {
            Shape::node(*l, key, hung(*r, k))
        },
    }
}

/// Balance, where no rotation is met: an insertion that goes down to a leaf
/// without a rotation hangs the new handle there, and a tree that was
/// balanced is balanced with it.
pub proof fn law_descent_keeps_balance(t: Shape, k: nat)
    requires
        t.ordered(),
        !t.contains(k),
        balanced(t),
        descends(t, k),
    ensures
        sbt_insert(t, k) == hung(t, k),
        hung(t, k).count() == t.count() + 1,
        balanced(sbt_insert(t, k)),
    decreases t,
{
    match t {
        Shape::Leaf => {
            assert(balanced(Shape::single(k))) by {
                reveal_with_fuel(balanced, 2);
                reveal_with_fuel(Shape::count, 2);
            }
            assert(Shape::single(k).count() == 1) by {
                reveal_with_fuel(Shape::count, 2);
            }
        },
        Shape::Node(l, key, r) => {
            lemma_search_side(t, k);
            assert(t.keys().contains(key));
            if k < key {
                law_descent_keeps_balance(*l, k);
                let grown = hung(*l, k);
                assert(hung(t, k) == Shape::node(grown, key, *r));
                match *l {
                    Shape::Leaf => {},
                    Shape::Node(ll, lk, lr) => {
                        assert(l.keys().contains(lk));
                        if k < lk {
                            assert(grown == Shape::node(hung(*ll, k), lk, *lr));
                        } else {
                            law_hung_count(*lr, k);
                            assert(grown == Shape::node(*ll, lk, hung(*lr, k)));
                        }
                    },
                }
            } else {
                law_descent_keeps_balance(*r, k);
                let grown = hung(*r, k);
                assert(hung(t, k) == Shape::node(*l, key, grown));
                match *r {
                    Shape::Leaf => {},
                    Shape::Node(rl, rk, rr) => {
                        assert(r.keys().contains(rk));
                        if rk < k {
                            assert(grown == Shape::node(*rl, rk, hung(*rr, k)));
                        } else {
                            law_hung_count(*rl, k);
                            assert(grown == Shape::node(hung(*rl, k), rk, *rr));
                        }
                    },
                }
            }
        },
    }
}

/// A tree with one more leaf hung in it has one node more.
pub proof fn law_hung_count(t: Shape, k: nat)
    ensures
        hung(t, k).count() == t.count() + 1,
    decreases t,
{
    match t {
        Shape::Leaf => {
            assert(Shape::single(k).count() == 1) by {
                reveal_with_fuel(Shape::count, 2);
            }
        },
        Shape::Node(l, key, r) => {
            if k < key {
                law_hung_count(*l, k);
            } else {
                law_hung_count(*r, k);
            }
        },
    }
}

} // verus!
