use dunes::trees::Node;
use dunes::trees::SizeBalanced;
use dunes::trees::Store;
use dunes::trees::Tree;

fn in_order(store: &Store<usize>, root: Option<usize>, out: &mut Vec<usize>) {
    if let Some(r) = root {
        in_order(store, store.left(r), out);
        out.push(r);
        in_order(store, store.right(r), out);
    }
}

fn sizes_hold(store: &Store<usize>, root: Option<usize>) -> usize {
    match root {
        None => 0,
        Some(r) => {
            let n = sizes_hold(store, store.left(r)) + sizes_hold(store, store.right(r)) + 1;
            assert_eq!(store.size(r), Some(n));
            n
        }
    }
}

#[test]
fn test_store_basic() {
    let mut store: Store<usize> = Store::new(10);

    let mut root = None;
    root = store.insert(root, 5);
    assert_eq!(root, Some(5));
    assert!(store.contains(5, 5));

    root = store.insert(root, 3);
    root = store.insert(root, 7);
    assert!(store.contains(root.unwrap(), 3));
    assert!(store.contains(root.unwrap(), 5));
    assert!(store.contains(root.unwrap(), 7));
    assert!(!store.contains(root.unwrap(), 1));
}

#[test]
fn test_store_insert_remove() {
    let mut store: Store<usize> = Store::new(100);

    let mut root = None;
    for i in 1..10 {
        root = store.insert(root, i);
    }

    for i in 1..10 {
        assert!(store.contains(root.unwrap(), i));
    }

    for i in 1..10 {
        root = store.remove(root, i);
        if let Some(r) = root {
            assert!(!store.contains(r, i));
        }
    }

    assert!(root.is_none());
    assert!(store.is_empty());
}

#[test]
fn test_single_insert() {
    let mut store: Store<usize> = Store::new(10);
    let root = store.insert(None, 5);
    assert_eq!(root, Some(5));

    let node = store.get(5).unwrap();
    assert_eq!(node.size, 1);
    assert_eq!(node.left, None);
    assert_eq!(node.right, None);

    assert!(store.contains(5, 5));
}

#[test]
fn test_two_inserts() {
    let mut store: Store<usize> = Store::new(10);

    let mut root = store.insert(None, 5);
    println!("After inserting 5, root = {:?}", root);

    root = store.insert(root, 3);
    println!("After inserting 3, root = {:?}", root);

    if let Some(r) = root {
        println!("Root node {:?}: {:?}", r, store.get(r));
        println!("Node 3: {:?}", store.get(3));
        println!("Node 5: {:?}", store.get(5));

        assert!(store.contains(r, 3), "Should contain 3");
        assert!(store.contains(r, 5), "Should contain 5");
    } else {
        panic!("Root should not be None");
    }
}

#[test]
fn sbt_three_inserts_root_and_size() {
    let mut store: Store<usize> = Store::new(10);
    let mut root = None;
    for v in [5usize, 3, 7] {
        root = store.insert(root, v);
    }
    assert_eq!(root, Some(5));
    assert_eq!(store.size(5), Some(3));
    assert_eq!(store.get(5), Some(Node { size: 3, left: Some(3), right: Some(7) }));
    assert!(store.contains(5, 3));
    assert!(store.contains(5, 5));
    assert!(store.contains(5, 7));
    assert!(!store.contains(5, 1));
}

#[test]
fn sbt_regression_sequence_round_trip() {
    let values: Vec<usize> =
        vec![72, 86, 54, 61, 19, 84, 1, 41, 49, 56, 97, 2, 26, 77, 11, 34, 94, 82, 92];
    let mut store: Store<usize> = Store::new(100);
    let mut root = None;
    for (n, &v) in values.iter().enumerate() {
        root = store.insert(root, v);
        assert_eq!(sizes_hold(&store, root), n + 1);
        let mut keys = Vec::new();
        in_order(&store, root, &mut keys);
        let mut sorted = values[..=n].to_vec();
        sorted.sort();
        assert_eq!(keys, sorted);
    }
    for (n, &v) in values.iter().enumerate() {
        root = store.remove(root, v);
        assert_eq!(sizes_hold(&store, root), values.len() - n - 1);
        assert_eq!(store.get(v), Some(Node::new()));
        if let Some(r) = root {
            assert!(!store.contains(r, v));
        }
    }
    assert_eq!(root, None);
    assert!(store.is_empty());
    assert!(store.nodes().iter().all(|n| *n == Node::new()));
}

#[test]
fn sbt_sorted_inserts_shape() {
    // Six growing keys: the rotations on the way down leave 3 on top.
    let mut store: Store<usize> = Store::new(8);
    let mut root = None;
    for v in 0..6usize {
        root = store.insert(root, v);
    }
    assert_eq!(root, Some(3));
    assert_eq!(store.get(3), Some(Node { size: 6, left: Some(2), right: Some(4) }));
    assert_eq!(store.get(2), Some(Node { size: 3, left: Some(1), right: None }));
    assert_eq!(store.get(1), Some(Node { size: 2, left: Some(0), right: None }));
    assert_eq!(store.get(4), Some(Node { size: 2, left: None, right: Some(5) }));
}

#[test]
fn sbt_duplicate_and_out_of_range_change_nothing() {
    let mut store: Store<usize> = Store::new(4);
    let mut root = None;
    root = store.insert(root, 2);
    root = store.insert(root, 1);
    let before = store.nodes().to_vec();
    assert_eq!(store.insert(root, 1), root);
    assert_eq!(store.insert(root, 9), root);
    assert_eq!(store.remove(root, 3), root);
    assert_eq!(store.remove(root, 9), root);
    assert_eq!(store.nodes().to_vec(), before);
}

#[test]
fn sbt_remove_two_children_takes_neighbour_from_larger_side() {
    let mut store: Store<usize> = Store::new(10);
    let mut root = None;
    for v in [5usize, 3, 7, 4, 2, 1] {
        root = store.insert(root, v);
    }
    assert_eq!(root, Some(3));
    assert_eq!(store.get(3), Some(Node { size: 6, left: Some(2), right: Some(5) }));
    // 5 has two children of equal size: the leftmost handle of the right one replaces it
    root = store.remove(root, 5);
    assert_eq!(root, Some(3));
    assert_eq!(store.get(7), Some(Node { size: 2, left: Some(4), right: None }));
    assert_eq!(store.get(5), Some(Node::new()));
    assert_eq!(store.get(3), Some(Node { size: 5, left: Some(2), right: Some(7) }));
    // 7 has one child, which takes its place
    root = store.remove(root, 7);
    assert_eq!(store.get(3), Some(Node { size: 4, left: Some(2), right: Some(4) }));
    // the left subtree of 3 is the larger one: its rightmost handle replaces 3
    root = store.remove(root, 3);
    assert_eq!(root, Some(2));
    assert_eq!(store.get(2), Some(Node { size: 3, left: Some(1), right: Some(4) }));
    assert_eq!(store.get(3), Some(Node::new()));
}

#[test]
fn sbt_size_helpers() {
    let mut store: Store<usize> = Store::new(4);
    assert_eq!(store.size(9), None);
    store.set_size(1, 4);
    assert_eq!(store.size(1), Some(4));
    store.inc_size(1);
    assert_eq!(store.size(1), Some(5));
    store.dec_size(1);
    assert_eq!(store.size(1), Some(4));
    store.set_left(2, Some(1));
    store.set_right(2, Some(3));
    store.set_size(3, 2);
    assert_eq!(store.left_size(2), Some(4));
    assert_eq!(store.right_size(2), Some(2));
    assert_eq!(store.left_size(1), None);
    store.fix_size(2);
    assert_eq!(store.size(2), Some(7));
    store.clear(2);
    assert_eq!(store.get(2), Some(Node::new()));
    store.set_size(9, 1);
    store.reset();
    assert!(store.is_empty());
}

#[test]
fn sbt_rotations() {
    let mut store: Store<usize> = Store::new(8);
    let mut root = None;
    for v in [4usize, 2, 6, 5] {
        root = store.insert(root, v);
    }
    assert_eq!(root, Some(4));
    assert_eq!(store.rotate_left(4), Some(6));
    assert_eq!(store.get(6), Some(Node { size: 4, left: Some(4), right: None }));
    assert_eq!(store.get(4), Some(Node { size: 3, left: Some(2), right: Some(5) }));
    assert_eq!(store.rotate_right(6), Some(4));
    assert_eq!(store.get(4), Some(Node { size: 4, left: Some(2), right: Some(6) }));
    assert_eq!(store.get(6), Some(Node { size: 2, left: Some(5), right: None }));
    assert_eq!(store.rotate_left(2), None);
}

#[test]
fn navigation_helpers() {
    let mut store: Store<usize> = Store::new(8);
    let mut root = None;
    for v in [4usize, 2, 6, 1, 7] {
        root = store.insert(root, v);
    }
    let r = root.unwrap();
    assert_eq!(store.leftest(r), 1);
    assert_eq!(store.rightest(r), 7);
    assert!(store.is_left_of(1, 2));
    assert!(!store.is_left_of(2, 2));
    assert!(store.is_right_of(3, 2));
    assert_eq!(store.get(8), None);
    assert_eq!(store.left(8), None);
    store.set(8, Node::with_size(3));
    if let Some(slot) = store.left_mut(r) {
        assert_eq!(*slot, store_left_of_four());
    }
    assert!(store.right_mut(7).is_none());
}

fn store_left_of_four() -> usize {
    2
}

#[test]
fn store_over_given_records() {
    let records = vec![
        Node::<u32>::new(),
        Node { size: 1, left: None, right: None },
        Node { size: 2, left: Some(1), right: None },
    ];
    let mut store = Store::with_nodes(records.clone());
    assert_eq!(store.nodes().to_vec(), records);
    assert!(!store.is_empty());
    assert!(store.contains(2u32, 1u32));
    let root = store.insert(Some(2u32), 0u32);
    assert_eq!(root, Some(1));
    assert_eq!(store.get(1u32), Some(Node { size: 3, left: Some(0), right: Some(2) }));
    store.nodes_mut()[0] = Node::with_size(9);
    assert_eq!(store.size(0u32), Some(9));
}

#[test]
fn handles_of_other_widths() {
    let mut small: Store<u8> = Store::new(5);
    let mut root = None;
    for v in [4u8, 2, 3] {
        root = small.insert(root, v);
    }
    assert_eq!(root, Some(3));
    assert_eq!(small.get(3u8), Some(Node { size: 3, left: Some(2), right: Some(4) }));
    let mut wide: Store<u16> = Store::new(5);
    assert_eq!(wide.insert(None, 300u16), None);
    assert_eq!(wide.insert(None, 4u16), Some(4));
}

fn balanced(store: &Store<usize>, root: Option<usize>) -> bool {
    let size = |h: Option<usize>| h.and_then(|h| store.size(h)).unwrap_or(0);
    match root {
        None => true,
        Some(r) => {
            let (l, rt) = (store.left(r), store.right(r));
            let under = |h: Option<usize>| match h {
                Some(h) => (store.left(h), store.right(h)),
                None => (None, None),
            };
            let (ll, lr) = under(l);
            let (rl, rr) = under(rt);
            size(ll) <= size(rt)
                && size(lr) <= size(rt)
                && size(rl) <= size(l)
                && size(rr) <= size(l)
                && balanced(store, l)
                && balanced(store, rt)
        }
    }
}

#[test]
fn sbt_descent_without_rotation_keeps_balance() {
    let mut store: Store<usize> = Store::new(10);
    let mut root = None;
    for v in [4usize, 2, 6, 7] {
        root = store.insert(root, v);
    }
    assert_eq!(store.get(6), Some(Node { size: 4, left: Some(4), right: Some(7) }));
    assert!(balanced(&store, root));
    // the right side is the smaller one: 8 goes down to a leaf
    root = store.insert(root, 8);
    assert_eq!(root, Some(6));
    assert_eq!(store.get(6), Some(Node { size: 5, left: Some(4), right: Some(7) }));
    assert_eq!(store.get(7), Some(Node { size: 2, left: None, right: Some(8) }));
    assert!(balanced(&store, root));
}

#[test]
fn sbt_rotations_on_the_way_down_may_leave_a_long_side() {
    let mut store: Store<usize> = Store::new(8);
    let mut root = None;
    for v in 0..5usize {
        root = store.insert(root, v);
        assert!(balanced(&store, root));
    }
    root = store.insert(root, 5);
    assert_eq!(root, Some(3));
    assert!(!balanced(&store, root));
}
