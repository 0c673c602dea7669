use dunes::trees::{Node, Treap, TreapStore, Tree};

fn walk(store: &TreapStore<usize>, root: Option<usize>, out: &mut Vec<usize>) {
    if let Some(r) = root {
        let n = store.get(r).unwrap();
        assert_eq!(n.size, store.hash_priority(r));
        for child in [n.left, n.right].into_iter().flatten() {
            assert!(store.priority(child).unwrap() <= n.size);
        }
        walk(store, n.left, out);
        out.push(r);
        walk(store, n.right, out);
    }
}

#[test]
fn test_treap_basic() {
    let mut treap: TreapStore<usize> = TreapStore::new(10);

    let mut root = None;
    root = treap.insert(root, 5);
    assert_eq!(root, Some(5));
    assert!(treap.contains(5, 5));

    root = treap.insert(root, 3);
    root = treap.insert(root, 7);
    assert!(treap.contains(root.unwrap(), 3));
    assert!(treap.contains(root.unwrap(), 5));
    assert!(treap.contains(root.unwrap(), 7));
    assert!(!treap.contains(root.unwrap(), 1));
}

#[test]
fn test_treap_insert_remove() {
    let mut treap: TreapStore<usize> = TreapStore::new(100);

    let mut root = None;
    for i in 1..10 {
        root = treap.insert(root, i);
    }

    for i in 1..10 {
        assert!(treap.contains(root.unwrap(), i));
    }

    for i in 1..10 {
        root = treap.remove(root, i);
        if let Some(r) = root {
            assert!(!treap.contains(r, i));
        }
    }

    assert!(root.is_none());
}

#[test]
fn test_treap_priorities() {
    let treap: TreapStore<usize> = TreapStore::new(10);

    let p1 = treap.hash_priority(1);
    let p2 = treap.hash_priority(2);
    let p3 = treap.hash_priority(3);

    assert_ne!(p1, p2);
    assert_ne!(p2, p3);
    assert_ne!(p1, p3);
}

#[test]
fn treap_priority_formula() {
    let treap: TreapStore<usize> = TreapStore::new(1);
    assert_eq!(treap.hash_priority(0), 0);
    assert_eq!(treap.hash_priority(1), 1327217880);
    assert_eq!(treap.hash_priority(2), 2654435761);
    assert_eq!(treap.hash_priority(usize::MAX), 2654435761usize.wrapping_neg() >> 1);
    let small: TreapStore<u8> = TreapStore::new(1);
    assert_eq!(small.hash_priority(5u8), 6636089402);
}

#[test]
fn treap_three_inserts_root_has_highest_priority() {
    let mut treap: TreapStore<usize> = TreapStore::new(10);
    let mut root = None;
    for v in [5usize, 3, 7] {
        root = treap.insert(root, v);
    }
    let best = [5usize, 3, 7].into_iter().max_by_key(|v| treap.hash_priority(*v)).unwrap();
    assert_eq!(root, Some(best));
    assert_eq!(root, Some(7));
    assert_eq!(
        treap.get(7),
        Some(Node { size: treap.hash_priority(7), left: Some(5), right: None })
    );
    assert_eq!(
        treap.get(5),
        Some(Node { size: treap.hash_priority(5), left: Some(3), right: None })
    );
}

#[test]
fn treap_keeps_both_orders_and_round_trips() {
    let values: Vec<usize> =
        vec![72, 86, 54, 61, 19, 84, 1, 41, 49, 56, 97, 2, 26, 77, 11, 34, 94, 82, 92];
    let mut treap: TreapStore<usize> = TreapStore::new(100);
    let mut root = None;
    for (n, &v) in values.iter().enumerate() {
        root = treap.insert(root, v);
        let mut keys = Vec::new();
        walk(&treap, root, &mut keys);
        let mut sorted = values[..=n].to_vec();
        sorted.sort();
        assert_eq!(keys, sorted);
    }
    let mut order = values.clone();
    order.reverse();
    order.rotate_left(5);
    for (n, &v) in order.iter().enumerate() {
        root = treap.remove(root, v);
        let mut keys = Vec::new();
        walk(&treap, root, &mut keys);
        assert_eq!(keys.len(), values.len() - n - 1);
        assert!(!keys.contains(&v));
        assert_eq!(treap.get(v), Some(Node::new()));
    }
    assert_eq!(root, None);
    assert!(treap.nodes().iter().all(|n| *n == Node::new()));
}

#[test]
fn treap_duplicate_and_out_of_range_change_nothing() {
    let mut treap: TreapStore<usize> = TreapStore::new(4);
    let mut root = None;
    root = treap.insert(root, 2);
    root = treap.insert(root, 1);
    let before = treap.nodes().to_vec();
    assert_eq!(treap.insert(root, 1), root);
    assert_eq!(treap.insert(root, 9), root);
    assert_eq!(treap.remove(root, 3), root);
    assert_eq!(treap.remove(root, 9), root);
    assert_eq!(treap.nodes().to_vec(), before);
}

#[test]
fn treap_remove_from_the_middle_and_the_end() {
    let mut treap: TreapStore<usize> = TreapStore::new(10);
    let mut root = None;
    for v in [5usize, 3, 7, 4, 6] {
        root = treap.insert(root, v);
    }
    // for handles this small the priority grows with the handle
    assert_eq!(root, Some(7));
    root = treap.remove(root, 5);
    assert_eq!(root, Some(7));
    assert_eq!(treap.get(6).unwrap().left, Some(4));
    assert_eq!(treap.get(5), Some(Node::new()));
    root = treap.remove(root, 3);
    assert_eq!(treap.get(4).unwrap().left, None);
    root = treap.remove(root, 7);
    assert_eq!(root, Some(6));
    let mut keys = Vec::new();
    walk(&treap, root, &mut keys);
    assert_eq!(keys, vec![4, 6]);
}

#[test]
fn treap_helpers() {
    let mut treap: TreapStore<usize> = TreapStore::new(4);
    assert_eq!(treap.priority(9), None);
    treap.set_priority(1, 44);
    assert_eq!(treap.priority(1), Some(44));
    treap.set_priority(9, 1);
    let mut root = None;
    treap.reset();
    for v in [1usize, 2, 3] {
        root = treap.insert(root, v);
    }
    let top = root.unwrap();
    assert_eq!(top, 3);
    assert_eq!(treap.rotate_left(top), None);
    assert_eq!(treap.rotate_right(top), Some(2));
    assert_eq!(
        treap.get(2),
        Some(Node { size: treap.hash_priority(2), left: Some(1), right: Some(3) })
    );
    assert_eq!(treap.get(3), Some(Node { size: treap.hash_priority(3), left: None, right: None }));
    assert_eq!(treap.rotate_left(2), Some(3));
    assert_eq!(treap.get(3), Some(Node { size: treap.hash_priority(3), left: Some(2), right: None }));
    assert_eq!(treap.rotate_right(1), None);
    treap.reset();
    assert!(treap.nodes().iter().all(|n| *n == Node::new()));
}
