use word_count::my_tree::Tree;

#[test]
fn iterate_over_inserted_items_in_order() {
    let mut tree: Tree<u64, u64> = Tree::new();
    let assert_no_modify = |_: u64| -> u64 {
        assert!(false);
        0
    };

    tree = tree.insert_or_modify(5, 10, &assert_no_modify);
    tree = tree.insert_or_modify(4, 8, &assert_no_modify);
    tree = tree.insert_or_modify(6, 12, &assert_no_modify);

    let expected_keys = vec![4, 5, 6];
    let expected_vals = vec![8, 10, 12];
    let mut i = 0usize;

    for (k, v) in tree.each() {
        assert_eq!(*k, expected_keys[i]);
        assert_eq!(*v, expected_vals[i]);
        i = i + 1;
    }
    assert_eq!(i, 3);
}

#[test]
fn modify_inserted_items() {
    let mut tree: Tree<u64, u64> = Tree::new();
    let assert_no_modify = |_: u64| -> u64 {
        assert!(false);
        0
    };

    tree = tree.insert_or_modify(2, 10, &assert_no_modify);
    tree = tree.insert_or_modify(2, 1, &|v: u64| -> u64 {
        assert_eq!(v, 10);
        20
    });

    let mut times_called = 0u64;

    for (k, v) in tree.each() {
        times_called = times_called + 1;
        assert_eq!(times_called, 1);

        assert_eq!(*k, 2);
        assert_eq!(*v, 20);
    }
    assert_eq!(times_called, 1);
}

#[test]
fn empty_tree_visits_nothing() {
    let tree: Tree<u64, u64> = Tree::new();
    assert!(tree.each().is_empty());
}

#[test]
fn update_doubles_existing_value() {
    let mut tree: Tree<u64, u64> = Tree::new();
    tree = tree.insert_or_modify(2, 10, &|v: u64| -> u64 { v * 2 });
    tree = tree.insert_or_modify(2, 99, &|v: u64| -> u64 { v * 2 });
    let entries = tree.each();
    assert_eq!(entries.len(), 1);
    assert_eq!((*entries[0].0, *entries[0].1), (2, 20));
}

#[test]
fn present_key_keeps_key_count_and_changes_one_value() {
    let mut tree: Tree<u64, u64> = Tree::new();
    for k in [7u64, 3, 9, 1, 5] {
        tree = tree.insert_or_modify(k, k * 100, &|v: u64| -> u64 { v });
    }
    let calls = std::cell::Cell::new(0u32);
    tree = tree.insert_or_modify(5, 0, &|v: u64| -> u64 {
        calls.set(calls.get() + 1);
        v + 1
    });
    assert_eq!(calls.get(), 1);
    let entries: Vec<(u64, u64)> = tree.each().into_iter().map(|(k, v)| (*k, *v)).collect();
    assert_eq!(entries, vec![(1, 100), (3, 300), (5, 501), (7, 700), (9, 900)]);
}

#[test]
fn sorted_and_reversed_insertions_enumerate_ascending() {
    let mut up: Tree<u64, u64> = Tree::new();
    let mut down: Tree<u64, u64> = Tree::new();
    for k in 0u64..50 {
        up = up.insert_or_modify(k, k, &|v: u64| -> u64 { v });
        down = down.insert_or_modify(49 - k, 49 - k, &|v: u64| -> u64 { v });
    }
    let a: Vec<u64> = up.each().into_iter().map(|(k, _)| *k).collect();
    let b: Vec<u64> = down.each().into_iter().map(|(k, _)| *k).collect();
    let expected: Vec<u64> = (0u64..50).collect();
    assert_eq!(a, expected);
    assert_eq!(b, expected);
}

#[test]
fn mixed_insertions_enumerate_strictly_ascending() {
    let mut tree: Tree<u64, u64> = Tree::new();
    for k in [8u64, 3, 10, 1, 6, 14, 4, 7, 13, 3, 8, 1] {
        tree = tree.insert_or_modify(k, 1, &|v: u64| -> u64 { v + 1 });
    }
    let entries: Vec<(u64, u64)> = tree.each().into_iter().map(|(k, v)| (*k, *v)).collect();
    assert_eq!(
        entries,
        vec![(1, 2), (3, 2), (4, 1), (6, 1), (7, 1), (8, 2), (10, 1), (13, 1), (14, 1)]
    );
    for w in entries.windows(2) {
        assert!(w[0].0 < w[1].0);
    }
}
