//! Tests of the tree handle: sizes, lookups, insertion with replacement,
//! removal, traversal and iteration.

use tree234::Tree234;

#[test]
fn empty_1() {
    let tree: Tree234<usize> = Tree234::new();
    assert_eq!(tree.size(), 0);
    assert_eq!(tree.get(&1), None);
}

#[test]
fn insert_1() {
    let mut tree: Tree234<f64> = Tree234::new();
    assert_eq!(tree.size(), 0);
    tree.insert(5, 3.0);
    assert_eq!(tree.size(), 1);
    tree.insert(4, 3.1);
    assert_eq!(tree.size(), 2);
}

#[test]
fn insert_2() {
    let xs: Vec<u64> = vec![
        0, 22, 11, 2, 16, 4, 18, 7, 23, 15, 14, 5, 10, 17, 19, 20, 6, 24, 8, 12, 13, 9, 3, 21, 1,
    ];
    let n = xs.len();
    let mut tree: Tree234<usize> = Tree234::new();
    assert_eq!(tree.size(), 0);
    for i in 0..xs.len() {
        let x = xs[i];
        tree.insert(x, i);
        assert_eq!(tree.size(), i + 1);
    }
    for i in 0..xs.len() {
        let x = xs[i];
        let r = tree.get(&x);
        assert_eq!(r, Some(&(x, i)));
    }
    for i in 0..xs.len() {
        assert_eq!(tree.size(), n - i);
        let x = xs[i];
        let r = tree.remove(&x);
        assert_eq!(r, Some(i));
    }
}

#[test]
fn visitor_1() {
    let n: u64 = 1000;
    let mut tree: Tree234<u64> = Tree234::new();
    for i in 0..n {
        let x = 0x3fff_u64.wrapping_add(i).wrapping_mul(0x9e3779b97f4a7c13u64) & 0xffffffffu64;
        tree.insert(x, i);
    }
    let mut xs: Vec<u64> = Vec::new();
    for item in tree.visit() {
        xs.push(item.0);
    }
    assert_eq!(xs.len(), n as usize);
    for i in 1..(n as usize) {
        assert!(xs[i - 1] < xs[i]);
    }

    // permute xs
    for i in 0..(n as usize) {
        let j = 0x3ff_usize.wrapping_add(i).wrapping_mul(0x9e3779b9usize) % (n as usize);
        let t = xs[i];
        xs[i] = xs[j];
        xs[j] = t;
    }

    for i in 0..(n as usize) {
        let x = xs[i];
        let r = tree.remove(&x);
        assert!(r.is_some());
        let j = r.unwrap();
        let y = 0x3fff_u64.wrapping_add(j).wrapping_mul(0x9e3779b97f4a7c13u64) & 0xffffffffu64;
        assert_eq!(x, y);
    }
}

#[test]
fn iterator_1() {
    let xs: Vec<u64> = vec![
        0, 22, 11, 2, 16, 4, 18, 7, 23, 15, 14, 5, 10, 17, 19, 20, 6, 24, 8, 12, 13, 9, 3, 21, 1,
    ];
    let n = xs.len();
    let mut tree: Tree234<usize> = Tree234::new();
    assert_eq!(tree.size(), 0);
    for i in 0..xs.len() {
        let x = xs[i];
        tree.insert(x, i);
        assert_eq!(tree.size(), i + 1);
    }
    let mut ys: Vec<(u64, usize)> = Vec::new();
    let mut it = tree.iter();
    while let Some(item) = it.next() {
        ys.push(item.clone());
    }
    assert_eq!(xs.len(), ys.len());
    for i in 0..n {
        assert_eq!(ys[i].0, i as u64);
    }
}

#[test]
fn replace_keeps_size() {
    let mut tree: Tree234<i64> = Tree234::new();
    let first = tree.insert(1, 1);
    assert_eq!(first, None);
    let second = tree.insert(1, 2);
    assert_eq!(second, Some(1));
    assert_eq!(tree.get(&1), Some(&(1, 2)));
    assert_eq!(tree.size(), 1);
}

#[test]
fn remove_from_empty() {
    let mut tree: Tree234<u64> = Tree234::new();
    assert_eq!(tree.remove(&5), None);
    assert_eq!(tree.size(), 0);
}

#[test]
fn remove_absent_leaves_tree_unchanged() {
    let mut tree: Tree234<u64> = Tree234::new();
    for k in 0..50u64 {
        tree.insert(2 * k, k);
    }
    let before: Vec<(u64, u64)> = tree.visit().into_iter().cloned().collect();
    assert_eq!(tree.remove(&1), None);
    assert_eq!(tree.size(), 50);
    let after: Vec<(u64, u64)> = tree.visit().into_iter().cloned().collect();
    assert_eq!(before, after);
}

#[test]
fn get_latest_value() {
    let mut tree: Tree234<&str> = Tree234::new();
    tree.insert(7, "first");
    tree.insert(7, "second");
    assert_eq!(tree.get(&7), Some(&(7, "second")));
    tree.remove(&7);
    assert_eq!(tree.get(&7), None);
    tree.insert(7, "third");
    assert_eq!(tree.get(&7), Some(&(7, "third")));
}

#[test]
fn small_scenario() {
    let mut tree: Tree234<&str> = Tree234::new();
    tree.insert(5, "a");
    tree.insert(3, "b");
    tree.insert(8, "c");
    assert_eq!(tree.size(), 3);
    assert_eq!(tree.get(&3), Some(&(3, "b")));
    let mut ys: Vec<(u64, &str)> = Vec::new();
    let mut it = tree.iter();
    while let Some(item) = it.next() {
        ys.push(item.clone());
    }
    assert_eq!(ys, vec![(3, "b"), (5, "a"), (8, "c")]);
}

#[test]
fn clear_empties() {
    let mut tree: Tree234<u64> = Tree234::new();
    for k in 0..30u64 {
        tree.insert(k, k + 100);
    }
    assert_eq!(tree.size(), 30);
    tree.clear();
    assert_eq!(tree.size(), 0);
    assert_eq!(tree.get(&3), None);
    assert!(tree.visit().is_empty());
    let mut it = tree.iter();
    assert_eq!(it.next(), None);
}

#[test]
fn insert_then_remove_all_returns_each_value_once() {
    // Keys inserted in one shuffled order, removed in a different one: each
    // removal hands back exactly the value inserted with that key, and the
    // tree ends empty.
    let ins: Vec<u64> = vec![
        12, 3, 20, 7, 0, 16, 24, 9, 5, 18, 1, 22, 14, 6, 11, 2, 19, 8, 23, 4, 15, 10, 21, 13, 17,
    ];
    let rem: Vec<u64> = vec![
        24, 0, 13, 7, 19, 2, 16, 9, 22, 5, 11, 18, 3, 20, 1, 14, 8, 23, 6, 12, 4, 21, 10, 17, 15,
    ];
    let mut tree: Tree234<u64> = Tree234::new();
    for (i, &k) in ins.iter().enumerate() {
        assert_eq!(tree.insert(k, 1000 + i as u64), None);
    }
    for &k in rem.iter() {
        let pos = ins.iter().position(|&x| x == k).unwrap();
        assert_eq!(tree.remove(&k), Some(1000 + pos as u64));
    }
    assert_eq!(tree.size(), 0);
    let mut it = tree.iter();
    assert_eq!(it.next(), None);
}

#[test]
fn round_trip_law_runs() {
    let keys: Vec<u64> = vec![31, 4, 159, 26, 53, 58, 97, 9, 3, 2];
    let values: Vec<i32> = vec![-1, 7, 0, 12, -9, 4, 31, 8, 100, 55];
    let order: Vec<usize> = vec![5, 0, 9, 3, 7, 1, 8, 2, 6, 4];
    let (returned, tree) = tree234::laws::insert_all_then_remove_all(&keys, &values, &order);
    assert_eq!(returned.len(), keys.len());
    for (i, &oi) in order.iter().enumerate() {
        assert_eq!(returned[i], values[oi]);
    }
    assert_eq!(tree.size(), 0);
}

#[test]
fn traversal_sorted_after_each_operation() {
    // After every insert and every remove the in-order traversal is strictly
    // increasing and exactly as long as the tree says it is.
    let check = |tree: &Tree234<u64>| {
        let items = tree.visit();
        assert_eq!(items.len(), tree.size());
        for i in 1..items.len() {
            assert!(items[i - 1].0 < items[i].0);
        }
    };
    let mut tree: Tree234<u64> = Tree234::new();
    let mut x: u64 = 9;
    for i in 0..300u64 {
        x = x.wrapping_mul(6364136223846793005).wrapping_add(1442695040888963407);
        tree.insert(x >> 56, i);
        check(&tree);
    }
    for _ in 0..300u64 {
        x = x.wrapping_mul(6364136223846793005).wrapping_add(1442695040888963407);
        tree.remove(&(x >> 56));
        check(&tree);
    }
}

#[test]
fn two_iterators_agree_and_match_visit() {
    let mut tree: Tree234<u64> = Tree234::new();
    let mut x: u64 = 42;
    for i in 0..200u64 {
        x = x.wrapping_mul(2862933555777941757).wrapping_add(3037000493);
        tree.insert(x & 0xffff, i);
    }
    let mut a: Vec<(u64, u64)> = Vec::new();
    let mut it1 = tree.iter();
    while let Some(item) = it1.next() {
        a.push(item.clone());
    }
    let mut b: Vec<(u64, u64)> = Vec::new();
    let mut it2 = tree.iter();
    while let Some(item) = it2.next() {
        b.push(item.clone());
    }
    assert_eq!(a, b);
    let v: Vec<(u64, u64)> = tree.visit().into_iter().cloned().collect();
    assert_eq!(a, v);
}
