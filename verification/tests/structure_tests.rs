//! Randomized structural exercise of the tree, and tests of the two-variant
//! tagged union the iterator builds on.

use rand::rngs::StdRng;
use rand::seq::SliceRandom;
use rand::{Rng, SeedableRng};

use tree234::{Either, Tree234};

#[test]
fn structures_1() {
    let mut rng = StdRng::seed_from_u64(17u64);
    let n: usize = 100;
    for _i in 0..200 {
        let mut tree: Tree234<u64> = Tree234::new();
        let mut xs: Vec<u64> = Vec::new();
        for j in 0..n {
            let x: u64 = rng.gen::<u64>() & 0xffffff;
            xs.push(x);
            tree.insert(x, j as u64);
            let y: u64 = rng.gen::<u64>() & 0xffffff;
            tree.insert(y, j as u64);
        }
        xs.shuffle(&mut rng);
        for x in xs.iter() {
            tree.remove(x);
        }
    }
}

#[test]
fn random_churn_keeps_order() {
    // Interleaved random inserts and removes over a small key space, with
    // the traversal checked for strict order and matching size throughout.
    let mut rng = StdRng::seed_from_u64(23u64);
    let mut tree: Tree234<u64> = Tree234::new();
    for i in 0..20000u64 {
        let x: u64 = rng.gen::<u64>() & 0xff;
        if rng.gen::<bool>() {
            tree.insert(x, i);
        } else {
            tree.remove(&x);
        }
        if i % 512 == 0 {
            let items = tree.visit();
            assert_eq!(items.len(), tree.size());
            for j in 1..items.len() {
                assert!(items[j - 1].0 < items[j].0);
            }
        }
    }
}

#[test]
fn either_accessors() {
    let l: Either<u32, &str> = Either::Left(7);
    let r: Either<u32, &str> = Either::Right("x");
    assert!(l.is_left());
    assert!(!l.is_right());
    assert!(r.is_right());
    assert!(!r.is_left());
    assert_eq!(l.left(), Some(&7));
    assert_eq!(l.right(), None);
    assert_eq!(r.left(), None);
    assert_eq!(r.right(), Some(&"x"));
}
