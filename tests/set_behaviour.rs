use btreeset::tree::BTreeSet;
use rand::Rng;
use std::collections::HashSet;

fn keys_of(t: &BTreeSet) -> Vec<i32> {
    t.root().keys.clone()
}

#[test]
fn insert_then_remove_one_value() {
    let mut t = BTreeSet::new(2);
    assert!(t.insert(10));
    assert!(!t.insert(10));
    assert!(t.contains(10));
    assert_eq!(t.len(), 1);
    assert!(t.remove(10));
    assert_eq!(t.len(), 0);
    assert!(!t.contains(10));
    assert!(!t.remove(10));
    assert!(t.check_structure());
}

#[test]
fn ascending_inserts_split_the_root() {
    let mut t = BTreeSet::new(2);
    assert!(t.insert(1));
    assert!(t.insert(2));
    assert!(t.insert(3));
    // A full root is split by the next insertion, before it descends.
    assert_eq!(keys_of(&t), vec![1, 2, 3]);
    assert_eq!(t.depth(), 0);
    assert!(t.insert(4));
    assert_eq!(keys_of(&t), vec![2]);
    assert_eq!(t.root().children.len(), 2);
    assert_eq!(t.root().children[0].keys, vec![1]);
    assert_eq!(t.root().children[1].keys, vec![3, 4]);
    assert!(t.insert(5));
    for k in 1..=5 {
        assert!(t.contains(k));
    }
    assert_eq!(t.depth(), 1);
    for c in t.root().children.iter() {
        assert!(c.children.is_empty());
    }
    assert_eq!(t.len(), 5);
    assert!(t.check_structure());
}

#[test]
fn degree_three_holds_zero_to_nine() {
    let mut t = BTreeSet::new(3);
    for k in 0..=9 {
        assert!(t.insert(k));
    }
    for k in 0..=9 {
        assert!(t.contains(k));
    }
    assert!(!t.contains(-1));
    assert!(!t.contains(10));
    assert!(t.check_structure());
}

#[test]
fn remove_in_insertion_order() {
    let mut t = BTreeSet::new(2);
    for k in 1..=20 {
        assert!(t.insert(k));
    }
    assert!(t.check_structure());
    for k in 1..=20 {
        let before = t.len();
        assert!(t.remove(k));
        assert!(t.check_structure());
        assert_eq!(t.len(), before - 1);
    }
    assert_eq!(t.len(), 0);
    assert_eq!(t.depth(), 0);
    assert!(t.root().keys.is_empty());
}

#[test]
fn random_mixed_operations_match_reference() {
    let mut rng = rand::thread_rng();
    let mut reference: HashSet<i32> = HashSet::new();
    let mut t = BTreeSet::new(4);
    for _ in 0..10_000 {
        let v: i32 = rng.gen_range(0, 100_000);
        if rng.gen_range(0, 2) == 0 {
            assert_eq!(reference.insert(v), t.insert(v));
        } else {
            assert_eq!(reference.remove(&v), t.remove(v));
        }
        assert_eq!(reference.len(), t.len());
        assert_eq!(reference.contains(&v), t.contains(v));
        for _ in 0..10 {
            let k: i32 = rng.gen_range(0, 100_000);
            assert_eq!(reference.contains(&k), t.contains(k));
        }
    }
    for k in 0..100_000 {
        assert_eq!(reference.contains(&k), t.contains(k));
    }
    assert!(t.check_structure());
}

#[test]
fn random_trials_keep_the_invariants() {
    let mut rng = rand::thread_rng();
    for _ in 0..100 {
        let d: usize = rng.gen_range(2, 7);
        let mut reference: HashSet<i32> = HashSet::new();
        let mut t = BTreeSet::new(d);
        for step in 0..30_000 {
            let v: i32 = rng.gen_range(0, 100_000);
            if rng.gen_range(0, 2) == 0 {
                assert_eq!(reference.insert(v), t.insert(v));
            } else {
                assert_eq!(reference.remove(&v), t.remove(v));
            }
            if step % 5_000 == 0 {
                assert!(t.check_structure());
            }
        }
        assert_eq!(reference.len(), t.len());
        assert!(t.check_structure());
    }
}

#[test]
fn inserting_a_present_value_changes_nothing() {
    let mut t = BTreeSet::new(3);
    for k in (0..50).map(|x| x * 3) {
        t.insert(k);
    }
    let size = t.len();
    assert!(!t.insert(27));
    assert_eq!(t.len(), size);
    for k in -5..160 {
        assert_eq!(t.contains(k), k >= 0 && k < 150 && k % 3 == 0);
    }
    assert!(t.check_structure());
}

#[test]
fn removing_an_absent_value_changes_nothing() {
    let mut t = BTreeSet::new(2);
    for k in 0..40 {
        t.insert(2 * k);
    }
    let size = t.len();
    assert!(!t.remove(7));
    assert!(!t.remove(-1));
    assert!(!t.remove(1000));
    assert_eq!(t.len(), size);
    for k in 0..80 {
        assert_eq!(t.contains(k), k % 2 == 0);
    }
    assert!(t.check_structure());
}

#[test]
fn round_trip_with_repeats_empties_the_set() {
    let mut rng = rand::thread_rng();
    for d in 2..=6 {
        let mut t = BTreeSet::new(d);
        let mut inserted: Vec<i32> = Vec::new();
        for _ in 0..3_000 {
            let v: i32 = rng.gen_range(0, 500);
            t.insert(v);
            inserted.push(v);
        }
        rng.shuffle(&mut inserted);
        for v in inserted.iter() {
            t.remove(*v);
        }
        assert_eq!(t.len(), 0);
        assert!(t.check_structure());
        for k in 0..500 {
            assert!(!t.contains(k));
        }
    }
}

#[test]
fn extreme_values_are_kept_apart() {
    let mut t = BTreeSet::new(2);
    let vals = [i32::MIN, -1, 0, 1, i32::MAX, i32::MIN + 1, i32::MAX - 1];
    for v in vals.iter() {
        assert!(t.insert(*v));
    }
    assert_eq!(t.len(), vals.len());
    for v in vals.iter() {
        assert!(t.contains(*v));
    }
    assert!(!t.contains(2));
    assert!(t.remove(i32::MIN));
    assert!(!t.contains(i32::MIN));
    assert!(t.contains(i32::MIN + 1));
    assert!(t.check_structure());
}

#[test]
fn removals_borrow_and_merge_at_every_degree() {
    for d in 2..=6 {
        let mut t = BTreeSet::new(d);
        for k in 0..400 {
            t.insert(k);
        }
        assert_eq!(t.min_degree(), d);
        // Remove from the middle, the front and the back to reach every case.
        let mut order: Vec<i32> = Vec::new();
        for k in (0..400).step_by(7) {
            order.push(k);
        }
        for k in 0..400 {
            if k % 7 != 0 {
                order.push(if k % 2 == 0 { k } else { 399 - k });
            }
        }
        let mut present: HashSet<i32> = (0..400).collect();
        for k in order {
            assert_eq!(present.remove(&k), t.remove(k));
            assert!(t.check_structure());
            assert_eq!(present.len(), t.len());
        }
        for k in 0..400 {
            assert_eq!(present.contains(&k), t.contains(k));
        }
    }
}

#[test]
fn height_grows_only_at_the_root() {
    let mut t = BTreeSet::new(2);
    assert_eq!(t.depth(), 0);
    assert!(t.check_structure());
    let mut last = 0;
    for k in 0..1000 {
        t.insert(k);
        let d = t.depth();
        assert!(d == last || d == last + 1);
        last = d;
    }
    assert!(last >= 5 && last <= 9);
    assert!(t.check_structure());
}

fn walk(n: &btreeset::node::Node, d: usize, is_root: bool, depth: usize, leaf_depths: &mut Vec<usize>) {
    assert!(n.keys.len() <= 2 * d - 1);
    if !is_root {
        assert!(n.keys.len() >= d - 1);
    }
    if n.children.is_empty() {
        leaf_depths.push(depth);
    } else {
        assert_eq!(n.children.len(), n.keys.len() + 1);
        for c in n.children.iter() {
            walk(c, d, false, depth + 1, leaf_depths);
        }
    }
}

#[test]
fn node_sizes_stay_within_bounds() {
    let mut rng = rand::thread_rng();
    for d in 2..=6 {
        let mut t = BTreeSet::new(d);
        for _ in 0..5_000 {
            let v: i32 = rng.gen_range(0, 2_000);
            if rng.gen_range(0, 3) == 0 {
                t.remove(v);
            } else {
                t.insert(v);
            }
        }
        let mut depths = Vec::new();
        walk(t.root(), d, true, 0, &mut depths);
        assert!(depths.iter().all(|x| *x == t.depth()));
    }
}
