use vebtree::VEBTree;

/// Reference model: membership flags over the whole universe.
fn check_against(t: &VEBTree, present: &[bool]) {
    let u = present.len();
    let mut count = 0usize;
    let mut mn: Option<usize> = None;
    let mut mx: Option<usize> = None;
    for (x, &p) in present.iter().enumerate() {
        assert_eq!(t.member(x), p, "member({x})");
        if p {
            count += 1;
            if mn.is_none() {
                mn = Some(x);
            }
            mx = Some(x);
        }
    }
    assert_eq!(t.len(), count);
    assert_eq!(t.min(), mn);
    assert_eq!(t.max(), mx);
    assert_eq!(t.empty(), count == 0);
    for x in 0..u {
        let succ = (x + 1..u).find(|&y| present[y]);
        let pred = (0..x).rev().find(|&y| present[y]);
        assert_eq!(t.successor(x), succ, "successor({x})");
        assert_eq!(t.predecessor(x), pred, "predecessor({x})");
    }
}

#[test]
fn scenario_magnitude_four() {
    let mut t = VEBTree::new(4, 2);
    for x in [3, 4, 5, 7, 14, 15] {
        t.insert(x);
    }
    assert_eq!(t.min(), Some(2));
    assert_eq!(t.max(), Some(15));
    assert_eq!(t.successor(4), Some(5));
    assert_eq!(t.successor(5), Some(7));
    assert_eq!(t.predecessor(7), Some(5));
    assert!(!t.member(6));
    assert_eq!(t.len(), 7);
    t.delete(2);
    assert_eq!(t.min(), Some(3));
    for x in [3, 4, 5, 7, 14, 15] {
        t.delete(x);
    }
    assert!(t.empty());
    assert_eq!(t.len(), 0);
}

#[test]
fn singleton_multi_transition() {
    let mut t = VEBTree::new(4, 8);
    assert_eq!(t.len(), 1);
    t.insert(8);
    assert_eq!(t.len(), 1);
    t.insert(3);
    assert_eq!(t.min(), Some(3));
    assert_eq!(t.max(), Some(8));
    assert_eq!(t.len(), 2);
}

#[test]
fn boundary_keys() {
    let mut t = VEBTree::new(4, 0);
    t.insert(15);
    assert!(t.member(0));
    assert!(t.member(15));
    assert_eq!(t.successor(15), None);
    assert_eq!(t.predecessor(0), None);
    assert_eq!(t.successor(0), Some(15));
    assert_eq!(t.predecessor(15), Some(0));
    t.insert(7);
    assert_eq!(t.successor(0), Some(7));
    assert_eq!(t.predecessor(15), Some(7));
    t.delete(0);
    t.delete(15);
    assert_eq!(t.min(), Some(7));
    assert_eq!(t.max(), Some(7));
    assert_eq!(t.successor(15), None);
    assert_eq!(t.predecessor(0), None);
}

#[test]
fn insert_delete_roundtrip() {
    for x in 0..16usize {
        if x == 8 || x == 3 || x == 12 {
            continue;
        }
        let mut t = VEBTree::new(4, 8);
        t.insert(3);
        t.insert(12);
        let mut present = [false; 16];
        present[8] = true;
        present[3] = true;
        present[12] = true;
        t.insert(x);
        t.delete(x);
        check_against(&t, &present);
    }
}

#[test]
fn membership_history() {
    // Inserted-and-not-subsequently-deleted is exactly membership, after
    // every operation of a mixed sequence, with repeats.
    let ops: [(bool, usize); 14] = [
        (true, 5),
        (true, 9),
        (true, 5),
        (false, 9),
        (true, 0),
        (true, 15),
        (false, 5),
        (false, 5),
        (true, 2),
        (true, 9),
        (false, 0),
        (true, 1),
        (false, 15),
        (false, 3),
    ];
    let mut t = VEBTree::new(4, 3);
    let mut present = [false; 16];
    present[3] = true;
    for (ins, x) in ops {
        if ins {
            t.insert(x);
        } else {
            t.delete(x);
        }
        present[x] = ins;
        check_against(&t, &present);
    }
}

#[test]
fn successor_predecessor_recovery() {
    let mut t = VEBTree::new(4, 2);
    for x in [3, 5, 9] {
        t.insert(x);
    }
    for x in [2usize, 3, 5, 9] {
        if let Some(p) = t.predecessor(x) {
            assert_eq!(t.successor(p), Some(x));
        }
        if let Some(s) = t.successor(x) {
            assert_eq!(t.predecessor(s), Some(x));
        }
    }
}

#[test]
fn magnitude_one() {
    let mut t = VEBTree::new(1, 0);
    assert!(t.member(0));
    assert!(!t.member(1));
    t.insert(1);
    assert_eq!(t.min(), Some(0));
    assert_eq!(t.max(), Some(1));
    assert_eq!(t.successor(0), Some(1));
    assert_eq!(t.predecessor(1), Some(0));
    assert_eq!(t.len(), 2);
    t.delete(0);
    assert_eq!(t.min(), Some(1));
    t.delete(1);
    assert!(t.empty());
}

#[test]
fn exhaustive_small_universes() {
    // Every subset of the universe, built by inserts, for an even and an
    // odd magnitude: every query must agree with the reference model.
    for magnitude in [2usize, 3] {
        let u = 1usize << magnitude;
        for mask in 0..(1u32 << u) {
            let mut present = vec![false; u];
            for x in 0..u {
                present[x] = mask & (1 << x) != 0;
            }
            let Some(first) = (0..u).find(|&x| present[x]) else {
                continue;
            };
            let mut t = VEBTree::new(magnitude, first);
            for x in 0..u {
                if present[x] {
                    t.insert(x);
                }
            }
            check_against(&t, &present);
        }
    }
}

#[test]
fn exhaustive_deletions() {
    // From a full universe of 8 keys, delete the keys of every subset in
    // two different orders and compare with the reference model.
    let u = 8usize;
    for mask in 0..(1u32 << u) {
        let mut t = VEBTree::new(3, 0);
        for x in 1..u {
            t.insert(x);
        }
        let mut present = vec![true; u];
        for x in 0..u {
            if mask & (1 << x) != 0 {
                t.delete(x);
                present[x] = false;
            }
        }
        check_against(&t, &present);
        for x in (0..u).rev() {
            if mask & (1 << x) != 0 {
                t.delete(x);
            }
        }
        check_against(&t, &present);
    }
}

#[test]
fn deep_tree() {
    // A larger universe exercises several recursion levels.
    let magnitude = 10usize;
    let u = 1usize << magnitude;
    let keys = [0usize, 1, 31, 32, 33, 255, 256, 511, 512, 767, 1022, 1023];
    let mut t = VEBTree::new(magnitude, 500);
    for &k in &keys {
        t.insert(k);
    }
    assert_eq!(t.len(), keys.len() + 1);
    assert_eq!(t.min(), Some(0));
    assert_eq!(t.max(), Some(1023));
    assert_eq!(t.successor(33), Some(255));
    assert_eq!(t.successor(256), Some(500));
    assert_eq!(t.predecessor(500), Some(256));
    assert_eq!(t.predecessor(1023), Some(1022));
    assert_eq!(t.successor(u - 1), None);
    assert_eq!(t.predecessor(0), None);
    t.delete(0);
    assert_eq!(t.min(), Some(1));
    t.delete(1023);
    assert_eq!(t.max(), Some(1022));
    t.delete(500);
    assert_eq!(t.successor(256), Some(511));
    for &k in &keys {
        t.delete(k);
    }
    assert!(t.empty());
}
