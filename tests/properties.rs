use rustsint::{Link, SortedContainer};

fn listing(sc: &SortedContainer<u32>) -> Vec<(usize, Option<u32>)> {
    sc.dump().into_iter().map(|(d, v)| (d, v.copied())).collect()
}

fn filled(keys: &[u32]) -> SortedContainer<u32> {
    let mut sc = SortedContainer::new();
    for k in keys {
        sc.insert(*k);
    }
    sc
}

fn ordered_between(link: &Link<u32>, low: Option<u32>, high: Option<u32>) -> bool {
    match link {
        None => true,
        Some(n) => {
            low.map_or(true, |l| l < n.data)
                && high.map_or(true, |h| n.data < h)
                && ordered_between(&n.left, low, Some(n.data))
                && ordered_between(&n.right, Some(n.data), high)
        }
    }
}

#[test]
fn empty_container_contains_nothing() {
    let mut sc: SortedContainer<u32> = SortedContainer::new();
    assert!(sc.root().is_none());
    for k in 0..12 {
        assert!(!sc.contains(k));
    }
    assert_eq!(listing(&sc), vec![(0, None)]);
}

#[test]
fn scenario_insert_then_erase_three() {
    let mut sc = filled(&[5, 2, 7, 4, 1, 3, 6, 9, 8]);
    for k in 1..10 {
        assert!(sc.contains(k));
    }
    assert!(!sc.contains(0));
    assert!(!sc.contains(10));
    sc.erase(5);
    sc.erase(3);
    sc.erase(8);
    for k in [5, 3, 8] {
        assert!(!sc.contains(k));
    }
    for k in [1, 2, 4, 6, 7, 9] {
        assert!(sc.contains(k));
    }
}

#[test]
fn dump_lists_positions_in_preorder() {
    let sc = filled(&[2, 1, 3]);
    assert_eq!(
        listing(&sc),
        vec![
            (0, Some(2)),
            (1, Some(1)),
            (2, None),
            (2, None),
            (1, Some(3)),
            (2, None),
            (2, None),
        ]
    );
}

#[test]
fn dump_of_a_chain_goes_deep() {
    let sc = filled(&[1, 2, 3]);
    assert_eq!(
        listing(&sc),
        vec![
            (0, Some(1)),
            (1, None),
            (1, Some(2)),
            (2, None),
            (2, Some(3)),
            (3, None),
            (3, None),
        ]
    );
}

#[test]
fn inserting_twice_is_inserting_once() {
    let mut once = filled(&[4, 2, 6]);
    let mut twice = filled(&[4, 2, 6]);
    once.insert(5);
    twice.insert(5);
    twice.insert(5);
    assert_eq!(listing(&once), listing(&twice));
    twice.insert(4);
    assert_eq!(listing(&once), listing(&twice));
    for k in 0..8 {
        assert_eq!(once.contains(k), twice.contains(k));
    }
}

#[test]
fn erasing_twice_is_erasing_once() {
    let mut once = filled(&[4, 2, 6, 1, 3, 5, 7]);
    let mut twice = filled(&[4, 2, 6, 1, 3, 5, 7]);
    once.erase(2);
    twice.erase(2);
    twice.erase(2);
    assert_eq!(listing(&once), listing(&twice));
    assert!(!once.contains(2));
    assert!(!twice.contains(2));
}

#[test]
fn insert_contains_erase_round_trip() {
    let mut sc = filled(&[10, 5, 15]);
    for k in [0, 5, 7, 10, 20] {
        sc.insert(k);
        assert!(sc.contains(k));
        sc.erase(k);
        assert!(!sc.contains(k));
    }
    assert!(sc.contains(15));
}

#[test]
fn erasing_an_absent_key_changes_nothing() {
    let mut empty: SortedContainer<u32> = SortedContainer::new();
    empty.erase(42);
    assert!(empty.root().is_none());

    let mut sc = filled(&[5, 2, 7, 4, 1, 3, 6, 9, 8]);
    let before = listing(&sc);
    sc.erase(42);
    assert_eq!(listing(&sc), before);
    for k in 1..10 {
        assert!(sc.contains(k));
    }
}

#[test]
fn erasing_the_root_with_two_children_pulls_up_its_successor() {
    let mut sc = filled(&[2, 1, 5, 3, 4]);
    sc.erase(2);
    assert_eq!(
        listing(&sc),
        vec![
            (0, Some(3)),
            (1, Some(1)),
            (2, None),
            (2, None),
            (1, Some(5)),
            (2, Some(4)),
            (3, None),
            (3, None),
            (2, None),
        ]
    );
}

#[test]
fn order_holds_after_mixed_operations() {
    let mut sc: SortedContainer<u32> = SortedContainer::new();
    let mut x: u32 = 7;
    for step in 0..200u32 {
        x = x.wrapping_mul(1103515245).wrapping_add(12345) % 64;
        if step % 3 == 2 {
            sc.erase(x);
            assert!(!sc.contains(x));
        } else {
            sc.insert(x);
            assert!(sc.contains(x));
        }
        assert!(ordered_between(sc.root(), None, None));
    }
}

#[test]
fn keys_of_another_ordered_type() {
    let mut sc: SortedContainer<String> = SortedContainer::new();
    for w in ["pear", "apple", "quince", "fig"] {
        sc.insert(w.to_string());
    }
    assert!(sc.contains("fig".to_string()));
    assert!(!sc.contains("kiwi".to_string()));
    sc.erase("pear".to_string());
    assert!(!sc.contains("pear".to_string()));
    let root = sc.root().as_ref().unwrap();
    assert_eq!(root.data, "quince");
    assert_eq!(root.left.as_ref().unwrap().data, "apple");
}
