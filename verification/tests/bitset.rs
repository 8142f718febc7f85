use re_finite_automata::BitSet;

#[test]
fn bitset_test() {
    let mut set = BitSet::new_with_size(200);
    assert!(set.is_empty());
    set.insert(140);
    assert!(!set.is_empty());
    assert!((0..200).all(|n| set.contains(n) == (n == 140)));
    set.insert(150);
    assert!(!set.is_empty());
    assert!((0..200).all(|n| set.contains(n) == (n == 140 || n == 150)));
    set.insert(40);
    assert!(!set.is_empty());
    assert!((0..200).all(|n| set.contains(n) == (n == 40 || n == 140 || n == 150)));
    assert_eq!(set.iter_next_remove(), Some(40));
    assert!(!set.is_empty());
    assert!((0..200).all(|n| set.contains(n) == (n == 140 || n == 150)));
    assert_eq!(set.iter_next_remove(), Some(140));
    assert!(!set.is_empty());
    assert!((0..200).all(|n| set.contains(n) == (n == 150)));
    assert_eq!(set.iter_next_remove(), Some(150));
    assert!(set.is_empty());
    assert_eq!(set.iter_next_remove(), None);
    assert!(set.is_empty());
}

#[test]
fn bitset_drain_test() {
    let mut set = BitSet::new_with_size(200);
    assert!(set.is_empty());
    set.insert(140);
    assert!(!set.is_empty());
    assert!((0..200).all(|n| set.contains(n) == (n == 140)));
    set.insert(150);
    assert!(!set.is_empty());
    assert!((0..200).all(|n| set.contains(n) == (n == 140 || n == 150)));
    set.insert(40);
    assert!(!set.is_empty());
    set.drain();
    assert!(set.is_empty());
}

#[test]
fn bitset_all_test() {
    let mut set = BitSet::new_with_size(64 * 100);
    assert!(set.is_empty());
    for n in 0..64 * 100 {
        set.insert(n);
        assert!(set.contains(n));
        assert!(!set.is_empty());
    }
    for n in 0..64 * 100 {
        assert!(!set.is_empty());
        assert_eq!(set.iter_next_remove(), Some(n));
    }
    assert!(set.is_empty());
}

#[test]
fn bitset_copy_keeps_elements() {
    let mut set = BitSet::new_with_size(130);
    set.insert(3);
    set.insert(129);
    let mut other = set.copy();
    assert!(set.same_elements(&other));
    assert!(other.contains(3));
    assert!(other.contains(129));
    assert!(!other.contains(4));
    other.insert(64);
    assert!(!set.same_elements(&other));
    assert!(!set.contains(64));
}

#[test]
fn bitset_remove_after_reinsert_below_lowest() {
    let mut set = BitSet::new_with_size(128);
    set.insert(100);
    assert_eq!(set.iter_next_remove(), Some(100));
    set.insert(5);
    set.insert(70);
    assert_eq!(set.iter_next_remove(), Some(5));
    assert_eq!(set.iter_next_remove(), Some(70));
    assert_eq!(set.iter_next_remove(), None);
    assert!(set.is_empty());
}

#[test]
fn bitset_empty_room() {
    let mut set = BitSet::new_with_size(0);
    assert!(set.is_empty());
    assert_eq!(set.iter_next_remove(), None);
}
