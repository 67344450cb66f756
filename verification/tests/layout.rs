use fleet_holographic::layout::{capacity, interference_pairs};

#[test]
fn test_capacity() {
    let cap = capacity(4, 64);
    assert_eq!(cap, 64); // (4 * 64) / 4 = 64
}

#[test]
fn test_capacity_larger() {
    assert_eq!(capacity(8, 128), 256); // (8 * 128) / 4 = 256
}

#[test]
fn capacity_rounds_down() {
    assert_eq!(capacity(1, 3), 0);
    assert_eq!(capacity(3, 3), 2);
    assert_eq!(capacity(0, 128), 0);
}

#[test]
fn test_pattern_interference_empty() {
    let interferences = interference_pairs(0);
    assert!(interferences.is_empty());
}

#[test]
fn interference_of_one_pattern_is_empty() {
    assert!(interference_pairs(1).is_empty());
}

#[test]
fn interference_of_two_patterns_is_one_pair() {
    assert_eq!(interference_pairs(2), vec![(0, 1)]);
}

#[test]
fn interference_pairs_in_row_order() {
    assert_eq!(
        interference_pairs(4),
        vec![(0, 1), (0, 2), (0, 3), (1, 2), (1, 3), (2, 3)]
    );
}

#[test]
fn interference_pairs_count_every_pair_once() {
    for n in 0..25usize {
        let pairs = interference_pairs(n);
        assert_eq!(pairs.len(), n * n.saturating_sub(1) / 2);
        for i in 0..n {
            for j in (i + 1)..n {
                assert_eq!(pairs.iter().filter(|p| **p == (i, j)).count(), 1);
            }
        }
    }
}
