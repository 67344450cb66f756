use fleet_holographic::selection::{best_match, best_named_match};

#[test]
fn best_match_of_nothing_is_none() {
    assert_eq!(best_match(&vec![]), None);
}

#[test]
fn best_match_ignores_keys_that_are_not_positive() {
    assert_eq!(best_match(&vec![0, 0, 0]), None);
    assert_eq!(best_match(&vec![0, 5, 0]), Some(1));
}

#[test]
fn best_match_picks_the_largest_key() {
    assert_eq!(best_match(&vec![3, 9, 4]), Some(1));
    assert_eq!(best_match(&vec![1, 2, 3, 4]), Some(3));
    assert_eq!(best_match(&vec![u64::MAX, 2, 3]), Some(0));
}

#[test]
fn best_match_keeps_the_first_of_equal_keys() {
    assert_eq!(best_match(&vec![7, 7, 7]), Some(0));
    assert_eq!(best_match(&vec![2, 7, 1, 7]), Some(1));
}

#[test]
fn best_match_order_keys_of_positive_doubles() {
    let confidences: [f64; 4] = [0.25, 0.75, -1.0, 0.5];
    let keys: Vec<u64> = confidences
        .iter()
        .map(|c| if *c > 0.0 { c.to_bits() } else { 0 })
        .collect();
    assert_eq!(best_match(&keys), Some(1));
}

#[test]
fn best_named_match_is_the_best_match_when_named() {
    let ids = vec![String::from("a"), String::from("b"), String::from("c")];
    assert_eq!(best_named_match(&vec![1, 8, 3], &ids), Some(1));
    assert_eq!(best_named_match(&vec![0, 0, 0], &ids), None);
}

#[test]
fn best_named_match_drops_an_unnamed_winner() {
    let ids = vec![String::from("a"), String::new(), String::from("c")];
    assert_eq!(best_named_match(&vec![1, 8, 3], &ids), None);
    // the rule does not fall back to the runner-up
    assert_eq!(best_named_match(&vec![1, 8, 9], &ids), Some(2));
}
