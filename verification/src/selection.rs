//! The best-match rule shared by every retrieval.
//!
//! A retrieval scores each stored pattern, in storage order, with a
//! confidence, and keeps a candidate only when its confidence is strictly
//! greater than that of the best one so far, starting from a confidence of
//! zero. Each confidence is handed over here as an order key: zero for a
//! confidence that is not positive, and for a positive one an integer that
//! grows with it (the bit pattern of a positive IEEE double grows with its
//! value). The rule then picks the first pattern with the largest key, and
//! nothing when no key is positive. A retrieval that combines all agents
//! also reports nothing when the pattern it picks has an empty id.

use vstd::prelude::*;

verus! {

/// `best` is the index that the best-match rule picks from `keys`.
pub open spec fn is_best_match(keys: Seq<u64>, best: Option<usize>) -> bool {
    match best {
        None => forall|k: int| 0 <= k < keys.len() ==> #[trigger] keys[k] == 0,
        Some(b) => {
            &&& b < keys.len()
            &&& keys[b as int] > 0
            &&& forall|k: int| 0 <= k < b ==> #[trigger] keys[k] < keys[b as int]
            &&& forall|k: int| 0 <= k < keys.len() ==> #[trigger] keys[k] <= keys[b as int]
        },
    }
}

/// Index of the first pattern with the largest positive key, or `None` when
/// no key is positive.
pub fn best_match(keys: &Vec<u64>) -> (best: Option<usize>)
    ensures
        is_best_match(keys@, best),
{
    let mut best: Option<usize> = None;
    let mut best_key: u64 = 0;
    let mut i: usize = 0;
    while i < keys.len()
        invariant
            i <= keys.len(),
            match best {
                None => best_key == 0,
                Some(b) => b < i && best_key == keys@[b as int],
            },
            is_best_match(keys@.take(i as int), best),
        decreases keys.len() - i,
    {
        if keys[i] > best_key {
            best = Some(i);
            best_key = keys[i];
        }
        assert(keys@.take(i + 1) =~= keys@.take(i as int).push(keys@[i as int]));
        i = i + 1;
    }
    assert(keys@.take(keys.len() as int) =~= keys@);
    best
}

/// The best-match rule gives at most one answer for a sequence of keys.
pub proof fn lemma_best_match_unique(keys: Seq<u64>, x: Option<usize>, y: Option<usize>)
    requires
        is_best_match(keys, x),
        is_best_match(keys, y),
    ensures
        x == y,
{
    match (x, y) {
        (Some(a), Some(b)) => {
            if a < b {
                assert(keys[a as int] < keys[b as int]);
            } else if b < a {
                assert(keys[b as int] < keys[a as int]);
            }
        },
        (Some(a), None) => {
            assert(keys[a as int] == 0);
        },
        (None, Some(b)) => {
            assert(keys[b as int] == 0);
        },
        (None, None) => {},
    }
}

/// The pattern that a retrieval combining all agents reports, given the
/// order keys and ids of the stored patterns: the best match, or `None` when
/// there is no best match or its id is empty (the retrieval then reports
/// the placeholder id `"no_pattern"`).
pub fn best_named_match(keys: &Vec<u64>, ids: &Vec<String>) -> (best: Option<usize>)
    requires
        keys@.len() == ids@.len(),
    ensures
        match best {
            Some(b) => is_best_match(keys@, Some(b)) && ids@[b as int]@.len() > 0,
            None => is_best_match(keys@, None) || exists|b: usize|
                #[trigger] is_best_match(keys@, Some(b)) && ids@[b as int]@.len() == 0,
        },
{
    match best_match(keys) {
        Some(b) => {
            if ids[b].as_str().is_empty() {
                assert(is_best_match(keys@, Some(b)));
                None
            } else {
                Some(b)
            }
        },
        None => None,
    }
}

} // verus!
