//! Integer bookkeeping of a store: its capacity estimate and the order in
//! which pairs of stored patterns are compared for interference.

use vstd::prelude::*;

verus! {

/// Theoretical capacity of a store: `dim_per_agent * n_agents / 4` patterns
/// can be held before interference degrades retrieval.
pub fn capacity(n_agents: usize, dim_per_agent: usize) -> (cap: usize)
    requires
        n_agents * dim_per_agent <= usize::MAX,
    ensures
        cap == (n_agents * dim_per_agent) / 4,
{
    (dim_per_agent * n_agents) / 4
}

/// The pairs `(i, j)` with `i < j < n` for one fixed `i`, in increasing `j`.
pub open spec fn pair_row(i: nat, n: nat) -> Seq<(usize, usize)> {
    Seq::new((n - i - 1) as nat, |k: int| (i as usize, (i + 1 + k) as usize))
}

/// The rows of pairs for `0, 1, ..., i - 1`, one after the other.
pub open spec fn pairs_before(i: nat, n: nat) -> Seq<(usize, usize)>
    decreases i,
{
    if i == 0 {
        Seq::empty()
    } else {
        pairs_before((i - 1) as nat, n) + pair_row((i - 1) as nat, n)
    }
}

/// All pairs of `n` stored patterns, in the order the interference analysis
/// visits them: by first index, then by second index.
pub open spec fn interference_order(n: nat) -> Seq<(usize, usize)> {
    pairs_before(n, n)
}

/// Lexicographic order on index pairs.
pub open spec fn pair_less(p: (usize, usize), q: (usize, usize)) -> bool {
    p.0 < q.0 || (p.0 == q.0 && p.1 < q.1)
}

/// The index pairs `(i, j)`, `i < j < n_patterns`, whose similarity the
/// interference analysis reports, in the order it reports them.
pub fn interference_pairs(n_patterns: usize) -> (pairs: Vec<(usize, usize)>)
    ensures
        pairs@ == interference_order(n_patterns as nat),
{
    let mut pairs: Vec<(usize, usize)> = Vec::new();
    let mut i: usize = 0;
    while i < n_patterns
        invariant
            i <= n_patterns,
            pairs@ == pairs_before(i as nat, n_patterns as nat),
        decreases n_patterns - i,
    {
        let ghost start = pairs@;
        let mut j: usize = i + 1;
        while j < n_patterns
            invariant
                i < n_patterns,
                i + 1 <= j <= n_patterns,
                pairs@ == start + pair_row(i as nat, n_patterns as nat).take(j - i - 1),
            decreases n_patterns - j,
        {
            pairs.push((i, j));
            assert(pair_row(i as nat, n_patterns as nat).take(j - i) =~= pair_row(
                i as nat,
                n_patterns as nat,
            ).take(j - i - 1).push((i, j)));
            j = j + 1;
        }
        assert(pair_row(i as nat, n_patterns as nat).take(n_patterns - i - 1) =~= pair_row(
            i as nat,
            n_patterns as nat,
        ));
        i = i + 1;
    }
    pairs
}

proof fn lemma_pairs_before_shape(i: nat, n: nat)
    requires
        i <= n <= usize::MAX,
    ensures
        2 * pairs_before(i, n).len() == i * (2 * n - i - 1),
        forall|k: int|
            0 <= k < pairs_before(i, n).len() ==> {
                let p = #[trigger] pairs_before(i, n)[k];
                p.0 < i && p.0 < p.1 < n
            },
        forall|a: usize, b: usize|
            a < i && a < b < n ==> #[trigger] pairs_before(i, n).contains((a, b)),
        forall|k: int, l: int|
            0 <= k < l < pairs_before(i, n).len() ==> pair_less(
                #[trigger] pairs_before(i, n)[k],
                #[trigger] pairs_before(i, n)[l],
            ),
    decreases i,
{
    if i > 0 {
        let h: nat = (i - 1) as nat;
        lemma_pairs_before_shape(h, n);
        let prev = pairs_before(h, n);
        let row = pair_row(h, n);
        let s = pairs_before(i, n);
        assert(s == prev + row);
        assert(i * (2 * n - i - 1) == h * (2 * n - h - 1) + 2 * (n - h - 1)) by (nonlinear_arith)
            requires
                i == h + 1,
        ;
        assert forall|a: usize, b: usize| a < i && a < b < n implies #[trigger] s.contains((a, b)) by {
            if a < h {
                assert(prev.contains((a, b)));
                let k: int = choose|k: int| 0 <= k < prev.len() && prev[k] == (a, b);
                assert(s[k] == prev[k]);
            } else {
                let k: int = b - a - 1;
                assert(row[k] == (a, b));
                assert(s[prev.len() + k] == row[k]);
            }
        }
        assert forall|k: int, l: int| 0 <= k < l < s.len() implies pair_less(
            #[trigger] s[k],
            #[trigger] s[l],
        ) by {
            if l < prev.len() {
                assert(s[k] == prev[k] && s[l] == prev[l]);
            } else if k < prev.len() {
                assert(s[k] == prev[k]);
                assert(s[l] == row[l - prev.len()]);
            } else {
                assert(s[k] == row[k - prev.len()]);
                assert(s[l] == row[l - prev.len()]);
            }
        }
        assert forall|k: int| 0 <= k < s.len() implies {
            let p = #[trigger] s[k];
            p.0 < i && p.0 < p.1 < n
        } by {
            if k < prev.len() {
                assert(s[k] == prev[k]);
            } else {
                assert(s[k] == row[k - prev.len()]);
            }
        }
    }
}

/// The interference analysis of `n` stored patterns reports one value per
/// unordered pair of distinct patterns: `n * (n - 1) / 2` values, each for a
/// pair `i < j < n`, every such pair exactly once, ordered by first index and
/// then by second index.
pub proof fn lemma_interference_order(n: usize)
    ensures
        interference_order(n as nat).len() == n * (n - 1) / 2,
        forall|i: usize, j: usize| i < j < n <==> #[trigger] interference_order(n as nat).contains((i, j)),
        forall|k: int, l: int|
            0 <= k < l < interference_order(n as nat).len() ==> pair_less(
                #[trigger] interference_order(n as nat)[k],
                #[trigger] interference_order(n as nat)[l],
            ),
{
    lemma_pairs_before_shape(n as nat, n as nat);
    let s = interference_order(n as nat);
    assert(n * (2 * n - n - 1) == n * (n - 1)) by (nonlinear_arith);
    assert forall|i: usize, j: usize| #[trigger] s.contains((i, j)) implies i < j < n by {
        let k: int = choose|k: int| 0 <= k < s.len() && s[k] == (i, j);
        assert(s[k].0 < n && s[k].0 < s[k].1 < n);
    }
}

} // verus!
