//! Raw generator draws that fill each agent's projection matrix.
//!
//! Every agent owns a square `dim x dim` projection matrix. Its entries come
//! from a generator seeded with the store seed plus the agent's index, read
//! row by row; each entry is the generator's next state with the sign bit
//! cleared. Turning a draw into a weight in `[-1, 1]` is floating-point work
//! and happens outside this crate.

use vstd::prelude::*;
use crate::lcg::{apart, lcg_state, lcg_step, lemma_lcg_state_add, lemma_apart_forever, lemma_apart_sign_cleared, sign_cleared, Lcg};

verus! {

/// Seed shared by every store; agent `a` seeds its generator with this plus `a`.
pub const PROJECTION_SEED: u64 = 42;

/// The seed of agent `agent`'s generator: `base + agent`, wrapping at `2^64`.
pub open spec fn agent_seed(base: u64, agent: int) -> u64 {
    ((base as int + agent) % 0x1_0000_0000_0000_0000int) as u64
}

/// The draw at row `i`, column `j` of a `dim x dim` matrix generated from
/// `seed`: the `(i * dim + j + 1)`-th state of the generator, sign bit cleared.
pub open spec fn projection_draw(seed: u64, dim: nat, i: nat, j: nat) -> u64 {
    sign_cleared(lcg_state(seed, i * dim + j + 1))
}

/// `m` is exactly the `dim x dim` matrix of draws generated from `seed`.
pub open spec fn is_projection_draws(m: Seq<Vec<u64>>, dim: nat, seed: u64) -> bool {
    &&& m.len() == dim
    &&& forall|i: int| 0 <= i < dim ==> (#[trigger] m[i])@.len() == dim
    &&& forall|i: int, j: int|
        0 <= i < dim && 0 <= j < dim ==> #[trigger] m[i]@[j] == projection_draw(
            seed,
            dim,
            i as nat,
            j as nat,
        )
}

/// The `dim x dim` matrix of raw draws generated from `seed`, row by row.
pub fn projection_draws(dim: usize, seed: u64) -> (m: Vec<Vec<u64>>)
    ensures
        is_projection_draws(m@, dim as nat, seed),
        m@.len() == dim,
        forall|i: int, j: int|
            0 <= i < dim && 0 <= j < dim ==> #[trigger] m@[i]@[j] == sign_cleared(
                lcg_state(seed, (i * dim + j + 1) as nat),
            ),
{
    let mut rng = Lcg::new(seed);
    let mut m: Vec<Vec<u64>> = Vec::new();
    let ghost mut done: nat = 0;
    let mut i: usize = 0;
    while i < dim
        invariant
            i <= dim,
            done == i * dim,
            rng@ == lcg_state(seed, done),
            m@.len() == i,
            forall|r: int| 0 <= r < i ==> (#[trigger] m@[r])@.len() == dim,
            forall|r: int, c: int|
                0 <= r < i && 0 <= c < dim ==> #[trigger] m@[r]@[c] == projection_draw(
                    seed,
                    dim as nat,
                    r as nat,
                    c as nat,
                ),
        decreases dim - i,
    {
        let mut row: Vec<u64> = Vec::new();
        let mut j: usize = 0;
        while j < dim
            invariant
                j <= dim,
                i < dim,
                done == i * dim,
                rng@ == lcg_state(seed, (done + j) as nat),
                row@.len() == j,
                forall|c: int|
                    0 <= c < j ==> #[trigger] row@[c] == projection_draw(
                        seed,
                        dim as nat,
                        i as nat,
                        c as nat,
                    ),
            decreases dim - j,
        {
            let bits: u64 = rng.next_bits();
            row.push(bits);
            j = j + 1;
        }
        m.push(row);
        proof {
            assert((i + 1) * dim == i * dim + dim) by (nonlinear_arith);
            done = (done + dim) as nat;
        }
        i = i + 1;
    }
    m
}

/// The raw draws of every agent's projection matrix in a store of
/// `n_agents` agents with `dim_per_agent` dimensions each.
pub fn initial_projection_draws(n_agents: usize, dim_per_agent: usize) -> (p: Vec<Vec<Vec<u64>>>)
    ensures
        p@.len() == n_agents,
        forall|a: int|
            0 <= a < n_agents ==> is_projection_draws(
                (#[trigger] p@[a])@,
                dim_per_agent as nat,
                agent_seed(PROJECTION_SEED, a),
            ),
        forall|a: int|
            0 <= a < n_agents ==> is_projection_draws(
                (#[trigger] p@[a])@,
                dim_per_agent as nat,
                ((PROJECTION_SEED as int + a) % 0x1_0000_0000_0000_0000int) as u64,
            ),
{
    let mut p: Vec<Vec<Vec<u64>>> = Vec::new();
    let mut a: usize = 0;
    while a < n_agents
        invariant
            a <= n_agents,
            p@.len() == a,
            forall|b: int|
                0 <= b < a ==> is_projection_draws(
                    (#[trigger] p@[b])@,
                    dim_per_agent as nat,
                    agent_seed(PROJECTION_SEED, b),
                ),
        decreases n_agents - a,
    {
        let seed: u64 = PROJECTION_SEED.wrapping_add(a as u64);
        p.push(projection_draws(dim_per_agent, seed));
        a = a + 1;
    }
    p
}

/// Row-major reading of a draw matrix: the positions of a `dim x dim` matrix
/// of draws generated from `seed` map one-to-one, in row-major order, onto
/// the generator's states `1, 2, ..., dim * dim`. The entry at flat position
/// `k` (row `k / dim`, column `k % dim`) is the sign-cleared `(k + 1)`-th
/// state, so row `i + 1` starts with the state right after the one that ends
/// row `i`, and no state is used twice.
pub proof fn lemma_projection_draws_row_major(m: Seq<Vec<u64>>, dim: nat, seed: u64)
    requires
        is_projection_draws(m, dim, seed),
    ensures
        forall|k: int|
            0 <= k < dim * dim ==> #[trigger] m[k / dim as int]@[k % dim as int] == sign_cleared(
                lcg_state(seed, (k + 1) as nat),
            ),
        forall|i: int, j: int|
            0 <= i < dim && 0 <= j < dim ==> #[trigger] m[i]@[j] == sign_cleared(
                lcg_state(seed, (i * dim + j + 1) as nat),
            ),
        dim > 0 ==> m[0]@[0] == sign_cleared(lcg_step(seed)),
        forall|i: int|
            0 <= i < dim - 1 ==> #[trigger] m[i + 1]@[0] == sign_cleared(
                lcg_state(seed, ((i + 1) * dim + 1) as nat),
            ),
{
    assert forall|k: int| 0 <= k < dim * dim implies #[trigger] m[k / dim as int]@[k % dim as int]
        == sign_cleared(lcg_state(seed, (k + 1) as nat)) by {
        let d: int = dim as int;
        let i: int = k / d;
        let j: int = k % d;
        assert(d > 0) by (nonlinear_arith)
            requires
                0 <= k < d * d,
                d >= 0,
        ;
        vstd::arithmetic::div_mod::lemma_fundamental_div_mod(k, d);
        vstd::arithmetic::div_mod::lemma_mod_bound(k, d);
        assert(0 <= i < d) by (nonlinear_arith)
            requires
                k == d * i + j,
                0 <= j < d,
                0 <= k < d * d,
        ;
        assert(i * d + j == k) by (nonlinear_arith)
            requires
                k == d * i + j,
        ;
        assert(m[i]@[j] == projection_draw(seed, dim, i as nat, j as nat));
    }
    assert forall|i: int, j: int| 0 <= i < dim && 0 <= j < dim implies #[trigger] m[i]@[j]
        == sign_cleared(lcg_state(seed, (i * dim + j + 1) as nat)) by {
        assert(m[i]@[j] == projection_draw(seed, dim, i as nat, j as nat));
    }
    if dim > 0 {
        assert(m[0]@[0] == projection_draw(seed, dim, 0, 0));
        assert(0 * dim + 0 + 1 == 1) by (nonlinear_arith);
        assert(lcg_state(seed, 1) == lcg_step(lcg_state(seed, 0)));
    }
    assert forall|i: int| 0 <= i < dim - 1 implies #[trigger] m[i + 1]@[0] == sign_cleared(
        lcg_state(seed, ((i + 1) * dim + 1) as nat),
    ) by {
        assert(m[i + 1]@[0] == projection_draw(seed, dim, (i + 1) as nat, 0));
    }
}

/// Two matrices of draws relate as one stream: row `i` of the matrix
/// generated from `seed` is row `0` of the matrix generated from the state
/// the generator reaches after `i * dim` draws.
pub proof fn lemma_projection_rows_continue(
    m: Seq<Vec<u64>>,
    rest: Seq<Vec<u64>>,
    dim: nat,
    seed: u64,
    i: nat,
)
    requires
        is_projection_draws(m, dim, seed),
        is_projection_draws(rest, dim, lcg_state(seed, i * dim)),
        i < dim,
    ensures
        m[i as int]@ == rest[0]@,
{
    assert forall|j: int| 0 <= j < dim implies m[i as int]@[j] == rest[0]@[j] by {
        assert(m[i as int]@[j] == projection_draw(seed, dim, i, j as nat));
        assert(rest[0]@[j] == projection_draw(lcg_state(seed, i * dim), dim, 0, j as nat));
        assert(0 * dim + j + 1 == j + 1) by (nonlinear_arith);
        lemma_lcg_state_add(seed, i * dim, (j + 1) as nat);
    }
    assert(m[i as int]@ =~= rest[0]@);
}

/// The seeds of a store's agents: agent `0` starts from the store seed, and
/// each next agent's seed is one more than the previous one, wrapping at
/// `2^64`; agent `a` is seeded with `(42 + a) mod 2^64`.
pub proof fn lemma_agent_seeds(a: nat)
    ensures
        agent_seed(PROJECTION_SEED, 0) == 42,
        agent_seed(PROJECTION_SEED, a as int) as int == (42 + a as int) % 0x1_0000_0000_0000_0000int,
        agent_seed(PROJECTION_SEED, (a + 1) as int) as int == (agent_seed(PROJECTION_SEED, a as int)
            as int + 1) % 0x1_0000_0000_0000_0000int,
{
    let m: int = 0x1_0000_0000_0000_0000int;
    let x: int = 42 + a as int;
    vstd::arithmetic::div_mod::lemma_mod_bound(x, m);
    vstd::arithmetic::div_mod::lemma_mod_bound(x + 1, m);
    vstd::arithmetic::div_mod::lemma_add_mod_noop(x, 1, m);
    vstd::arithmetic::div_mod::lemma_small_mod(1, m as nat);
    vstd::arithmetic::div_mod::lemma_small_mod(42, m as nat);
}

/// The projections a store starts with: agent `a`'s matrix is read row by
/// row from a generator seeded with `(42 + a) mod 2^64`; its entry `(i, j)`
/// is the sign-cleared `(i * dim + j + 1)`-th state of that generator, and
/// its first entry is the sign-cleared first step from the seed.
pub proof fn lemma_initial_projection_draws(p: Seq<Vec<Vec<u64>>>, n_agents: nat, dim: nat)
    requires
        p.len() == n_agents,
        forall|a: int|
            0 <= a < n_agents ==> is_projection_draws(
                (#[trigger] p[a])@,
                dim,
                agent_seed(PROJECTION_SEED, a),
            ),
    ensures
        forall|a: int, i: int, j: int|
            0 <= a < n_agents && 0 <= i < dim && 0 <= j < dim ==> #[trigger] p[a]@[i]@[j]
                == sign_cleared(
                lcg_state(
                    ((42 + a) % 0x1_0000_0000_0000_0000int) as u64,
                    (i * dim + j + 1) as nat,
                ),
            ),
        dim > 0 ==> forall|a: int|
            0 <= a < n_agents ==> #[trigger] p[a]@[0]@[0] == sign_cleared(
                lcg_step(((42 + a) % 0x1_0000_0000_0000_0000int) as u64),
            ),
{
    assert forall|a: int, i: int, j: int|
        0 <= a < n_agents && 0 <= i < dim && 0 <= j < dim implies #[trigger] p[a]@[i]@[j]
        == sign_cleared(
        lcg_state(((42 + a) % 0x1_0000_0000_0000_0000int) as u64, (i * dim + j + 1) as nat),
    ) by {
        lemma_agent_seeds(a as nat);
        lemma_projection_draws_row_major(p[a]@, dim, agent_seed(PROJECTION_SEED, a));
        vstd::arithmetic::div_mod::lemma_mod_bound(42 + a as int, 0x1_0000_0000_0000_0000int);
    }
    if dim > 0 {
        assert forall|a: int| 0 <= a < n_agents implies #[trigger] p[a]@[0]@[0] == sign_cleared(
            lcg_step(((42 + a) % 0x1_0000_0000_0000_0000int) as u64),
        ) by {
            lemma_agent_seeds(a as nat);
            lemma_projection_draws_row_major(p[a]@, dim, agent_seed(PROJECTION_SEED, a));
            vstd::arithmetic::div_mod::lemma_mod_bound(42 + a as int, 0x1_0000_0000_0000_0000int);
        }
    }
}

/// Each agent gets a projection of its own: the draws of two distinct agents
/// of a store differ at every entry of their matrices. Agents whose indices
/// are exactly `2^63` apart are left out: their seeds differ only in the sign
/// bit, which every draw clears.
pub proof fn lemma_agent_projections_differ(dim: nat, a: usize, b: usize, i: nat, j: nat)
    requires
        a != b,
        a - b != 0x8000_0000_0000_0000int,
        b - a != 0x8000_0000_0000_0000int,
        i < dim,
        j < dim,
    ensures
        projection_draw(agent_seed(PROJECTION_SEED, a as int), dim, i, j) != projection_draw(
            agent_seed(PROJECTION_SEED, b as int),
            dim,
            i,
            j,
        ),
{
    let m: int = 0x1_0000_0000_0000_0000int;
    let sa: u64 = agent_seed(PROJECTION_SEED, a as int);
    let sb: u64 = agent_seed(PROJECTION_SEED, b as int);
    let base: int = PROJECTION_SEED as int;
    assert(sa as int - sb as int == a as int - b as int || sa as int - sb as int == a as int - b
        as int + m || sa as int - sb as int == a as int - b as int - m) by {
        vstd::arithmetic::div_mod::lemma_mod_bound(base + a, m);
        vstd::arithmetic::div_mod::lemma_mod_bound(base + b, m);
        if base + a < m {
            vstd::arithmetic::div_mod::lemma_small_mod((base + a) as nat, m as nat);
        } else {
            vstd::arithmetic::div_mod::lemma_fundamental_div_mod_converse(base + a, m, 1, base + a - m);
        }
        if base + b < m {
            vstd::arithmetic::div_mod::lemma_small_mod((base + b) as nat, m as nat);
        } else {
            vstd::arithmetic::div_mod::lemma_fundamental_div_mod_converse(base + b, m, 1, base + b - m);
        }
    }
    let g: int = sa as int - sb as int;
    let r: int = a as int - b as int;
    if r > 0 {
        vstd::arithmetic::div_mod::lemma_fundamental_div_mod_converse(g, m, (g - r) / m, r);
    } else {
        vstd::arithmetic::div_mod::lemma_fundamental_div_mod_converse(g, m, (g - r - m) / m, r + m);
    }
    assert(apart(sa, sb));
    let n: nat = i * dim + j + 1;
    lemma_apart_forever(sa, sb, n);
    lemma_apart_sign_cleared(lcg_state(sa, n), lcg_state(sb, n));
}

} // verus!
