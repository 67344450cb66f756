//! Linear congruential generator used to build the deterministic projections.

use vstd::prelude::*;

verus! {

/// Multiplier of the generator (Knuth's MMIX constant).
pub const LCG_MULTIPLIER: u64 = 6364136223846793005;

/// Increment of the generator.
pub const LCG_INCREMENT: u64 = 1442695040888963407;

/// One step of the generator on the mathematical integers: `(a * s + c) mod 2^64`.
pub open spec fn lcg_step(state: u64) -> u64 {
    ((state as int * LCG_MULTIPLIER as int + LCG_INCREMENT as int) % 0x1_0000_0000_0000_0000int) as u64
}

/// The state reached from `seed` after `n` steps.
pub open spec fn lcg_state(seed: u64, n: nat) -> u64
    decreases n,
{
    if n == 0 {
        seed
    } else {
        lcg_step(lcg_state(seed, (n - 1) as nat))
    }
}

/// Running the generator `a` steps and then `b` more is running it `a + b` steps.
pub proof fn lemma_lcg_state_add(seed: u64, a: nat, b: nat)
    ensures
        lcg_state(lcg_state(seed, a), b) == lcg_state(seed, a + b),
    decreases b,
{
    if b > 0 {
        lemma_lcg_state_add(seed, a, (b - 1) as nat);
        assert(lcg_state(seed, a + b) == lcg_step(lcg_state(seed, (a + b - 1) as nat)));
    }
}

/// A value with its sign bit cleared: its remainder modulo `2^63`.
pub open spec fn sign_cleared(x: u64) -> u64 {
    (x % 0x8000_0000_0000_0000u64) as u64
}

/// The difference `x - y` of two states, taken modulo `2^64`.
pub open spec fn state_gap(x: u64, y: u64) -> int {
    (x as int - y as int) % 0x1_0000_0000_0000_0000int
}

/// Two states are apart when they differ below the sign bit, that is, when
/// their gap modulo `2^64` is neither `0` nor `2^63`.
pub open spec fn apart(x: u64, y: u64) -> bool {
    state_gap(x, y) != 0 && state_gap(x, y) != 0x8000_0000_0000_0000int
}

proof fn lemma_step_gap(x: u64, y: u64)
    ensures
        state_gap(lcg_step(x), lcg_step(y)) == (LCG_MULTIPLIER as int * state_gap(x, y))
            % 0x1_0000_0000_0000_0000int,
{
    let m: int = 0x1_0000_0000_0000_0000int;
    let a: int = LCG_MULTIPLIER as int;
    let c: int = LCG_INCREMENT as int;
    let px: int = x as int * a + c;
    let py: int = y as int * a + c;
    assert((px % m - py % m) % m == (px - py) % m) by {
        vstd::arithmetic::div_mod::lemma_sub_mod_noop(px, py, m);
    }
    assert(px - py == a * (x as int - y as int)) by (nonlinear_arith)
        requires
            px == x as int * a + c,
            py == y as int * a + c,
    ;
    assert((a * (x as int - y as int)) % m == (a * ((x as int - y as int) % m)) % m) by {
        vstd::arithmetic::div_mod::lemma_mul_mod_noop_right(a, x as int - y as int, m);
    }
    assert(0 <= px % m < m && 0 <= py % m < m) by {
        vstd::arithmetic::div_mod::lemma_mod_bound(px, m);
        vstd::arithmetic::div_mod::lemma_mod_bound(py, m);
    }
}

proof fn lemma_scaled_gap_stays_apart(d: int)
    requires
        0 <= d < 0x1_0000_0000_0000_0000int,
        d != 0,
        d != 0x8000_0000_0000_0000int,
    ensures
        (LCG_MULTIPLIER as int * d) % 0x1_0000_0000_0000_0000int != 0,
        (LCG_MULTIPLIER as int * d) % 0x1_0000_0000_0000_0000int != 0x8000_0000_0000_0000int,
{
    let m: int = 0x1_0000_0000_0000_0000int;
    let a: int = LCG_MULTIPLIER as int;
    // the inverse of the multiplier modulo 2^64
    let inv: int = 13877824140714322085int;
    let k: int = 4787856489426250814int;
    assert(a * inv == 1 + k * m);
    let e: int = (a * d) % m;
    assert((e * inv) % m == (a * d * inv) % m) by {
        vstd::arithmetic::div_mod::lemma_mul_mod_noop_left(a * d, inv, m);
    }
    assert(a * d * inv == d + (d * k) * m) by (nonlinear_arith)
        requires
            a * inv == 1 + k * m,
    ;
    assert((d + (d * k) * m) % m == d) by {
        vstd::arithmetic::div_mod::lemma_mod_multiples_vanish(d * k, d, m);
        vstd::arithmetic::div_mod::lemma_small_mod(d as nat, m as nat);
    }
    if e == 0 {
        assert((0 * inv) % m == 0);
    }
    if e == 0x8000_0000_0000_0000int {
        assert((0x8000_0000_0000_0000int * inv) % m == 0x8000_0000_0000_0000int) by {
            vstd::arithmetic::div_mod::lemma_fundamental_div_mod_converse(
                0x8000_0000_0000_0000int * inv,
                m,
                6938912070357161042int,
                0x8000_0000_0000_0000int,
            );
        }
    }
}

/// Generators started from states that are apart stay apart after any
/// number of steps.
pub proof fn lemma_apart_forever(x: u64, y: u64, n: nat)
    requires
        apart(x, y),
    ensures
        apart(lcg_state(x, n), lcg_state(y, n)),
    decreases n,
{
    if n > 0 {
        let h: nat = (n - 1) as nat;
        lemma_apart_forever(x, y, h);
        let xs: u64 = lcg_state(x, h);
        let ys: u64 = lcg_state(y, h);
        lemma_step_gap(xs, ys);
        assert(0 <= state_gap(xs, ys) < 0x1_0000_0000_0000_0000int) by {
            vstd::arithmetic::div_mod::lemma_mod_bound(
                xs as int - ys as int,
                0x1_0000_0000_0000_0000int,
            );
        }
        lemma_scaled_gap_stays_apart(state_gap(xs, ys));
    }
}

/// States that are apart differ once their sign bits are cleared.
pub proof fn lemma_apart_sign_cleared(x: u64, y: u64)
    requires
        apart(x, y),
    ensures
        sign_cleared(x) != sign_cleared(y),
{
    let h: int = 0x8000_0000_0000_0000int;
    let m: int = 0x1_0000_0000_0000_0000int;
    if sign_cleared(x) == sign_cleared(y) {
        let qx: int = x as int / h;
        let qy: int = y as int / h;
        assert(x as int == h * qx + sign_cleared(x) as int) by {
            vstd::arithmetic::div_mod::lemma_fundamental_div_mod(x as int, h);
        }
        assert(y as int == h * qy + sign_cleared(y) as int) by {
            vstd::arithmetic::div_mod::lemma_fundamental_div_mod(y as int, h);
        }
        assert(0 <= qx <= 1 && 0 <= qy <= 1);
        let g: int = x as int - y as int;
        assert(g == 0 || g == h || g == -h);
        if g == -h {
            assert(g % m == h) by {
                vstd::arithmetic::div_mod::lemma_fundamental_div_mod_converse(g, m, -1, h);
            }
        }
    }
}

/// Simple linear congruential generator for deterministic randomness.
pub struct Lcg {
    state: u64,
}

impl View for Lcg {
    type V = u64;

    /// The generator's current state.
    closed spec fn view(&self) -> u64 {
        self.state
    }
}

proof fn lemma_wrapping_step(s: u64)
    ensures
        vstd::wrapping::u64_specs::wrapping_add(vstd::wrapping::u64_specs::wrapping_mul(s, LCG_MULTIPLIER), LCG_INCREMENT)
            == lcg_step(s),
{
    let m: int = 0x1_0000_0000_0000_0000int;
    let p: int = s as int * LCG_MULTIPLIER as int;
    let x: int = p % m;
    let c: int = LCG_INCREMENT as int;
    assert(0 <= x < m) by {
        vstd::arithmetic::div_mod::lemma_mod_bound(p, m);
    }
    assert((x + c % m) % m == (p + c) % m) by {
        vstd::arithmetic::div_mod::lemma_add_mod_noop(p, c, m);
        vstd::arithmetic::div_mod::lemma_small_mod(c as nat, m as nat);
        vstd::arithmetic::div_mod::lemma_small_mod(x as nat, m as nat);
    }
    assert(c % m == c) by {
        vstd::arithmetic::div_mod::lemma_small_mod(c as nat, m as nat);
    }
    if x + c >= m {
        assert((x + c) % m == x + c - m) by {
            vstd::arithmetic::div_mod::lemma_fundamental_div_mod_converse(x + c, m, 1, x + c - m);
        }
    } else {
        assert((x + c) % m == x + c) by {
            vstd::arithmetic::div_mod::lemma_small_mod((x + c) as nat, m as nat);
        }
    }
}

impl Lcg {
    /// A generator whose state is `seed`.
    pub fn new(seed: u64) -> (rng: Self)
        ensures
            rng@ == seed,
    {
        Lcg { state: seed }
    }

    /// Advances the generator one step and returns the new state.
    pub fn next(&mut self) -> (value: u64)
        ensures
            value == lcg_step(old(self)@),
            final(self)@ == value,
    {
        proof {
            lemma_wrapping_step(self.state);
        }
        self.state = self.state.wrapping_mul(LCG_MULTIPLIER).wrapping_add(LCG_INCREMENT);
        self.state
    }

    /// Advances the generator one step and returns the new state with its
    /// sign bit cleared, the raw material of a draw in `[0, 1)`.
    pub fn next_bits(&mut self) -> (bits: u64)
        ensures
            bits == sign_cleared(lcg_step(old(self)@)),
            bits < 0x8000_0000_0000_0000u64,
            final(self)@ == lcg_step(old(self)@),
    {
        let v: u64 = self.next();
        let bits: u64 = v & 0x7FFF_FFFF_FFFF_FFFFu64;
        assert(v & 0x7FFF_FFFF_FFFF_FFFFu64 == v % 0x8000_0000_0000_0000u64) by (bit_vector);
        bits
    }
}

} // verus!
