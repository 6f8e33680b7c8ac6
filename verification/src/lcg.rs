//! The 64-bit linear congruential generator under [`crate::rng`], and the theorem that it has
//! full period: from any state, every state is reached.
//!
//! The argument works on the unreduced recurrence over the integers, where `2^k` steps are one
//! affine map `a * x + b` with `a = 1 (mod 2^(k+2))` and `b = 2^k * odd`. So `2^k` steps change
//! exactly bit `k` of the low `k + 1` bits, and a target state can be reached one bit at a time.
use vstd::arithmetic::div_mod::*;
use vstd::arithmetic::power2::*;
use vstd::prelude::*;

verus! {

/// The multiplier of the recurrence; it leaves remainder 1 on division by 4.
pub const MULTIPLIER: u64 = 6_364_136_223_846_793_005;

/// An odd increment, which is what gives the recurrence its full period.
pub const INCREMENT: u64 = 1_442_695_040_888_963_407;

/// The number of states, `2^64`.
pub open spec fn states() -> int {
    0x1_0000_0000_0000_0000
}

/// One step of the generator.
pub open spec fn step(s: u64) -> u64 {
    ((s * MULTIPLIER + INCREMENT) % states()) as u64
}

/// The state `n` steps after `s`.
pub open spec fn after(s: u64, n: nat) -> u64
    decreases n,
{
    if n == 0 {
        s
    } else {
        step(after(s, (n - 1) as nat))
    }
}

/// `n` steps of the recurrence from `x` without reduction.
spec fn lift(x: int, n: nat) -> int
    decreases n,
{
    if n == 0 {
        x
    } else {
        lift(x, (n - 1) as nat) * MULTIPLIER + INCREMENT
    }
}

proof fn lift_reduces(s: u64, n: nat)
    ensures
        after(s, n) as int == lift(s as int, n) % states(),
    decreases n,
{
    if n == 0 {
        lemma_small_mod(s as nat, states() as nat);
    } else {
        let m = (n - 1) as nat;
        lift_reduces(s, m);
        let x = lift(s as int, m);
        lemma_mul_mod_noop_left(x, MULTIPLIER as int, states());
        lemma_add_mod_noop((x % states()) * MULTIPLIER, INCREMENT as int, states());
        lemma_add_mod_noop(x * MULTIPLIER, INCREMENT as int, states());
        let y = ((x % states()) * MULTIPLIER + INCREMENT) % states();
        lemma_mod_bound((x % states()) * MULTIPLIER + INCREMENT, states());
        assert(after(s, n) as int == y);
    }
}

proof fn lift_add(x: int, m: nat, n: nat)
    ensures
        lift(x, m + n) == lift(lift(x, m), n),
    decreases n,
{
    if n > 0 {
        lift_add(x, m, (n - 1) as nat);
        assert((m + n - 1) as nat == m + (n - 1) as nat);
    }
}

/// `2^k` steps are `x -> slope(k) * x + shift(k)`.
spec fn slope(k: nat) -> int
    decreases k,
{
    if k == 0 {
        MULTIPLIER as int
    } else {
        slope((k - 1) as nat) * slope((k - 1) as nat)
    }
}

spec fn shift(k: nat) -> int
    decreases k,
{
    if k == 0 {
        INCREMENT as int
    } else {
        slope((k - 1) as nat) * shift((k - 1) as nat) + shift((k - 1) as nat)
    }
}

/// `slope(k) == 1 + 4 * 2^k * slope_part(k)`.
spec fn slope_part(k: nat) -> int
    decreases k,
{
    if k == 0 {
        1_591_034_055_961_698_251
    } else {
        let p = slope_part((k - 1) as nat);
        p + 2 * pow2((k - 1) as nat) * (p * p)
    }
}

/// `shift(k) == 2^k * (2 * shift_part(k) + 1)`.
spec fn shift_part(k: nat) -> int
    decreases k,
{
    if k == 0 {
        721_347_520_444_481_703
    } else {
        let p = slope_part((k - 1) as nat);
        let q = shift_part((k - 1) as nat);
        q + pow2((k - 1) as nat) * p * (2 * q + 1)
    }
}

proof fn affine(x: int, k: nat)
    ensures
        lift(x, pow2(k)) == slope(k) * x + shift(k),
    decreases k,
{
    if k == 0 {
        lemma2_to64();
        reveal_with_fuel(lift, 2);
        let a = slope(k);
        assert(a * x == x * MULTIPLIER) by (nonlinear_arith)
            requires
                a == MULTIPLIER,
        ;
        assert(lift(x, 1) == x * MULTIPLIER + INCREMENT);
    } else {
        let j = (k - 1) as nat;
        lemma_pow2_unfold(k);
        assert(pow2(k) == pow2(j) + pow2(j));
        lift_add(x, pow2(j), pow2(j));
        affine(x, j);
        let y = lift(x, pow2(j));
        affine(y, j);
        let a = slope(j);
        let b = shift(j);
        let c = slope(k);
        assert(a * (a * x + b) + b == c * x + (a * b + b)) by (nonlinear_arith)
            requires
                c == a * a,
        ;
    }
}

proof fn shapes(k: nat)
    ensures
        slope(k) == 1 + 4 * pow2(k) * slope_part(k),
        shift(k) == pow2(k) * (2 * shift_part(k) + 1),
    decreases k,
{
    if k == 0 {
        lemma2_to64();
    } else {
        let j = (k - 1) as nat;
        shapes(j);
        lemma_pow2_unfold(k);
        let e = pow2(j) as int;
        let p = slope_part(j);
        let q = shift_part(j);
        let a = slope(j);
        let b = shift(j);
        assert(a * a == 1 + 4 * (2 * e) * (p + 2 * e * (p * p))) by (nonlinear_arith)
            requires
                a == 1 + 4 * e * p,
        ;
        assert(a * b + b == (2 * e) * (2 * (q + e * p * (2 * q + 1)) + 1)) by (nonlinear_arith)
            requires
                a == 1 + 4 * e * p,
                b == e * (2 * q + 1),
        ;
    }
}

/// `2^k` steps add `2^k`, up to a multiple of `2^(k+1)`.
proof fn block(x: int, k: nat)
    ensures
        lift(x, pow2(k)) == x + pow2(k) + 2 * pow2(k) * (2 * slope_part(k) * x + shift_part(k)),
{
    affine(x, k);
    shapes(k);
    let e = pow2(k) as int;
    let p = slope_part(k);
    let q = shift_part(k);
    assert((1 + 4 * e * p) * x + e * (2 * q + 1) == x + e + 2 * e * (2 * p * x + q))
        by (nonlinear_arith);
}

/// Fewer than `2^k` steps bring `x` to `t` modulo `2^k`.
proof fn reach(x: int, t: int, k: nat) -> (r: (nat, int))
    ensures
        r.0 < pow2(k),
        lift(x, r.0) - t == r.1 * pow2(k),
    decreases k,
{
    if k == 0 {
        lemma2_to64();
        (0, x - t)
    } else {
        let h = (k - 1) as nat;
        let (j, d) = reach(x, t, h);
        lemma_pow2_unfold(k);
        let e = pow2(h) as int;
        if d % 2 == 0 {
            let half = d / 2;
            assert(d * e == half * (2 * e)) by (nonlinear_arith)
                requires
                    d == 2 * half,
            ;
            (j, half)
        } else {
            let y = lift(x, j);
            lift_add(x, j, pow2(h));
            block(y, h);
            let w = 2 * slope_part(h) * y + shift_part(h);
            let half = (d + 1) / 2;
            assert(d * e + e + 2 * e * w == (half + w) * (2 * e)) by (nonlinear_arith)
                requires
                    d + 1 == 2 * half,
            ;
            (j + pow2(h), half + w)
        }
    }
}

/// Full period: from any state every state is reached, in fewer than `2^64` steps.
pub proof fn full_period(s: u64, t: u64)
    ensures
        exists|n: nat| n < states() && #[trigger] after(s, n) == t,
{
    let (n, d) = reach(s as int, t as int, 64);
    lemma2_to64();
    lemma2_to64_rest();
    lift_reduces(s, n);
    assert(lift(s as int, n) == d * states() + t);
    lemma_fundamental_div_mod_converse(lift(s as int, n), states(), d, t as int);
    assert(after(s, n) == t);
}

/// Stepping first and then `n` times is stepping `n + 1` times.
pub proof fn after_shifts(s: u64, n: nat)
    ensures
        after(step(s), n) == after(s, n + 1),
    decreases n,
{
    if n > 0 {
        after_shifts(s, (n - 1) as nat);
    } else {
        reveal_with_fuel(after, 2);
    }
}

} // verus!
