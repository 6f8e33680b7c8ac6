//! The one source of chance in the simulator.
//!
//! Every delay, drop, duplication, reorder, process kill and clock skew of a run comes from
//! here, and all of it from a single integer. A run is therefore one number: the same seed
//! replays the same run, on any machine.
//!
//! The generator is PCG-XSH-RR 64/32: the state of a 64-bit linear congruential generator
//! ([`crate::lcg`]), permuted down to 32 bits of output. Each method's contract gives its result
//! and the state it leaves as a function of the state it found, so a whole run can be
//! calculated from its seed.
use crate::lcg::{after, after_shifts, full_period, states, step, INCREMENT, MULTIPLIER};
use vstd::arithmetic::div_mod::*;
use vstd::prelude::*;

verus! {

/// A seeded, reproducible source of chance.
#[derive(Debug)]
pub struct Rng {
    state: u64,
    /// The seed this generator was built from, carried so a trace can report it.
    seed: u64,
}

/// `x` with its low `r` bits moved to the top.
pub open spec fn rotated_right(x: u32, r: u32) -> u32 {
    if r == 0 {
        x
    } else {
        (x >> r) | (x << ((32 - r) as u32))
    }
}

/// The word that a state yields: the high bits xorshifted down, then rotated by a count taken
/// from the top 5 bits.
pub open spec fn output(s: u64) -> u32 {
    rotated_right((((s >> 18) ^ s) >> 27) as u32, (s >> 59) as u32)
}

/// The state that a seed starts in: one step past the seed, so that seed 0 is no special case.
pub open spec fn start(seed: u64) -> u64 {
    step(((seed + INCREMENT) % states()) as u64)
}

/// The next 64 bits, and the state after them.
pub open spec fn u64_of(s: u64) -> (u64, u64) {
    ((output(s) * 0x1_0000_0000 + output(step(s))) as u64, step(step(s)))
}

/// How many 32-bit words to discard so that the rest divide evenly among `n` results.
pub open spec fn threshold(n: u32) -> u32 {
    ((0x1_0000_0000 - n) % (n as int)) as u32
}

/// The word of state `k` steps on is usable, and none before it is.
pub open spec fn first_usable(s: u64, least: u32, k: nat) -> bool {
    &&& output(after(s, k)) >= least
    &&& forall|j: nat| j < k ==> output(#[trigger] after(s, j)) < least
}

/// How many words a draw discards before the one it uses.
pub open spec fn discarded(s: u64, least: u32) -> nat {
    choose|k: nat| first_usable(s, least, k)
}

/// A number below `n`, and the state after it.
pub open spec fn below_of(s: u64, n: u32) -> (u32, u64) {
    if n == 0 {
        (0, s)
    } else {
        let k = discarded(s, threshold(n));
        (output(after(s, k)) % n, after(s, k + 1))
    }
}

/// A number from `low` to `high`, and the state after it.
pub open spec fn range_of(s: u64, low: u32, high: u32) -> (u32, u64) {
    if high <= low {
        (low, s)
    } else if high - low == u32::MAX {
        (output(s), step(s))
    } else {
        let (v, t) = below_of(s, (high - low + 1) as u32);
        ((low + v) as u32, t)
    }
}

/// Whether an event of `percent` in a hundred happens, and the state after the draw.
pub open spec fn chance_of(s: u64, percent: u32) -> (bool, u64) {
    if percent == 0 {
        (false, s)
    } else if percent >= 100 {
        (true, s)
    } else {
        let (v, t) = below_of(s, 100);
        (v < percent, t)
    }
}

/// A signed offset of at most `magnitude`, and the state after it.
pub open spec fn signed_of(s: u64, magnitude: i64) -> (i64, u64) {
    if magnitude <= 0 {
        (0, s)
    } else {
        let (w, t) = u64_of(s);
        ((w as int % (2 * magnitude + 1) - magnitude) as i64, t)
    }
}

/// A state whose word is all ones, so that no draw discards it.
proof fn all_ones_state()
    ensures
        output(0x7ff_fe00_0000_0000u64) == u32::MAX,
{
    assert(output(0x7ff_fe00_0000_0000u64) == u32::MAX) by (bit_vector);
}

/// A state at which the words of a draw stop being discarded, at most `bound` steps on.
proof fn least_usable(s: u64, least: u32, bound: nat) -> (k: nat)
    requires
        output(after(s, bound)) >= least,
    ensures
        first_usable(s, least, k),
    decreases bound,
{
    if exists|j: nat| j < bound && output(#[trigger] after(s, j)) >= least {
        let j = choose|j: nat| j < bound && output(#[trigger] after(s, j)) >= least;
        least_usable(s, least, j)
    } else {
        bound
    }
}

/// Every draw ends: some later state has a usable word, because the generator passes through
/// every state.
pub proof fn draws_end(s: u64, least: u32)
    ensures
        first_usable(s, least, discarded(s, least)),
{
    all_ones_state();
    full_period(s, 0x7ff_fe00_0000_0000u64);
    let n = choose|n: nat| n < states() && #[trigger] after(s, n) == 0x7ff_fe00_0000_0000u64;
    let k = least_usable(s, least, n);
}

proof fn discarded_is(s: u64, least: u32, k: nat)
    requires
        first_usable(s, least, k),
    ensures
        discarded(s, least) == k,
{
    let d = discarded(s, least);
    if d < k {
        assert(output(after(s, d)) < least);
    } else if k < d {
        assert(output(after(s, k)) < least);
    }
}

/// Discarding one word leaves one word fewer to discard.
proof fn discard_one(s: u64, least: u32)
    requires
        output(s) < least,
    ensures
        discarded(s, least) == discarded(step(s), least) + 1,
{
    draws_end(step(s), least);
    let k = discarded(step(s), least);
    after_shifts(s, k);
    assert forall|j: nat| j < k + 1 implies output(#[trigger] after(s, j)) < least by {
        if j == 0 {
            assert(after(s, 0) == s);
        } else {
            after_shifts(s, (j - 1) as nat);
            assert(output(after(step(s), (j - 1) as nat)) < least);
        }
    }
    discarded_is(s, least, k + 1);
}

impl Clone for Rng {
    fn clone(&self) -> (copy: Self)
        ensures
            copy == *self,
    {
        Rng { state: self.state, seed: self.seed }
    }
}

impl Rng {
    /// The state of the generator.
    pub closed spec fn state(&self) -> u64 {
        self.state
    }

    /// The seed the generator was built from.
    pub closed spec fn origin(&self) -> u64 {
        self.seed
    }

    /// Builds a generator from a seed.
    #[must_use]
    pub fn new(seed: u64) -> (rng: Self)
        ensures
            rng.state() == start(seed),
            rng.origin() == seed,
    {
        let state: u64 = seed.wrapping_add(INCREMENT);
        let mut rng = Self { state, seed };
        rng.advance();
        rng
    }

    /// The seed this generator came from.
    #[must_use]
    pub fn seed(&self) -> (seed: u64)
        ensures
            seed == self.origin(),
    {
        self.seed
    }

    fn advance(&mut self)
        ensures
            final(self).state() == step(old(self).state()),
            final(self).origin() == old(self).origin(),
    {
        proof {
            let x = self.state * MULTIPLIER;
            lemma_add_mod_noop(x, INCREMENT as int, states());
            lemma_small_mod(INCREMENT as nat, states() as nat);
            lemma_mod_bound(x, states());
            let y = x % states() + INCREMENT;
            if y >= states() {
                lemma_fundamental_div_mod_converse(y, states(), 1, y - states());
            } else {
                lemma_small_mod(y as nat, states() as nat);
            }
        }
        self.state = self.state.wrapping_mul(MULTIPLIER).wrapping_add(INCREMENT);
    }

    /// The next 32 bits.
    pub fn next_u32(&mut self) -> (v: u32)
        ensures
            v == output(old(self).state()),
            final(self).state() == step(old(self).state()),
            final(self).origin() == old(self).origin(),
    {
        let old_state: u64 = self.state;
        self.advance();
        let xorshifted: u32 = (((old_state >> 18) ^ old_state) >> 27) as u32;
        let rot: u32 = (old_state >> 59) as u32;
        assert((old_state >> 59) < 32) by (bit_vector);
        if rot == 0 {
            xorshifted
        } else {
            (xorshifted >> rot) | (xorshifted << (32 - rot))
        }
    }

    /// The next 64 bits, the first word drawn being the upper half.
    pub fn next_u64(&mut self) -> (v: u64)
        ensures
            (v, final(self).state()) == u64_of(old(self).state()),
            final(self).origin() == old(self).origin(),
    {
        let hi: u64 = self.next_u32() as u64;
        let lo: u64 = self.next_u32() as u64;
        assert(hi <= 0xffff_ffff && lo <= 0xffff_ffff ==> (hi << 32) | lo == hi * 0x1_0000_0000
            + lo) by (bit_vector);
        (hi << 32) | lo
    }

    /// A number in `0..n`, or `0` when `n` is zero.
    ///
    /// Words below the threshold are discarded, so that what is left divides evenly among the
    /// `n` results: see [`below_is_even`].
    pub fn below(&mut self, n: u32) -> (v: u32)
        ensures
            (v, final(self).state()) == below_of(old(self).state(), n),
            n > 0 ==> v < n,
            final(self).origin() == old(self).origin(),
    {
        if n == 0 {
            return 0;
        }
        let least: u32 = 0u32.wrapping_sub(n) % n;
        let ghost s0 = self.state();
        proof {
            assert(after(s0, 0) == s0);
        }
        loop
            invariant
                n > 0,
                least == threshold(n),
                self.origin() == old(self).origin(),
                exists|i: nat|
                    self.state() == #[trigger] after(old(self).state(), i) && discarded(
                        old(self).state(),
                        least,
                    ) == i + discarded(self.state(), least),
            decreases discarded(self.state(), least),
        {
            let ghost s = self.state();
            let ghost i = choose|i: nat|
                s == #[trigger] after(old(self).state(), i) && discarded(old(self).state(), least)
                    == i + discarded(s, least);
            let v: u32 = self.next_u32();
            if v >= least {
                proof {
                    assert(after(s, 0) == s);
                    discarded_is(s, least, 0);
                    assert(after(old(self).state(), i + 1) == step(s));
                }
                return v % n;
            }
            proof {
                discard_one(s, least);
                assert(after(old(self).state(), i + 1) == step(s));
            }
        }
    }

    /// A number in `low..=high`, inclusive. Returns `low` if the range is inverted, and a whole word
    /// if it is every number there is.
    pub fn range(&mut self, low: u32, high: u32) -> (v: u32)
        ensures
            (v, final(self).state()) == range_of(old(self).state(), low, high),
            low <= v,
            low <= high ==> v <= high,
            final(self).origin() == old(self).origin(),
    {
        if high <= low {
            return low;
        }
        if high - low == u32::MAX {
            return self.next_u32();
        }
        low + self.below(high - low + 1)
    }

    /// True with probability `percent`/100. At `0` and from `100` on nothing is drawn.
    pub fn chance(&mut self, percent: u32) -> (hit: bool)
        ensures
            (hit, final(self).state()) == chance_of(old(self).state(), percent),
            percent == 0 ==> !hit,
            percent >= 100 ==> hit,
            final(self).origin() == old(self).origin(),
    {
        if percent == 0 {
            return false;
        }
        if percent >= 100 {
            return true;
        }
        self.below(100) < percent
    }

    /// A signed offset in `-magnitude..=magnitude`; `0` when `magnitude` is not positive.
    pub fn signed(&mut self, magnitude: i64) -> (v: i64)
        requires
            2 * magnitude <= i64::MAX,
        ensures
            (v, final(self).state()) == signed_of(old(self).state(), magnitude),
            magnitude >= 0 ==> -magnitude <= v <= magnitude,
            magnitude <= 0 ==> v == 0 && final(self).state() == old(self).state(),
            final(self).origin() == old(self).origin(),
    {
        if magnitude <= 0 {
            return 0;
        }
        let span: u64 = (magnitude as u64) * 2 + 1;
        let word: u64 = self.next_u64();
        let pick: i64 = (word % span) as i64;
        pick - magnitude
    }

    /// Picks an index into a slice of length `len`, or `None` when empty. The draw is one of
    /// `len` reduced to 32 bits.
    pub fn index(&mut self, len: usize) -> (at: Option<usize>)
        ensures
            at is None <==> len == 0,
            len == 0 ==> final(self).state() == old(self).state(),
            at matches Some(i) ==> (i as u32, final(self).state()) == below_of(
                old(self).state(),
                len as u32,
            ) && i <= u32::MAX,
            at matches Some(i) ==> i < len,
            final(self).origin() == old(self).origin(),
    {
        if len == 0 {
            return None;
        }
        let n: u32 = len as u32;
        assert(n <= len) by (bit_vector)
            requires
                n == len as u32,
        ;
        let v: u32 = self.below(n);
        assert(v as usize as u32 == v) by (bit_vector);
        Some(v as usize)
    }
}

/// No result of a draw below `n` is favoured: the usable words are a whole number of runs of `n`
/// consecutive words, and in each run exactly one word gives the result `r`.
pub proof fn below_is_even(n: u32, r: u32, run: nat)
    requires
        r < n,
        threshold(n) + (run + 1) * n <= 0x1_0000_0000,
    ensures
        (0x1_0000_0000 - threshold(n)) % (n as int) == 0,
        exists|v: int|
            threshold(n) + run * n <= v < threshold(n) + (run + 1) * n && #[trigger] (v % (n
                as int)) == r && forall|w: int|
                threshold(n) + run * n <= w < threshold(n) + (run + 1) * n && #[trigger] (w % (n
                    as int)) == r ==> w == v,
{
    let m = n as int;
    let t = threshold(n) as int;
    lemma_mod_bound(0x1_0000_0000 - m, m);
    lemma_fundamental_div_mod(0x1_0000_0000 - m, m);
    let q = (0x1_0000_0000 - m) / m;
    assert(0x1_0000_0000 - t == m * (q + 1)) by (nonlinear_arith)
        requires
            0x1_0000_0000 - m == m * q + t,
    ;
    lemma_mod_multiples_basic(q + 1, m);
    assert(m * (q + 1) == (q + 1) * m) by (nonlinear_arith);
    let base = t + run * m;
    assert((run + 1) * m == run * m + m) by (nonlinear_arith);
    let off = (r - base) % m;
    lemma_mod_bound(r - base, m);
    let v = base + off;
    lemma_fundamental_div_mod(r - base, m);
    let z = (r - base) / m;
    assert(v == r + m * (-z)) by (nonlinear_arith)
        requires
            r - base == m * z + off,
            v == base + off,
    ;
    lemma_fundamental_div_mod_converse(v, m, -z, r as int);
    assert forall|w: int|
        base <= w < base + m && #[trigger] (w % m) == r implies w == v by {
        lemma_fundamental_div_mod(w, m);
        lemma_fundamental_div_mod(v, m);
        let a = w / m;
        let b = v / m;
        assert(a == b) by (nonlinear_arith)
            requires
                w == m * a + r,
                v == m * b + r,
                -m < w - v < m,
                m > 0,
        ;
    }
    assert(v % m == r);
}

/// The generator is PCG-XSH-RR over the 64-bit recurrence with these two constants: a step is the
/// product and the sum modulo 2^64; a word is the state, xorshifted and cut to 32 bits, turned to the
/// right by the top five bits of the state; a seed starts one step past its sum with the increment;
/// and 64 bits are two words, the first on top.
pub proof fn the_generator_is_the_published_one(s: u64, seed: u64)
    ensures
        step(s) == (s * 6_364_136_223_846_793_005 + 1_442_695_040_888_963_407)
            % 0x1_0000_0000_0000_0000,
        start(seed) == step(((seed + 1_442_695_040_888_963_407) % 0x1_0000_0000_0000_0000) as u64),
        ({
            let x = (((s >> 18) ^ s) >> 27) as u32;
            let r = (s >> 59) as u32;
            output(s) == (x >> r) | (x << (((32 - r) % 32) as u32))
        }),
        u64_of(s).0 / 0x1_0000_0000 == output(s),
        u64_of(s).0 % 0x1_0000_0000 == output(step(s)),
        u64_of(s).1 == step(step(s)),
{
    let x = (((s >> 18) ^ s) >> 27) as u32;
    let r = (s >> 59) as u32;
    assert(r < 32) by (bit_vector)
        requires
            r == (s >> 59) as u32,
    ;
    if r == 0 {
        assert((x >> 0u32) | (x << 0u32) == x) by (bit_vector);
    }
}

/// A signed offset lies within its magnitude on either side, and every one of them is as far from
/// the lowest as the word leaves when it is dealt out among all of them.
pub proof fn a_signed_offset_is_within(s: u64, magnitude: i64)
    requires
        0 < magnitude,
        2 * magnitude <= i64::MAX,
    ensures
        -magnitude <= signed_of(s, magnitude).0 <= magnitude,
        signed_of(s, magnitude).0 + magnitude == u64_of(s).0 as int % (2 * magnitude + 1),
        signed_of(s, magnitude).1 == u64_of(s).1,
{
}

} // verus!
