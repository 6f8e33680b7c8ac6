//! Simulated time, as devices see it, and the entropy they draw.
//!
//! Device clocks lie, so the simulator makes them lie: each has a fixed skew, and a drift that
//! accumulates as simulated time passes. The world knows the true time; a device does not.
use crate::fault::SKEW_MAGNITUDE_MS;
use crate::lcg::after;
use crate::rng::{output, start, Rng};
use vstd::prelude::*;

verus! {

/// Simulated time, plus whatever one device's clock believes about it.
#[derive(Debug, Clone, Copy, PartialEq, Eq)]
pub struct ClockState {
    /// True simulated time, owned by the world.
    pub now_ms: i64,
    /// This device's constant offset from it.
    pub skew_ms: i64,
    /// Parts-per-million this device's clock runs fast or slow.
    pub drift_ppm: i64,
    /// True time when the device last started, so drift accumulates from there.
    pub epoch_ms: i64,
}

/// The 64-bit number nearest to `x`.
pub open spec fn saturated(x: int) -> int {
    if x > i64::MAX {
        i64::MAX as int
    } else if x < i64::MIN {
        i64::MIN as int
    } else {
        x
    }
}

/// `x` divided by `d`, rounded toward zero.
pub open spec fn truncated_quotient(x: int, d: int) -> int {
    if x >= 0 {
        x / d
    } else {
        -((-x) / d)
    }
}

/// What a clock with this skew and drift shows.
pub open spec fn apparent(c: ClockState) -> int {
    let drift = truncated_quotient(saturated((c.now_ms - c.epoch_ms) * c.drift_ppm), 1_000_000);
    saturated(saturated(c.now_ms + c.skew_ms) + drift)
}

fn saturate(x: i128) -> (r: i64)
    ensures
        r == saturated(x as int),
{
    if x > 0x7fff_ffff_ffff_ffff {
        0x7fff_ffff_ffff_ffff
    } else if x < -0x8000_0000_0000_0000 {
        -0x8000_0000_0000_0000
    } else {
        x as i64
    }
}

impl ClockState {
    /// What this device thinks the time is.
    #[must_use]
    pub fn apparent_ms(&self) -> (ms: i64)
        requires
            i64::MIN <= self.now_ms - self.epoch_ms <= i64::MAX,
        ensures
            ms == apparent(*self),
    {
        let elapsed: i64 = self.now_ms - self.epoch_ms;
        proof {
            let a = elapsed as int;
            let b = self.drift_ppm as int;
            assert(-0x4000_0000_0000_0000_0000_0000_0000_0000 <= a * b
                <= 0x4000_0000_0000_0000_0000_0000_0000_0000) by (nonlinear_arith)
                requires
                    -0x8000_0000_0000_0000 <= a <= 0x7fff_ffff_ffff_ffff,
                    -0x8000_0000_0000_0000 <= b <= 0x7fff_ffff_ffff_ffff,
            ;
        }
        let product: i64 = saturate((elapsed as i128) * (self.drift_ppm as i128));
        let drift: i128 = if product >= 0 {
            ((product as u64) / 1_000_000) as i128
        } else {
            -((((-(product as i128)) as u64) / 1_000_000) as i128)
        };
        let shifted: i64 = saturate((self.now_ms as i128) + (self.skew_ms as i128));
        saturate((shifted as i128) + drift)
    }
}

/// A clock reading simulated time through one device's skew.
#[derive(Debug, Clone, Copy, PartialEq, Eq)]
pub struct SimClock(pub ClockState);

impl SimClock {
    /// A clock skewed by `skew_ms` and drifting at `drift_ppm`.
    #[must_use]
    pub fn new(now_ms: i64, skew_ms: i64, drift_ppm: i64) -> (clock: Self)
        requires
            -SKEW_MAGNITUDE_MS <= skew_ms <= SKEW_MAGNITUDE_MS,
        ensures
            clock.0 == (ClockState { now_ms, skew_ms, drift_ppm, epoch_ms: now_ms }),
    {
        SimClock(ClockState { now_ms, skew_ms, drift_ppm, epoch_ms: now_ms })
    }

    /// Moves true time forward.
    pub fn advance_to(&mut self, now_ms: i64)
        ensures
            final(self).0 == (ClockState { now_ms, ..old(self).0 }),
    {
        self.0.now_ms = now_ms;
    }

    /// True simulated time, which only the world may consult.
    #[must_use]
    pub fn true_now_ms(&self) -> (ms: i64)
        ensures
            ms == self.0.now_ms,
    {
        self.0.now_ms
    }

    /// The time as the device sees it.
    pub fn now(&self) -> (ms: i64)
        requires
            i64::MIN <= self.0.now_ms - self.0.epoch_ms <= i64::MAX,
        ensures
            ms == apparent(self.0),
    {
        self.0.apparent_ms()
    }
}

/// Entropy drawn from the run's seed.
#[derive(Debug)]
pub struct SimEntropy(pub Rng);

impl SimEntropy {
    /// An entropy source from a seed.
    #[must_use]
    pub fn new(seed: u64) -> (e: Self)
        ensures
            e.0.state() == start(seed),
            e.0.origin() == seed,
    {
        SimEntropy(Rng::new(seed))
    }

    /// Fills a buffer: the low byte of one word each.
    pub fn fill(&mut self, buf: &mut [u8])
        ensures
            final(buf)@.len() == old(buf)@.len(),
            forall|i: int|
                0 <= i < old(buf)@.len() ==> #[trigger] final(buf)@[i] == output(
                    after(old(self).0.state(), i as nat),
                ) % 256,
            final(self).0.state() == after(old(self).0.state(), old(buf)@.len()),
            final(self).0.origin() == old(self).0.origin(),
    {
        let len: usize = buf.len();
        let mut i: usize = 0;
        while i < len
            invariant
                i <= len,
                buf@.len() == len,
                len == old(buf)@.len(),
                self.0.state() == after(old(self).0.state(), i as nat),
                self.0.origin() == old(self).0.origin(),
                forall|j: int|
                    0 <= j < i ==> #[trigger] buf@[j] == output(
                        after(old(self).0.state(), j as nat),
                    ) % 256,
            decreases len - i,
        {
            let word: u32 = self.0.next_u32();
            assert((word & 0xff) == word % 256) by (bit_vector);
            buf[i] = (word & 0xff) as u8;
            i = i + 1;
        }
    }
}

/// What a clock shows, as long as it stays clear of the ends of its range: the true time, off by
/// the skew and by as many millionths of the time since it was set as the drift says, to less than a
/// millisecond. So a clock without either shows the true time, and what it shows does not depend on
/// which of two moments it was set at when it does not drift.
pub proof fn a_clock_is_off_by_its_skew_and_drift(c: ClockState)
    requires
        i64::MIN <= (c.now_ms - c.epoch_ms) * c.drift_ppm <= i64::MAX,
        i64::MIN <= c.now_ms + c.skew_ms <= i64::MAX,
        -0x4000_0000_0000_0000 <= c.now_ms + c.skew_ms <= 0x4000_0000_0000_0000,
    ensures
        ({
            let off = apparent(c) - c.now_ms - c.skew_ms;
            let exact = (c.now_ms - c.epoch_ms) * c.drift_ppm;
            &&& -1_000_000 < off * 1_000_000 - exact < 1_000_000
            &&& exact >= 0 ==> off * 1_000_000 <= exact
            &&& exact <= 0 ==> off * 1_000_000 >= exact
            &&& c.drift_ppm == 0 ==> off == 0
        }),
{
    let exact = (c.now_ms - c.epoch_ms) * c.drift_ppm;
    assert(c.drift_ppm == 0 ==> exact == 0) by (nonlinear_arith)
        requires
            exact == (c.now_ms - c.epoch_ms) * c.drift_ppm,
    ;
}

} // verus!
