//! Backpressure: what a server under load is allowed to do, and what it is never allowed to do.
//!
//! Shedding load is a scheduling decision, never a verdict. A loaded server may deliver less, and
//! may decline to look at a command at all, but it never answers a command that it did not
//! process. Both levers are silence: a pull gets a smaller batch, and a push is processed in
//! part, the rest staying in the client's outbox.
use crate::rng::{range_of, Rng};
use vstd::prelude::*;

verus! {

/// The byte budget of the simulator. Small, so that it binds.
pub const SIM_BUDGET_BYTES: usize = 2_048;

/// The smallest budget shedding may impose.
pub const MIN_BUDGET_BYTES: usize = 256;

/// How hard the server is currently shedding.
#[derive(Debug, Clone, Copy, PartialEq, Eq, Structural)]
pub enum Load {
    /// Serving normally.
    Normal,
    /// Busy: batches shrink and pushes are processed in part.
    Shedding {
        /// How many steps of shedding remain.
        steps_left: u32,
    },
}

/// The server's load state, and the two levers it may pull.
#[derive(Debug)]
pub struct Pressure {
    /// How hard the server is shedding.
    pub load: Load,
    /// Divides the byte budget while shedding. Drawn from the seed.
    pub severity: u32,
    /// Total commands the server declined to look at.
    pub deferred_commands: u64,
    /// How many times shedding has been entered.
    pub episodes: u64,
}

/// The budget of a server under `load`.
pub open spec fn budget_of(load: Load, severity: u32) -> int {
    match load {
        Load::Normal => SIM_BUDGET_BYTES as int,
        Load::Shedding { .. } => {
            let shrunk = SIM_BUDGET_BYTES as int / severity as int;
            if shrunk < MIN_BUDGET_BYTES {
                MIN_BUDGET_BYTES as int
            } else {
                shrunk
            }
        },
    }
}

/// How many of `offered` commands a server under `load` looks at.
pub open spec fn accepted_of(load: Load, severity: u32, offered: int) -> int {
    if offered == 0 {
        0
    } else {
        match load {
            Load::Normal => offered,
            Load::Shedding { .. } => if offered / severity as int >= 1 {
                offered / severity as int
            } else {
                1
            },
        }
    }
}

/// The load one step on.
pub open spec fn eased(load: Load) -> Load {
    match load {
        Load::Normal => Load::Normal,
        Load::Shedding { steps_left } => if steps_left <= 1 {
            Load::Normal
        } else {
            Load::Shedding { steps_left: (steps_left - 1) as u32 }
        },
    }
}

/// A server never takes more commands than it is offered.
pub proof fn accepting_is_within(load: Load, severity: u32, offered: int)
    requires
        offered >= 0,
        severity >= 1,
    ensures
        0 <= accepted_of(load, severity, offered) <= offered,
{
    let d = severity as int;
    assert(0 <= offered / d <= offered) by (nonlinear_arith)
        requires
            d >= 1,
            offered >= 0,
    ;
}

/// The pressure one step later.
pub open spec fn ticked(p: Pressure) -> Pressure {
    Pressure {
        load: eased(p.load),
        severity: if p.load is Shedding && eased(p.load) is Normal {
            1
        } else {
            p.severity
        },
        ..p
    }
}

/// The pressure of a new episode, and the state of the generator after it was drawn.
pub open spec fn overloaded(p: Pressure, s: u64) -> (Pressure, u64) {
    let (severity, s1) = range_of(s, 2, 8);
    let (steps_left, s2) = range_of(s1, 3, 30);
    (
        Pressure {
            load: Load::Shedding { steps_left },
            severity,
            episodes: (p.episodes + 1) as u64,
            ..p
        },
        s2,
    )
}

impl Default for Pressure {
    fn default() -> (p: Self)
        ensures
            p.load == Load::Normal,
            p.severity == 1,
            p.wf(),
            p.deferred_commands == 0,
            p.episodes == 0,
    {
        Pressure::new()
    }
}

impl Pressure {
    /// The severity divides.
    pub open spec fn wf(&self) -> bool {
        self.severity >= 1
    }

    /// A server under no load.
    #[must_use]
    pub fn new() -> (p: Self)
        ensures
            p.load == Load::Normal,
            p.severity == 1,
            p.wf(),
            p.deferred_commands == 0,
            p.episodes == 0,
    {
        Pressure { load: Load::Normal, severity: 1, deferred_commands: 0, episodes: 0 }
    }

    /// Whether the server is currently shedding.
    #[must_use]
    pub fn is_shedding(&self) -> (r: bool)
        ensures
            r == (self.load is Shedding),
    {
        match self.load {
            Load::Normal => false,
            Load::Shedding { .. } => true,
        }
    }

    /// Puts the server under load. Severity and duration both come from the run's generator.
    pub fn overload(&mut self, rng: &mut Rng)
        requires
            old(self).episodes < u64::MAX,
        ensures
            (*final(self), final(rng).state()) == overloaded(*old(self), old(rng).state()),
            2 <= final(self).severity <= 8,
            final(self).load matches Load::Shedding { steps_left } && 3 <= steps_left <= 30,
            final(self).wf(),
            final(rng).origin() == old(rng).origin(),
    {
        let severity: u32 = rng.range(2, 8);
        let steps_left: u32 = rng.range(3, 30);
        *self = Pressure {
            load: Load::Shedding { steps_left },
            severity,
            deferred_commands: self.deferred_commands,
            episodes: self.episodes + 1,
        };
    }

    /// Advances one step, easing off when the episode has run its course.
    pub fn tick(&mut self)
        requires
            old(self).wf(),
        ensures
            final(self).wf(),
            *final(self) == ticked(*old(self)),
    {
        match self.load {
            Load::Normal => {},
            Load::Shedding { steps_left } => {
                if steps_left <= 1 {
                    self.load = Load::Normal;
                    self.severity = 1;
                } else {
                    self.load = Load::Shedding { steps_left: steps_left - 1 };
                }
            },
        }
    }

    /// The byte budget to serve this pull under. Shrinks while shedding, never below
    /// [`MIN_BUDGET_BYTES`].
    #[must_use]
    pub fn budget_bytes(&self) -> (n: usize)
        requires
            self.wf(),
        ensures
            n == budget_of(self.load, self.severity),
            MIN_BUDGET_BYTES <= n <= SIM_BUDGET_BYTES,
    {
        proof {
            let d = self.severity as int;
            assert(SIM_BUDGET_BYTES as int / d <= SIM_BUDGET_BYTES) by (nonlinear_arith)
                requires
                    d >= 1,
            ;
        }
        match self.load {
            Load::Normal => SIM_BUDGET_BYTES,
            Load::Shedding { .. } => {
                let shrunk: usize = SIM_BUDGET_BYTES / (self.severity as usize);
                if shrunk < MIN_BUDGET_BYTES {
                    MIN_BUDGET_BYTES
                } else {
                    shrunk
                }
            },
        }
    }

    /// How many of `offered` commands the server will look at this push: at least one, so that
    /// the outbox drains however slowly. The commands not taken are simply not answered.
    pub fn accept_count(&mut self, offered: usize) -> (taken: usize)
        requires
            old(self).wf(),
            old(self).deferred_commands + offered <= u64::MAX,
        ensures
            final(self).wf(),
            taken == accepted_of(old(self).load, old(self).severity, offered as int),
            taken <= offered,
            offered > 0 ==> taken >= 1,
            final(self).deferred_commands == old(self).deferred_commands + (offered - taken),
            final(self).load == old(self).load,
            final(self).severity == old(self).severity,
            final(self).episodes == old(self).episodes,
    {
        if offered == 0 {
            return 0;
        }
        proof {
            let d = self.severity as int;
            let n = offered as int;
            assert(n / d <= n) by (nonlinear_arith)
                requires
                    d >= 1,
                    n >= 0,
            ;
        }
        let taken: usize = match self.load {
            Load::Normal => offered,
            Load::Shedding { .. } => {
                let share: usize = offered / (self.severity as usize);
                if share >= 1 {
                    share
                } else {
                    1
                }
            },
        };
        self.deferred_commands = self.deferred_commands + (offered - taken) as u64;
        taken
    }
}

/// The load after a number of steps.
pub open spec fn eased_for(load: Load, steps: nat) -> Load
    decreases steps,
{
    if steps == 0 {
        load
    } else {
        eased_for(eased(load), (steps - 1) as nat)
    }
}

/// An episode ends by itself: after as many steps as it has left, and at least one, the server
/// serves normally.
pub proof fn episodes_end(steps_left: u32)
    ensures
        eased_for(
            Load::Shedding { steps_left },
            if steps_left == 0 {
                1
            } else {
                steps_left as nat
            },
        ) == Load::Normal,
    decreases steps_left,
{
    if steps_left > 1 {
        episodes_end((steps_left - 1) as u32);
    } else {
        reveal_with_fuel(eased_for, 2);
    }
}

/// How much of a push a server looks at: all of it when it is not shedding; otherwise its share of
/// the offer, rounded down, but one command at least.
pub proof fn a_share_is_accepted(load: Load, severity: u32, offered: int)
    requires
        offered >= 0,
        severity >= 1,
    ensures
        ({
            let taken = accepted_of(load, severity, offered);
            &&& 0 <= taken <= offered
            &&& load is Normal ==> taken == offered
            &&& offered > 0 ==> taken >= 1
            &&& taken > 1 && load is Shedding ==> taken * severity <= offered
            &&& load is Shedding ==> (taken + 1) * severity > offered
        }),
{
    accepting_is_within(load, severity, offered);
    let d = severity as int;
    vstd::arithmetic::div_mod::lemma_fundamental_div_mod(offered, d);
    vstd::arithmetic::div_mod::lemma_mod_bound(offered, d);
    let q = offered / d;
    assert(q * d == d * q) by (nonlinear_arith);
    assert((q + 1) * d == d * q + d) by (nonlinear_arith);
    assert(2 * d > offered && d >= 1 || q >= 2 || q == 1) by (nonlinear_arith)
        requires
            offered == d * q + offered % d,
            0 <= offered % d < d,
            d >= 1,
            offered >= 0,
            q >= 0,
    ;
    if q == 0 {
        assert(offered < d);
    }
}

/// The budget of a pull: the whole of it when the server is not shedding; otherwise its share,
/// rounded down, but never less than the smallest.
pub proof fn a_share_of_the_budget_is_spent(load: Load, severity: u32)
    requires
        severity >= 1,
    ensures
        ({
            let n = budget_of(load, severity);
            &&& 256 <= n <= 2_048
            &&& load is Normal ==> n == 2_048
            &&& load is Shedding && n > 256 ==> n * severity <= 2_048
            &&& load is Shedding ==> (n + 1) * severity > 2_048
        }),
{
    let d = severity as int;
    let b = SIM_BUDGET_BYTES as int;
    vstd::arithmetic::div_mod::lemma_fundamental_div_mod(b, d);
    vstd::arithmetic::div_mod::lemma_mod_bound(b, d);
    let q = b / d;
    assert(q * d == d * q) by (nonlinear_arith);
    assert((q + 1) * d == d * q + d) by (nonlinear_arith);
    assert(0 <= q <= b) by (nonlinear_arith)
        requires
            b == d * q + b % d,
            0 <= b % d < d,
            d >= 1,
            b >= 0,
    ;
    if q < MIN_BUDGET_BYTES {
        let m = MIN_BUDGET_BYTES as int;
        assert((m + 1) * d >= (q + 1) * d) by (nonlinear_arith)
            requires
                m >= q,
                d >= 1,
    ;
    }
}

/// A step eases the load by one, and the last one ends the episode: then the server serves
/// normally, at the severity of no load. Nothing is forgotten of what was deferred.
pub proof fn a_step_eases_the_load(p: Pressure)
    ensures
        ({
            let q = ticked(p);
            &&& p.load is Normal ==> q == p
            &&& p.load matches Load::Shedding { steps_left } ==> if steps_left > 1 {
                q.load == (Load::Shedding { steps_left: (steps_left - 1) as u32 }) && q.severity
                    == p.severity
            } else {
                q.load == Load::Normal && q.severity == 1
            }
            &&& q.deferred_commands == p.deferred_commands
            &&& q.episodes == p.episodes
        }),
{
}

} // verus!
