//! The order of a whole run, and of a batch of them.
//!
//! A run lives through its steps with the faults on, then through some with the faults off, and is
//! judged where it has settled. A batch runs one seed after the other and stops at the first that
//! broke a claim: the seed is the reproduction, and a batch that carried on would bury it.
use crate::codec::Codec;
use crate::fault::FaultRates;
use crate::network::STEP_MS;
use crate::run_laws::{left_by_engines, moved, Move};
use crate::trace::TraceView;
use crate::turn::fits;
use crate::world::{new_world, quieted, settled, WorldView, LAST_MS, SETTLE_STEPS, START_MS};
use crate::world_laws::time_moves_by_steps;
use vstd::prelude::*;

verus! {

/// How far a run has come.
#[derive(Debug, Clone, Copy, PartialEq, Eq, Structural)]
pub enum RunState {
    /// This many steps of it are left, with the faults on.
    Living { left: u32 },
    /// This many steps of it are left, with the faults off.
    Settling { left: u32 },
    /// It has been judged.
    Over,
}

/// What a run does next.
#[derive(Debug, Clone, Copy, PartialEq, Eq, Structural)]
pub enum RunAction {
    /// One step of simulated time.
    Step,
    /// Switch the faults off.
    Quiet,
    /// Judge where things have settled, and switch the faults on again.
    Judge,
    /// Nothing: the run is over.
    Stop,
}

/// What a run does next, and how far it has come once that is done.
pub open spec fn drive_step(state: RunState) -> (RunAction, RunState) {
    match state {
        RunState::Living { left } => if left > 0 {
            (RunAction::Step, RunState::Living { left: (left - 1) as u32 })
        } else {
            (RunAction::Quiet, RunState::Settling { left: SETTLE_STEPS })
        },
        RunState::Settling { left } => if left > 0 {
            (RunAction::Step, RunState::Settling { left: (left - 1) as u32 })
        } else {
            (RunAction::Judge, RunState::Over)
        },
        RunState::Over => (RunAction::Stop, RunState::Over),
    }
}

impl RunState {
    /// A run of this many steps that has not begun.
    pub fn start(steps: u32) -> (s: Self)
        ensures
            s == (RunState::Living { left: steps }),
    {
        RunState::Living { left: steps }
    }

    /// A run that has been lived through and is to settle.
    pub fn settling() -> (s: Self)
        ensures
            s == (RunState::Living { left: 0 }),
    {
        RunState::Living { left: 0 }
    }
}

/// Says what a run does next, and how far it has come once that is done.
pub fn drive(state: RunState) -> (r: (RunAction, RunState))
    ensures
        r == drive_step(state),
{
    match state {
        RunState::Living { left } => {
            if left > 0 {
                (RunAction::Step, RunState::Living { left: left - 1 })
            } else {
                (RunAction::Quiet, RunState::Settling { left: SETTLE_STEPS })
            }
        },
        RunState::Settling { left } => {
            if left > 0 {
                (RunAction::Step, RunState::Settling { left: left - 1 })
            } else {
                (RunAction::Judge, RunState::Over)
            }
        },
        RunState::Over => (RunAction::Stop, RunState::Over),
    }
}

/// How many actions are left until a run is over.
pub open spec fn actions_left(state: RunState) -> nat {
    match state {
        RunState::Living { left } => (left + SETTLE_STEPS + 2) as nat,
        RunState::Settling { left } => (left + 1) as nat,
        RunState::Over => 0,
    }
}

/// Everything that a run does until it is over.
pub open spec fn actions_from(state: RunState) -> Seq<RunAction>
    decreases actions_left(state),
{
    if state is Over {
        seq![]
    } else {
        let (action, next) = drive_step(state);
        seq![action] + actions_from(next)
    }
}

/// This many steps.
pub open spec fn steps(n: nat) -> Seq<RunAction> {
    Seq::new(n, |i: int| RunAction::Step)
}

/// How many of some actions are steps.
pub open spec fn steps_in(actions: Seq<RunAction>) -> nat
    decreases actions.len(),
{
    if actions.len() == 0 {
        0
    } else if actions.last() == RunAction::Step {
        steps_in(actions.drop_last()) + 1
    } else {
        steps_in(actions.drop_last())
    }
}

proof fn settling_goes(left: u32)
    ensures
        actions_from(RunState::Settling { left }) == steps(left as nat) + seq![RunAction::Judge],
    decreases left,
{
    if left > 0 {
        settling_goes((left - 1) as u32);
        assert(seq![RunAction::Step] + (steps((left - 1) as nat) + seq![RunAction::Judge])
            =~= steps(left as nat) + seq![RunAction::Judge]);
    } else {
        assert(actions_from(RunState::Over) =~= seq![]);
        assert(seq![RunAction::Judge] + actions_from(RunState::Over) =~= steps(0) + seq![
            RunAction::Judge,
        ]);
    }
}

/// A run takes its steps, falls quiet, takes the steps of settling, and is judged once, at the
/// end.
pub proof fn a_run_settles_before_it_is_judged(n: u32)
    ensures
        actions_from(RunState::Living { left: n }) == steps(n as nat) + seq![RunAction::Quiet]
            + steps(SETTLE_STEPS as nat) + seq![RunAction::Judge],
    decreases n,
{
    if n > 0 {
        a_run_settles_before_it_is_judged((n - 1) as u32);
        assert(seq![RunAction::Step] + (steps((n - 1) as nat) + seq![RunAction::Quiet] + steps(
            SETTLE_STEPS as nat,
        ) + seq![RunAction::Judge]) =~= steps(n as nat) + seq![RunAction::Quiet] + steps(
            SETTLE_STEPS as nat,
        ) + seq![RunAction::Judge]);
    } else {
        settling_goes(SETTLE_STEPS);
        assert(seq![RunAction::Quiet] + (steps(SETTLE_STEPS as nat) + seq![RunAction::Judge])
            =~= steps(0) + seq![RunAction::Quiet] + steps(SETTLE_STEPS as nat) + seq![
            RunAction::Judge,
        ]);
    }
}

proof fn steps_add_up(a: Seq<RunAction>, b: Seq<RunAction>)
    ensures
        steps_in(a + b) == steps_in(a) + steps_in(b),
    decreases b.len(),
{
    if b.len() > 0 {
        assert((a + b).drop_last() =~= a + b.drop_last());
        assert((a + b).last() == b.last());
        steps_add_up(a, b.drop_last());
    } else {
        assert(a + b =~= a);
    }
}

proof fn steps_are_steps(n: nat)
    ensures
        steps_in(steps(n)) == n,
    decreases n,
{
    if n > 0 {
        assert(steps(n).drop_last() =~= steps((n - 1) as nat));
        steps_are_steps((n - 1) as nat);
    }
}

/// A finished run has taken its own steps and those of settling.
pub proof fn a_run_takes_its_steps(n: u32)
    ensures
        steps_in(actions_from(RunState::Living { left: n })) == n + SETTLE_STEPS,
{
    let own = steps(n as nat);
    let quiet = seq![RunAction::Quiet];
    let more = steps(SETTLE_STEPS as nat);
    let judge = seq![RunAction::Judge];
    a_run_settles_before_it_is_judged(n);
    steps_add_up(own + quiet + more, judge);
    steps_add_up(own + quiet, more);
    steps_add_up(own, quiet);
    steps_are_steps(n as nat);
    steps_are_steps(SETTLE_STEPS as nat);
    assert(quiet.drop_last() =~= seq![]);
    assert(judge.drop_last() =~= seq![]);
    assert(steps_in(quiet) == 0 && steps_in(judge) == 0) by {
        assert(steps_in(Seq::<RunAction>::empty()) == 0);
    }
}

/// One step of simulated time, from rest to rest: the world is told that a step begins, does what
/// it does, and is told what became of everything it asked for, until it rests again. What the
/// engines do to the databases in between is theirs.
pub open spec fn is_step<W: Codec>(worlds: Seq<WorldView>, moves: Seq<Move>, codec: &W) -> bool {
    &&& moves.len() > 0
    &&& worlds.len() == moves.len() + 1
    &&& worlds[0].phase is Idle
    &&& worlds.last().phase is Idle
    &&& forall|k: int| 0 < k < moves.len() ==> !((#[trigger] worlds[k]).phase is Idle)
    &&& forall|k: int|
        0 <= k < moves.len() ==> {
            &&& (#[trigger] moves[k]) matches Move::Tell { event, .. } && fits(
                worlds[k].phase,
                event,
            )
            &&& worlds[k + 1] == moved(worlds[k], moves[k], codec).0
        }
}

/// A step can lead from one world to another.
pub open spec fn stepped<W: Codec>(before: WorldView, after: WorldView, codec: &W) -> bool {
    exists|worlds: Seq<WorldView>, moves: Seq<Move>| #[trigger]
        is_step(worlds, moves, codec) && worlds[0] == before && worlds.last() == after
}

/// An action of a run under these rates can lead from one world to another.
pub open spec fn acted<W: Codec>(
    before: WorldView,
    action: RunAction,
    rates: FaultRates,
    after: WorldView,
    codec: &W,
) -> bool {
    match action {
        RunAction::Step => stepped(before, after, codec),
        RunAction::Quiet => after == quieted(before),
        RunAction::Judge => after == settled(before, rates, codec),
        RunAction::Stop => after == before,
    }
}

/// The worlds of a whole run of `n` steps: the one that the seed makes, and one after each action.
pub open spec fn is_whole_run<W: Codec>(
    seed: u64,
    rates: FaultRates,
    trace: TraceView,
    n: u32,
    codec: &W,
    worlds: Seq<WorldView>,
) -> bool {
    let actions = actions_from(RunState::Living { left: n });
    &&& worlds.len() == actions.len() + 1
    &&& worlds[0] == new_world(seed, rates, trace)
    &&& forall|i: int|
        0 <= i < actions.len() ==> acted(
            worlds[i],
            #[trigger] actions[i],
            rates,
            worlds[i + 1],
            codec,
        )
}

proof fn a_step_takes_its_time<W: Codec>(
    worlds: Seq<WorldView>,
    moves: Seq<Move>,
    codec: &W,
    k: int,
)
    requires
        is_step(worlds, moves, codec),
        worlds[0].now_ms + STEP_MS <= LAST_MS,
        0 < k <= moves.len(),
    ensures
        worlds[k].now_ms == worlds[0].now_ms + STEP_MS,
    decreases k,
{
    let j = k - 1;
    if j > 0 {
        a_step_takes_its_time(worlds, moves, codec, j);
    }
    match moves[j] {
        Move::Tell { databases, entropy, event } => {
            time_moves_by_steps(left_by_engines(worlds[j], databases, entropy), event, codec);
        },
        _ => {},
    }
}

proof fn steps_are_few(actions: Seq<RunAction>)
    ensures
        steps_in(actions) <= actions.len(),
    decreases actions.len(),
{
    if actions.len() > 0 {
        steps_are_few(actions.drop_last());
    }
}

proof fn a_run_has_covered<W: Codec>(
    seed: u64,
    rates: FaultRates,
    trace: TraceView,
    n: u32,
    codec: &W,
    worlds: Seq<WorldView>,
    i: int,
)
    requires
        is_whole_run(seed, rates, trace, n, codec, worlds),
        0 <= i < worlds.len(),
    ensures
        worlds[i].now_ms == START_MS + STEP_MS * steps_in(
            actions_from(RunState::Living { left: n }).take(i),
        ),
    decreases i,
{
    let actions = actions_from(RunState::Living { left: n });
    if i > 0 {
        let j = i - 1;
        a_run_has_covered(seed, rates, trace, n, codec, worlds, j);
        a_run_settles_before_it_is_judged(n);
        steps_are_few(actions.take(j));
        let before = steps_in(actions.take(j));
        assert(actions.take(i).drop_last() =~= actions.take(j));
        assert(actions.take(i).last() == actions[j]);
        assert(acted(worlds[j], actions[j], rates, worlds[j + 1], codec));
        assert(STEP_MS * (before + 1) == STEP_MS * before + STEP_MS) by (nonlinear_arith);
        if actions[j] == RunAction::Step {
            let (inner, moves) = choose|inner: Seq<WorldView>, moves: Seq<Move>| #[trigger]
                is_step(inner, moves, codec) && inner[0] == worlds[j] && inner.last()
                    == worlds[j + 1];
            a_step_takes_its_time(inner, moves, codec, moves.len() as int);
        }
    } else {
        assert(actions.take(0) =~= seq![]);
    }
}

/// A finished run covers the time of its own steps and of those of settling, whatever the engines
/// did, and leaves the faults as it found them.
pub proof fn a_finished_run_covers_its_time<W: Codec>(
    seed: u64,
    rates: FaultRates,
    trace: TraceView,
    n: u32,
    codec: &W,
    worlds: Seq<WorldView>,
)
    requires
        is_whole_run(seed, rates, trace, n, codec, worlds),
    ensures
        worlds.last().now_ms - START_MS == (n + 600) * 60_000,
        worlds.last().rates == rates,
        !worlds.last().quiet,
{
    let actions = actions_from(RunState::Living { left: n });
    let end = actions.len() as int;
    a_run_takes_its_steps(n);
    a_run_settles_before_it_is_judged(n);
    a_run_has_covered(seed, rates, trace, n, codec, worlds, end);
    assert(actions.take(end) =~= actions);
    assert(acted(worlds[end - 1], actions[end - 1], rates, worlds[end], codec));
    assert(STEP_MS * (n + SETTLE_STEPS) == (n + SETTLE_STEPS) * STEP_MS) by (nonlinear_arith);
}

/// What a batch does next.
#[derive(Debug, Clone, Copy, PartialEq, Eq, Structural)]
pub enum BatchStep {
    /// Run this seed.
    Run { seed: u64 },
    /// Stop: this seed broke a claim.
    Failed { seed: u64 },
    /// Stop: every seed held.
    Green,
}

/// What a batch of `seeds` runs does next, once `ran` of them have been run, and the last of those
/// held or did not.
pub open spec fn batch_next(seeds: u64, ran: u64, held: bool) -> BatchStep {
    if ran > 0 && !held {
        BatchStep::Failed { seed: (ran - 1) as u64 }
    } else if ran < seeds {
        BatchStep::Run { seed: ran }
    } else {
        BatchStep::Green
    }
}

/// Says what a batch does next.
pub fn next_in_batch(seeds: u64, ran: u64, held: bool) -> (step: BatchStep)
    ensures
        step == batch_next(seeds, ran, held),
{
    if ran > 0 && !held {
        BatchStep::Failed { seed: ran - 1 }
    } else if ran < seeds {
        BatchStep::Run { seed: ran }
    } else {
        BatchStep::Green
    }
}

/// How a batch ends that has run `ran` seeds, all of which held but perhaps the last. `holds` says
/// which seeds hold.
pub open spec fn batch_end(seeds: u64, ran: u64, holds: spec_fn(u64) -> bool) -> BatchStep
    decreases seeds - ran,
{
    let held = ran == 0 || holds((ran - 1) as u64);
    match batch_next(seeds, ran, held) {
        BatchStep::Run { seed } => if seed == ran && ran < seeds {
            batch_end(seeds, (ran + 1) as u64, holds)
        } else {
            BatchStep::Green
        },
        end => end,
    }
}

proof fn batch_ends(seeds: u64, ran: u64, holds: spec_fn(u64) -> bool)
    requires
        ran <= seeds,
        forall|s: u64| s + 1 < ran ==> #[trigger] holds(s),
    ensures
        match batch_end(seeds, ran, holds) {
            BatchStep::Green => forall|s: u64| s < seeds ==> #[trigger] holds(s),
            BatchStep::Failed { seed } => {
                &&& seed < seeds
                &&& !holds(seed)
                &&& forall|s: u64| s < seed ==> #[trigger] holds(s)
            },
            BatchStep::Run { .. } => false,
        },
    decreases seeds - ran,
{
    let held = ran == 0 || holds((ran - 1) as u64);
    if held && ran < seeds {
        assert forall|s: u64| s + 1 < ran + 1 implies #[trigger] holds(s) by {
            if s + 1 == ran {
                assert(s == (ran - 1) as u64);
            }
        }
        batch_ends(seeds, (ran + 1) as u64, holds);
    } else if held {
        assert forall|s: u64| s < seeds implies #[trigger] holds(s) by {
            if s + 1 == ran {
                assert(s == (ran - 1) as u64);
            }
        }
    }
}

/// A batch is green exactly when every seed holds, and otherwise ends with the first that does
/// not.
pub proof fn a_batch_ends_with_its_first_failure(seeds: u64, holds: spec_fn(u64) -> bool)
    ensures
        batch_end(seeds, 0, holds) is Green <==> forall|s: u64|
            s < seeds ==> #[trigger] holds(s),
        match batch_end(seeds, 0, holds) {
            BatchStep::Failed { seed } => seed < seeds && !holds(seed) && forall|s: u64|
                s < seed ==> #[trigger] holds(s),
            end => end is Green,
        },
{
    batch_ends(seeds, 0, holds);
}

} // verus!
