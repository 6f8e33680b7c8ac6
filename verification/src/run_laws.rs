//! What holds of whole runs: a seed determines its run, and a run covers the time of its steps.
use crate::codec::Codec;
use crate::fault::FaultRates;
use crate::network::STEP_MS;
use crate::storage::DbView;
use crate::trace::TraceView;
use crate::turn::{advanced, fits, ActionView, EventView};
use crate::world::{new_world, quieted, settled, DeviceView, WorldView, LAST_MS, START_MS};
use crate::world_laws::time_moves_by_steps;
use vstd::prelude::*;

verus! {

/// What is done to a world from outside.
pub enum Move {
    /// The engines have left the databases and what they draw from like this, and the world is told
    /// something.
    Tell { databases: Seq<DbView>, entropy: Seq<u64>, event: EventView },
    /// The faults are switched off.
    Quiet,
    /// The quiet ends, and where things have settled is judged.
    Judge { hostile: FaultRates },
}

/// The world as the engines have left it.
pub open spec fn left_by_engines(
    w: WorldView,
    databases: Seq<DbView>,
    entropy: Seq<u64>,
) -> WorldView {
    WorldView {
        databases,
        devices: Seq::new(
            w.devices.len(),
            |i: int| DeviceView { entropy: entropy[i], ..w.devices[i] },
        ),
        ..w
    }
}

/// What a move comes to, and what the world asks for next.
pub open spec fn moved<W: Codec>(w: WorldView, m: Move, codec: &W) -> (WorldView, ActionView) {
    match m {
        Move::Tell { databases, entropy, event } => advanced(
            left_by_engines(w, databases, entropy),
            event,
            codec,
        ),
        Move::Quiet => (quieted(w), ActionView::Rest),
        Move::Judge { hostile } => (settled(w, hostile, codec), ActionView::Rest),
    }
}

/// A run: it starts with the world that the seed makes, and goes on with the moves of whoever
/// drives it. What the driver and the engines do next can rest on everything that has happened so
/// far, and on nothing else.
pub open spec fn is_run<W: Codec>(
    seed: u64,
    rates: FaultRates,
    trace: TraceView,
    moves: spec_fn(Seq<WorldView>, Seq<ActionView>) -> Move,
    codec: &W,
    worlds: Seq<WorldView>,
    asked: Seq<ActionView>,
) -> bool {
    &&& worlds.len() == asked.len() + 1
    &&& worlds[0] == new_world(seed, rates, trace)
    &&& forall|i: int|
        0 <= i < asked.len() ==> (worlds[i + 1], #[trigger] asked[i]) == moved(
            worlds[i],
            moves(worlds.take(i + 1), asked.take(i)),
            codec,
        )
}

/// A seed determines its run: two runs of one seed under the same rates, driven in the same way,
/// are in the same state after every move and ask for the same things. So they record the same
/// trace, the server's logs agree, and so does what each device holds.
pub proof fn a_seed_determines_its_run<W: Codec>(
    seed: u64,
    rates: FaultRates,
    trace: TraceView,
    moves: spec_fn(Seq<WorldView>, Seq<ActionView>) -> Move,
    codec: &W,
    worlds: Seq<WorldView>,
    asked: Seq<ActionView>,
    other_worlds: Seq<WorldView>,
    other_asked: Seq<ActionView>,
)
    requires
        is_run(seed, rates, trace, moves, codec, worlds, asked),
        is_run(seed, rates, trace, moves, codec, other_worlds, other_asked),
        asked.len() == other_asked.len(),
    ensures
        worlds == other_worlds,
        asked == other_asked,
{
    runs_agree(
        seed,
        rates,
        trace,
        moves,
        codec,
        worlds,
        asked,
        other_worlds,
        other_asked,
        asked.len(),
    );
    assert(worlds.take(worlds.len() as int) =~= worlds);
    assert(other_worlds.take(worlds.len() as int) =~= other_worlds);
    assert(asked.take(asked.len() as int) =~= asked);
    assert(other_asked.take(asked.len() as int) =~= other_asked);
}

proof fn runs_agree<W: Codec>(
    seed: u64,
    rates: FaultRates,
    trace: TraceView,
    moves: spec_fn(Seq<WorldView>, Seq<ActionView>) -> Move,
    codec: &W,
    worlds: Seq<WorldView>,
    asked: Seq<ActionView>,
    other_worlds: Seq<WorldView>,
    other_asked: Seq<ActionView>,
    n: nat,
)
    requires
        is_run(seed, rates, trace, moves, codec, worlds, asked),
        is_run(seed, rates, trace, moves, codec, other_worlds, other_asked),
        n <= asked.len(),
        n <= other_asked.len(),
    ensures
        worlds.take(n as int + 1) == other_worlds.take(n as int + 1),
        asked.take(n as int) == other_asked.take(n as int),
    decreases n,
{
    if n > 0 {
        let m = n - 1;
        runs_agree(
            seed,
            rates,
            trace,
            moves,
            codec,
            worlds,
            asked,
            other_worlds,
            other_asked,
            m as nat,
        );
        assert(worlds.take(m + 1)[m] == other_worlds.take(m + 1)[m]);
        assert((worlds[m + 1], asked[m]) == (other_worlds[m + 1], other_asked[m]));
        assert(worlds.take(n as int + 1) =~= worlds.take(m + 1).push(worlds[m + 1]));
        assert(other_worlds.take(n as int + 1) =~= other_worlds.take(m + 1).push(other_worlds[m + 1]));
        assert(asked.take(n as int) =~= asked.take(m).push(asked[m]));
        assert(other_asked.take(n as int) =~= other_asked.take(m).push(other_asked[m]));
    } else {
        assert(worlds.take(1) =~= other_worlds.take(1));
        assert(asked.take(0) =~= other_asked.take(0));
    }
}

/// How many steps have begun in the first `n` moves of a run.
pub open spec fn steps_begun(
    worlds: Seq<WorldView>,
    asked: Seq<ActionView>,
    moves: spec_fn(Seq<WorldView>, Seq<ActionView>) -> Move,
    n: nat,
) -> nat
    decreases n,
{
    if n == 0 {
        0
    } else {
        let before = steps_begun(worlds, asked, moves, (n - 1) as nat);
        let m = moves(worlds.take(n as int), asked.take(n - 1));
        if m is Tell && worlds[n - 1].phase is Idle {
            before + 1
        } else {
            before
        }
    }
}

/// A run covers the time of its steps: after any number of moves, the true time is as many steps
/// past the start as have begun. The world is only ever told what it is waiting to hear.
pub proof fn a_run_covers_its_steps<W: Codec>(
    seed: u64,
    rates: FaultRates,
    trace: TraceView,
    moves: spec_fn(Seq<WorldView>, Seq<ActionView>) -> Move,
    codec: &W,
    worlds: Seq<WorldView>,
    asked: Seq<ActionView>,
    n: nat,
)
    requires
        is_run(seed, rates, trace, moves, codec, worlds, asked),
        n <= asked.len(),
        forall|i: int| 0 <= i < n ==> (#[trigger] worlds[i]).now_ms <= LAST_MS,
        forall|i: int|
            0 <= i < n ==> (moves(worlds.take(i + 1), #[trigger] asked.take(i)) matches Move::Tell {
                event,
                ..
            } ==> fits(worlds[i].phase, event)),
    ensures
        worlds[n as int].now_ms == START_MS + STEP_MS * steps_begun(worlds, asked, moves, n),
    decreases n,
{
    if n > 0 {
        let k = n - 1;
        a_run_covers_its_steps(seed, rates, trace, moves, codec, worlds, asked, k as nat);
        let w = worlds[k];
        let m = moves(worlds.take(k + 1), asked.take(k));
        assert((worlds[k + 1], asked[k]) == moved(w, m, codec));
        match m {
            Move::Tell { databases, entropy, event } => {
                time_moves_by_steps(left_by_engines(w, databases, entropy), event, codec);
            },
            _ => {},
        }
        let before = steps_begun(worlds, asked, moves, k as nat);
        assert(STEP_MS * (before + 1) == STEP_MS * before + STEP_MS) by (nonlinear_arith);
    }
}

} // verus!
