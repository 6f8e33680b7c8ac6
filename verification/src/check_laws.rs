//! When the observer complains, and when it does not: each claim said of what a device holds.
use crate::codec::RowStateView;
use crate::invariants::{
    bounds_found, convergence_found, cursor_checked, device_checked, effect_found, effects_found,
    last_verdicts, losses_checked, over, policy_found, recovery_found, supersession_found,
    verdict_of, verdicts_checked, ConflictClass, MemoryView, Verdict, ViolationView,
};
use crate::pull_laws::{are_the_rows, the_rows_are_listed};
use crate::server::ServerView;
use crate::storage::{DbView, Resolution, Resolved};
use vstd::prelude::*;

verus! {

/// The violation is about this claim, this device and this moment.
pub open spec fn is_about(v: ViolationView, claim: Seq<char>, device: usize, at_ms: i64) -> bool {
    v.invariant == claim && v.device == Some(device) && v.at_ms == at_ms
}

/// Nothing is found over some devices exactly when nothing is found on any of them.
pub proof fn silence_is_silence_everywhere(f: spec_fn(int) -> Seq<ViolationView>, n: nat)
    ensures
        over(f, n).len() == 0 <==> forall|i: int| 0 <= i < n ==> (#[trigger] f(i)).len() == 0,
        forall|i: int, k: int|
            0 <= i < n && 0 <= k < f(i).len() ==> over(f, n).contains(#[trigger] f(i)[k]),
    decreases n,
{
    if n > 0 {
        let m = (n - 1) as nat;
        silence_is_silence_everywhere(f, m);
        let before = over(f, m);
        let all = over(f, n);
        assert(all == before + f(n - 1));
        if all.len() == 0 {
            assert forall|i: int| 0 <= i < n implies (#[trigger] f(i)).len() == 0 by {
                if i == n - 1 {
                }
            }
        }
        assert forall|i: int, k: int| 0 <= i < n && 0 <= k < f(i).len() implies all.contains(
            #[trigger] f(i)[k],
        ) by {
            if i < m {
                assert(before.contains(f(i)[k]));
                let j = choose|j: int| 0 <= j < before.len() && before[j] == f(i)[k];
                assert(all[j] == f(i)[k]);
            } else {
                assert(all[before.len() + k] == f(i)[k]);
            }
        }
    }
}

/// **Cursor monotonicity**, over two looks. Whatever the observer saw of a device, once it has seen
/// a cursor it complains at the next look exactly when the cursor is gone or below the highest that
/// was ever seen, once, and about that device; and it goes on remembering the highest. What it
/// remembers of other scopes and of commands is left alone.
pub proof fn a_cursor_is_held_against_its_highest(
    m: MemoryView,
    first: DbView,
    second: DbView,
    scope: Seq<char>,
    device: usize,
    t1: i64,
    t2: i64,
)
    requires
        first.cursors.dom().contains(scope),
    ensures
        ({
            let (m1, v1) = cursor_checked(m, first, scope, device, t1);
            let (m2, v2) = cursor_checked(m1, second, scope, device, t2);
            let seen = first.cursors[scope].position;
            let highest = if m.high_water.dom().contains(scope) && m.high_water[scope] > seen {
                m.high_water[scope]
            } else {
                seen
            };
            &&& v1.len() == 0 <==> highest == seen
            &&& v1.len() <= 1 && v2.len() <= 1
            &&& m1.high_water.dom().contains(scope) && m1.high_water[scope] == highest
            &&& v2.len() == 0 <==> second.cursors.dom().contains(scope)
                && second.cursors[scope].position >= highest
            &&& v2.len() > 0 ==> is_about(v2[0], "cursor-monotonicity"@, device, t2)
            &&& second.cursors.dom().contains(scope) ==> m2.high_water.dom().contains(scope)
                && m2.high_water[scope] >= highest && m2.high_water[scope]
                >= second.cursors[scope].position && (m2.high_water[scope] == highest
                || m2.high_water[scope] == second.cursors[scope].position)
            &&& m2.resolved == m.resolved && m2.ever_queued == m.ever_queued
            &&& forall|other: Seq<char>|
                other != scope ==> {
                    &&& #[trigger] m2.high_water.dom().contains(other)
                        == m.high_water.dom().contains(other)
                    &&& m.high_water.dom().contains(other) ==> m2.high_water[other]
                        == m.high_water[other]
                }
        }),
{
}

/// A device that was never seen with a cursor is not complained about for having none.
pub proof fn no_cursor_is_no_regression(
    m: MemoryView,
    db: DbView,
    scope: Seq<char>,
    device: usize,
    at_ms: i64,
)
    requires
        !m.high_water.dom().contains(scope),
    ensures
        cursor_checked(m, db, scope, device, at_ms).1.len() == 0,
        !db.cursors.dom().contains(scope) ==> cursor_checked(m, db, scope, device, at_ms).0 == m,
{
}

proof fn verdict_is_the_last(resolved: Seq<Resolved>, id: u128, i: int)
    requires
        0 <= i < resolved.len(),
        resolved[i].id.raw == id,
        forall|j: int| i < j < resolved.len() ==> (#[trigger] resolved[j]).id.raw != id,
    ensures
        last_verdicts(resolved).dom().contains(id),
        last_verdicts(resolved)[id] == verdict_of(resolved[i].resolution),
    decreases resolved.len(),
{
    if i < resolved.len() - 1 {
        let rest = resolved.drop_last();
        assert(resolved[resolved.len() - 1].id.raw != id);
        assert forall|j: int| i < j < rest.len() implies (#[trigger] rest[j]).id.raw != id by {
            assert(rest[j] == resolved[j]);
        }
        verdict_is_the_last(rest, id, i);
    }
}

proof fn no_outcome_no_verdict(resolved: Seq<Resolved>, id: u128)
    requires
        forall|j: int| 0 <= j < resolved.len() ==> (#[trigger] resolved[j]).id.raw != id,
    ensures
        !last_verdicts(resolved).dom().contains(id),
    decreases resolved.len(),
{
    if resolved.len() > 0 {
        let rest = resolved.drop_last();
        assert(resolved[resolved.len() - 1].id.raw != id);
        assert forall|j: int| 0 <= j < rest.len() implies (#[trigger] rest[j]).id.raw != id by {
            assert(rest[j] == resolved[j]);
        }
        no_outcome_no_verdict(rest, id);
    }
}

/// What the observer remembers of a device's commands after a look: of each that has an outcome, the
/// first verdict it was ever seen with; of none that has no outcome any more; and every one that was
/// ever queued and is still queued or resolved.
pub proof fn what_the_observer_remembers(
    m: MemoryView,
    db: DbView,
    scope: Seq<char>,
    device: usize,
    at_ms: i64,
    id: u128,
    i: int,
)
    requires
        0 <= i < db.resolved.len() ==> db.resolved[i].id.raw == id && forall|j: int|
            i < j < db.resolved.len() ==> (#[trigger] db.resolved[j]).id.raw != id,
        !(0 <= i < db.resolved.len()) ==> forall|j: int|
            0 <= j < db.resolved.len() ==> (#[trigger] db.resolved[j]).id.raw != id,
    ensures
        ({
            let after = device_checked(m, db, scope, device, at_ms).0;
            let has_outcome = 0 <= i < db.resolved.len();
            let queued = exists|k: int|
                0 <= k < db.outbox.len() && (#[trigger] db.outbox[k]).command.id.raw == id;
            &&& after.resolved.dom().contains(id) <==> has_outcome
            &&& has_outcome && m.resolved.dom().contains(id) ==> after.resolved[id]
                == m.resolved[id]
            &&& has_outcome && !m.resolved.dom().contains(id) ==> after.resolved[id] == verdict_of(
                db.resolved[i].resolution,
            )
            &&& after.ever_queued.contains(id) <==> queued || m.ever_queued.contains(id)
                && has_outcome
        }),
{
    let m1 = cursor_checked(m, db, scope, device, at_ms).0;
    let m2 = verdicts_checked(m1, db, device, at_ms).0;
    let m3 = losses_checked(m2, db, device, at_ms).0;
    assert(m1.resolved == m.resolved && m1.ever_queued == m.ever_queued);
    if 0 <= i < db.resolved.len() {
        verdict_is_the_last(db.resolved, id, i);
        assert(db.resolved[i].id.raw == id);
        assert(crate::storage::is_resolved(db, id));
    } else {
        no_outcome_no_verdict(db.resolved, id);
        assert(!crate::storage::is_resolved(db, id));
    }
    assert(m3.resolved == m2.resolved);
}

/// What a recorded outcome is taken for: applied, superseded or dead-lettered, whatever position or
/// reason comes with it.
pub proof fn an_outcome_is_its_verdict(r: &Resolution, v: Verdict)
    requires
        call_ensures(Verdict::of, (r,), v),
    ensures
        v == Verdict::Applied <==> r is Applied,
        v == Verdict::Superseded <==> r is Superseded,
        v == Verdict::DeadLettered <==> r is DeadLettered,
{
}

/// **Convergence.** A device is silent exactly when it has caught up and holds the server's digest,
/// or has no digest and there was nothing to catch up with; otherwise there is one complaint about
/// it.
pub proof fn a_device_converges_or_is_named(
    db: DbView,
    scope: Seq<char>,
    expected: Seq<char>,
    head: u64,
    device: usize,
    at_ms: i64,
)
    ensures
        ({
            let found = convergence_found(db, scope, expected, head, device, at_ms);
            let cursor = if db.cursors.dom().contains(scope) {
                db.cursors[scope].position
            } else {
                0
            };
            let agrees = db.digests.dom().contains(scope) && cursor >= head
                && db.digests[scope]@ == expected;
            let nothing = !db.digests.dom().contains(scope) && head == 0;
            &&& found.len() == 0 <==> agrees || nothing
            &&& found.len() <= 1
            &&& found.len() == 1 ==> is_about(found[0], "convergence"@, device, at_ms)
        }),
{
}

/// A cursor is complained about, once, exactly when it is past the end of the server's log.
pub proof fn a_cursor_stays_in_the_log(
    db: DbView,
    scope: Seq<char>,
    head: u64,
    device: usize,
    at_ms: i64,
)
    ensures
        ({
            let found = bounds_found(db, scope, head, device, at_ms);
            &&& found.len() == 0 <==> (db.cursors.dom().contains(scope)
                ==> db.cursors[scope].position <= head)
            &&& found.len() <= 1
            &&& found.len() == 1 ==> is_about(found[0], "cursor-bounds"@, device, at_ms)
        }),
{
}

/// **Durable effects.** A device is silent exactly when it holds every row that its cursor implies,
/// at the version that the cursor implies; each row that it lacks or holds at another version is a
/// complaint.
pub proof fn a_device_holds_what_its_cursor_implies(
    db: DbView,
    server: ServerView,
    scope: Seq<char>,
    rows: Seq<RowStateView>,
    device: usize,
    at_ms: i64,
)
    requires
        db.cursors.dom().contains(scope) ==> are_the_rows(
            server.log,
            scope,
            db.cursors[scope].position,
            rows,
        ),
    ensures
        ({
            let found = effects_found(db, server, scope, device, at_ms);
            &&& !db.cursors.dom().contains(scope) ==> found.len() == 0
            &&& db.cursors.dom().contains(scope) ==> (found.len() == 0 <==> forall|k: int|
                0 <= k < rows.len() ==> db.rows.dom().contains((#[trigger] rows[k]).row)
                    && db.rows[rows[k].row].row_version.value == rows[k].row_version)
        }),
        forall|k: int|
            0 <= k < rows.len() ==> {
                let one = effect_found(
                    db,
                    #[trigger] rows[k],
                    db.cursors[scope].position,
                    device,
                    at_ms,
                );
                &&& one.len() <= 1
                &&& one.len() == 1 ==> is_about(one[0], "durable-effects"@, device, at_ms)
            },
{
    if db.cursors.dom().contains(scope) {
        let cursor = db.cursors[scope].position;
        the_rows_are_listed(server.log, scope, cursor, rows);
        let f = |i: int| effect_found(db, rows[i], cursor, device, at_ms);
        silence_is_silence_everywhere(f, rows.len());
        assert(effects_found(db, server, scope, device, at_ms) == over(f, rows.len()));
        if over(f, rows.len()).len() == 0 {
            assert forall|k: int| 0 <= k < rows.len() implies db.rows.dom().contains((
            #[trigger] rows[k]).row) && db.rows[rows[k].row].row_version.value
                == rows[k].row_version by {
                assert(f(k).len() == 0);
            }
        }
        if forall|k: int|
            0 <= k < rows.len() ==> db.rows.dom().contains((#[trigger] rows[k]).row)
                && db.rows[rows[k].row].row_version.value == rows[k].row_version {
            assert forall|i: int| 0 <= i < rows.len() implies (#[trigger] f(i)).len() == 0 by {
                assert(db.rows.dom().contains(rows[i].row));
            }
        }
    }
}

/// **Policy conformance.** A device is silent exactly when every draft that it recovered is of an
/// entity declared to hold its owner's drafts, and every command that was superseded left a draft
/// behind.
pub proof fn drafts_follow_the_declared_policy(
    db: DbView,
    classes: Map<Seq<char>, ConflictClass>,
    device: usize,
    at_ms: i64,
)
    ensures
        policy_found(db, classes, device, at_ms).len() == 0 <==> {
            &&& forall|i: int|
                0 <= i < db.recovered.len() ==> classes.dom().contains((
                #[trigger] db.recovered[i]).entity@) && classes[db.recovered[i].entity@]
                    == ConflictClass::OwnerDraft
            &&& forall|i: int|
                0 <= i < db.resolved.len() && (#[trigger] db.resolved[i]).resolution is Superseded
                    ==> exists|k: int|
                    0 <= k < db.recovered.len() && (#[trigger] db.recovered[k]).command_id
                        == db.resolved[i].id
        },
        forall|i: int|
            0 <= i < db.recovered.len() ==> {
                let one = recovery_found(#[trigger] db.recovered[i], classes, device, at_ms);
                &&& one.len() <= 1
                &&& one.len() == 1 ==> is_about(one[0], "policy-conformance"@, device, at_ms)
            },
        forall|i: int|
            0 <= i < db.resolved.len() ==> {
                let one = supersession_found(db, #[trigger] db.resolved[i], device, at_ms);
                &&& one.len() <= 1
                &&& one.len() == 1 ==> is_about(one[0], "policy-conformance"@, device, at_ms)
            },
{
    let f = |i: int| recovery_found(db.recovered[i], classes, device, at_ms);
    let g = |i: int| supersession_found(db, db.resolved[i], device, at_ms);
    silence_is_silence_everywhere(f, db.recovered.len());
    silence_is_silence_everywhere(g, db.resolved.len());
    let found = policy_found(db, classes, device, at_ms);
    assert(found == over(f, db.recovered.len()) + over(g, db.resolved.len()));
    if found.len() == 0 {
        assert forall|i: int| 0 <= i < db.recovered.len() implies classes.dom().contains((
        #[trigger] db.recovered[i]).entity@) && classes[db.recovered[i].entity@]
            == ConflictClass::OwnerDraft by {
            assert(f(i).len() == 0);
        }
        assert forall|i: int|
            0 <= i < db.resolved.len() && (
            #[trigger] db.resolved[i]).resolution is Superseded implies exists|k: int|
            0 <= k < db.recovered.len() && (#[trigger] db.recovered[k]).command_id
                == db.resolved[i].id by {
            assert(g(i).len() == 0);
            let k = choose|k: int|
                0 <= k < db.recovered.len() && (#[trigger] db.recovered[k]).command_id.raw
                    == db.resolved[i].id.raw;
            assert(db.recovered[k].command_id == db.resolved[i].id);
        }
    } else {
        if over(f, db.recovered.len()).len() > 0 {
            let i = choose|i: int|
                0 <= i < db.recovered.len() && (#[trigger] f(i)).len() > 0;
            assert(!(classes.dom().contains(db.recovered[i].entity@)
                && classes[db.recovered[i].entity@] == ConflictClass::OwnerDraft));
        } else {
            let i = choose|i: int| 0 <= i < db.resolved.len() && (#[trigger] g(i)).len() > 0;
            assert(db.resolved[i].resolution is Superseded);
            assert(!crate::invariants::is_recovered(db, db.resolved[i].id.raw));
            assert forall|k: int| 0 <= k < db.recovered.len() implies (
            #[trigger] db.recovered[k]).command_id != db.resolved[i].id by {
                if db.recovered[k].command_id == db.resolved[i].id {
                    assert(db.recovered[k].command_id.raw == db.resolved[i].id.raw);
                }
            }
        }
    }
}

} // verus!
