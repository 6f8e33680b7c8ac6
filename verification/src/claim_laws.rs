//! What the observer's findings mean: it is silent exactly when the claims hold, and complains once
//! for each thing that breaks them.
use crate::invariants::{
    broken, changes_of_mind, complaints, cursor_checked, cursor_in, device_checked, last_verdicts,
    losses_checked, queued_ids, repeats, resolved_ids, verdict_name, verdict_of, verdicts_checked,
    MemoryView, Verdict, ViolationView,
};
use crate::protocol::id_text;
use crate::ordered::{ascending, in_order, in_order_is, lists};
use crate::storage::{is_queued, is_resolved, nothing_lost, DbView, Resolved};
use vstd::prelude::*;

verus! {

/// Where `x` belongs in an ascending sequence.
proof fn place_for(ids: Seq<u128>, x: u128) -> (k: int)
    requires
        ascending(ids),
        !ids.contains(x),
    ensures
        0 <= k <= ids.len(),
        forall|i: int| 0 <= i < k ==> (#[trigger] ids[i]) < x,
        forall|i: int| k <= i < ids.len() ==> x < (#[trigger] ids[i]),
    decreases ids.len(),
{
    if ids.len() == 0 {
        0
    } else if ids.last() < x {
        assert forall|i: int| 0 <= i < ids.len() implies (#[trigger] ids[i]) < x by {
            if i < ids.len() - 1 {
                assert(ids[i] < ids[ids.len() - 1]);
            }
        }
        ids.len() as int
    } else {
        let rest = ids.drop_last();
        assert(ascending(rest)) by {
            assert forall|i: int, j: int| 0 <= i < j < rest.len() implies (#[trigger] rest[i]) < (
            #[trigger] rest[j]) by {
                assert(ids[i] < ids[j]);
            }
        }
        assert(!rest.contains(x)) by {
            if rest.contains(x) {
                let i = choose|i: int| 0 <= i < rest.len() && rest[i] == x;
                assert(ids[i] == x);
            }
        }
        let k = place_for(rest, x);
        assert(ids[ids.len() - 1] != x);
        assert forall|i: int| 0 <= i < k implies (#[trigger] ids[i]) < x by {
            assert(rest[i] == ids[i]);
        }
        assert forall|i: int| k <= i < ids.len() implies x < (#[trigger] ids[i]) by {
            if i < rest.len() {
                assert(rest[i] == ids[i]);
            }
        }
        k
    }
}

/// The members of a finite set can be listed in order.
proof fn order_exists(set: Set<u128>)
    requires
        set.finite(),
    ensures
        ascending(in_order(set)),
        lists(in_order(set), set),
    decreases set.len(),
{
    if set.len() == 0 {
        let none = Seq::<u128>::empty();
        assert(set =~= Set::<u128>::empty());
        assert(lists(none, set));
        in_order_is(none, set);
    } else {
        let x = set.choose();
        let less = set.remove(x);
        order_exists(less);
        let ids = in_order(less);
        assert(!less.contains(x));
        let k = place_for(ids, x);
        let all = ids.take(k).push(x) + ids.skip(k);
        assert forall|i: int, j: int| 0 <= i < j < all.len() implies (#[trigger] all[i]) < (
        #[trigger] all[j]) by {
            if i < k {
                assert(all[i] == ids[i]);
            } else if i > k {
                assert(all[i] == ids[i - 1]);
            }
            if j < k {
                assert(all[j] == ids[j]);
            } else if j > k {
                assert(all[j] == ids[j - 1]);
            }
            if i < k && j > k {
                assert(ids[i] < ids[j - 1]);
            }
        }
        assert forall|id: u128| #[trigger] set.contains(id) <==> all.contains(id) by {
            assert(less.contains(id) <==> ids.contains(id));
            if ids.contains(id) {
                let i = choose|i: int| 0 <= i < ids.len() && ids[i] == id;
                if i < k {
                    assert(all[i] == id);
                } else {
                    assert(all[i + 1] == id);
                }
            }
            assert(all[k] == x);
            if all.contains(id) {
                let i = choose|i: int| 0 <= i < all.len() && all[i] == id;
                if i < k {
                    assert(ids[i] == id);
                } else if i > k {
                    assert(ids[i - 1] == id);
                }
            }
        }
        in_order_is(all, set);
    }
}

proof fn no_order_no_members(set: Set<u128>)
    requires
        set.finite(),
    ensures
        in_order(set).len() == 0 <==> forall|id: u128| !set.contains(id),
{
    order_exists(set);
    let ids = in_order(set);
    if ids.len() > 0 {
        assert(ids.contains(ids[0]));
        assert(set.contains(ids[0]));
    } else {
        assert forall|id: u128| !set.contains(id) by {
            assert(!ids.contains(id));
        }
    }
}

proof fn verdicts_are_resolved(resolved: Seq<Resolved>)
    ensures
        last_verdicts(resolved).dom().finite(),
        forall|id: u128| #[trigger]
            last_verdicts(resolved).dom().contains(id) <==> exists|i: int|
                0 <= i < resolved.len() && (#[trigger] resolved[i]).id.raw == id,
    decreases resolved.len(),
{
    if resolved.len() > 0 {
        let rest = resolved.drop_last();
        verdicts_are_resolved(rest);
        assert forall|id: u128| #[trigger] last_verdicts(resolved).dom().contains(id)
            <==> exists|i: int| 0 <= i < resolved.len() && (#[trigger] resolved[i]).id.raw == id by {
            if last_verdicts(rest).dom().contains(id) {
                let i = choose|i: int| 0 <= i < rest.len() && (#[trigger] rest[i]).id.raw == id;
                assert(resolved[i].id.raw == id);
            }
            if resolved.last().id.raw == id {
                assert(resolved[resolved.len() - 1].id.raw == id);
            }
            if exists|i: int| 0 <= i < resolved.len() && (#[trigger] resolved[i]).id.raw == id {
                let i = choose|i: int|
                    0 <= i < resolved.len() && (#[trigger] resolved[i]).id.raw == id;
                if i < rest.len() {
                    assert(rest[i].id.raw == id);
                }
            }
        }
    }
}

/// No command has two recorded outcomes.
pub open spec fn recorded_once(resolved: Seq<Resolved>) -> bool {
    forall|i: int, j: int|
        0 <= i < j < resolved.len() ==> (#[trigger] resolved[i]).id.raw != (
        #[trigger] resolved[j]).id.raw
}

proof fn repeats_are_repeats(resolved: Seq<Resolved>, device: usize, at_ms: i64)
    ensures
        repeats(resolved, device, at_ms).len() == 0 <==> recorded_once(resolved),
    decreases resolved.len(),
{
    if resolved.len() > 0 {
        let rest = resolved.drop_last();
        repeats_are_repeats(rest, device, at_ms);
        verdicts_are_resolved(rest);
        let last = resolved.len() - 1;
        if recorded_once(resolved) {
            assert forall|i: int, j: int| 0 <= i < j < rest.len() implies (
            #[trigger] rest[i]).id.raw != (#[trigger] rest[j]).id.raw by {
                assert(resolved[i].id.raw != resolved[j].id.raw);
            }
            if last_verdicts(rest).dom().contains(resolved[last].id.raw) {
                let i = choose|i: int|
                    0 <= i < rest.len() && (#[trigger] rest[i]).id.raw == resolved[last].id.raw;
                assert(resolved[i].id.raw != resolved[last].id.raw);
            }
        } else {
            let (i, j) = choose|i: int, j: int|
                0 <= i < j < resolved.len() && (#[trigger] resolved[i]).id.raw == (
                #[trigger] resolved[j]).id.raw;
            if j < last {
                assert(rest[i].id.raw == rest[j].id.raw);
            } else {
                assert(rest[i].id.raw == resolved[last].id.raw);
                assert(last_verdicts(rest).dom().contains(resolved[last].id.raw));
            }
        }
    }
}

proof fn minds_unchanged(
    ids: Seq<u128>,
    seen: Map<u128, Verdict>,
    now: Map<u128, Verdict>,
    device: usize,
    at_ms: i64,
)
    ensures
        changes_of_mind(ids, seen, now, device, at_ms).len() == 0 <==> forall|i: int|
            0 <= i < ids.len() && seen.dom().contains(#[trigger] ids[i]) ==> seen[ids[i]]
                == now[ids[i]],
    decreases ids.len(),
{
    if ids.len() > 0 {
        let rest = ids.drop_last();
        minds_unchanged(rest, seen, now, device, at_ms);
        let last = ids.len() - 1;
        if forall|i: int|
            0 <= i < ids.len() && seen.dom().contains(#[trigger] ids[i]) ==> seen[ids[i]]
                == now[ids[i]] {
            assert forall|i: int|
                0 <= i < rest.len() && seen.dom().contains(#[trigger] rest[i]) implies seen[rest[i]]
                == now[rest[i]] by {
                assert(rest[i] == ids[i]);
            }
            assert(ids[last] == ids.last());
        }
        if changes_of_mind(ids, seen, now, device, at_ms).len() == 0 {
            assert forall|i: int|
                0 <= i < ids.len() && seen.dom().contains(#[trigger] ids[i]) implies seen[ids[i]]
                == now[ids[i]] by {
                if i < last {
                    assert(rest[i] == ids[i]);
                }
            }
        }
    }
}

/// The cursor has not moved backwards, nor disappeared.
pub open spec fn cursor_claim(m: MemoryView, db: DbView, scope: Seq<char>) -> bool {
    m.high_water.dom().contains(scope) ==> (cursor_in(db, scope) matches Some(now)
        && m.high_water[scope] <= now)
}

/// Each command has one outcome at most; what was resolved is resolved, with the same verdict.
pub open spec fn verdict_claim(m: MemoryView, db: DbView) -> bool {
    &&& recorded_once(db.resolved)
    &&& forall|id: u128| #[trigger]
        m.resolved.dom().contains(id) ==> is_resolved(db, id) && m.resolved[id] == last_verdicts(
            db.resolved,
        )[id]
}

/// No command is in both places, and what was ever queued is in one.
pub open spec fn loss_claim(m: MemoryView, db: DbView) -> bool {
    &&& forall|id: u128| !(#[trigger] is_queued(db, id) && is_resolved(db, id))
    &&& forall|id: u128| #[trigger]
        m.ever_queued.contains(id) ==> is_queued(db, id) || is_resolved(db, id)
}

/// The observer's memory is of finitely many commands.
pub open spec fn finite_memory(m: MemoryView) -> bool {
    m.resolved.dom().finite() && m.ever_queued.finite()
}

proof fn queued_is_finite(db: DbView)
    ensures
        queued_ids(db).finite(),
        resolved_ids(db).finite(),
{
    let a = db.outbox.map_values(|q: crate::storage::Queued| q.command.id.raw);
    let b = db.resolved.map_values(|r: Resolved| r.id.raw);
    vstd::seq_lib::seq_to_set_is_finite(a);
    vstd::seq_lib::seq_to_set_is_finite(b);
    assert(queued_ids(db) =~= a.to_set()) by {
        assert forall|id: u128| queued_ids(db).contains(id) <==> #[trigger] a.to_set().contains(
            id,
        ) by {
            if queued_ids(db).contains(id) {
                let i = choose|i: int|
                    0 <= i < db.outbox.len() && (#[trigger] db.outbox[i]).command.id.raw == id;
                assert(a[i] == id);
            }
            if a.to_set().contains(id) {
                let i = choose|i: int| 0 <= i < a.len() && a[i] == id;
                assert(db.outbox[i].command.id.raw == id);
            }
        }
    }
    assert(resolved_ids(db) =~= b.to_set()) by {
        assert forall|id: u128| resolved_ids(db).contains(id) <==> #[trigger] b.to_set().contains(
            id,
        ) by {
            if resolved_ids(db).contains(id) {
                let i = choose|i: int|
                    0 <= i < db.resolved.len() && (#[trigger] db.resolved[i]).id.raw == id;
                assert(b[i] == id);
            }
            if b.to_set().contains(id) {
                let i = choose|i: int| 0 <= i < b.len() && b[i] == id;
                assert(db.resolved[i].id.raw == id);
            }
        }
    }
}

proof fn verdicts_silent(m: MemoryView, db: DbView, device: usize, at_ms: i64)
    requires
        finite_memory(m),
    ensures
        verdicts_checked(m, db, device, at_ms).1.len() == 0 <==> verdict_claim(m, db),
        verdicts_checked(m, db, device, at_ms).0.resolved.dom() == last_verdicts(
            db.resolved,
        ).dom(),
{
    let now = last_verdicts(db.resolved);
    let seen = m.resolved;
    verdicts_are_resolved(db.resolved);
    repeats_are_repeats(db.resolved, device, at_ms);
    order_exists(now.dom());
    let ids = in_order(now.dom());
    minds_unchanged(ids, seen, now, device, at_ms);
    let gone = seen.dom().difference(now.dom());
    no_order_no_members(gone);
    if verdict_claim(m, db) {
        assert forall|id: u128| !gone.contains(id) by {
            if seen.dom().contains(id) {
                assert(is_resolved(db, id));
                let i = choose|i: int|
                    0 <= i < db.resolved.len() && (#[trigger] db.resolved[i]).id.raw == id;
                assert(db.resolved[i].id.raw == id);
            }
        }
        assert forall|i: int|
            0 <= i < ids.len() && seen.dom().contains(#[trigger] ids[i]) implies seen[ids[i]]
            == now[ids[i]] by {}
    }
    if verdicts_checked(m, db, device, at_ms).1.len() == 0 {
        assert forall|id: u128| #[trigger] seen.dom().contains(id) implies is_resolved(db, id)
            && seen[id] == now[id] by {
            assert(!gone.contains(id));
            assert(now.dom().contains(id));
            assert(ids.contains(id));
            let i = choose|i: int| 0 <= i < ids.len() && ids[i] == id;
            assert(seen.dom().contains(ids[i]));
        }
    }
    assert(verdicts_checked(m, db, device, at_ms).0.resolved.dom() =~= now.dom());
}

proof fn losses_silent(m: MemoryView, db: DbView, device: usize, at_ms: i64)
    requires
        finite_memory(m),
    ensures
        losses_checked(m, db, device, at_ms).1.len() == 0 <==> loss_claim(m, db),
{
    queued_is_finite(db);
    let q = queued_ids(db);
    let r = resolved_ids(db);
    no_order_no_members(q.intersect(r));
    no_order_no_members(m.ever_queued.difference(q).difference(r));
    if loss_claim(m, db) {
        assert forall|id: u128| !q.intersect(r).contains(id) by {
            assert(!(is_queued(db, id) && is_resolved(db, id)));
        }
    }
    if losses_checked(m, db, device, at_ms).1.len() == 0 {
        assert forall|id: u128| !(#[trigger] is_queued(db, id) && is_resolved(db, id)) by {
            assert(!q.intersect(r).contains(id));
        }
        assert forall|id: u128| #[trigger] m.ever_queued.contains(id) implies is_queued(db, id)
            || is_resolved(db, id) by {
            assert(!m.ever_queued.difference(q).difference(r).contains(id));
        }
    }
}

/// The observer is silent about a device exactly when the claims hold of it: the cursor has not
/// gone back, every command has one lasting outcome at most, and none is lost or in two places.
pub proof fn silence_means_the_claims_hold(
    m: MemoryView,
    db: DbView,
    scope: Seq<char>,
    device: usize,
    at_ms: i64,
)
    requires
        finite_memory(m),
    ensures
        device_checked(m, db, scope, device, at_ms).1.len() == 0 <==> cursor_claim(m, db, scope)
            && verdict_claim(m, db) && loss_claim(m, db),
{
    let (m1, v1) = cursor_checked(m, db, scope, device, at_ms);
    verdicts_silent(m1, db, device, at_ms);
    let (m2, v2) = verdicts_checked(m1, db, device, at_ms);
    verdicts_are_resolved(db.resolved);
    losses_silent(m2, db, device, at_ms);
    let (m3, v3) = losses_checked(m2, db, device, at_ms);
    assert(device_checked(m, db, scope, device, at_ms).1 == v1 + v2 + v3);
}

/// The observer's memory stays finite.
pub proof fn memory_stays_finite(
    m: MemoryView,
    db: DbView,
    scope: Seq<char>,
    device: usize,
    at_ms: i64,
)
    requires
        finite_memory(m),
    ensures
        finite_memory(device_checked(m, db, scope, device, at_ms).0),
{
    queued_is_finite(db);
    verdicts_are_resolved(db.resolved);
    let m1 = cursor_checked(m, db, scope, device, at_ms).0;
    let m2 = verdicts_checked(m1, db, device, at_ms).0;
    assert(m2.resolved.dom() =~= last_verdicts(db.resolved).dom());
    let q = queued_ids(db);
    let r = resolved_ids(db);
    assert(m2.ever_queued.union(q).finite());
    assert(m2.ever_queued.union(q).intersect(q.union(r)).finite());
}

/// One report for each loss, not one for each step after it: a second look at the same database
/// finds no command newly lost and no outcome newly gone.
pub proof fn a_loss_is_reported_once(
    m: MemoryView,
    db: DbView,
    scope: Seq<char>,
    device: usize,
    at_ms: i64,
)
    requires
        finite_memory(m),
    ensures
        ({
            let after = device_checked(m, db, scope, device, at_ms).0;
            &&& forall|id: u128| #[trigger]
                after.resolved.dom().contains(id) ==> is_resolved(db, id)
            &&& forall|id: u128| #[trigger]
                after.ever_queued.contains(id) ==> is_queued(db, id) || is_resolved(db, id)
        }),
{
    verdicts_are_resolved(db.resolved);
    let m1 = cursor_checked(m, db, scope, device, at_ms).0;
    verdicts_silent(m1, db, device, at_ms);
    let after = device_checked(m, db, scope, device, at_ms).0;
    assert forall|id: u128| #[trigger] after.resolved.dom().contains(id) implies is_resolved(
        db,
        id,
    ) by {
        assert(last_verdicts(db.resolved).dom().contains(id));
        let i = choose|i: int|
            0 <= i < db.resolved.len() && (#[trigger] db.resolved[i]).id.raw == id;
        assert(db.resolved[i].id.raw == id);
    }
}

/// A database that has lost nothing is never accused of losing something, whatever was queued in
/// it before.
pub proof fn no_loss_no_accusation(m: MemoryView, db: DbView, id: u128)
    requires
        nothing_lost(db),
        m.ever_queued.subset_of(db.enqueued),
    ensures
        m.ever_queued.contains(id) ==> is_queued(db, id) || is_resolved(db, id),
{
    if m.ever_queued.contains(id) {
        assert(db.enqueued.contains(id));
    }
}

/// The commands that were resolved and are not any more.
pub open spec fn lost_ids(m: MemoryView, db: DbView) -> Set<u128> {
    m.resolved.dom().difference(last_verdicts(db.resolved).dom())
}

/// The commands whose verdict is not the one that is remembered.
pub open spec fn changed_ids(m: MemoryView, db: DbView) -> Set<u128> {
    let now = last_verdicts(db.resolved);
    Set::new(
        |id: u128|
            m.resolved.dom().contains(id) && now.dom().contains(id) && m.resolved[id] != now[id],
    )
}

/// The complaint about a changed verdict.
pub open spec fn changed_complaint(
    m: MemoryView,
    db: DbView,
    device: usize,
    at_ms: i64,
    id: u128,
) -> ViolationView {
    broken(
        "idempotency"@,
        device,
        "command "@ + id_text(id) + " changed verdict across steps, "@ + verdict_name(
            m.resolved[id],
        ) + " -> "@ + verdict_name(last_verdicts(db.resolved)[id]),
        at_ms,
    )
}

proof fn filtering_keeps_order(ids: Seq<u128>, p: spec_fn(u128) -> bool)
    requires
        ascending(ids),
    ensures
        ascending(ids.filter(p)),
        forall|id: u128| #[trigger] ids.filter(p).contains(id) <==> ids.contains(id) && p(id),
    decreases ids.len(),
{
    reveal(Seq::filter);
    if ids.len() > 0 {
        let rest = ids.drop_last();
        let last = ids.len() - 1;
        assert(ascending(rest)) by {
            assert forall|i: int, j: int| 0 <= i < j < rest.len() implies (#[trigger] rest[i]) < (
            #[trigger] rest[j]) by {
                assert(ids[i] < ids[j]);
            }
        }
        filtering_keeps_order(rest, p);
        let before = rest.filter(p);
        let all = ids.filter(p);
        assert forall|id: u128| #[trigger] all.contains(id) <==> ids.contains(id) && p(id) by {
            assert(before.contains(id) <==> rest.contains(id) && p(id));
            if all.contains(id) {
                let k = choose|k: int| 0 <= k < all.len() && all[k] == id;
                if k < before.len() {
                    assert(before[k] == id);
                    let j = choose|j: int| 0 <= j < rest.len() && rest[j] == id;
                    assert(ids[j] == id);
                } else {
                    assert(ids[last] == id);
                }
            }
            if ids.contains(id) && p(id) {
                let j = choose|j: int| 0 <= j < ids.len() && ids[j] == id;
                if j < last {
                    assert(rest[j] == id);
                    let k = choose|k: int| 0 <= k < before.len() && before[k] == id;
                    assert(all[k] == id);
                } else {
                    assert(all[before.len() as int] == id);
                }
            }
        }
        assert forall|i: int, j: int| 0 <= i < j < all.len() implies (#[trigger] all[i]) < (
        #[trigger] all[j]) by {
            if j == before.len() {
                assert(before.contains(before[i]));
                let k = choose|k: int| 0 <= k < rest.len() && rest[k] == before[i];
                assert(ids[k] < ids[last]);
            } else {
                assert(before[i] < before[j]);
            }
        }
    }
}

proof fn changes_of_mind_are_listed(
    ids: Seq<u128>,
    m: MemoryView,
    db: DbView,
    device: usize,
    at_ms: i64,
)
    requires
        forall|i: int|
            0 <= i < ids.len() ==> last_verdicts(db.resolved).dom().contains(#[trigger] ids[i]),
    ensures
        changes_of_mind(ids, m.resolved, last_verdicts(db.resolved), device, at_ms) == ids.filter(
            |id: u128| changed_ids(m, db).contains(id),
        ).map_values(|id: u128| changed_complaint(m, db, device, at_ms, id)),
    decreases ids.len(),
{
    reveal(Seq::filter);
    let p = |id: u128| changed_ids(m, db).contains(id);
    let f = |id: u128| changed_complaint(m, db, device, at_ms, id);
    let all = changes_of_mind(ids, m.resolved, last_verdicts(db.resolved), device, at_ms);
    if ids.len() > 0 {
        let rest = ids.drop_last();
        assert forall|i: int| 0 <= i < rest.len() implies last_verdicts(db.resolved).dom().contains(
            #[trigger] rest[i],
        ) by {
            assert(rest[i] == ids[i]);
        }
        changes_of_mind_are_listed(rest, m, db, device, at_ms);
        assert(last_verdicts(db.resolved).dom().contains(ids[ids.len() - 1]));
        if p(ids.last()) {
            assert(ids.filter(p).map_values(f) =~= rest.filter(p).map_values(f).push(
                f(ids.last()),
            ));
        }
    } else {
        assert(ids.filter(p).map_values(f) =~= all);
    }
}

proof fn verdicts_recorded_once(resolved: Seq<Resolved>, i: int)
    requires
        recorded_once(resolved),
        0 <= i < resolved.len(),
    ensures
        last_verdicts(resolved).dom().contains(resolved[i].id.raw),
        last_verdicts(resolved)[resolved[i].id.raw] == verdict_of(resolved[i].resolution),
    decreases resolved.len(),
{
    let rest = resolved.drop_last();
    let last = resolved.len() - 1;
    if i < last {
        assert(recorded_once(rest)) by {
            assert forall|a: int, b: int| 0 <= a < b < rest.len() implies (
            #[trigger] rest[a]).id.raw != (#[trigger] rest[b]).id.raw by {
                assert(resolved[a].id.raw != resolved[b].id.raw);
            }
        }
        verdicts_recorded_once(rest, i);
        assert(resolved[i].id.raw != resolved[last].id.raw);
    }
}

/// **Durability and idempotency** are complained about once for each command, and about nothing
/// else: one complaint for each command with a verdict that is not the one remembered, one for
/// each that was resolved and is not any more, in the order of the ids, none twice. A repeat among
/// the recorded outcomes is a complaint of its own; where there is none, the verdict of a command
/// is the one recorded for it. A second look at the same database finds no command newly lost.
pub proof fn one_complaint_for_each_verdict(m: MemoryView, db: DbView, device: usize, at_ms: i64)
    requires
        finite_memory(m),
    ensures
        ({
            let (after, found) = verdicts_checked(m, db, device, at_ms);
            let changed = in_order(changed_ids(m, db));
            let lost = in_order(lost_ids(m, db));
            &&& found == repeats(db.resolved, device, at_ms) + changed.map_values(
                |id: u128| changed_complaint(m, db, device, at_ms, id),
            ) + complaints(
                lost,
                "durability"@,
                " was resolved and is no longer recorded"@,
                device,
                at_ms,
            )
            &&& ascending(changed) && lists(changed, changed_ids(m, db))
            &&& ascending(lost) && lists(lost, lost_ids(m, db))
            &&& repeats(db.resolved, device, at_ms).len() == 0 <==> recorded_once(db.resolved)
            &&& recorded_once(db.resolved) ==> forall|i: int|
                0 <= i < db.resolved.len() ==> last_verdicts(db.resolved)[(
                #[trigger] db.resolved[i]).id.raw] == verdict_of(db.resolved[i].resolution)
            &&& forall|id: u128| !(#[trigger] lost_ids(after, db).contains(id))
        }),
{
    let now = last_verdicts(db.resolved);
    let ids = in_order(now.dom());
    let p = |id: u128| changed_ids(m, db).contains(id);
    verdicts_are_resolved(db.resolved);
    repeats_are_repeats(db.resolved, device, at_ms);
    order_exists(now.dom());
    assert forall|i: int| 0 <= i < ids.len() implies now.dom().contains(#[trigger] ids[i]) by {
        assert(ids.contains(ids[i]));
    }
    changes_of_mind_are_listed(ids, m, db, device, at_ms);
    filtering_keeps_order(ids, p);
    let changed = ids.filter(p);
    assert forall|id: u128| #[trigger] changed_ids(m, db).contains(id) <==> changed.contains(id) by {
        assert(now.dom().contains(id) <==> ids.contains(id));
    }
    in_order_is(changed, changed_ids(m, db));
    order_exists(lost_ids(m, db));
    if recorded_once(db.resolved) {
        assert forall|i: int| 0 <= i < db.resolved.len() implies now[(
        #[trigger] db.resolved[i]).id.raw] == verdict_of(db.resolved[i].resolution) by {
            verdicts_recorded_once(db.resolved, i);
        }
    }
}

/// Only the verdict counts: outcomes that differ in a reason or in a position of the log alone are
/// judged alike.
pub proof fn only_verdicts_count(m: MemoryView, a: DbView, b: DbView, device: usize, at_ms: i64)
    requires
        a.resolved.len() == b.resolved.len(),
        forall|i: int|
            0 <= i < a.resolved.len() ==> (#[trigger] a.resolved[i]).id == b.resolved[i].id
                && verdict_of(a.resolved[i].resolution) == verdict_of(b.resolved[i].resolution),
    ensures
        verdicts_checked(m, a, device, at_ms) == verdicts_checked(m, b, device, at_ms),
{
    verdicts_agree(a.resolved, b.resolved, device, at_ms);
}

proof fn verdicts_agree(a: Seq<Resolved>, b: Seq<Resolved>, device: usize, at_ms: i64)
    requires
        a.len() == b.len(),
        forall|i: int|
            0 <= i < a.len() ==> (#[trigger] a[i]).id == b[i].id && verdict_of(a[i].resolution)
                == verdict_of(b[i].resolution),
    ensures
        last_verdicts(a) == last_verdicts(b),
        repeats(a, device, at_ms) == repeats(b, device, at_ms),
    decreases a.len(),
{
    if a.len() > 0 {
        let x = a.drop_last();
        let y = b.drop_last();
        assert forall|i: int| 0 <= i < x.len() implies (#[trigger] x[i]).id == y[i].id
            && verdict_of(x[i].resolution) == verdict_of(y[i].resolution) by {
            assert(a[i].id == b[i].id);
        }
        verdicts_agree(x, y, device, at_ms);
        assert(a[a.len() - 1].id == b[b.len() - 1].id);
    }
}

/// The commands that are queued and resolved.
pub open spec fn doubled_ids(db: DbView) -> Set<u128> {
    queued_ids(db).intersect(resolved_ids(db))
}

/// The commands that were ever queued and are in neither place.
pub open spec fn vanished_ids(m: MemoryView, db: DbView) -> Set<u128> {
    m.ever_queued.difference(queued_ids(db)).difference(resolved_ids(db))
}

/// **No-loss** is complained about once for each command, and about nothing else: one complaint
/// for each command in both places, one for each that was ever queued and is in neither, in the
/// order of the ids, none twice. So a command that moves from the outbox to a recorded outcome is
/// silent, and a second look at the same database finds no command newly lost.
pub proof fn one_complaint_for_each_loss(m: MemoryView, db: DbView, device: usize, at_ms: i64)
    requires
        finite_memory(m),
    ensures
        ({
            let (after, found) = losses_checked(m, db, device, at_ms);
            let doubled = in_order(doubled_ids(db));
            let vanished = in_order(vanished_ids(m, db));
            &&& found == complaints(
                doubled,
                "no-loss"@,
                " is both queued and resolved"@,
                device,
                at_ms,
            ) + complaints(
                vanished,
                "no-loss"@,
                " left the outbox with no recorded outcome — silently lost"@,
                device,
                at_ms,
            )
            &&& ascending(doubled) && lists(doubled, doubled_ids(db))
            &&& ascending(vanished) && lists(vanished, vanished_ids(m, db))
            &&& forall|id: u128|
                is_resolved(db, id) && !is_queued(db, id) ==> !(#[trigger] doubled_ids(
                    db,
                ).contains(id)) && !vanished_ids(m, db).contains(id)
            &&& forall|id: u128| !(#[trigger] vanished_ids(after, db).contains(id))
        }),
{
    queued_is_finite(db);
    order_exists(doubled_ids(db));
    order_exists(vanished_ids(m, db));
}

} // verus!
