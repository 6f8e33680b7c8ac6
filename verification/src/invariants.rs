//! The claims of the system, checked continuously: after every step, not merely once the run has
//! gone quiet. A fault that repairs itself before the end is still a fault.
use crate::codec::{is_function, Codec, RowState, RowStateView};
use crate::ordered::{ascending, in_order, in_order_is, lists, Key, OrderedMap};
use crate::protocol::{id_text, CommandId, Cursor, EntityName, HexString, RowKey, ScopeId};
use crate::server::{rows_of, server_digest, Server, ServerView};
use crate::storage::{Db, DbView, Recovered, Resolution, Resolved};
use crate::text::{decimal, push_decimal, push_signed_padded, signed_padded};
use vstd::prelude::*;
use vstd::string::*;

verus! {

/// An invariant that did not hold, with enough to start diagnosis.
#[derive(Debug, PartialEq, Eq)]
pub struct Violation {
    /// Which claim failed.
    pub invariant: &'static str,
    /// The device it failed on, or `None` for a claim about the world.
    pub device: Option<usize>,
    /// What went wrong, in a sentence someone can act on.
    pub detail: String,
    /// Simulated time at the moment of failure.
    pub at_ms: i64,
}

/// A violation, with its texts as sequences of characters.
pub struct ViolationView {
    pub invariant: Seq<char>,
    pub device: Option<usize>,
    pub detail: Seq<char>,
    pub at_ms: i64,
}

impl View for Violation {
    type V = ViolationView;

    open spec fn view(&self) -> ViolationView {
        ViolationView {
            invariant: self.invariant@,
            device: self.device,
            detail: self.detail@,
            at_ms: self.at_ms,
        }
    }
}

/// Some violations, as what they say.
pub open spec fn violation_views(vs: Seq<Violation>) -> Seq<ViolationView> {
    vs.map_values(|v: Violation| v@)
}

/// A violation on one line.
pub open spec fn violation_line(v: ViolationView) -> Seq<char> {
    match v.device {
        Some(d) => "["@ + v.invariant + "] device "@ + decimal(d as nat) + " at "@ + signed_padded(
            v.at_ms as int,
            0,
        ) + "ms: "@ + v.detail,
        None => "["@ + v.invariant + "] at "@ + signed_padded(v.at_ms as int, 0) + "ms: "@
            + v.detail,
    }
}

impl Violation {
    /// The violation on one line.
    pub fn message(&self) -> (s: String)
        ensures
            s@ == violation_line(self@),
    {
        let mut s: String = "[".to_owned();
        s.append(self.invariant);
        match self.device {
            Some(d) => {
                s.append("] device ");
                push_decimal(&mut s, d as u64);
                s.append(" at ");
            },
            None => {
                s.append("] at ");
            },
        }
        push_signed_padded(&mut s, self.at_ms, 0);
        s.append("ms: ");
        s.append(self.detail.as_str());
        s
    }
}

/// A resolution reduced to what the claims are about.
#[derive(Debug, Clone, Copy, PartialEq, Eq, Structural)]
pub enum Verdict {
    Applied,
    Superseded,
    DeadLettered,
}

/// The verdict of a resolution.
pub open spec fn verdict_of(r: Resolution) -> Verdict {
    match r {
        Resolution::Applied { .. } => Verdict::Applied,
        Resolution::Superseded => Verdict::Superseded,
        Resolution::DeadLettered { .. } => Verdict::DeadLettered,
    }
}

/// The name of a verdict.
pub open spec fn verdict_name(v: Verdict) -> Seq<char> {
    match v {
        Verdict::Applied => "applied"@,
        Verdict::Superseded => "superseded"@,
        Verdict::DeadLettered => "dead-lettered"@,
    }
}

impl Verdict {
    /// The verdict of a resolution: the reason does not belong to it.
    pub fn of(r: &Resolution) -> (v: Self)
        ensures
            v == verdict_of(*r),
    {
        match r {
            Resolution::Applied { .. } => Verdict::Applied,
            Resolution::Superseded => Verdict::Superseded,
            Resolution::DeadLettered { .. } => Verdict::DeadLettered,
        }
    }

    /// The name of the verdict.
    pub fn name(self) -> (s: &'static str)
        ensures
            s@ == verdict_name(self),
    {
        match self {
            Verdict::Applied => "applied",
            Verdict::Superseded => "superseded",
            Verdict::DeadLettered => "dead-lettered",
        }
    }
}

/// How entities settle a conflict between two writers.
#[derive(Debug, PartialEq, Eq)]
pub enum ConflictClass {
    /// Each owner's edits are drafts: a losing edit goes back to its owner.
    OwnerDraft,
    /// Any other class, by name.
    Other { name: String },
}

/// Which class the host declared for each entity.
#[derive(Debug)]
pub struct Registry {
    pub classes: OrderedMap<EntityName, ConflictClass>,
}

impl Registry {
    /// Nothing is declared.
    pub fn new() -> (r: Self)
        ensures
            r.classes.wf(),
            r.classes@ == Map::<Seq<char>, ConflictClass>::empty(),
    {
        Registry { classes: OrderedMap::new() }
    }

    /// Declares the class of an entity.
    pub fn register_entity(&mut self, entity: EntityName, class: ConflictClass)
        requires
            old(self).classes.wf(),
        ensures
            final(self).classes.wf(),
            final(self).classes@ == old(self).classes@.insert(entity@, class),
    {
        self.classes.insert(entity, class);
    }

    /// The class of an entity, where one is declared.
    pub fn class_of(&self, entity: &EntityName) -> (r: Option<&ConflictClass>)
        requires
            self.classes.wf(),
        ensures
            match r {
                Some(c) => self.classes@.dom().contains(entity@) && self.classes@[entity@] == *c,
                None => !self.classes@.dom().contains(entity@),
            },
    {
        self.classes.get(entity)
    }
}

/// What the observer remembers of one device between steps.
#[derive(Debug)]
pub struct DeviceMemory {
    /// The highest cursor the device has ever reached, per scope.
    pub high_water: OrderedMap<ScopeId, u64>,
    /// The commands the device has seen resolved, and how.
    pub resolved: OrderedMap<CommandId, Verdict>,
    /// The commands the device has ever had queued.
    pub ever_queued: OrderedMap<CommandId, ()>,
}

/// What is remembered of one device.
#[verifier::ext_equal]
pub struct MemoryView {
    pub high_water: Map<Seq<char>, u64>,
    pub resolved: Map<u128, Verdict>,
    pub ever_queued: Set<u128>,
}

impl View for DeviceMemory {
    type V = MemoryView;

    open spec fn view(&self) -> MemoryView {
        MemoryView {
            high_water: self.high_water@,
            resolved: self.resolved@,
            ever_queued: self.ever_queued@.dom(),
        }
    }
}

/// Nothing is remembered yet.
pub open spec fn no_memory() -> MemoryView {
    MemoryView { high_water: Map::empty(), resolved: Map::empty(), ever_queued: Set::empty() }
}

impl DeviceMemory {
    /// The maps are in order.
    pub open spec fn wf(&self) -> bool {
        self.high_water.wf() && self.resolved.wf() && self.ever_queued.wf()
    }

    fn new() -> (m: Self)
        ensures
            m.wf(),
            m@ == no_memory(),
    {
        let m = DeviceMemory {
            high_water: OrderedMap::new(),
            resolved: OrderedMap::new(),
            ever_queued: OrderedMap::new(),
        };
        assert(m@ =~= no_memory());
        m
    }
}

/// What the observer remembers between steps, and what it has found.
#[derive(Debug)]
pub struct Invariants {
    pub memory: Vec<DeviceMemory>,
    pub found: Vec<Violation>,
}

/// One violation on a device.
pub open spec fn broken(
    claim: Seq<char>,
    device: usize,
    detail: Seq<char>,
    at_ms: i64,
) -> ViolationView {
    ViolationView { invariant: claim, device: Some(device), detail, at_ms }
}

/// The cursor of a database in a scope.
pub open spec fn cursor_in(db: DbView, scope: Seq<char>) -> Option<u64> {
    if db.cursors.dom().contains(scope) {
        Some(db.cursors[scope].position)
    } else {
        None
    }
}

/// A cursor never moves backwards, and never disappears.
pub open spec fn cursor_checked(
    m: MemoryView,
    db: DbView,
    scope: Seq<char>,
    device: usize,
    at_ms: i64,
) -> (MemoryView, Seq<ViolationView>) {
    let known = m.high_water.dom().contains(scope);
    match cursor_in(db, scope) {
        None => if known {
            (
                MemoryView { high_water: m.high_water.remove(scope), ..m },
                seq![
                    broken(
                        "cursor-monotonicity"@,
                        device,
                        "cursor reached "@ + decimal(m.high_water[scope] as nat)
                            + " and then vanished from storage"@,
                        at_ms,
                    ),
                ],
            )
        } else {
            (m, seq![])
        },
        Some(now) => {
            let high: u64 = if known {
                m.high_water[scope]
            } else {
                0
            };
            let next = if now > high {
                now
            } else {
                high
            };
            (
                MemoryView { high_water: m.high_water.insert(scope, next), ..m },
                if now < high {
                    seq![
                        broken(
                            "cursor-monotonicity"@,
                            device,
                            "cursor moved backwards, "@ + decimal(high as nat) + " -> "@
                                + decimal(now as nat),
                            at_ms,
                        ),
                    ]
                } else {
                    seq![]
                },
            )
        },
    }
}

/// The last verdict recorded for each command.
pub open spec fn last_verdicts(resolved: Seq<Resolved>) -> Map<u128, Verdict>
    decreases resolved.len(),
{
    if resolved.len() == 0 {
        Map::empty()
    } else {
        last_verdicts(resolved.drop_last()).insert(
            resolved.last().id.raw,
            verdict_of(resolved.last().resolution),
        )
    }
}

/// One command recorded twice.
pub open spec fn repeat_detail(id: u128, prior: Verdict, verdict: Verdict) -> Seq<char> {
    if prior == verdict {
        "command "@ + id_text(id) + " recorded twice with the same verdict, "@ + verdict_name(
            verdict,
        )
    } else {
        "command "@ + id_text(id) + " recorded twice with different verdicts, "@ + verdict_name(
            prior,
        ) + " then "@ + verdict_name(verdict)
    }
}

/// Every repeat among the recorded outcomes.
pub open spec fn repeats(resolved: Seq<Resolved>, device: usize, at_ms: i64) -> Seq<ViolationView>
    decreases resolved.len(),
{
    if resolved.len() == 0 {
        seq![]
    } else {
        let rest = resolved.drop_last();
        let before = repeats(rest, device, at_ms);
        let last = resolved.last();
        if last_verdicts(rest).dom().contains(last.id.raw) {
            before.push(
                broken(
                    "idempotency"@,
                    device,
                    repeat_detail(
                        last.id.raw,
                        last_verdicts(rest)[last.id.raw],
                        verdict_of(last.resolution),
                    ),
                    at_ms,
                ),
            )
        } else {
            before
        }
    }
}

/// Every verdict that differs from the one remembered, of these commands.
pub open spec fn changes_of_mind(
    ids: Seq<u128>,
    seen: Map<u128, Verdict>,
    now: Map<u128, Verdict>,
    device: usize,
    at_ms: i64,
) -> Seq<ViolationView>
    decreases ids.len(),
{
    if ids.len() == 0 {
        seq![]
    } else {
        let before = changes_of_mind(ids.drop_last(), seen, now, device, at_ms);
        let id = ids.last();
        if seen.dom().contains(id) && seen[id] != now[id] {
            before.push(
                broken(
                    "idempotency"@,
                    device,
                    "command "@ + id_text(id) + " changed verdict across steps, "@ + verdict_name(
                        seen[id],
                    ) + " -> "@ + verdict_name(now[id]),
                    at_ms,
                ),
            )
        } else {
            before
        }
    }
}

/// The same complaint about each of some commands.
pub open spec fn complaints(
    ids: Seq<u128>,
    claim: Seq<char>,
    after_id: Seq<char>,
    device: usize,
    at_ms: i64,
) -> Seq<ViolationView> {
    ids.map_values(
        |id: u128| broken(claim, device, "command "@ + id_text(id) + after_id, at_ms),
    )
}

/// Once a command is resolved it stays resolved, and its verdict never changes.
pub open spec fn verdicts_checked(m: MemoryView, db: DbView, device: usize, at_ms: i64) -> (
    MemoryView,
    Seq<ViolationView>,
) {
    let now = last_verdicts(db.resolved);
    let seen = m.resolved;
    (
        MemoryView {
            resolved: Map::new(
                |id: u128| now.dom().contains(id),
                |id: u128|
                    if seen.dom().contains(id) {
                        seen[id]
                    } else {
                        now[id]
                    },
            ),
            ..m
        },
        repeats(db.resolved, device, at_ms) + changes_of_mind(
            in_order(now.dom()),
            seen,
            now,
            device,
            at_ms,
        ) + complaints(
            in_order(seen.dom().difference(now.dom())),
            "durability"@,
            " was resolved and is no longer recorded"@,
            device,
            at_ms,
        ),
    )
}

/// The commands in the outbox.
pub open spec fn queued_ids(db: DbView) -> Set<u128> {
    Set::new(|id: u128| crate::storage::is_queued(db, id))
}

/// The commands with a recorded outcome.
pub open spec fn resolved_ids(db: DbView) -> Set<u128> {
    Set::new(|id: u128| crate::storage::is_resolved(db, id))
}

/// Every command is queued or resolved, never both and never neither.
pub open spec fn losses_checked(m: MemoryView, db: DbView, device: usize, at_ms: i64) -> (
    MemoryView,
    Seq<ViolationView>,
) {
    let queued = queued_ids(db);
    let resolved = resolved_ids(db);
    (
        MemoryView {
            ever_queued: m.ever_queued.union(queued).intersect(queued.union(resolved)),
            ..m
        },
        complaints(
            in_order(queued.intersect(resolved)),
            "no-loss"@,
            " is both queued and resolved"@,
            device,
            at_ms,
        ) + complaints(
            in_order(m.ever_queued.difference(queued).difference(resolved)),
            "no-loss"@,
            " left the outbox with no recorded outcome — silently lost"@,
            device,
            at_ms,
        ),
    )
}

/// What one step finds on one device, and what is remembered of it after.
pub open spec fn device_checked(
    m: MemoryView,
    db: DbView,
    scope: Seq<char>,
    device: usize,
    at_ms: i64,
) -> (MemoryView, Seq<ViolationView>) {
    let (m1, v1) = cursor_checked(m, db, scope, device, at_ms);
    let (m2, v2) = verdicts_checked(m1, db, device, at_ms);
    let (m3, v3) = losses_checked(m2, db, device, at_ms);
    (m3, v1 + v2 + v3)
}

/// The ids of some commands.
pub open spec fn raws(ids: Seq<CommandId>) -> Seq<u128> {
    ids.map_values(|id: CommandId| id.raw)
}

/// The keys of a map, in ascending order.
fn keys_of<T>(m: &OrderedMap<CommandId, T>) -> (ids: Vec<CommandId>)
    requires
        m.wf(),
    ensures
        ascending(raws(ids@)),
        lists(raws(ids@), m@.dom()),
        raws(ids@) == in_order(m@.dom()),
{
    let mut ids: Vec<CommandId> = Vec::new();
    let n: usize = m.len();
    let mut i: usize = 0;
    while i < n
        invariant
            i <= n,
            n == m.entries().len(),
            ids@.len() == i,
            forall|j: int| 0 <= j < i ==> (#[trigger] ids@[j]) == m.entries()[j].0,
        decreases n - i,
    {
        ids.push(*m.key_at(i));
        i = i + 1;
    }
    proof {
        let r = raws(ids@);
        assert forall|i: int, j: int| 0 <= i < j < r.len() implies (#[trigger] r[i]) < (
        #[trigger] r[j]) by {
            assert(ids@[i] == m.entries()[i].0);
            assert(ids@[j] == m.entries()[j].0);
            assert(CommandId::below(m.entries()[i].0.model(), m.entries()[j].0.model()));
        }
        assert forall|id: u128| #[trigger] m@.dom().contains(id) <==> r.contains(id) by {
            if m@.dom().contains(id) {
                let i = m.key_has_entry(id);
                assert(ids@[i] == m.entries()[i].0);
                assert(r[i] == id);
            }
            if r.contains(id) {
                let i = choose|i: int| 0 <= i < r.len() && r[i] == id;
                assert(ids@[i] == m.entries()[i].0);
                m.entry_in_view(i);
            }
        }
        in_order_is(r, m@.dom());
    }
    ids
}

/// Those of some ids that are keys of a map, or those that are not, in the order they come in.
fn sifted<T>(ids: &Vec<CommandId>, m: &OrderedMap<CommandId, T>, present: bool) -> (kept: Vec<
    CommandId,
>)
    requires
        m.wf(),
        ascending(raws(ids@)),
    ensures
        ascending(raws(kept@)),
        lists(
            raws(kept@),
            Set::new(|id: u128| raws(ids@).contains(id) && m@.dom().contains(id) == present),
        ),
{
    let ghost all = raws(ids@);
    let mut kept: Vec<CommandId> = Vec::new();
    let ghost mut sources: Seq<int> = Seq::empty();
    let mut i: usize = 0;
    while i < ids.len()
        invariant
            i <= ids@.len(),
            m.wf(),
            all == raws(ids@),
            ascending(all),
            sources.len() == kept@.len(),
            forall|k: int|
                0 <= k < sources.len() ==> 0 <= (#[trigger] sources[k]) < i && kept@[k]
                    == ids@[sources[k]] && m@.dom().contains(kept@[k].raw) == present,
            forall|j: int, k: int|
                0 <= j < k < sources.len() ==> (#[trigger] sources[j]) < (#[trigger] sources[k]),
            forall|j: int|
                0 <= j < i && m@.dom().contains((#[trigger] ids@[j]).raw) == present ==> exists|
                    k: int,
                |
                    0 <= k < kept@.len() && (#[trigger] kept@[k]) == ids@[j],
        decreases ids@.len() - i,
    {
        let id: CommandId = ids[i];
        let ghost before = kept@;
        if m.contains_key(&id) == present {
            kept.push(id);
            proof {
                sources = sources.push(i as int);
                assert(kept@[before.len() as int] == ids@[i as int]);
            }
        }
        proof {
            assert forall|j: int|
                0 <= j < i + 1 && m@.dom().contains((#[trigger] ids@[j]).raw)
                    == present implies exists|k: int|
                0 <= k < kept@.len() && (#[trigger] kept@[k]) == ids@[j] by {
                if j < i {
                    let k = choose|k: int| 0 <= k < before.len() && (#[trigger] before[k]) == ids@[j];
                    assert(kept@[k] == ids@[j]);
                }
            }
        }
        i = i + 1;
    }
    proof {
        let r = raws(kept@);
        let set = Set::new(|id: u128| all.contains(id) && m@.dom().contains(id) == present);
        assert forall|j: int, k: int| 0 <= j < k < r.len() implies (#[trigger] r[j]) < (
        #[trigger] r[k]) by {
            assert(sources[j] < sources[k]);
            assert(all[sources[j]] < all[sources[k]]);
        }
        assert forall|id: u128| #[trigger] set.contains(id) <==> r.contains(id) by {
            if set.contains(id) {
                let j = choose|j: int| 0 <= j < all.len() && all[j] == id;
                assert(ids@[j].raw == id);
                let k = choose|k: int| 0 <= k < kept@.len() && (#[trigger] kept@[k]) == ids@[j];
                assert(r[k] == id);
            }
            if r.contains(id) {
                let k = choose|k: int| 0 <= k < r.len() && r[k] == id;
                assert(kept@[k] == ids@[sources[k]]);
                assert(all[sources[k]] == id);
            }
        }
    }
    kept
}

fn report(
    found: &mut Vec<Violation>,
    claim: &'static str,
    device: usize,
    detail: String,
    at_ms: i64,
)
    ensures
        violation_views(final(found)@) == violation_views(old(found)@).push(
            broken(claim@, device, detail@, at_ms),
        ),
{
    let ghost text = detail@;
    found.push(Violation { invariant: claim, device: Some(device), detail, at_ms });
    assert(violation_views(found@) =~= violation_views(old(found)@).push(
        broken(claim@, device, text, at_ms),
    ));
}

fn about_command(id: CommandId, rest: &str) -> (s: String)
    ensures
        s@ == "command "@ + id_text(id.raw) + rest@,
{
    let mut s: String = "command ".to_owned();
    s.append(id.text().as_str());
    s.append(rest);
    s
}

/// Reports the same complaint about each of some commands.
fn report_all(
    found: &mut Vec<Violation>,
    ids: &Vec<CommandId>,
    claim: &'static str,
    after_id: &str,
    device: usize,
    at_ms: i64,
)
    ensures
        violation_views(final(found)@) == violation_views(old(found)@) + complaints(
            raws(ids@),
            claim@,
            after_id@,
            device,
            at_ms,
        ),
{
    let ghost all = complaints(raws(ids@), claim@, after_id@, device, at_ms);
    let mut i: usize = 0;
    assert(violation_views(found@) =~= violation_views(old(found)@) + all.take(0));
    while i < ids.len()
        invariant
            i <= ids@.len(),
            all == complaints(raws(ids@), claim@, after_id@, device, at_ms),
            violation_views(found@) == violation_views(old(found)@) + all.take(i as int),
        decreases ids@.len() - i,
    {
        report(found, claim, device, about_command(ids[i], after_id), at_ms);
        assert(all[i as int] == broken(
            claim@,
            device,
            "command "@ + id_text(ids@[i as int].raw) + after_id@,
            at_ms,
        ));
        assert(all.take(i + 1) =~= all.take(i as int).push(all[i as int]));
        i = i + 1;
        assert(violation_views(found@) =~= violation_views(old(found)@) + all.take(i as int));
    }
    assert(all.take(i as int) =~= all);
}

/// Holds a device's cursor against the highest it has reached.
fn watch_cursor(
    memory: &mut DeviceMemory,
    found: &mut Vec<Violation>,
    at_ms: i64,
    device: usize,
    db: &Db,
    scope: &ScopeId,
)
    requires
        old(memory).wf(),
        db.wf(),
    ensures
        final(memory).wf(),
        ({
            let (m, v) = cursor_checked(old(memory)@, db@, scope@, device, at_ms);
            &&& final(memory)@ == m
            &&& violation_views(final(found)@) == violation_views(old(found)@) + v
        }),
{
    let ghost before = violation_views(found@);
    let ghost m0 = memory@;
    match db.cursors.get(scope) {
        None => {
            match memory.high_water.remove(scope) {
                Some(was) => {
                    let mut detail: String = "cursor reached ".to_owned();
                    push_decimal(&mut detail, was);
                    detail.append(" and then vanished from storage");
                    report(found, "cursor-monotonicity", device, detail, at_ms);
                },
                None => {
                    assert(memory@ =~= m0);
                },
            }
        },
        Some(cursor) => {
            let now: u64 = cursor.get();
            let high: u64 = match memory.high_water.get(scope) {
                Some(h) => *h,
                None => 0,
            };
            if now < high {
                let mut detail: String = "cursor moved backwards, ".to_owned();
                push_decimal(&mut detail, high);
                detail.append(" -> ");
                push_decimal(&mut detail, now);
                report(found, "cursor-monotonicity", device, detail, at_ms);
            }
            let next: u64 = if now > high {
                now
            } else {
                high
            };
            memory.high_water.insert(scope.clone(), next);
        },
    }
    proof {
        let (m, v) = cursor_checked(m0, db@, scope@, device, at_ms);
        assert(memory@ =~= m);
        assert(violation_views(found@) =~= before + v);
    }
}

/// The last verdict recorded for each command, and a report of every repeat: one command with two
/// recorded outcomes is wrong even when the two agree.
fn collect_verdicts(
    resolved: &Vec<Resolved>,
    found: &mut Vec<Violation>,
    device: usize,
    at_ms: i64,
) -> (now: OrderedMap<CommandId, Verdict>)
    ensures
        now.wf(),
        now@ == last_verdicts(resolved@),
        violation_views(final(found)@) == violation_views(old(found)@) + repeats(
            resolved@,
            device,
            at_ms,
        ),
{
    let mut now: OrderedMap<CommandId, Verdict> = OrderedMap::new();
    let mut i: usize = 0;
    assert(violation_views(found@) =~= violation_views(old(found)@) + repeats(
        resolved@.take(0),
        device,
        at_ms,
    ));
    while i < resolved.len()
        invariant
            i <= resolved@.len(),
            now.wf(),
            now@ == last_verdicts(resolved@.take(i as int)),
            violation_views(found@) == violation_views(old(found)@) + repeats(
                resolved@.take(i as int),
                device,
                at_ms,
            ),
        decreases resolved@.len() - i,
    {
        let ghost seen = resolved@.take(i as int);
        let ghost next = resolved@.take(i + 1);
        let ghost before = violation_views(found@);
        proof {
            assert(next.drop_last() =~= seen);
            assert(next.last() == resolved@[i as int]);
        }
        let id: CommandId = resolved[i].id;
        let verdict: Verdict = Verdict::of(&resolved[i].resolution);
        match now.insert(id, verdict) {
            Some(prior) => {
                let detail: String = if prior == verdict {
                    about_command(id, " recorded twice with the same verdict, ").concat(
                        verdict.name(),
                    )
                } else {
                    about_command(id, " recorded twice with different verdicts, ").concat(
                        prior.name(),
                    ).concat(" then ").concat(verdict.name())
                };
                assert(detail@ =~= repeat_detail(id.raw, prior, verdict));
                report(found, "idempotency", device, detail, at_ms);
            },
            None => {},
        }
        i = i + 1;
        assert(violation_views(found@) =~= violation_views(old(found)@) + repeats(
            next,
            device,
            at_ms,
        ));
    }
    assert(resolved@.take(i as int) =~= resolved@);
    now
}

/// Holds a device's resolved commands against what it has resolved before.
fn watch_verdicts(
    memory: &mut DeviceMemory,
    found: &mut Vec<Violation>,
    at_ms: i64,
    device: usize,
    db: &Db,
)
    requires
        old(memory).wf(),
        db.wf(),
    ensures
        final(memory).wf(),
        ({
            let (m, v) = verdicts_checked(old(memory)@, db@, device, at_ms);
            &&& final(memory)@ == m
            &&& violation_views(final(found)@) == violation_views(old(found)@) + v
        }),
{
    let ghost before = violation_views(found@);
    let ghost m0 = memory@;
    let ghost seen = memory.resolved@;
    let now: OrderedMap<CommandId, Verdict> = collect_verdicts(&db.resolved, found, device, at_ms);
    let ghost first = repeats(db@.resolved, device, at_ms);
    let old_ids: Vec<CommandId> = keys_of(&memory.resolved);
    let ids: Vec<CommandId> = keys_of(&now);
    let ghost order = raws(ids@);
    let mut i: usize = 0;
    assert(violation_views(found@) =~= before + first + changes_of_mind(
        order.take(0),
        seen,
        now@,
        device,
        at_ms,
    ));
    while i < ids.len()
        invariant
            i <= ids@.len(),
            order == raws(ids@),
            ascending(order),
            lists(order, now@.dom()),
            now.wf(),
            memory.wf(),
            memory.high_water == old(memory).high_water,
            memory.ever_queued == old(memory).ever_queued,
            forall|id: u128| #[trigger]
                memory.resolved@.dom().contains(id) <==> seen.dom().contains(id)
                    || order.take(i as int).contains(id),
            forall|id: u128| #[trigger]
                memory.resolved@.dom().contains(id) ==> memory.resolved@[id] == if seen.dom().contains(
                    id,
                ) {
                    seen[id]
                } else {
                    now@[id]
                },
            violation_views(found@) == before + first + changes_of_mind(
                order.take(i as int),
                seen,
                now@,
                device,
                at_ms,
            ),
        decreases ids@.len() - i,
    {
        let id: CommandId = ids[i];
        let ghost done = order.take(i as int);
        let ghost next = order.take(i + 1);
        let ghost sofar = violation_views(found@);
        proof {
            assert(next.drop_last() =~= done);
            assert(next.last() == id.raw);
            assert(order[i as int] == id.raw);
            assert(order.contains(id.raw));
            assert(now@.dom().contains(id.raw));
            assert(!done.contains(id.raw)) by {
                if done.contains(id.raw) {
                    let k = choose|k: int| 0 <= k < done.len() && done[k] == id.raw;
                    assert(order[k] < order[i as int]);
                }
            }
            assert forall|x: u128| next.contains(x) <==> done.contains(x) || x == id.raw by {
                if done.contains(x) {
                    let k = choose|k: int| 0 <= k < done.len() && done[k] == x;
                    assert(next[k] == x);
                }
                if next.contains(x) {
                    let k = choose|k: int| 0 <= k < next.len() && next[k] == x;
                    if k < done.len() {
                        assert(done[k] == x);
                    }
                }
                assert(next[i as int] == id.raw);
            }
        }
        let verdict: Verdict = match now.get(&id) {
            Some(v) => *v,
            None => Verdict::Applied,
        };
        let prior: Option<Verdict> = match memory.resolved.get(&id) {
            Some(p) => Some(*p),
            None => None,
        };
        match prior {
            None => {
                memory.resolved.insert(id, verdict);
            },
            Some(p) => {
                if p != verdict {
                    let detail: String = about_command(
                        id,
                        " changed verdict across steps, ",
                    ).concat(p.name()).concat(" -> ").concat(verdict.name());
                    report(found, "idempotency", device, detail, at_ms);
                }
            },
        }
        i = i + 1;
        assert(violation_views(found@) =~= before + first + changes_of_mind(
            next,
            seen,
            now@,
            device,
            at_ms,
        ));
    }
    assert(order.take(i as int) =~= order);
    let lost: Vec<CommandId> = sifted(&old_ids, &now, false);
    proof {
        let gone = seen.dom().difference(now@.dom());
        assert(lists(raws(lost@), gone)) by {
            assert forall|id: u128| #[trigger] gone.contains(id) <==> raws(lost@).contains(id) by {
                assert(seen.dom().contains(id) <==> raws(old_ids@).contains(id));
                assert(Set::new(
                    |id: u128| raws(old_ids@).contains(id) && now@.dom().contains(id) == false,
                ).contains(id) <==> raws(lost@).contains(id));
            }
        }
        in_order_is(raws(lost@), gone);
    }
    report_all(
        found,
        &lost,
        "durability",
        " was resolved and is no longer recorded",
        device,
        at_ms,
    );
    let mut k: usize = 0;
    let ghost merged = memory.resolved@;
    while k < lost.len()
        invariant
            k <= lost@.len(),
            memory.wf(),
            memory.high_water == old(memory).high_water,
            memory.ever_queued == old(memory).ever_queued,
            forall|id: u128| #[trigger]
                memory.resolved@.dom().contains(id) <==> merged.dom().contains(id) && !raws(
                    lost@,
                ).take(k as int).contains(id),
            forall|id: u128| #[trigger]
                memory.resolved@.dom().contains(id) ==> memory.resolved@[id] == merged[id],
        decreases lost@.len() - k,
    {
        let ghost r = raws(lost@);
        proof {
            let done = r.take(k as int);
            let next = r.take(k + 1);
            assert forall|x: u128| next.contains(x) <==> done.contains(x) || x
                == lost@[k as int].raw by {
                if done.contains(x) {
                    let j = choose|j: int| 0 <= j < done.len() && done[j] == x;
                    assert(next[j] == x);
                }
                if next.contains(x) {
                    let j = choose|j: int| 0 <= j < next.len() && next[j] == x;
                    if j < done.len() {
                        assert(done[j] == x);
                    }
                }
                assert(next[k as int] == lost@[k as int].raw);
            }
        }
        memory.resolved.remove(&lost[k]);
        k = k + 1;
    }
    proof {
        let r = raws(lost@);
        assert(r.take(k as int) =~= r);
        let (m, v) = verdicts_checked(m0, db@, device, at_ms);
        let gone = seen.dom().difference(now@.dom());
        assert forall|id: u128| #[trigger] memory.resolved@.dom().contains(id)
            == m.resolved.dom().contains(id) by {
            assert(gone.contains(id) <==> r.contains(id));
            assert(now@.dom().contains(id) <==> order.contains(id));
        }
        assert(memory.resolved@ =~= m.resolved);
        assert(memory@ =~= m);
        assert(violation_views(found@) =~= before + v);
    }
}

/// The ids of queued commands, as a set.
fn queued_set(db: &Db) -> (m: OrderedMap<CommandId, ()>)
    ensures
        m.wf(),
        m@.dom() == queued_ids(db@),
{
    let mut m: OrderedMap<CommandId, ()> = OrderedMap::new();
    let mut i: usize = 0;
    while i < db.outbox.len()
        invariant
            i <= db.outbox@.len(),
            m.wf(),
            forall|id: u128| #[trigger]
                m@.dom().contains(id) <==> exists|j: int|
                    0 <= j < i && (#[trigger] db.outbox@[j]).command.id.raw == id,
        decreases db.outbox@.len() - i,
    {
        let ghost before = m@.dom();
        let id: CommandId = db.outbox[i].command.id;
        m.insert(id, ());
        proof {
            assert forall|x: u128| #[trigger] m@.dom().contains(x) <==> exists|j: int|
                0 <= j < i + 1 && (#[trigger] db.outbox@[j]).command.id.raw == x by {
                assert(m@.dom().contains(x) <==> before.contains(x) || x == id.raw);
                if before.contains(x) {
                    let j = choose|j: int|
                        0 <= j < i && (#[trigger] db.outbox@[j]).command.id.raw == x;
                    assert(db.outbox@[j].command.id.raw == x);
                }
                if x == id.raw {
                    assert(db.outbox@[i as int].command.id.raw == x);
                }
                if exists|j: int|
                    0 <= j < i + 1 && (#[trigger] db.outbox@[j]).command.id.raw == x {
                    let j = choose|j: int|
                        0 <= j < i + 1 && (#[trigger] db.outbox@[j]).command.id.raw == x;
                    if j < i {
                        assert(before.contains(x));
                    }
                }
            }
        }
        i = i + 1;
    }
    assert forall|id: u128| m@.dom().contains(id) <==> queued_ids(db@).contains(id) by {
        if m@.dom().contains(id) {
            let j = choose|j: int|
                0 <= j < i && (#[trigger] db.outbox@[j]).command.id.raw == id;
            assert(db@.outbox[j].command.id.raw == id);
        }
        if queued_ids(db@).contains(id) {
            let j = choose|j: int|
                0 <= j < db@.outbox.len() && (#[trigger] db@.outbox[j]).command.id.raw == id;
            assert(db.outbox@[j].command.id.raw == id);
        }
    }
    assert(m@.dom() =~= queued_ids(db@));
    m
}

/// The ids of resolved commands, as a set.
fn resolved_set(db: &Db) -> (m: OrderedMap<CommandId, ()>)
    ensures
        m.wf(),
        m@.dom() == resolved_ids(db@),
{
    let mut m: OrderedMap<CommandId, ()> = OrderedMap::new();
    let mut i: usize = 0;
    while i < db.resolved.len()
        invariant
            i <= db.resolved@.len(),
            m.wf(),
            forall|id: u128| #[trigger]
                m@.dom().contains(id) <==> exists|j: int|
                    0 <= j < i && (#[trigger] db.resolved@[j]).id.raw == id,
        decreases db.resolved@.len() - i,
    {
        let ghost before = m@.dom();
        let id: CommandId = db.resolved[i].id;
        m.insert(id, ());
        proof {
            assert forall|x: u128| #[trigger] m@.dom().contains(x) <==> exists|j: int|
                0 <= j < i + 1 && (#[trigger] db.resolved@[j]).id.raw == x by {
                assert(m@.dom().contains(x) <==> before.contains(x) || x == id.raw);
                if before.contains(x) {
                    let j = choose|j: int| 0 <= j < i && (#[trigger] db.resolved@[j]).id.raw == x;
                    assert(db.resolved@[j].id.raw == x);
                }
                if x == id.raw {
                    assert(db.resolved@[i as int].id.raw == x);
                }
                if exists|j: int| 0 <= j < i + 1 && (#[trigger] db.resolved@[j]).id.raw == x {
                    let j = choose|j: int|
                        0 <= j < i + 1 && (#[trigger] db.resolved@[j]).id.raw == x;
                    if j < i {
                        assert(before.contains(x));
                    }
                }
            }
        }
        i = i + 1;
    }
    assert(m@.dom() =~= resolved_ids(db@));
    m
}

/// Holds a device's queued and resolved commands against everything it has ever queued.
fn watch_losses(
    memory: &mut DeviceMemory,
    found: &mut Vec<Violation>,
    at_ms: i64,
    device: usize,
    db: &Db,
)
    requires
        old(memory).wf(),
        db.wf(),
    ensures
        final(memory).wf(),
        ({
            let (m, v) = losses_checked(old(memory)@, db@, device, at_ms);
            &&& final(memory)@ == m
            &&& violation_views(final(found)@) == violation_views(old(found)@) + v
        }),
{
    let ghost before = violation_views(found@);
    let ghost m0 = memory@;
    let queued: OrderedMap<CommandId, ()> = queued_set(db);
    let resolved: OrderedMap<CommandId, ()> = resolved_set(db);
    let ghost q = queued_ids(db@);
    let ghost r = resolved_ids(db@);
    let queued_list: Vec<CommandId> = keys_of(&queued);
    let both: Vec<CommandId> = sifted(&queued_list, &resolved, true);
    proof {
        assert(lists(raws(both@), q.intersect(r))) by {
            assert forall|id: u128| #[trigger] q.intersect(r).contains(id) <==> raws(
                both@,
            ).contains(id) by {
                assert(queued@.dom().contains(id) <==> raws(queued_list@).contains(id));
                assert(Set::new(
                    |id: u128| raws(queued_list@).contains(id) && resolved@.dom().contains(id)
                        == true,
                ).contains(id) <==> raws(both@).contains(id));
            }
        }
        in_order_is(raws(both@), q.intersect(r));
    }
    report_all(found, &both, "no-loss", " is both queued and resolved", device, at_ms);
    let ever_list: Vec<CommandId> = keys_of(&memory.ever_queued);
    let left: Vec<CommandId> = sifted(&ever_list, &queued, false);
    let vanished: Vec<CommandId> = sifted(&left, &resolved, false);
    let ghost gone = m0.ever_queued.difference(q).difference(r);
    proof {
        assert(lists(raws(vanished@), gone)) by {
            assert forall|id: u128| #[trigger] gone.contains(id) <==> raws(vanished@).contains(
                id,
            ) by {
                assert(m0.ever_queued.contains(id) <==> raws(ever_list@).contains(id));
                assert(Set::new(
                    |id: u128| raws(ever_list@).contains(id) && queued@.dom().contains(id) == false,
                ).contains(id) <==> raws(left@).contains(id));
                assert(Set::new(
                    |id: u128| raws(left@).contains(id) && resolved@.dom().contains(id) == false,
                ).contains(id) <==> raws(vanished@).contains(id));
            }
        }
        in_order_is(raws(vanished@), gone);
    }
    report_all(
        found,
        &vanished,
        "no-loss",
        " left the outbox with no recorded outcome — silently lost",
        device,
        at_ms,
    );
    let mut i: usize = 0;
    while i < queued_list.len()
        invariant
            i <= queued_list@.len(),
            memory.wf(),
            memory.high_water == old(memory).high_water,
            memory.resolved == old(memory).resolved,
            forall|id: u128| #[trigger]
                memory.ever_queued@.dom().contains(id) <==> m0.ever_queued.contains(id) || raws(
                    queued_list@,
                ).take(i as int).contains(id),
        decreases queued_list@.len() - i,
    {
        proof {
            step_of_take(raws(queued_list@), i as int);
        }
        memory.ever_queued.insert(queued_list[i], ());
        i = i + 1;
    }
    assert(raws(queued_list@).take(i as int) =~= raws(queued_list@));
    let mut k: usize = 0;
    while k < vanished.len()
        invariant
            k <= vanished@.len(),
            memory.wf(),
            memory.high_water == old(memory).high_water,
            memory.resolved == old(memory).resolved,
            forall|id: u128| #[trigger]
                memory.ever_queued@.dom().contains(id) <==> (m0.ever_queued.contains(id) || raws(
                    queued_list@,
                ).contains(id)) && !raws(vanished@).take(k as int).contains(id),
        decreases vanished@.len() - k,
    {
        proof {
            step_of_take(raws(vanished@), k as int);
        }
        memory.ever_queued.remove(&vanished[k]);
        k = k + 1;
    }
    proof {
        assert(raws(vanished@).take(k as int) =~= raws(vanished@));
        let (m, v) = losses_checked(m0, db@, device, at_ms);
        assert forall|id: u128| #[trigger] memory.ever_queued@.dom().contains(id)
            == m.ever_queued.contains(id) by {
            assert(gone.contains(id) <==> raws(vanished@).contains(id));
            assert(queued@.dom().contains(id) <==> raws(queued_list@).contains(id));
        }
        assert(memory@ =~= m);
        assert(violation_views(found@) =~= before + v);
    }
}

proof fn step_of_take(s: Seq<u128>, i: int)
    requires
        0 <= i < s.len(),
    ensures
        forall|x: u128| #[trigger]
            s.take(i + 1).contains(x) <==> s.take(i).contains(x) || x == s[i],
{
    let done = s.take(i);
    let next = s.take(i + 1);
    assert forall|x: u128| #[trigger] next.contains(x) <==> done.contains(x) || x == s[i] by {
        if done.contains(x) {
            let j = choose|j: int| 0 <= j < done.len() && done[j] == x;
            assert(next[j] == x);
        }
        if next.contains(x) {
            let j = choose|j: int| 0 <= j < next.len() && next[j] == x;
            if j < done.len() {
                assert(done[j] == x);
            }
        }
        assert(next[i] == s[i]);
    }
}

/// What some devices or rows come to, one after the other.
pub open spec fn over(f: spec_fn(int) -> Seq<ViolationView>, n: nat) -> Seq<ViolationView>
    decreases n,
{
    if n == 0 {
        seq![]
    } else {
        over(f, (n - 1) as nat) + f(n - 1)
    }
}

/// The digest of a device that has caught up is the server's, and every device catches up.
pub open spec fn convergence_found(
    db: DbView,
    scope: Seq<char>,
    expected: Seq<char>,
    head: u64,
    device: usize,
    at_ms: i64,
) -> Seq<ViolationView> {
    let cursor = match cursor_in(db, scope) {
        Some(c) => c,
        None => 0,
    };
    if !db.digests.dom().contains(scope) {
        if head > 0 {
            seq![
                broken(
                    "convergence"@,
                    device,
                    "no digest recorded after settling, while the server holds "@ + decimal(
                        head as nat,
                    ) + " changes"@,
                    at_ms,
                ),
            ]
        } else {
            seq![]
        }
    } else if cursor < head {
        seq![
            broken(
                "convergence"@,
                device,
                "still at cursor "@ + decimal(cursor as nat)
                    + " after settling, with the server at "@ + decimal(head as nat)
                    + "; the device never caught up"@,
                at_ms,
            ),
        ]
    } else if db.digests[scope]@ != expected {
        seq![
            broken(
                "convergence"@,
                device,
                "digest "@ + db.digests[scope]@ + " does not match the server's "@ + expected
                    + " after catching up"@,
                at_ms,
            ),
        ]
    } else {
        seq![]
    }
}

/// The class of an entity, in words.
pub open spec fn class_text(classes: Map<Seq<char>, ConflictClass>, entity: Seq<char>) -> Seq<char> {
    if !classes.dom().contains(entity) {
        "None"@
    } else {
        match classes[entity] {
            ConflictClass::OwnerDraft => "Some(OwnerDraft)"@,
            ConflictClass::Other { name } => "Some("@ + name@ + ")"@,
        }
    }
}

/// Only owner drafts have drafts to recover.
pub open spec fn recovery_found(
    r: Recovered,
    classes: Map<Seq<char>, ConflictClass>,
    device: usize,
    at_ms: i64,
) -> Seq<ViolationView> {
    if classes.dom().contains(r.entity@) && classes[r.entity@] is OwnerDraft {
        seq![]
    } else {
        seq![
            broken(
                "policy-conformance"@,
                device,
                "a draft was recovered for command "@ + id_text(r.command_id.raw)
                    + " against entity "@ + r.entity@ + ", whose class is "@ + class_text(
                    classes,
                    r.entity@,
                ) + " — only owner drafts have drafts to recover"@,
                at_ms,
            ),
        ]
    }
}

/// A draft was recovered for this command.
pub open spec fn is_recovered(db: DbView, id: u128) -> bool {
    exists|i: int| 0 <= i < db.recovered.len() && (#[trigger] db.recovered[i]).command_id.raw == id
}

/// A superseded command left a draft behind.
pub open spec fn supersession_found(
    db: DbView,
    r: Resolved,
    device: usize,
    at_ms: i64,
) -> Seq<ViolationView> {
    if r.resolution is Superseded && !is_recovered(db, r.id.raw) {
        seq![
            broken(
                "policy-conformance"@,
                device,
                "command "@ + id_text(r.id.raw)
                    + " was superseded but no draft was recovered; the user's edit is gone"@,
                at_ms,
            ),
        ]
    } else {
        seq![]
    }
}

/// What a device's drafts come to, by the declared classes.
pub open spec fn policy_found(
    db: DbView,
    classes: Map<Seq<char>, ConflictClass>,
    device: usize,
    at_ms: i64,
) -> Seq<ViolationView> {
    over(
        |i: int| recovery_found(db.recovered[i], classes, device, at_ms),
        db.recovered.len(),
    ) + over(|i: int| supersession_found(db, db.resolved[i], device, at_ms), db.resolved.len())
}

/// A row that the cursor implies is there, at the version that the cursor implies.
pub open spec fn effect_found(
    db: DbView,
    expected: RowStateView,
    cursor: u64,
    device: usize,
    at_ms: i64,
) -> Seq<ViolationView> {
    let name = expected.row.0 + "/"@ + expected.row.1;
    if !db.rows.dom().contains(expected.row) {
        seq![
            broken(
                "durable-effects"@,
                device,
                name + " should exist at version "@ + decimal(expected.row_version as nat)
                    + " for cursor "@ + decimal(cursor as nat)
                    + ", and is absent — an applied effect was lost"@,
                at_ms,
            ),
        ]
    } else if db.rows[expected.row].row_version.value != expected.row_version {
        seq![
            broken(
                "durable-effects"@,
                device,
                name + " is at version "@ + decimal(
                    db.rows[expected.row].row_version.value as nat,
                ) + " but the cursor "@ + decimal(cursor as nat) + " implies "@ + decimal(
                    expected.row_version as nat,
                ),
                at_ms,
            ),
        ]
    } else {
        seq![]
    }
}

/// What a device's rows come to, at its cursor.
pub open spec fn effects_found(
    db: DbView,
    server: ServerView,
    scope: Seq<char>,
    device: usize,
    at_ms: i64,
) -> Seq<ViolationView> {
    match cursor_in(db, scope) {
        None => seq![],
        Some(cursor) => {
            let rows = rows_of(server.log, scope, cursor);
            over(|i: int| effect_found(db, rows[i], cursor, device, at_ms), rows.len())
        },
    }
}

/// A cursor is not past the end of the log.
pub open spec fn bounds_found(
    db: DbView,
    scope: Seq<char>,
    head: u64,
    device: usize,
    at_ms: i64,
) -> Seq<ViolationView> {
    match cursor_in(db, scope) {
        None => seq![],
        Some(cursor) => if cursor > head {
            seq![
                broken(
                    "cursor-bounds"@,
                    device,
                    "cursor "@ + decimal(cursor as nat) + " is ahead of the server's log head "@
                        + decimal(head as nat),
                    at_ms,
                ),
            ]
        } else {
            seq![]
        },
    }
}

/// The databases are in order.
pub open spec fn all_wf(dbs: Seq<Db>) -> bool {
    forall|i: int| 0 <= i < dbs.len() ==> (#[trigger] dbs[i]).wf()
}

impl Invariants {
    /// What is remembered of a device.
    pub open spec fn memory_of(&self, i: int) -> MemoryView {
        if 0 <= i < self.memory@.len() {
            self.memory@[i]@
        } else {
            no_memory()
        }
    }

    /// What has been found so far.
    pub open spec fn findings(&self) -> Seq<ViolationView> {
        violation_views(self.found@)
    }

    /// The memories are in order.
    pub open spec fn wf(&self) -> bool {
        forall|i: int| 0 <= i < self.memory@.len() ==> (#[trigger] self.memory@[i]).wf()
    }

    /// A fresh observer.
    #[must_use]
    pub fn new() -> (c: Self)
        ensures
            c.wf(),
            c.findings().len() == 0,
            forall|i: int| c.memory_of(i) == no_memory(),
    {
        Invariants { memory: Vec::new(), found: Vec::new() }
    }

    /// Everything that has failed so far.
    #[must_use]
    pub fn violations(&self) -> (vs: &Vec<Violation>)
        ensures
            violation_views(vs@) == self.findings(),
            *vs == self.found,
    {
        &self.found
    }

    /// Whether every claim still holds.
    #[must_use]
    pub fn holds(&self) -> (r: bool)
        ensures
            r == (self.findings().len() == 0),
    {
        self.found.len() == 0
    }

    /// Makes sure that there is a memory for a device.
    fn make_room(&mut self, device: usize)
        requires
            old(self).wf(),
        ensures
            final(self).wf(),
            device < final(self).memory@.len(),
            final(self).found == old(self).found,
            forall|j: int| #[trigger] final(self).memory_of(j) == old(self).memory_of(j),
    {
        while self.memory.len() <= device
            invariant
                self.wf(),
                self.found == old(self).found,
                forall|j: int| #[trigger] self.memory_of(j) == old(self).memory_of(j),
            decreases device + 1 - self.memory@.len(),
        {
            let ghost was = *self;
            let fresh = DeviceMemory::new();
            self.memory.push(fresh);
            assert forall|j: int| #[trigger] self.memory_of(j) == was.memory_of(j) by {
                if 0 <= j < was.memory@.len() {
                    assert(self.memory@[j] == was.memory@[j]);
                }
            }
        }
    }

    /// **Cursor monotonicity.** A cursor never moves backwards. One that disappears is a
    /// regression to nothing, and the worst kind.
    pub fn check_cursor_monotonic(
        &mut self,
        at_ms: i64,
        device: usize,
        db: &Db,
        scope: &ScopeId,
    )
        requires
            old(self).wf(),
            db.wf(),
        ensures
            final(self).wf(),
            ({
                let (m, v) = cursor_checked(
                    old(self).memory_of(device as int),
                    db@,
                    scope@,
                    device,
                    at_ms,
                );
                &&& final(self).findings() == old(self).findings() + v
                &&& forall|j: int| #[trigger]
                    final(self).memory_of(j) == if j == device {
                        m
                    } else {
                        old(self).memory_of(j)
                    }
            }),
    {
        self.make_room(device);
        let ghost was = *self;
        assert(was.memory_of(device as int) == old(self).memory_of(device as int));
        let mut mine: DeviceMemory = DeviceMemory::new();
        core::mem::swap(&mut mine, &mut self.memory[device]);
        watch_cursor(&mut mine, &mut self.found, at_ms, device, db, scope);
        core::mem::swap(&mut mine, &mut self.memory[device]);
        assert forall|j: int| j != device implies #[trigger] self.memory_of(j) == was.memory_of(
            j,
        ) by {
            if 0 <= j < was.memory@.len() {
                assert(self.memory@[j] == was.memory@[j]);
            }
        }
    }

    /// **Durability** and **idempotency**: once a command is resolved, that resolution exists in
    /// every future state, and never changes.
    pub fn check_durability_and_idempotency(&mut self, at_ms: i64, device: usize, db: &Db)
        requires
            old(self).wf(),
            db.wf(),
        ensures
            final(self).wf(),
            ({
                let (m, v) = verdicts_checked(
                    old(self).memory_of(device as int),
                    db@,
                    device,
                    at_ms,
                );
                &&& final(self).findings() == old(self).findings() + v
                &&& forall|j: int| #[trigger]
                    final(self).memory_of(j) == if j == device {
                        m
                    } else {
                        old(self).memory_of(j)
                    }
            }),
    {
        self.make_room(device);
        let ghost was = *self;
        assert(was.memory_of(device as int) == old(self).memory_of(device as int));
        let mut mine: DeviceMemory = DeviceMemory::new();
        core::mem::swap(&mut mine, &mut self.memory[device]);
        watch_verdicts(&mut mine, &mut self.found, at_ms, device, db);
        core::mem::swap(&mut mine, &mut self.memory[device]);
        assert forall|j: int| j != device implies #[trigger] self.memory_of(j) == was.memory_of(
            j,
        ) by {
            if 0 <= j < was.memory@.len() {
                assert(self.memory@[j] == was.memory@[j]);
            }
        }
    }

    /// **No-loss.** An outbox entry leaves only into a recorded outcome: every command is in
    /// exactly one of two places at every instant, queued or resolved.
    pub fn check_no_loss(&mut self, at_ms: i64, device: usize, db: &Db)
        requires
            old(self).wf(),
            db.wf(),
        ensures
            final(self).wf(),
            ({
                let (m, v) = losses_checked(
                    old(self).memory_of(device as int),
                    db@,
                    device,
                    at_ms,
                );
                &&& final(self).findings() == old(self).findings() + v
                &&& forall|j: int| #[trigger]
                    final(self).memory_of(j) == if j == device {
                        m
                    } else {
                        old(self).memory_of(j)
                    }
            }),
    {
        self.make_room(device);
        let ghost was = *self;
        assert(was.memory_of(device as int) == old(self).memory_of(device as int));
        let mut mine: DeviceMemory = DeviceMemory::new();
        core::mem::swap(&mut mine, &mut self.memory[device]);
        watch_losses(&mut mine, &mut self.found, at_ms, device, db);
        core::mem::swap(&mut mine, &mut self.memory[device]);
        assert forall|j: int| j != device implies #[trigger] self.memory_of(j) == was.memory_of(
            j,
        ) by {
            if 0 <= j < was.memory@.len() {
                assert(self.memory@[j] == was.memory@[j]);
            }
        }
    }

    /// Checks every per-step claim against the world as it stands right now.
    pub fn check_step(&mut self, at_ms: i64, databases: &Vec<Db>, scope: &ScopeId)
        requires
            old(self).wf(),
            all_wf(databases@),
        ensures
            final(self).wf(),
            final(self).findings() == old(self).findings() + over(
                |i: int|
                    device_checked(
                        old(self).memory_of(i),
                        databases@[i]@,
                        scope@,
                        i as usize,
                        at_ms,
                    ).1,
                databases@.len(),
            ),
            forall|i: int| #[trigger]
                final(self).memory_of(i) == if 0 <= i < databases@.len() {
                    device_checked(
                        old(self).memory_of(i),
                        databases@[i]@,
                        scope@,
                        i as usize,
                        at_ms,
                    ).0
                } else {
                    old(self).memory_of(i)
                },
    {
        let ghost f = |i: int|
            device_checked(
                old(self).memory_of(i),
                databases@[i]@,
                scope@,
                i as usize,
                at_ms,
            ).1;
        let mut i: usize = 0;
        assert(self.findings() =~= old(self).findings() + over(f, 0));
        while i < databases.len()
            invariant
                i <= databases@.len(),
                all_wf(databases@),
                self.wf(),
                f == (|i: int|
                    device_checked(
                        old(self).memory_of(i),
                        databases@[i]@,
                        scope@,
                        i as usize,
                        at_ms,
                    ).1),
                self.findings() == old(self).findings() + over(f, i as nat),
                forall|j: int| #[trigger]
                    self.memory_of(j) == if 0 <= j < i {
                        device_checked(
                            old(self).memory_of(j),
                            databases@[j]@,
                            scope@,
                            j as usize,
                            at_ms,
                        ).0
                    } else {
                        old(self).memory_of(j)
                    },
            decreases databases@.len() - i,
        {
            let ghost before = *self;
            let db: &Db = &databases[i];
            self.check_cursor_monotonic(at_ms, i, db, scope);
            self.check_durability_and_idempotency(at_ms, i, db);
            self.check_no_loss(at_ms, i, db);
            proof {
                let m0 = before.memory_of(i as int);
                assert(m0 == old(self).memory_of(i as int));
                assert(f(i as int) == device_checked(m0, db@, scope@, i, at_ms).1);
                assert(self.findings() =~= before.findings() + f(i as int));
                assert(self.findings() =~= old(self).findings() + over(f, (i + 1) as nat));
                assert(self.memory_of(i as int) == device_checked(m0, db@, scope@, i, at_ms).0);
            }
            i = i + 1;
        }
    }

    /// **Convergence.** After quiet, every device's digest equals the server's.
    pub fn check_convergence<W: Codec>(
        &mut self,
        at_ms: i64,
        databases: &Vec<Db>,
        server: &Server,
        scope: &ScopeId,
        codec: &W,
    )
        requires
            old(self).wf(),
            all_wf(databases@),
            server.wf(),
            is_function(codec),
        ensures
            final(self).wf(),
            final(self).memory == old(self).memory,
            final(self).findings() == old(self).findings() + over(
                |i: int|
                    convergence_found(
                        databases@[i]@,
                        scope@,
                        server_digest(server@.log, scope@, codec),
                        (server@.next_seq - 1) as u64,
                        i as usize,
                        at_ms,
                    ),
                databases@.len(),
            ),
    {
        let expected: HexString = server.digest(scope, codec);
        let head: u64 = server.head();
        let ghost f = |i: int|
            convergence_found(
                databases@[i]@,
                scope@,
                server_digest(server@.log, scope@, codec),
                (server@.next_seq - 1) as u64,
                i as usize,
                at_ms,
            );
        let mut i: usize = 0;
        assert(self.findings() =~= old(self).findings() + over(f, 0));
        while i < databases.len()
            invariant
                i <= databases@.len(),
                all_wf(databases@),
                self.wf(),
                self.memory == old(self).memory,
                expected@ == server_digest(server@.log, scope@, codec),
                head == server@.next_seq - 1,
                f == (|i: int|
                    convergence_found(
                        databases@[i]@,
                        scope@,
                        server_digest(server@.log, scope@, codec),
                        (server@.next_seq - 1) as u64,
                        i as usize,
                        at_ms,
                    )),
                self.findings() == old(self).findings() + over(f, i as nat),
            decreases databases@.len() - i,
        {
            let db: &Db = &databases[i];
            let ghost before = self.findings();
            let cursor: u64 = match db.cursors.get(scope) {
                Some(c) => c.get(),
                None => 0,
            };
            match db.digests.get(scope) {
                None => {
                    if head > 0 {
                        let mut detail: String =
                            "no digest recorded after settling, while the server holds ".to_owned();
                        push_decimal(&mut detail, head);
                        detail.append(" changes");
                        report(&mut self.found, "convergence", i, detail, at_ms);
                    }
                },
                Some(actual) => {
                    if cursor < head {
                        let mut detail: String = "still at cursor ".to_owned();
                        push_decimal(&mut detail, cursor);
                        detail.append(" after settling, with the server at ");
                        push_decimal(&mut detail, head);
                        detail.append("; the device never caught up");
                        report(&mut self.found, "convergence", i, detail, at_ms);
                    } else if !(actual.text == expected.text) {
                        let mut detail: String = "digest ".to_owned();
                        detail.append(actual.as_str());
                        detail.append(" does not match the server's ");
                        detail.append(expected.as_str());
                        detail.append(" after catching up");
                        report(&mut self.found, "convergence", i, detail, at_ms);
                    }
                },
            }
            assert(self.findings() =~= before + f(i as int));
            assert(self.findings() =~= old(self).findings() + over(f, (i + 1) as nat));
            i = i + 1;
        }
    }

    /// **Policy conformance**, per entity class, as declared: only owner drafts are recovered,
    /// and a superseded command leaves a draft behind.
    pub fn check_policy(&mut self, at_ms: i64, databases: &Vec<Db>, registry: &Registry)
        requires
            old(self).wf(),
            all_wf(databases@),
            registry.classes.wf(),
        ensures
            final(self).wf(),
            final(self).memory == old(self).memory,
            final(self).findings() == old(self).findings() + over(
                |i: int| policy_found(databases@[i]@, registry.classes@, i as usize, at_ms),
                databases@.len(),
            ),
    {
        let ghost f = |i: int| policy_found(databases@[i]@, registry.classes@, i as usize, at_ms);
        let mut i: usize = 0;
        assert(self.findings() =~= old(self).findings() + over(f, 0));
        while i < databases.len()
            invariant
                i <= databases@.len(),
                all_wf(databases@),
                self.wf(),
                self.memory == old(self).memory,
                registry.classes.wf(),
                f == (|i: int| policy_found(databases@[i]@, registry.classes@, i as usize, at_ms)),
                self.findings() == old(self).findings() + over(f, i as nat),
            decreases databases@.len() - i,
        {
            let ghost before = self.findings();
            policy_of(&mut self.found, &databases[i], registry, i, at_ms);
            assert(self.findings() =~= before + f(i as int));
            assert(self.findings() =~= old(self).findings() + over(f, (i + 1) as nat));
            i = i + 1;
        }
    }

    /// **Durable effects.** A row the cursor implies must actually be present, at the version the
    /// cursor implies.
    pub fn check_durable_effects(
        &mut self,
        at_ms: i64,
        databases: &Vec<Db>,
        server: &Server,
        scope: &ScopeId,
    )
        requires
            old(self).wf(),
            all_wf(databases@),
            server.wf(),
        ensures
            final(self).wf(),
            final(self).memory == old(self).memory,
            final(self).findings() == old(self).findings() + over(
                |i: int| effects_found(databases@[i]@, server@, scope@, i as usize, at_ms),
                databases@.len(),
            ),
    {
        let ghost f = |i: int|
            effects_found(databases@[i]@, server@, scope@, i as usize, at_ms);
        let mut i: usize = 0;
        assert(self.findings() =~= old(self).findings() + over(f, 0));
        while i < databases.len()
            invariant
                i <= databases@.len(),
                all_wf(databases@),
                self.wf(),
                self.memory == old(self).memory,
                server.wf(),
                f == (|i: int|
                    effects_found(databases@[i]@, server@, scope@, i as usize, at_ms)),
                self.findings() == old(self).findings() + over(f, i as nat),
            decreases databases@.len() - i,
        {
            let ghost before = self.findings();
            let db: &Db = &databases[i];
            match db.cursors.get(scope) {
                None => {},
                Some(c) => {
                    let cursor: u64 = c.get();
                    let rows: Vec<RowState> = server.rows_at(scope, cursor);
                    effects_of(&mut self.found, db, &rows, cursor, i, at_ms);
                    proof {
                        let views = crate::codec::row_views(rows@);
                        let g = |k: int| effect_found(db@, rows@[k]@, cursor, i, at_ms);
                        let h = |k: int| effect_found(db@, views[k], cursor, i, at_ms);
                        over_agrees(g, h, rows@.len());
                    }
                },
            }
            assert(self.findings() =~= before + f(i as int));
            assert(self.findings() =~= old(self).findings() + over(f, (i + 1) as nat));
            i = i + 1;
        }
    }

    /// A cursor can never exceed the server's log head.
    pub fn check_cursor_bounds(
        &mut self,
        at_ms: i64,
        databases: &Vec<Db>,
        server: &Server,
        scope: &ScopeId,
    )
        requires
            old(self).wf(),
            all_wf(databases@),
            server.wf(),
        ensures
            final(self).wf(),
            final(self).memory == old(self).memory,
            final(self).findings() == old(self).findings() + over(
                |i: int|
                    bounds_found(
                        databases@[i]@,
                        scope@,
                        (server@.next_seq - 1) as u64,
                        i as usize,
                        at_ms,
                    ),
                databases@.len(),
            ),
    {
        let head: u64 = server.head();
        let ghost f = |i: int|
            bounds_found(
                databases@[i]@,
                scope@,
                (server@.next_seq - 1) as u64,
                i as usize,
                at_ms,
            );
        let mut i: usize = 0;
        assert(self.findings() =~= old(self).findings() + over(f, 0));
        while i < databases.len()
            invariant
                i <= databases@.len(),
                all_wf(databases@),
                self.wf(),
                self.memory == old(self).memory,
                head == server@.next_seq - 1,
                f == (|i: int|
                    bounds_found(
                        databases@[i]@,
                        scope@,
                        (server@.next_seq - 1) as u64,
                        i as usize,
                        at_ms,
                    )),
                self.findings() == old(self).findings() + over(f, i as nat),
            decreases databases@.len() - i,
        {
            let ghost before = self.findings();
            let db: &Db = &databases[i];
            match db.cursors.get(scope) {
                None => {},
                Some(c) => {
                    let cursor: u64 = c.get();
                    if cursor > head {
                        let mut detail: String = "cursor ".to_owned();
                        push_decimal(&mut detail, cursor);
                        detail.append(" is ahead of the server's log head ");
                        push_decimal(&mut detail, head);
                        report(&mut self.found, "cursor-bounds", i, detail, at_ms);
                    }
                },
            }
            assert(self.findings() =~= before + f(i as int));
            assert(self.findings() =~= old(self).findings() + over(f, (i + 1) as nat));
            i = i + 1;
        }
    }
}

/// Two ways of saying the same of each device or row come to the same.
pub proof fn over_agrees(
    a: spec_fn(int) -> Seq<ViolationView>,
    b: spec_fn(int) -> Seq<ViolationView>,
    n: nat,
)
    requires
        forall|i: int| 0 <= i < n ==> #[trigger] a(i) == b(i),
    ensures
        over(a, n) == over(b, n),
    decreases n,
{
    if n > 0 {
        over_agrees(a, b, (n - 1) as nat);
        assert(a(n - 1) == b(n - 1));
    }
}

fn effects_of(
    found: &mut Vec<Violation>,
    db: &Db,
    rows: &Vec<RowState>,
    cursor: u64,
    device: usize,
    at_ms: i64,
)
    requires
        db.wf(),
    ensures
        violation_views(final(found)@) == violation_views(old(found)@) + over(
            |k: int| effect_found(db@, rows@[k]@, cursor, device, at_ms),
            rows@.len(),
        ),
{
    let ghost f = |k: int| effect_found(db@, rows@[k]@, cursor, device, at_ms);
    let mut k: usize = 0;
    assert(violation_views(found@) =~= violation_views(old(found)@) + over(f, 0));
    while k < rows.len()
        invariant
            k <= rows@.len(),
            db.wf(),
            f == (|k: int| effect_found(db@, rows@[k]@, cursor, device, at_ms)),
            violation_views(found@) == violation_views(old(found)@) + over(f, k as nat),
        decreases rows@.len() - k,
    {
        let ghost before = violation_views(found@);
        let expected: &RowState = &rows[k];
        let key = RowKey {
            entity: expected.entity.clone(),
            entity_id: expected.entity_id.clone(),
        };
        let mut detail: String = key.entity.text.clone();
        detail.append("/");
        detail.append(key.entity_id.as_str());
        match db.rows.get(&key) {
            Some(stored) => {
                if stored.row_version.get() != expected.row_version.get() {
                    detail.append(" is at version ");
                    push_decimal(&mut detail, stored.row_version.get());
                    detail.append(" but the cursor ");
                    push_decimal(&mut detail, cursor);
                    detail.append(" implies ");
                    push_decimal(&mut detail, expected.row_version.get());
                    report(found, "durable-effects", device, detail, at_ms);
                }
            },
            None => {
                detail.append(" should exist at version ");
                push_decimal(&mut detail, expected.row_version.get());
                detail.append(" for cursor ");
                push_decimal(&mut detail, cursor);
                detail.append(", and is absent — an applied effect was lost");
                report(found, "durable-effects", device, detail, at_ms);
            },
        }
        assert(violation_views(found@) =~= before + f(k as int));
        assert(violation_views(found@) =~= violation_views(old(found)@) + over(f, (k + 1) as nat));
        k = k + 1;
    }
}

fn has_draft(db: &Db, id: CommandId) -> (r: bool)
    ensures
        r == is_recovered(db@, id.raw),
{
    let mut i: usize = 0;
    while i < db.recovered.len()
        invariant
            i <= db.recovered@.len(),
            forall|j: int| 0 <= j < i ==> (#[trigger] db.recovered@[j]).command_id.raw != id.raw,
        decreases db.recovered@.len() - i,
    {
        if db.recovered[i].command_id.raw == id.raw {
            assert(db@.recovered[i as int].command_id.raw == id.raw);
            return true;
        }
        i = i + 1;
    }
    false
}

fn policy_of(
    found: &mut Vec<Violation>,
    db: &Db,
    registry: &Registry,
    device: usize,
    at_ms: i64,
)
    requires
        db.wf(),
        registry.classes.wf(),
    ensures
        violation_views(final(found)@) == violation_views(old(found)@) + policy_found(
            db@,
            registry.classes@,
            device,
            at_ms,
        ),
{
    let ghost classes = registry.classes@;
    let ghost f = |i: int| recovery_found(db@.recovered[i], classes, device, at_ms);
    let ghost g = |i: int| supersession_found(db@, db@.resolved[i], device, at_ms);
    let ghost start = violation_views(found@);
    let mut i: usize = 0;
    assert(violation_views(found@) =~= start + over(f, 0));
    while i < db.recovered.len()
        invariant
            i <= db.recovered@.len(),
            registry.classes.wf(),
            classes == registry.classes@,
            f == (|i: int| recovery_found(db@.recovered[i], classes, device, at_ms)),
            violation_views(found@) == start + over(f, i as nat),
        decreases db.recovered@.len() - i,
    {
        let ghost before = violation_views(found@);
        let r: &Recovered = &db.recovered[i];
        let class: Option<&ConflictClass> = registry.class_of(&r.entity);
        let (fine, text): (bool, String) = match class {
            None => (false, "None".to_owned()),
            Some(ConflictClass::OwnerDraft) => (true, "Some(OwnerDraft)".to_owned()),
            Some(ConflictClass::Other { name }) => {
                (false, "Some(".to_owned().concat(name.as_str()).concat(")"))
            },
        };
        assert(text@ =~= class_text(classes, r.entity@));
        if !fine {
            let mut detail: String = "a draft was recovered for command ".to_owned();
            detail.append(r.command_id.text().as_str());
            detail.append(" against entity ");
            detail.append(r.entity.as_str());
            detail.append(", whose class is ");
            detail.append(text.as_str());
            detail.append(" — only owner drafts have drafts to recover");
            report(found, "policy-conformance", device, detail, at_ms);
        }
        assert(violation_views(found@) =~= before + f(i as int));
        assert(violation_views(found@) =~= start + over(f, (i + 1) as nat));
        i = i + 1;
    }
    let ghost middle = violation_views(found@);
    let mut k: usize = 0;
    assert(violation_views(found@) =~= middle + over(g, 0));
    while k < db.resolved.len()
        invariant
            k <= db.resolved@.len(),
            g == (|i: int| supersession_found(db@, db@.resolved[i], device, at_ms)),
            violation_views(found@) == middle + over(g, k as nat),
        decreases db.resolved@.len() - k,
    {
        let ghost before = violation_views(found@);
        let r: &Resolved = &db.resolved[k];
        let superseded: bool = match &r.resolution {
            Resolution::Superseded => true,
            _ => false,
        };
        if superseded && !has_draft(db, r.id) {
            let detail: String = about_command(
                r.id,
                " was superseded but no draft was recovered; the user's edit is gone",
            );
            report(found, "policy-conformance", device, detail, at_ms);
        }
        assert(violation_views(found@) =~= before + g(k as int));
        assert(violation_views(found@) =~= middle + over(g, (k + 1) as nat));
        k = k + 1;
    }
    assert(violation_views(found@) =~= start + policy_found(db@, classes, device, at_ms));
}

/// A cursor at the start, for comparisons that need a baseline.
#[must_use]
pub fn start_cursor() -> (c: Cursor)
    ensures
        c.position == 0,
{
    Cursor::start()
}

} // verus!
