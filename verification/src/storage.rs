//! A device's local database, and the storage that fails on demand over it.
//!
//! A transaction commits all of its operations or none. Storage can be told to fail the next one
//! before it commits, or to commit it and report a failure: the process died, or the storage
//! lied, between the write landing and the engine hearing about it.
use crate::ordered::{Key, OrderedMap};
use crate::protocol::{
    Command, CommandId, Cursor, EntityId, EntityName, HexString, Payload, Reason, RowKey,
    RowVersion, SchemaVersion, ScopeId, SeqNo, Snapshot,
};
use vstd::prelude::*;

verus! {

/// A row as a device holds it.
#[derive(Debug, PartialEq, Eq)]
pub struct StoredRow {
    /// The row's content.
    pub snapshot: Snapshot,
    /// Server-assigned version.
    pub row_version: RowVersion,
    /// The schema it was written under.
    pub schema_version: SchemaVersion,
}

impl Clone for StoredRow {
    fn clone(&self) -> (copy: Self)
        ensures
            copy == *self,
    {
        StoredRow {
            snapshot: self.snapshot.clone(),
            row_version: self.row_version,
            schema_version: self.schema_version,
        }
    }
}

/// What the next transaction should do instead of succeeding.
#[derive(Debug, Clone, Copy, PartialEq, Eq, Default, Structural)]
pub enum StorageVerdict {
    /// Commit normally.
    #[default]
    Commit,
    /// Fail without committing. Nothing is written.
    FailBeforeCommit,
    /// Commit, then report failure.
    CommitThenLoseAck,
}

/// What became of a command, as the device settled it.
#[derive(Debug, PartialEq, Eq)]
pub enum Resolution {
    /// The server applied it, and this is where it landed, if it said so.
    Applied { server_seq: Option<SeqNo> },
    /// A later write had already replaced it.
    Superseded,
    /// The server refused it. It is kept for the user to see.
    DeadLettered { reason: Reason },
}

impl Clone for Resolution {
    fn clone(&self) -> (copy: Self)
        ensures
            copy == *self,
    {
        match self {
            Resolution::Applied { server_seq } => Resolution::Applied { server_seq: *server_seq },
            Resolution::Superseded => Resolution::Superseded,
            Resolution::DeadLettered { reason } => Resolution::DeadLettered {
                reason: reason.clone(),
            },
        }
    }
}

/// One operation of a transaction.
#[derive(Debug, PartialEq, Eq)]
pub enum StorageOp {
    /// The row has this content now.
    UpsertRow {
        entity: EntityName,
        entity_id: EntityId,
        snapshot: Snapshot,
        row_version: RowVersion,
        schema_version: SchemaVersion,
    },
    /// The row is gone.
    DeleteRow { entity: EntityName, entity_id: EntityId },
    /// The device has every change of the scope up to here.
    SetCursor { scope: ScopeId, cursor: Cursor },
    /// The device's digest of the scope.
    SetScopeDigest { scope: ScopeId, digest: HexString },
    /// A command to hand in.
    EnqueueCommand { command: Command, schema_version: SchemaVersion },
    /// A command has been answered.
    ResolveCommand { id: CommandId, resolution: Resolution },
    /// A row that could not be migrated, with its content as it arrived.
    QuarantineRow {
        entity: EntityName,
        entity_id: EntityId,
        snapshot: Snapshot,
        schema_version: SchemaVersion,
        reason: String,
    },
    /// An edit that lost a conflict and is kept.
    SaveRecoveredDraft { entity: EntityName, command_id: CommandId, payload: Payload },
}

/// A command waiting to be handed in, and the schema it was written under.
#[derive(Debug, PartialEq, Eq)]
pub struct Queued {
    pub command: Command,
    pub schema_version: SchemaVersion,
}

impl Clone for Queued {
    fn clone(&self) -> (copy: Self)
        ensures
            copy == *self,
    {
        Queued { command: self.command.clone(), schema_version: self.schema_version }
    }
}

/// An answered command, and what became of it.
#[derive(Debug, PartialEq, Eq)]
pub struct Resolved {
    pub id: CommandId,
    pub resolution: Resolution,
}

impl Clone for Resolved {
    fn clone(&self) -> (copy: Self)
        ensures
            copy == *self,
    {
        Resolved { id: self.id, resolution: self.resolution.clone() }
    }
}

/// An edit that lost a conflict and was preserved.
#[derive(Debug, PartialEq, Eq)]
pub struct Recovered {
    pub command_id: CommandId,
    pub entity: EntityName,
    pub payload: Payload,
}

impl Clone for Recovered {
    fn clone(&self) -> (copy: Self)
        ensures
            copy == *self,
    {
        Recovered {
            command_id: self.command_id,
            entity: self.entity.clone(),
            payload: self.payload.clone(),
        }
    }
}

/// A row set aside because it could not be migrated, with its content exactly as it arrived.
#[derive(Debug, PartialEq, Eq)]
pub struct Quarantined {
    pub entity_id: EntityId,
    pub snapshot: Snapshot,
    pub schema_version: SchemaVersion,
    pub reason: String,
}

impl Clone for Quarantined {
    fn clone(&self) -> (copy: Self)
        ensures
            copy == *self,
    {
        Quarantined {
            entity_id: self.entity_id.clone(),
            snapshot: self.snapshot.clone(),
            schema_version: self.schema_version,
            reason: self.reason.clone(),
        }
    }
}

/// One device's local database.
#[derive(Debug)]
pub struct Db {
    /// Live rows.
    pub rows: OrderedMap<RowKey, StoredRow>,
    /// Per-scope cursors.
    pub cursors: OrderedMap<ScopeId, Cursor>,
    /// Per-scope digests, as the device last computed them.
    pub digests: OrderedMap<ScopeId, HexString>,
    /// Queued commands, oldest first.
    pub outbox: Vec<Queued>,
    /// Resolved commands and what happened to them.
    pub resolved: Vec<Resolved>,
    /// Edits that lost a conflict and were preserved.
    pub recovered: Vec<Recovered>,
    /// What the next transaction should do.
    pub verdict: StorageVerdict,
    /// Transactions that committed.
    pub commits: u64,
    /// Rows set aside because they could not be migrated.
    pub quarantine: Vec<Quarantined>,
    /// Every command id this device has ever enqueued.
    pub enqueued: OrderedMap<CommandId, ()>,
}

/// What a database holds.
#[verifier::ext_equal]
pub struct DbView {
    pub rows: Map<(Seq<char>, Seq<char>), StoredRow>,
    pub cursors: Map<Seq<char>, Cursor>,
    pub digests: Map<Seq<char>, HexString>,
    pub outbox: Seq<Queued>,
    pub resolved: Seq<Resolved>,
    pub recovered: Seq<Recovered>,
    pub verdict: StorageVerdict,
    pub commits: u64,
    pub quarantine: Seq<Quarantined>,
    pub enqueued: Set<u128>,
}

impl View for Db {
    type V = DbView;

    open spec fn view(&self) -> DbView {
        DbView {
            rows: self.rows@,
            cursors: self.cursors@,
            digests: self.digests@,
            outbox: self.outbox@,
            resolved: self.resolved@,
            recovered: self.recovered@,
            verdict: self.verdict,
            commits: self.commits,
            quarantine: self.quarantine@,
            enqueued: self.enqueued@.dom(),
        }
    }
}

/// What an empty database holds.
pub open spec fn empty_db() -> DbView {
    DbView {
        rows: Map::empty(),
        cursors: Map::empty(),
        digests: Map::empty(),
        outbox: Seq::empty(),
        resolved: Seq::empty(),
        recovered: Seq::empty(),
        verdict: StorageVerdict::Commit,
        commits: 0,
        quarantine: Seq::empty(),
        enqueued: Set::empty(),
    }
}

/// The queued commands but those with this id, in their order.
pub open spec fn queue_without(queue: Seq<Queued>, id: u128) -> Seq<Queued> {
    queue.filter(|q: Queued| q.command.id.raw != id)
}

/// What a database holds after one operation.
pub open spec fn applied(db: DbView, op: StorageOp) -> DbView {
    match op {
        StorageOp::UpsertRow {
            entity,
            entity_id,
            snapshot,
            row_version,
            schema_version,
        } => DbView {
            rows: db.rows.insert(
                (entity@, entity_id@),
                StoredRow { snapshot, row_version, schema_version },
            ),
            ..db
        },
        StorageOp::DeleteRow { entity, entity_id } => DbView {
            rows: db.rows.remove((entity@, entity_id@)),
            ..db
        },
        StorageOp::SetCursor { scope, cursor } => DbView {
            cursors: db.cursors.insert(scope@, cursor),
            ..db
        },
        StorageOp::SetScopeDigest { scope, digest } => DbView {
            digests: db.digests.insert(scope@, digest),
            ..db
        },
        StorageOp::EnqueueCommand { command, schema_version } => DbView {
            outbox: db.outbox.push(Queued { command, schema_version }),
            enqueued: db.enqueued.insert(command.id.raw),
            ..db
        },
        StorageOp::ResolveCommand { id, resolution } => DbView {
            outbox: queue_without(db.outbox, id.raw),
            resolved: db.resolved.push(Resolved { id, resolution }),
            ..db
        },
        StorageOp::QuarantineRow {
            entity,
            entity_id,
            snapshot,
            schema_version,
            reason,
        } => DbView {
            quarantine: db.quarantine.push(
                Quarantined { entity_id, snapshot, schema_version, reason },
            ),
            ..db
        },
        StorageOp::SaveRecoveredDraft { entity, command_id, payload } => DbView {
            recovered: db.recovered.push(Recovered { command_id, entity, payload }),
            ..db
        },
    }
}

/// What a database holds after some operations, one after the other.
pub open spec fn applied_all(db: DbView, ops: Seq<StorageOp>) -> DbView
    decreases ops.len(),
{
    if ops.len() == 0 {
        db
    } else {
        applied(applied_all(db, ops.drop_last()), ops.last())
    }
}

/// Why storage failed.
#[derive(Debug, PartialEq, Eq)]
pub enum StorageError {
    /// It may work another time.
    Transient { detail: String },
}

/// What a transaction did: how many operations it carried.
#[derive(Debug, Clone, Copy, PartialEq, Eq)]
pub struct TxOutcome {
    pub applied: usize,
}

fn without(queue: &Vec<Queued>, id: CommandId) -> (rest: Vec<Queued>)
    ensures
        rest@ == queue_without(queue@, id.raw),
{
    let ghost keep = |q: Queued| q.command.id.raw != id.raw;
    let mut rest: Vec<Queued> = Vec::new();
    let mut i: usize = 0;
    reveal(Seq::filter);
    assert(queue@.take(0).filter(keep) =~= rest@);
    while i < queue.len()
        invariant
            i <= queue@.len(),
            keep == (|q: Queued| q.command.id.raw != id.raw),
            rest@ == queue@.take(i as int).filter(keep),
        decreases queue@.len() - i,
    {
        proof {
            reveal(Seq::filter);
            let next = queue@.take(i + 1);
            assert(next.drop_last() =~= queue@.take(i as int));
            assert(next.last() == queue@[i as int]);
        }
        if queue[i].command.id.raw != id.raw {
            rest.push(queue[i].clone());
        }
        i = i + 1;
    }
    assert(queue@.take(i as int) =~= queue@);
    rest
}

/// A copied map holds the same.
proof fn copy_is_same<K: Key, T>(a: &OrderedMap<K, T>, b: &OrderedMap<K, T>)
    requires
        a.wf(),
        a.entries() == b.entries(),
    ensures
        b.wf(),
        b@ == a@,
{
    assert forall|k: K::Model, i: int| a.has_at(k, i) == b.has_at(k, i) by {}
    assert forall|k: K::Model| #[trigger] a@.dom().contains(k) == b@.dom().contains(k) by {
        if a@.dom().contains(k) {
            let i = a.key_has_entry(k);
            assert(b.has_at(k, i));
        }
        if b@.dom().contains(k) {
            let i = b.key_has_entry(k);
            assert(a.has_at(k, i));
        }
    }
    assert forall|k: K::Model| a@.dom().contains(k) implies a@[k] == b@[k] by {
        let i = a.key_has_entry(k);
        b.entry_in_view(i);
    }
    assert(b@ =~= a@);
}

fn copy_vec<T: Clone>(v: &Vec<T>) -> (c: Vec<T>)
    ensures
        c@.len() == v@.len(),
        forall|i: int| 0 <= i < v@.len() ==> cloned(#[trigger] v@[i], c@[i]),
{
    let mut c: Vec<T> = Vec::new();
    let mut i: usize = 0;
    while i < v.len()
        invariant
            i <= v@.len(),
            c@.len() == i,
            forall|j: int| 0 <= j < i ==> cloned(#[trigger] v@[j], c@[j]),
        decreases v@.len() - i,
    {
        c.push(v[i].clone());
        i = i + 1;
    }
    c
}

impl Db {
    /// The maps of the database are in order.
    pub open spec fn wf(&self) -> bool {
        self.rows.wf() && self.cursors.wf() && self.digests.wf() && self.enqueued.wf()
    }

    /// An empty database.
    pub fn new() -> (db: Self)
        ensures
            db.wf(),
            db@ == empty_db(),
    {
        Db {
            rows: OrderedMap::new(),
            cursors: OrderedMap::new(),
            digests: OrderedMap::new(),
            outbox: Vec::new(),
            resolved: Vec::new(),
            recovered: Vec::new(),
            verdict: StorageVerdict::Commit,
            commits: 0,
            quarantine: Vec::new(),
            enqueued: OrderedMap::new(),
        }
    }

    /// Every command id this device has ever enqueued, in ascending order.
    #[must_use]
    pub fn enqueued_ids(&self) -> (ids: Vec<CommandId>)
        requires
            self.wf(),
        ensures
            forall|i: int, j: int| 0 <= i < j < ids@.len() ==> ids@[i].raw < ids@[j].raw,
            forall|id: u128|
                self@.enqueued.contains(id) <==> exists|i: int|
                    0 <= i < ids@.len() && (#[trigger] ids@[i]).raw == id,
    {
        let mut ids: Vec<CommandId> = Vec::new();
        let n: usize = self.enqueued.len();
        let mut i: usize = 0;
        while i < n
            invariant
                i <= n,
                n == self.enqueued.entries().len(),
                ids@.len() == i,
                forall|j: int| 0 <= j < i ==> ids@[j] == (#[trigger] self.enqueued.entries()[j]).0,
            decreases n - i,
        {
            ids.push(*self.enqueued.key_at(i));
            i = i + 1;
        }
        proof {
            assert forall|i: int, j: int| 0 <= i < j < ids@.len() implies ids@[i].raw
                < ids@[j].raw by {
                assert(CommandId::below(
                    self.enqueued.entries()[i].0.model(),
                    self.enqueued.entries()[j].0.model(),
                ));
            }
            assert forall|id: u128|
                self@.enqueued.contains(id) <==> exists|i: int|
                    0 <= i < ids@.len() && (#[trigger] ids@[i]).raw == id by {
                if self@.enqueued.contains(id) {
                    let i = self.enqueued.key_has_entry(id);
                    assert(ids@[i].raw == id);
                }
                if exists|i: int| 0 <= i < ids@.len() && (#[trigger] ids@[i]).raw == id {
                    let i = choose|i: int| 0 <= i < ids@.len() && (#[trigger] ids@[i]).raw == id;
                    self.enqueued.entry_in_view(i);
                }
            }
        }
        ids
    }

    /// A copy of this database. Not a `Clone` impl: a database is a device's whole durable state,
    /// and copying it is not a casual thing.
    #[must_use]
    pub fn clone_for_test(&self) -> (copy: Self)
        requires
            self.wf(),
        ensures
            copy.wf(),
            copy@ == self@,
    {
        let copy = Db {
            rows: self.rows.copied(),
            cursors: self.cursors.copied(),
            digests: self.digests.copied(),
            outbox: copy_vec(&self.outbox),
            resolved: copy_vec(&self.resolved),
            recovered: copy_vec(&self.recovered),
            verdict: self.verdict,
            commits: self.commits,
            quarantine: copy_vec(&self.quarantine),
            enqueued: self.enqueued.copied(),
        };
        proof {
            assert(copy.rows.entries() =~= self.rows.entries());
            assert(copy.cursors.entries() =~= self.cursors.entries());
            assert(copy.digests.entries() =~= self.digests.entries());
            assert(copy.enqueued.entries() =~= self.enqueued.entries());
            copy_is_same(&self.rows, &copy.rows);
            copy_is_same(&self.cursors, &copy.cursors);
            copy_is_same(&self.digests, &copy.digests);
            copy_is_same(&self.enqueued, &copy.enqueued);
            assert(copy.outbox@ =~= self.outbox@);
            assert(copy.resolved@ =~= self.resolved@);
            assert(copy.recovered@ =~= self.recovered@);
            assert(copy.quarantine@ =~= self.quarantine@);
        }
        copy
    }

    fn apply(&mut self, op: &StorageOp)
        requires
            old(self).wf(),
        ensures
            final(self).wf(),
            final(self)@ == applied(old(self)@, *op),
    {
        match op {
            StorageOp::UpsertRow { entity, entity_id, snapshot, row_version, schema_version } => {
                let key = RowKey { entity: entity.clone(), entity_id: entity_id.clone() };
                let row = StoredRow {
                    snapshot: snapshot.clone(),
                    row_version: *row_version,
                    schema_version: *schema_version,
                };
                self.rows.insert(key, row);
            },
            StorageOp::DeleteRow { entity, entity_id } => {
                let key = RowKey { entity: entity.clone(), entity_id: entity_id.clone() };
                self.rows.remove(&key);
            },
            StorageOp::SetCursor { scope, cursor } => {
                self.cursors.insert(scope.clone(), *cursor);
            },
            StorageOp::SetScopeDigest { scope, digest } => {
                self.digests.insert(scope.clone(), digest.clone());
            },
            StorageOp::EnqueueCommand { command, schema_version } => {
                let ghost before = self.enqueued@.dom();
                self.outbox.push(
                    Queued { command: command.clone(), schema_version: *schema_version },
                );
                self.enqueued.insert(command.id, ());
                assert(self.enqueued@.dom() =~= before.insert(command.id.raw));
            },
            StorageOp::ResolveCommand { id, resolution } => {
                self.outbox = without(&self.outbox, *id);
                self.resolved.push(Resolved { id: *id, resolution: resolution.clone() });
            },
            StorageOp::QuarantineRow { entity, entity_id, snapshot, schema_version, reason } => {
                self.quarantine.push(
                    Quarantined {
                        entity_id: entity_id.clone(),
                        snapshot: snapshot.clone(),
                        schema_version: *schema_version,
                        reason: reason.clone(),
                    },
                );
            },
            StorageOp::SaveRecoveredDraft { entity, command_id, payload } => {
                self.recovered.push(
                    Recovered {
                        command_id: *command_id,
                        entity: entity.clone(),
                        payload: payload.clone(),
                    },
                );
            },
        }
    }

    /// Applies operations to a copy, so that a rollback discards work that was really performed.
    pub fn staged(&self, ops: &Vec<StorageOp>) -> (next: Self)
        requires
            self.wf(),
        ensures
            next.wf(),
            next@ == applied_all(DbView { verdict: StorageVerdict::Commit, ..self@ }, ops@),
    {
        let mut next: Db = self.clone_for_test();
        next.verdict = StorageVerdict::Commit;
        let ghost base = next@;
        let mut i: usize = 0;
        assert(base =~= DbView { verdict: StorageVerdict::Commit, ..self@ });
        assert(applied_all(base, ops@.take(0)) == base);
        while i < ops.len()
            invariant
                i <= ops@.len(),
                next.wf(),
                next@ == applied_all(base, ops@.take(i as int)),
            decreases ops@.len() - i,
        {
            proof {
                let more = ops@.take(i + 1);
                assert(more.drop_last() =~= ops@.take(i as int));
                assert(more.last() == ops@[i as int]);
            }
            next.apply(&ops[i]);
            i = i + 1;
        }
        assert(ops@.take(i as int) =~= ops@);
        next
    }
}

impl Default for Db {
    fn default() -> (db: Self)
        ensures
            db.wf(),
            db@ == empty_db(),
    {
        Db::new()
    }
}

/// Storage over one device's [`Db`], with fault injection.
#[derive(Debug)]
pub struct SimStorage(pub Db);

impl Default for SimStorage {
    fn default() -> (s: Self)
        ensures
            s.0.wf(),
            s.0@ == empty_db(),
    {
        SimStorage(Db::new())
    }
}

/// What a database holds after a transaction was asked of it: the operations unless it failed
/// before the commit, and one more commit; and the next transaction is in order again.
pub open spec fn transacted(db: DbView, ops: Seq<StorageOp>) -> DbView {
    let ready = DbView { verdict: StorageVerdict::Commit, ..db };
    match db.verdict {
        StorageVerdict::FailBeforeCommit => ready,
        _ => {
            let next = applied_all(ready, ops);
            DbView { commits: (next.commits + 1) as u64, ..next }
        },
    }
}

proof fn commits_stay(db: DbView, ops: Seq<StorageOp>)
    ensures
        applied_all(db, ops).commits == db.commits,
        applied_all(db, ops).verdict == db.verdict,
    decreases ops.len(),
{
    if ops.len() > 0 {
        commits_stay(db, ops.drop_last());
    }
}

impl SimStorage {
    /// An empty database.
    #[must_use]
    pub fn new() -> (s: Self)
        ensures
            s.0.wf(),
            s.0@ == empty_db(),
    {
        SimStorage(Db::new())
    }

    /// Runs a transaction: all of the operations or none.
    ///
    /// # Errors
    /// [`StorageError::Transient`] if the storage was told to fail it, whether or not it
    /// committed.
    pub fn transact(&mut self, ops: &Vec<StorageOp>) -> (r: Result<TxOutcome, StorageError>)
        requires
            old(self).0.wf(),
            old(self).0.commits < u64::MAX,
        ensures
            final(self).0.wf(),
            final(self).0@ == transacted(old(self).0@, ops@),
            match old(self).0.verdict {
                StorageVerdict::Commit => r == Ok::<TxOutcome, StorageError>(
                    TxOutcome { applied: ops.len() },
                ),
                StorageVerdict::FailBeforeCommit => {
                    &&& r matches Err(StorageError::Transient { detail })
                    &&& detail@ == "simulated failure before commit"@
                },
                StorageVerdict::CommitThenLoseAck => {
                    &&& r matches Err(StorageError::Transient { detail })
                    &&& detail@ == "simulated kill between commit and acknowledgement"@
                },
            },
    {
        let verdict: StorageVerdict = self.0.verdict;
        self.0.verdict = StorageVerdict::Commit;
        let mut staged: Db = self.0.staged(ops);
        proof {
            commits_stay(self.0@, ops@);
        }
        match verdict {
            StorageVerdict::FailBeforeCommit => {
                return Err(
                    StorageError::Transient { detail: "simulated failure before commit".to_owned() },
                );
            },
            StorageVerdict::Commit | StorageVerdict::CommitThenLoseAck => {
                let commits: u64 = staged.commits + 1;
                staged.commits = commits;
                self.0 = staged;
            },
        }
        match verdict {
            StorageVerdict::CommitThenLoseAck => Err(
                StorageError::Transient {
                    detail: "simulated kill between commit and acknowledgement".to_owned(),
                },
            ),
            _ => Ok(TxOutcome { applied: ops.len() }),
        }
    }

    /// The version of a row, where the device holds it.
    ///
    /// # Errors
    /// None.
    pub fn row_version(&self, entity: &EntityName, entity_id: &EntityId) -> (r: Result<
        Option<RowVersion>,
        StorageError,
    >)
        requires
            self.0.wf(),
        ensures
            r == Ok::<Option<RowVersion>, StorageError>(
                if self.0@.rows.dom().contains((entity@, entity_id@)) {
                    Some(self.0@.rows[(entity@, entity_id@)].row_version)
                } else {
                    None
                },
            ),
    {
        let key = RowKey { entity: entity.clone(), entity_id: entity_id.clone() };
        match self.0.rows.get(&key) {
            Some(row) => Ok(Some(row.row_version)),
            None => Ok(None),
        }
    }
}

/// Some queued command has this id.
pub open spec fn is_queued(db: DbView, id: u128) -> bool {
    exists|i: int| 0 <= i < db.outbox.len() && (#[trigger] db.outbox[i]).command.id.raw == id
}

/// Some resolved command has this id.
pub open spec fn is_resolved(db: DbView, id: u128) -> bool {
    exists|i: int| 0 <= i < db.resolved.len() && (#[trigger] db.resolved[i]).id.raw == id
}

/// Nothing is lost: every command ever enqueued is queued still or has been resolved.
pub open spec fn nothing_lost(db: DbView) -> bool {
    forall|id: u128| #[trigger] db.enqueued.contains(id) ==> is_queued(db, id) || is_resolved(db, id)
}

proof fn filter_keeps(s: Seq<Queued>, id: u128, i: int)
    requires
        0 <= i < s.len(),
        s[i].command.id.raw != id,
    ensures
        exists|j: int|
            0 <= j < queue_without(s, id).len() && #[trigger] queue_without(s, id)[j] == s[i],
    decreases s.len(),
{
    reveal(Seq::filter);
    let rest = queue_without(s.drop_last(), id);
    if i == s.len() - 1 {
        assert(queue_without(s, id)[rest.len() as int] == s[i]);
    } else {
        filter_keeps(s.drop_last(), id, i);
        let j = choose|j: int| 0 <= j < rest.len() && #[trigger] rest[j] == s.drop_last()[i];
        assert(queue_without(s, id)[j] == s[i]);
    }
}

proof fn one_operation_loses_nothing(db: DbView, op: StorageOp)
    requires
        nothing_lost(db),
    ensures
        nothing_lost(applied(db, op)),
{
    let next = applied(db, op);
    assert forall|id: u128| #[trigger] next.enqueued.contains(id) implies is_queued(next, id)
        || is_resolved(next, id) by {
        match op {
            StorageOp::EnqueueCommand { command, schema_version } => {
                if id == command.id.raw {
                    assert(next.outbox[db.outbox.len() as int].command.id.raw == id);
                } else if is_queued(db, id) {
                    let i = choose|i: int|
                        0 <= i < db.outbox.len() && (#[trigger] db.outbox[i]).command.id.raw == id;
                    assert(next.outbox[i].command.id.raw == id);
                } else {
                    assert(db.enqueued.contains(id));
                }
            },
            StorageOp::ResolveCommand { id: answered, resolution } => {
                assert(db.enqueued.contains(id));
                if id == answered.raw {
                    assert(next.resolved[db.resolved.len() as int].id.raw == id);
                } else if is_queued(db, id) {
                    let i = choose|i: int|
                        0 <= i < db.outbox.len() && (#[trigger] db.outbox[i]).command.id.raw == id;
                    filter_keeps(db.outbox, answered.raw, i);
                    let rest = queue_without(db.outbox, answered.raw);
                    let j = choose|j: int| 0 <= j < rest.len() && #[trigger] rest[j] == db.outbox[i];
                    assert(next.outbox[j].command.id.raw == id);
                } else {
                    let i = choose|i: int|
                        0 <= i < db.resolved.len() && (#[trigger] db.resolved[i]).id.raw == id;
                    assert(next.resolved[i].id.raw == id);
                }
            },
            _ => {
                assert(db.enqueued.contains(id));
                if is_queued(db, id) {
                    let i = choose|i: int|
                        0 <= i < db.outbox.len() && (#[trigger] db.outbox[i]).command.id.raw == id;
                    assert(next.outbox[i].command.id.raw == id);
                } else {
                    let i = choose|i: int|
                        0 <= i < db.resolved.len() && (#[trigger] db.resolved[i]).id.raw == id;
                    assert(next.resolved[i].id.raw == id);
                }
            },
        }
    }
}

proof fn operations_lose_nothing(db: DbView, ops: Seq<StorageOp>)
    requires
        nothing_lost(db),
    ensures
        nothing_lost(applied_all(db, ops)),
    decreases ops.len(),
{
    if ops.len() > 0 {
        operations_lose_nothing(db, ops.drop_last());
        one_operation_loses_nothing(applied_all(db, ops.drop_last()), ops.last());
    }
}

/// No transaction loses a command, whatever it does and however it ends: what was enqueued is
/// queued still or has been resolved.
pub proof fn transactions_lose_nothing(db: DbView, ops: Seq<StorageOp>)
    requires
        nothing_lost(db),
    ensures
        nothing_lost(transacted(db, ops)),
{
    let ready = DbView { verdict: StorageVerdict::Commit, ..db };
    assert(nothing_lost(ready)) by {
        assert forall|id: u128| #[trigger] ready.enqueued.contains(id) implies is_queued(ready, id)
            || is_resolved(ready, id) by {
            assert(db.enqueued.contains(id));
            if is_queued(db, id) {
                let i = choose|i: int|
                    0 <= i < db.outbox.len() && (#[trigger] db.outbox[i]).command.id.raw == id;
                assert(ready.outbox[i].command.id.raw == id);
            }
            assert(is_resolved(db, id) ==> is_resolved(ready, id));
        }
    }
    operations_lose_nothing(ready, ops);
    let next = applied_all(ready, ops);
    let done = DbView { commits: (next.commits + 1) as u64, ..next };
    assert forall|id: u128| #[trigger] done.enqueued.contains(id) implies is_queued(done, id)
        || is_resolved(done, id) by {
        assert(next.enqueued.contains(id));
        if is_queued(next, id) {
            let i = choose|i: int|
                0 <= i < next.outbox.len() && (#[trigger] next.outbox[i]).command.id.raw == id;
            assert(done.outbox[i].command.id.raw == id);
        }
        assert(is_resolved(next, id) ==> is_resolved(done, id));
    }
}

/// A transaction is atomic: it leaves the contents as they were, or with every operation applied,
/// and which of the two does not depend on whether success was reported.
pub proof fn transactions_are_atomic(db: DbView, ops: Seq<StorageOp>)
    ensures
        db.verdict == StorageVerdict::FailBeforeCommit ==> transacted(db, ops) == (DbView {
            verdict: StorageVerdict::Commit,
            ..db
        }),
        db.verdict != StorageVerdict::FailBeforeCommit ==> transacted(db, ops) == transacted(
            DbView { verdict: StorageVerdict::Commit, ..db },
            ops,
        ),
{
}

} // verus!
