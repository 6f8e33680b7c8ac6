//! What the server decides around its database: how a migration is attempted and retried, which
//! watermark a read may use, and how rows become a page of changes.
//!
//! The statements themselves are run by the caller. Each function here takes what has happened
//! so far and says what to do next.
use crate::error::{ServerError, ServerErrorView};
use crate::protocol::Change;
use crate::pull::{row_fault, ChangeRow};
use crate::text::{decimal, push_decimal};
use vstd::prelude::*;
use vstd::string::*;

verus! {

/// How many times to retry a migration that could not get its locks. Bounded, so that a stuck
/// database fails loudly at start-up.
pub const MIGRATION_ATTEMPTS: u32 = 10;

/// How long the migration will wait for a lock before giving up and trying again.
pub const MIGRATION_LOCK_TIMEOUT_MS: u32 = 1_500;

/// How long a reader will wait for in-flight change-log writes before serving slightly stale data.
pub const WATERMARK_LOCK_TIMEOUT_MS: u32 = 250;

/// The advisory-lock key that serialises migration. Arbitrary but stable.
pub const MIGRATION_LOCK: i64 = 0x0000_c2ed_5900_0001;

/// The advisory-lock key that separates change-log writers from a reader establishing a
/// watermark. Distinct from [`MIGRATION_LOCK`].
pub const WRITER_LOCK: i64 = 0x0000_c2ed_5900_0002;

/// A statement that failed.
#[derive(Debug, PartialEq, Eq)]
pub struct SqlFailure {
    /// The database's code for the failure, where it comes from the database.
    pub code: Option<String>,
    /// The driver's description.
    pub detail: String,
}

/// The code of a statement that gave up waiting for a lock.
pub const LOCK_NOT_AVAILABLE: &'static str = "55P03";

/// What an optional code says.
pub open spec fn code_text(code: Option<String>) -> Option<Seq<char>> {
    match code {
        Some(c) => Some(c@),
        None => None,
    }
}

/// Whether a failure means that somebody else holds the lock, as opposed to a real failure.
/// Retrying anything else would be retrying a genuine problem.
pub fn is_lock_unavailable(e: &SqlFailure) -> (r: bool)
    ensures
        r == (code_text(e.code) == Some(LOCK_NOT_AVAILABLE@)),
{
    match &e.code {
        Some(code) => *code == LOCK_NOT_AVAILABLE.to_owned(),
        None => false,
    }
}

/// The outcome of one migration attempt. Losing a race for a lock is not an error.
#[derive(Debug)]
pub enum Attempt {
    /// The schema is applied.
    Done,
    /// Somebody else holds a lock this needs. Worth retrying.
    Contended {
        /// Which lock, for the message if the retries run out.
        by: String,
    },
    /// Something actually went wrong. Not worth retrying.
    Failed {
        /// The driver's description.
        detail: String,
    },
}

/// What the outcome of an attempt says.
pub enum AttemptView {
    Done,
    Contended { by: Seq<char> },
    Failed { detail: Seq<char> },
}

impl View for Attempt {
    type V = AttemptView;

    open spec fn view(&self) -> AttemptView {
        match self {
            Attempt::Done => AttemptView::Done,
            Attempt::Contended { by } => AttemptView::Contended { by: by@ },
            Attempt::Failed { detail } => AttemptView::Failed { detail: detail@ },
        }
    }
}

/// What to do after a migration attempt.
#[derive(Debug)]
pub enum MigrateStep {
    /// The schema is applied.
    Done,
    /// Wait this many milliseconds, then make attempt number `next`.
    Retry { wait_ms: u64, next: u32 },
    /// Wait this many milliseconds, then report the error: that was the last attempt.
    GiveUp { wait_ms: u64, error: ServerError },
    /// Report the error.
    Failed(ServerError),
}

/// What a step says.
pub enum MigrateStepView {
    Done,
    Retry { wait_ms: u64, next: u32 },
    GiveUp { wait_ms: u64, error: ServerErrorView },
    Failed(ServerErrorView),
}

impl View for MigrateStep {
    type V = MigrateStepView;

    open spec fn view(&self) -> MigrateStepView {
        match self {
            MigrateStep::Done => MigrateStepView::Done,
            MigrateStep::Retry { wait_ms, next } => MigrateStepView::Retry {
                wait_ms: *wait_ms,
                next: *next,
            },
            MigrateStep::GiveUp { wait_ms, error } => MigrateStepView::GiveUp {
                wait_ms: *wait_ms,
                error: error@,
            },
            MigrateStep::Failed(e) => MigrateStepView::Failed(e@),
        }
    }
}

/// What to do after attempt number `attempt`, counted from 0.
pub open spec fn migrate_step(attempt: u32, outcome: AttemptView) -> MigrateStepView {
    match outcome {
        AttemptView::Done => MigrateStepView::Done,
        AttemptView::Failed { detail } => MigrateStepView::Failed(
            ServerErrorView::Database { detail },
        ),
        AttemptView::Contended { by } => {
            let wait_ms = ((attempt + 1) * 100) as u64;
            if attempt + 1 < MIGRATION_ATTEMPTS {
                MigrateStepView::Retry { wait_ms, next: (attempt + 1) as u32 }
            } else {
                MigrateStepView::GiveUp {
                    wait_ms,
                    error: ServerErrorView::Database {
                        detail:
                            "the schema migration could not acquire its locks after 10 attempts; something is holding a transaction open on sync_changes ("@
                            + by + ")"@,
                    },
                }
            }
        },
    }
}

/// Decides what follows an attempt: a contended one is retried after a wait that grows with the
/// attempts, a real failure is not.
pub fn migrate(attempt: u32, outcome: Attempt) -> (s: MigrateStep)
    requires
        attempt < MIGRATION_ATTEMPTS,
    ensures
        s@ == migrate_step(attempt, outcome@),
        s matches MigrateStep::Retry { next, .. } ==> attempt < next < MIGRATION_ATTEMPTS,
{
    match outcome {
        Attempt::Done => MigrateStep::Done,
        Attempt::Failed { detail } => MigrateStep::Failed(ServerError::Database { detail }),
        Attempt::Contended { by } => {
            let wait_ms: u64 = (attempt as u64 + 1) * 100;
            if attempt + 1 < MIGRATION_ATTEMPTS {
                MigrateStep::Retry { wait_ms, next: attempt + 1 }
            } else {
                let mut detail: String =
                    "the schema migration could not acquire its locks after 10 attempts; something is holding a transaction open on sync_changes (".to_owned();
                detail.append(by.as_str());
                detail.append(")");
                MigrateStep::GiveUp { wait_ms, error: ServerError::Database { detail } }
            }
        },
    }
}

/// What has happened so far in one migration attempt.
#[derive(Debug)]
pub enum TryEvent {
    /// Nothing yet.
    Start,
    /// The lock timeout was set.
    TimeoutSet(Result<(), SqlFailure>),
    /// The advisory lock was tried, and this is whether it was granted.
    LockTried(Result<bool, SqlFailure>),
    /// The schema statements ran.
    Applied(Result<(), SqlFailure>),
    /// The advisory lock was released after the statements ran.
    Unlocked { applied: Result<(), SqlFailure>, unlocked: Result<(), SqlFailure> },
}

/// What to do next in one migration attempt.
#[derive(Debug)]
pub enum TryStep {
    /// Bound the time that a statement waits for a lock.
    SetTimeout,
    /// Try to take the advisory lock, without waiting for it.
    TryLock,
    /// Run the schema statements.
    Apply,
    /// Release the advisory lock, keeping what came of the statements.
    Unlock { applied: Result<(), SqlFailure> },
    /// Put the timeout back, best effort; then this is the outcome.
    ResetThen(Attempt),
    /// This is the outcome.
    Finish(Attempt),
}

/// What a failed statement says.
pub open spec fn sql_view(r: Result<(), SqlFailure>) -> Result<
    (),
    (Option<Seq<char>>, Seq<char>),
> {
    match r {
        Ok(()) => Ok(()),
        Err(e) => Err((code_text(e.code), e.detail@)),
    }
}

/// What a step says.
pub enum TryStepView {
    SetTimeout,
    TryLock,
    Apply,
    Unlock { applied: Result<(), (Option<Seq<char>>, Seq<char>)> },
    ResetThen(AttemptView),
    Finish(AttemptView),
}

impl View for TryStep {
    type V = TryStepView;

    open spec fn view(&self) -> TryStepView {
        match self {
            TryStep::SetTimeout => TryStepView::SetTimeout,
            TryStep::TryLock => TryStepView::TryLock,
            TryStep::Apply => TryStepView::Apply,
            TryStep::Unlock { applied } => TryStepView::Unlock { applied: sql_view(*applied) },
            TryStep::ResetThen(a) => TryStepView::ResetThen(a@),
            TryStep::Finish(a) => TryStepView::Finish(a@),
        }
    }
}

/// What a finished attempt comes to, given what came of the statements and of the release.
pub open spec fn attempt_outcome(
    applied: Result<(), SqlFailure>,
    unlocked: Result<(), SqlFailure>,
) -> AttemptView {
    match applied {
        Ok(()) => match unlocked {
            Ok(()) => AttemptView::Done,
            Err(e) => AttemptView::Failed { detail: e.detail@ },
        },
        Err(e) => if code_text(e.code) == Some(LOCK_NOT_AVAILABLE@) {
            AttemptView::Contended { by: "a transaction is holding a lock on sync_changes"@ }
        } else {
            AttemptView::Failed { detail: e.detail@ }
        },
    }
}

/// What an attempt does about what has happened.
pub open spec fn try_step(event: TryEvent) -> TryStepView {
    match event {
        TryEvent::Start => TryStepView::SetTimeout,
        TryEvent::TimeoutSet(Ok(())) => TryStepView::TryLock,
        TryEvent::TimeoutSet(Err(e)) => TryStepView::Finish(
            AttemptView::Failed { detail: e.detail@ },
        ),
        TryEvent::LockTried(Ok(true)) => TryStepView::Apply,
        TryEvent::LockTried(Ok(false)) => TryStepView::ResetThen(
            AttemptView::Contended { by: "another migration holds the advisory lock"@ },
        ),
        TryEvent::LockTried(Err(e)) => TryStepView::ResetThen(
            AttemptView::Failed { detail: e.detail@ },
        ),
        TryEvent::Applied(applied) => TryStepView::Unlock { applied: sql_view(applied) },
        TryEvent::Unlocked { applied, unlocked } => TryStepView::ResetThen(
            attempt_outcome(applied, unlocked),
        ),
    }
}

/// One attempt at the migration, with the locks bounded. The advisory lock is only ever tried:
/// the timeout does not apply to it, so waiting for it would be waiting without bound. Once it is
/// held it is released whatever happened.
pub fn try_migrate(event: TryEvent) -> (s: TryStep)
    ensures
        s@ == try_step(event),
{
    match event {
        TryEvent::Start => TryStep::SetTimeout,
        TryEvent::TimeoutSet(Ok(())) => TryStep::TryLock,
        TryEvent::TimeoutSet(Err(e)) => TryStep::Finish(Attempt::Failed { detail: e.detail }),
        TryEvent::LockTried(Err(e)) => TryStep::ResetThen(Attempt::Failed { detail: e.detail }),
        TryEvent::LockTried(Ok(got_lock)) => {
            if got_lock {
                TryStep::Apply
            } else {
                TryStep::ResetThen(
                    Attempt::Contended {
                        by: "another migration holds the advisory lock".to_owned(),
                    },
                )
            }
        },
        TryEvent::Applied(applied) => TryStep::Unlock { applied },
        TryEvent::Unlocked { applied, unlocked } => {
            let outcome: Attempt = match applied {
                Ok(()) => match unlocked {
                    Ok(()) => Attempt::Done,
                    Err(e) => Attempt::Failed { detail: e.detail },
                },
                Err(e) => if is_lock_unavailable(&e) {
                    Attempt::Contended {
                        by: "a transaction is holding a lock on sync_changes".to_owned(),
                    }
                } else {
                    Attempt::Failed { detail: e.detail }
                },
            };
            TryStep::ResetThen(outcome)
        },
    }
}

/// What has happened so far on the way to a watermark.
#[derive(Debug)]
pub enum WatermarkEvent {
    /// Nothing yet.
    Start,
    /// A transaction was begun.
    Began(Result<(), SqlFailure>),
    /// The lock timeout of the transaction was set.
    TimeoutSet(Result<(), SqlFailure>),
    /// The exclusive side of the writer lock was asked for.
    Locked(Result<(), SqlFailure>),
    /// The sequence was read and recorded under the lock.
    Recorded(Result<i64, SqlFailure>),
    /// The transaction was committed, after this came of establishing the watermark.
    Committed { established: Option<i64>, closed: Result<(), SqlFailure> },
    /// The last recorded watermark was looked up, if there is one.
    LookedUp(Result<Option<i64>, SqlFailure>),
}

/// What to do next on the way to a watermark.
#[derive(Debug)]
pub enum WatermarkStep {
    /// Begin a transaction.
    Begin,
    /// Bound the time that the transaction waits for a lock.
    SetTimeout,
    /// Ask for the exclusive side of the writer lock.
    Lock,
    /// Read the sequence and record it. Only under the lock: a number read before could still
    /// have an uncommitted write below it.
    Record,
    /// Commit, keeping what came of establishing the watermark.
    Commit { established: Option<i64> },
    /// Roll back, best effort, and look up the last recorded watermark.
    LookUp,
    /// This is the watermark.
    Use(i64),
    /// Report the error.
    Failed(ServerError),
}

/// What a step says.
pub enum WatermarkStepView {
    Begin,
    SetTimeout,
    Lock,
    Record,
    Commit { established: Option<i64> },
    LookUp,
    Use(i64),
    Failed(ServerErrorView),
}

impl View for WatermarkStep {
    type V = WatermarkStepView;

    open spec fn view(&self) -> WatermarkStepView {
        match self {
            WatermarkStep::Begin => WatermarkStepView::Begin,
            WatermarkStep::SetTimeout => WatermarkStepView::SetTimeout,
            WatermarkStep::Lock => WatermarkStepView::Lock,
            WatermarkStep::Record => WatermarkStepView::Record,
            WatermarkStep::Commit { established } => WatermarkStepView::Commit {
                established: *established,
            },
            WatermarkStep::LookUp => WatermarkStepView::LookUp,
            WatermarkStep::Use(w) => WatermarkStepView::Use(*w),
            WatermarkStep::Failed(e) => WatermarkStepView::Failed(e@),
        }
    }
}

/// What reading the watermark does about what has happened. A watermark that was established
/// counts once its transaction is committed. Anything else, a writer that holds the lock or a
/// failure, falls back on the last one recorded, which is stale but not wrong.
pub open spec fn watermark_step(event: WatermarkEvent) -> WatermarkStepView {
    match event {
        WatermarkEvent::Start => WatermarkStepView::Begin,
        WatermarkEvent::Began(Ok(())) => WatermarkStepView::SetTimeout,
        WatermarkEvent::Began(Err(e)) => WatermarkStepView::Failed(
            ServerErrorView::Database { detail: e.detail@ },
        ),
        WatermarkEvent::TimeoutSet(Ok(())) => WatermarkStepView::Lock,
        WatermarkEvent::TimeoutSet(Err(_)) => WatermarkStepView::Commit { established: None },
        WatermarkEvent::Locked(Ok(())) => WatermarkStepView::Record,
        WatermarkEvent::Locked(Err(_)) => WatermarkStepView::Commit { established: None },
        WatermarkEvent::Recorded(Ok(w)) => WatermarkStepView::Commit { established: Some(w) },
        WatermarkEvent::Recorded(Err(_)) => WatermarkStepView::Commit { established: None },
        WatermarkEvent::Committed { established: None, .. } => WatermarkStepView::LookUp,
        WatermarkEvent::Committed { established: Some(w), closed } => match closed {
            Ok(()) => WatermarkStepView::Use(w),
            Err(e) => WatermarkStepView::Failed(ServerErrorView::Database { detail: e.detail@ }),
        },
        WatermarkEvent::LookedUp(Ok(Some(w))) => WatermarkStepView::Use(w),
        WatermarkEvent::LookedUp(Ok(None)) => WatermarkStepView::Use(0),
        WatermarkEvent::LookedUp(Err(e)) => WatermarkStepView::Failed(
            ServerErrorView::Database { detail: e.detail@ },
        ),
    }
}

/// Finds the highest position that is certainly committed, and therefore safe to deliver up to.
///
/// A position is allocated when a row is inserted and becomes visible when its transaction
/// commits. Writers hold a shared lock for the length of their transaction, so at the moment the
/// exclusive side is granted every position handed out has committed.
pub fn safe_watermark(event: WatermarkEvent) -> (s: WatermarkStep)
    ensures
        s@ == watermark_step(event),
{
    match event {
        WatermarkEvent::Start => WatermarkStep::Begin,
        WatermarkEvent::Began(Ok(())) => WatermarkStep::SetTimeout,
        WatermarkEvent::Began(Err(e)) => {
            WatermarkStep::Failed(ServerError::Database { detail: e.detail })
        },
        WatermarkEvent::TimeoutSet(Ok(())) => WatermarkStep::Lock,
        WatermarkEvent::TimeoutSet(Err(_)) => WatermarkStep::Commit { established: None },
        WatermarkEvent::Locked(Ok(())) => WatermarkStep::Record,
        WatermarkEvent::Locked(Err(_)) => WatermarkStep::Commit { established: None },
        WatermarkEvent::Recorded(Ok(w)) => WatermarkStep::Commit { established: Some(w) },
        WatermarkEvent::Recorded(Err(_)) => WatermarkStep::Commit { established: None },
        WatermarkEvent::Committed { established, closed } => match established {
            None => WatermarkStep::LookUp,
            Some(w) => match closed {
                Ok(()) => WatermarkStep::Use(w),
                Err(e) => WatermarkStep::Failed(ServerError::Database { detail: e.detail }),
            },
        },
        WatermarkEvent::LookedUp(Ok(recorded)) => match recorded {
            Some(w) => WatermarkStep::Use(w),
            None => WatermarkStep::Use(0),
        },
        WatermarkEvent::LookedUp(Err(e)) => {
            WatermarkStep::Failed(ServerError::Database { detail: e.detail })
        },
    }
}

/// The cursor of a read of the log as the database holds it.
///
/// # Errors
/// [`ServerError::Corrupt`] if it does not fit.
pub fn log_cursor(cursor: u64) -> (r: Result<i64, ServerError>)
    ensures
        r is Ok <==> cursor <= i64::MAX,
        r matches Ok(c) ==> c == cursor,
        r matches Err(e) ==> e@ == (ServerErrorView::Corrupt {
            detail: "cursor "@ + decimal(cursor as nat) + " does not fit a bigint"@,
        }),
{
    if cursor <= 0x7fff_ffff_ffff_ffff {
        return Ok(cursor as i64);
    }
    let mut detail: String = "cursor ".to_owned();
    push_decimal(&mut detail, cursor);
    detail.append(" does not fit a bigint");
    Err(ServerError::Corrupt { detail })
}

/// The cursor of a bootstrap as the database holds it.
///
/// # Errors
/// [`ServerError::Corrupt`] if it does not fit.
pub fn bootstrap_cursor(after: u64) -> (r: Result<i64, ServerError>)
    ensures
        r is Ok <==> after <= i64::MAX,
        r matches Ok(c) ==> c == after,
        r matches Err(e) ==> e@ == (ServerErrorView::Corrupt {
            detail: "bootstrap cursor "@ + decimal(after as nat) + " does not fit a bigint"@,
        }),
{
    if after <= 0x7fff_ffff_ffff_ffff {
        return Ok(after as i64);
    }
    let mut detail: String = "bootstrap cursor ".to_owned();
    push_decimal(&mut detail, after);
    detail.append(" does not fit a bigint");
    Err(ServerError::Corrupt { detail })
}

/// One page of changes, and whether the row ceiling cut it short.
#[derive(Debug)]
pub struct Page {
    /// The changes read, in `seq` order.
    pub changes: Vec<Change>,
    /// Whether more rows exist beyond this page. The byte budget of a batch is not the only thing
    /// that can cut a read short.
    pub more_beyond: bool,
}

/// How many of `len` rows a page of `limit` takes: up to the limit, and all of them where the
/// limit is no count.
pub open spec fn taken(len: nat, limit: i64) -> nat {
    if 0 <= limit < len {
        limit as nat
    } else {
        len
    }
}

/// The changes are what the rows stand for, one for one.
pub open spec fn converted(rows: Seq<ChangeRow>, changes: Seq<Change>) -> bool {
    &&& changes.len() == rows.len()
    &&& forall|i: int|
        0 <= i < rows.len() ==> {
            let row = #[trigger] rows[i];
            let change = changes[i];
            &&& row_fault(row) is None
            &&& change@.seq == row.seq
            &&& change@.row == (row.entity->Ok_0@, row.entity_id->Ok_0@)
            &&& change@.op == (if row.op@ == "upsert"@ {
                crate::protocol::Op::Upsert
            } else {
                crate::protocol::Op::Delete
            })
            &&& change@.snapshot == match row.snapshot {
                Some(s) => Some(s->Ok_0@),
                None => None,
            }
            &&& change@.row_version == row.row_version
            &&& change@.schema_version == row.schema_version
        }
}

/// The first fault among some rows.
pub open spec fn first_row_fault(rows: Seq<ChangeRow>) -> Option<ServerErrorView>
    decreases rows.len(),
{
    if rows.len() == 0 {
        None
    } else {
        match row_fault(rows[0]) {
            Some(e) => Some(e),
            None => first_row_fault(rows.drop_first()),
        }
    }
}

/// How many rows of a read belong to its page. A read asks for one row more than `limit`, so that
/// it can tell whether there is more beyond the page.
pub fn page_size(read: usize, limit: i64) -> (n: usize)
    ensures
        n == taken(read as nat, limit),
{
    if limit >= 0 && (limit as u64) < read as u64 {
        limit as usize
    } else {
        read
    }
}

/// Makes a page of the rows that belong to it, out of a read that brought so many.
///
/// # Errors
/// [`ServerError::Corrupt`] for the first row that is not a valid change.
pub fn page(rows: Vec<ChangeRow>, read: usize, limit: i64) -> (r: Result<Page, ServerError>)
    ensures
        match first_row_fault(rows@) {
            Some(fault) => r matches Err(e) && e@ == fault,
            None => {
                &&& r matches Ok(p)
                &&& p.more_beyond == (read > limit)
                &&& converted(rows@, p.changes@)
            },
        },
{
    let more_beyond: bool = limit < 0 || read as u64 > limit as u64;
    let ghost all = rows@;
    let mut changes: Vec<Change> = Vec::new();
    assert(all.skip(0) == all);
    for row in it: rows
        invariant
            it.seq() == all,
            first_row_fault(all) == first_row_fault(all.skip(it.index())),
            converted(all.take(it.index()), changes@),
            all == rows@,
    {
        let ghost i = it.index();
        proof {
            assert(all.skip(i)[0] == row);
            assert(all.skip(i).drop_first() == all.skip(i + 1));
        }
        match row.into_change() {
            Err(e) => return Err(e),
            Ok(change) => {
                changes.push(change);
                assert(converted(all.take(i + 1), changes@)) by {
                    assert forall|j: int| 0 <= j < i + 1 implies #[trigger] all.take(i + 1)[j]
                        == all[j] by {}
                    assert forall|j: int| 0 <= j < i implies #[trigger] all.take(i)[j] == all[j] by {
                    }
                }
            },
        }
    }
    assert(all.take(all.len() as int) == all);
    Ok(Page { changes, more_beyond })
}

/// A migration ends: every retry is a later attempt, and there are only so many.
pub proof fn retries_end(attempt: u32, outcome: AttemptView)
    requires
        attempt < MIGRATION_ATTEMPTS,
    ensures
        migrate_step(attempt, outcome) matches MigrateStepView::Retry { next, .. } ==> attempt
            < next < MIGRATION_ATTEMPTS,
{
}

/// A lock that was taken for a migration is released, whatever came of the statements, before the
/// attempt is over.
pub proof fn a_taken_lock_is_released(applied: Result<(), SqlFailure>)
    ensures
        try_step(TryEvent::LockTried(Ok(true))) == TryStepView::Apply,
        try_step(TryEvent::Applied(applied)) == (TryStepView::Unlock {
            applied: sql_view(applied),
        }),
{
}

/// A watermark is used only once it is committed: it was established under the lock and its
/// transaction closed, or it is one that was recorded before, or nothing was ever recorded and
/// nothing is delivered.
pub proof fn only_committed_watermarks_are_used(event: WatermarkEvent, w: i64)
    requires
        watermark_step(event) == WatermarkStepView::Use(w),
    ensures
        event matches WatermarkEvent::Committed { established, closed } ==> established == Some(w)
            && closed is Ok,
        event matches WatermarkEvent::LookedUp(found) ==> (found matches Ok(f) && match f {
            Some(x) => x == w,
            None => w == 0,
        }),
        event is Committed || event is LookedUp,
{
}

/// The event answers the step that was asked for.
pub open spec fn reports(step: WatermarkStepView, event: WatermarkEvent) -> bool {
    match step {
        WatermarkStepView::Begin => event is Began,
        WatermarkStepView::SetTimeout => event is TimeoutSet,
        WatermarkStepView::Lock => event is Locked,
        WatermarkStepView::Record => event is Recorded,
        WatermarkStepView::Commit { established } => event matches WatermarkEvent::Committed {
            established: kept,
            ..
        } && kept == established,
        WatermarkStepView::LookUp => event is LookedUp,
        WatermarkStepView::Use(_) | WatermarkStepView::Failed(_) => false,
    }
}

/// A whole reading of the watermark: from the start, each event answers the step before it, until
/// there is a watermark or an error.
pub open spec fn is_reading(events: Seq<WatermarkEvent>, steps: Seq<WatermarkStepView>) -> bool {
    &&& events.len() == steps.len()
    &&& events.len() > 0
    &&& events[0] is Start
    &&& forall|i: int| 0 <= i < events.len() ==> #[trigger] steps[i] == watermark_step(events[i])
    &&& forall|i: int|
        0 <= i < events.len() - 1 ==> reports(#[trigger] steps[i], events[i + 1])
    &&& steps.last() is Use || steps.last() is Failed
}

/// Establishing a watermark failed: the timeout, the lock or the record.
pub open spec fn is_setback(event: WatermarkEvent) -> bool {
    ||| event matches WatermarkEvent::TimeoutSet(r) && r is Err
    ||| event matches WatermarkEvent::Locked(r) && r is Err
    ||| event matches WatermarkEvent::Recorded(r) && r is Err
}

/// A reading without failures establishes its watermark under the lock: it begins, sets the
/// timeout, locks, records and commits, in that order and nothing else, and what it recorded is
/// what it uses.
pub proof fn an_undisturbed_reading_uses_what_it_recorded(
    events: Seq<WatermarkEvent>,
    steps: Seq<WatermarkStepView>,
)
    requires
        is_reading(events, steps),
        forall|i: int|
            0 <= i < events.len() ==> !is_setback(#[trigger] events[i]) && (
            events[i] matches WatermarkEvent::Began(r) ==> r is Ok) && (
            events[i] matches WatermarkEvent::Committed { closed, .. } ==> closed is Ok),
    ensures
        events.len() == 6,
        events[4] matches WatermarkEvent::Recorded(r) && r is Ok,
        ({
            let w = events[4]->Recorded_0->Ok_0;
            steps == seq![
                WatermarkStepView::Begin,
                WatermarkStepView::SetTimeout,
                WatermarkStepView::Lock,
                WatermarkStepView::Record,
                WatermarkStepView::Commit { established: Some(w) },
                WatermarkStepView::Use(w),
            ]
        }),
{
    assert(steps[0] == watermark_step(events[0]));
    assert(reports(steps[0], events[1]));
    assert(steps[1] == watermark_step(events[1]));
    assert(reports(steps[1], events[2]));
    assert(steps[2] == watermark_step(events[2]));
    assert(reports(steps[2], events[3]));
    assert(steps[3] == watermark_step(events[3]));
    assert(reports(steps[3], events[4]));
    assert(steps[4] == watermark_step(events[4]));
    assert(reports(steps[4], events[5]));
    assert(steps[5] == watermark_step(events[5]));
    if events.len() > 6 {
        assert(reports(steps[5], events[6]));
    }
    assert(steps =~= seq![
        WatermarkStepView::Begin,
        WatermarkStepView::SetTimeout,
        WatermarkStepView::Lock,
        WatermarkStepView::Record,
        WatermarkStepView::Commit { established: Some(events[4]->Recorded_0->Ok_0) },
        WatermarkStepView::Use(events[4]->Recorded_0->Ok_0),
    ]);
}

/// What every reading comes to. It asks for the lock only after it has begun and set its timeout,
/// and reads the sequence only under the lock. A transaction that cannot begin is an error. A
/// recorded watermark is looked up exactly when the timeout, the lock or the record has failed, and
/// then it is the one used, nothing being delivered where none was ever recorded. One that was
/// established is used once it is committed, and is an error where that fails.
pub proof fn a_reading_falls_back_only_on_a_setback(
    events: Seq<WatermarkEvent>,
    steps: Seq<WatermarkStepView>,
)
    requires
        is_reading(events, steps),
    ensures
        steps[0] is Begin,
        events[1] matches WatermarkEvent::Began(r) && match r {
            Err(e) => events.len() == 2 && steps[1] == WatermarkStepView::Failed(
                ServerErrorView::Database { detail: e.detail@ },
            ),
            Ok(()) => steps[1] is SetTimeout,
        },
        forall|i: int|
            0 < i < steps.len() && (#[trigger] steps[i]) is Lock ==> i == 2
                && (events[2] matches WatermarkEvent::TimeoutSet(r) && r is Ok),
        forall|i: int|
            0 < i < steps.len() && (#[trigger] steps[i]) is Record ==> i == 3 && (
            events[3] matches WatermarkEvent::Locked(r) && r is Ok),
        forall|i: int|
            0 <= i < steps.len() && (#[trigger] steps[i]) is LookUp ==> i == steps.len() - 2
                && exists|j: int| 0 <= j < i && is_setback(#[trigger] events[j]),
        (exists|j: int| 0 <= j < events.len() && is_setback(#[trigger] events[j])) ==> {
            &&& steps[steps.len() - 2] is LookUp
            &&& events.last() matches WatermarkEvent::LookedUp(found) && match found {
                Ok(Some(w)) => steps.last() == WatermarkStepView::Use(w),
                Ok(None) => steps.last() == WatermarkStepView::Use(0),
                Err(e) => steps.last() == WatermarkStepView::Failed(
                    ServerErrorView::Database { detail: e.detail@ },
                ),
            }
        },
        (events[1] matches WatermarkEvent::Began(r) && r is Ok) && !(exists|j: int|
            0 <= j < events.len() && is_setback(#[trigger] events[j])) ==> {
            &&& events.len() == 6
            &&& events[4] matches WatermarkEvent::Recorded(Ok(w))
            &&& events[5] matches WatermarkEvent::Committed { closed, .. } && match closed {
                Ok(()) => steps[5] == WatermarkStepView::Use(w),
                Err(e) => steps[5] == WatermarkStepView::Failed(
                    ServerErrorView::Database { detail: e.detail@ },
                ),
            }
        },
{
    assert(steps[0] == watermark_step(events[0]));
    assert(reports(steps[0], events[1]));
    assert(steps[1] == watermark_step(events[1]));
    if events[1]->Began_0 is Ok {
        assert(reports(steps[1], events[2]));
        assert(steps[2] == watermark_step(events[2]));
        assert(reports(steps[2], events[3]));
        assert(steps[3] == watermark_step(events[3]));
        if is_setback(events[2]) {
            assert(reports(steps[3], events[4]));
            assert(steps[4] == watermark_step(events[4]));
            if events.len() > 5 {
                assert(reports(steps[4], events[5]));
            }
        } else {
            assert(reports(steps[3], events[4]));
            assert(steps[4] == watermark_step(events[4]));
            assert(reports(steps[4], events[5]));
            assert(steps[5] == watermark_step(events[5]));
            if is_setback(events[3]) {
                if events.len() > 6 {
                    assert(reports(steps[5], events[6]));
                }
            } else if is_setback(events[4]) {
                assert(reports(steps[5], events[6]));
                assert(steps[6] == watermark_step(events[6]));
                if events.len() > 7 {
                    assert(reports(steps[6], events[7]));
                }
            } else if events.len() > 6 {
                assert(reports(steps[5], events[6]));
            }
        }
    } else if events.len() > 2 {
        assert(reports(steps[1], events[2]));
    }
}

/// The event answers the step that was asked for.
pub open spec fn tells(step: TryStepView, event: TryEvent) -> bool {
    match step {
        TryStepView::SetTimeout => event is TimeoutSet,
        TryStepView::TryLock => event is LockTried,
        TryStepView::Apply => event is Applied,
        TryStepView::Unlock { applied } => event matches TryEvent::Unlocked { applied: kept, .. }
            && sql_view(kept) == applied,
        TryStepView::ResetThen(_) | TryStepView::Finish(_) => false,
    }
}

/// A whole attempt at the migration: from the start, each event answers the step before it, until
/// there is an outcome.
pub open spec fn is_attempt(events: Seq<TryEvent>, steps: Seq<TryStepView>) -> bool {
    &&& events.len() == steps.len()
    &&& events.len() > 0
    &&& events[0] is Start
    &&& forall|i: int| 0 <= i < events.len() ==> #[trigger] steps[i] == try_step(events[i])
    &&& forall|i: int| 0 <= i < events.len() - 1 ==> tells(#[trigger] steps[i], events[i + 1])
    &&& steps.last() is ResetThen || steps.last() is Finish
}

/// What an attempt ended with.
pub open spec fn attempt_end(step: TryStepView) -> AttemptView {
    match step {
        TryStepView::ResetThen(a) => a,
        TryStepView::Finish(a) => a,
        _ => AttemptView::Done,
    }
}

/// What every attempt comes to. The timeout is set before anything is locked. Without the lock no
/// statement runs, and the attempt is contended; with it the statements run, the lock is released
/// after them whatever came of them, and the attempt is done exactly when both worked. A statement
/// that gave up waiting for a lock makes the attempt contended, and any other failure is that
/// failure, in the database's words.
pub proof fn an_attempt_runs_under_its_lock(events: Seq<TryEvent>, steps: Seq<TryStepView>)
    requires
        is_attempt(events, steps),
    ensures
        steps[0] is SetTimeout,
        events[1] matches TryEvent::TimeoutSet(set) && match set {
            Err(e) => events.len() == 2 && attempt_end(steps[1]) == (AttemptView::Failed {
                detail: e.detail@,
            }),
            Ok(()) => steps[1] is TryLock && (events[2] matches TryEvent::LockTried(got) && match got {
                Err(e) => events.len() == 3 && attempt_end(steps[2]) == (AttemptView::Failed {
                    detail: e.detail@,
                }),
                Ok(false) => events.len() == 3 && attempt_end(steps[2]) is Contended,
                Ok(true) => events.len() == 5 && steps[2] is Apply && steps[3] is Unlock && (
                events[4] matches TryEvent::Unlocked { applied, unlocked } && (events[3] matches
                    TryEvent::Applied(ran) && sql_view(applied) == sql_view(ran)) && match applied {
                    Ok(()) => match unlocked {
                        Ok(()) => attempt_end(steps[4]) is Done,
                        Err(e) => attempt_end(steps[4]) == (AttemptView::Failed {
                            detail: e.detail@,
                        }),
                    },
                    Err(e) => if code_text(e.code) == Some("55P03"@) {
                        attempt_end(steps[4]) is Contended
                    } else {
                        attempt_end(steps[4]) == (AttemptView::Failed { detail: e.detail@ })
                    },
                }),
            }),
        },
{
    assert(steps[0] == try_step(events[0]));
    assert(tells(steps[0], events[1]));
    assert(steps[1] == try_step(events[1]));
    if steps[1] is TryLock {
        assert(tells(steps[1], events[2]));
        assert(steps[2] == try_step(events[2]));
        if steps[2] is Apply {
            assert(tells(steps[2], events[3]));
            assert(steps[3] == try_step(events[3]));
            assert(tells(steps[3], events[4]));
            assert(steps[4] == try_step(events[4]));
            if events.len() > 5 {
                assert(tells(steps[4], events[5]));
            }
        } else if events.len() > 3 {
            assert(tells(steps[2], events[3]));
        }
    } else if events.len() > 2 {
        assert(tells(steps[1], events[2]));
    }
}

/// What follows an attempt. One that is done is the end, and so is a failure, in the words it came
/// with. A contended one is made again, as the next of ten, after a wait of a tenth of a second for
/// each attempt made so far; the tenth is the last, and is an error after its own wait.
pub proof fn only_contention_is_retried(attempt: u32, outcome: Attempt, s: MigrateStep)
    requires
        attempt < 10,
        call_ensures(migrate, (attempt, outcome), s),
    ensures
        s is Done <==> outcome is Done,
        s is Failed <==> outcome is Failed,
        s is Retry <==> outcome is Contended && attempt < 9,
        s is GiveUp <==> outcome is Contended && attempt == 9,
        s matches MigrateStep::Retry { wait_ms, next } ==> next == attempt + 1 && wait_ms == 100 * (
        attempt + 1),
        s matches MigrateStep::GiveUp { wait_ms, error } ==> wait_ms == 1_000 && error@ is Database,
        s matches MigrateStep::Failed(e) ==> outcome matches Attempt::Failed { detail } && e@ == (
        ServerErrorView::Database { detail: detail@ }),
{
}

/// A cursor goes to the database as the number it is, or not at all.
pub proof fn a_cursor_is_kept_or_refused(
    cursor: u64,
    log: Result<i64, ServerError>,
    start: Result<i64, ServerError>,
)
    requires
        call_ensures(log_cursor, (cursor,), log),
        call_ensures(bootstrap_cursor, (cursor,), start),
    ensures
        log matches Ok(c) ==> c == cursor,
        start matches Ok(c) ==> c == cursor,
        log is Ok <==> cursor <= i64::MAX,
        start is Ok <==> cursor <= i64::MAX,
{
}

} // verus!
