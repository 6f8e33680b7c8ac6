//! Command dedupe and the result store.
//!
//! The table of results is a security boundary, not a cache. A replay is only a replay when the
//! body matches: returning the recorded success for any reuse of a known id would be a way to
//! launder tampered commands. So every record holds the checksum of the body it was made for,
//! and a reuse with another body is a distinct invalid request.
//!
//! Reading and writing the table is the caller's: [`classify`] takes the row that was found, and
//! [`record`] says step by step what to do to the table.
use crate::codec::{is_function, is_weighed, payload_checksum, payload_with, Codec};
use crate::error::{corrupt, corruption, ServerError, ServerErrorView};
use crate::protocol::{
    id_text, Command, CommandId, CommandResult, HexString, ProtocolError, Reason, ResultView, SeqNo,
    Status,
};
use crate::text::{push_signed_padded, signed_padded};
use vstd::prelude::*;
use vstd::string::*;

verus! {

/// What the server decided about a submitted command.
#[derive(Debug, PartialEq, Eq)]
pub enum Decision {
    /// No record existed; this submission is the first and should be applied.
    Fresh,
    /// A record exists and the payload matches. The recorded outcome is returned without
    /// re-applying anything.
    Replay(CommandResult),
    /// A record exists and the payload does not match. Refused as a distinct invalid request.
    Mutated {
        /// The checksum recorded when the command was first accepted.
        recorded: String,
        /// The checksum of the body just submitted.
        submitted: String,
    },
}

/// Counts of what the dedupe table has been asked.
#[derive(Debug, Clone, Copy, Default, PartialEq, Eq)]
pub struct DedupeStats {
    /// Submissions with no prior record.
    pub fresh: u64,
    /// Submissions that matched a record exactly and returned it.
    pub replays: u64,
    /// Submissions that reused an id with a different body.
    pub mutated: u64,
}

impl DedupeStats {
    /// Every submission seen.
    #[must_use]
    pub fn total(&self) -> (n: u64)
        requires
            self.fresh + self.replays + self.mutated <= u64::MAX,
        ensures
            n == self.fresh + self.replays + self.mutated,
    {
        self.fresh + self.replays + self.mutated
    }
}

/// What the store already holds for a command id.
#[derive(Debug, PartialEq, Eq)]
pub struct Recorded {
    /// The checksum of the body that produced the recorded outcome.
    pub checksum: String,
    /// What was decided.
    pub result: CommandResult,
}

/// What a decision says.
pub enum DecisionView {
    Fresh,
    Replay(ResultView),
    Mutated { recorded: Seq<char>, submitted: Seq<char> },
}

impl View for Decision {
    type V = DecisionView;

    open spec fn view(&self) -> DecisionView {
        match self {
            Decision::Fresh => DecisionView::Fresh,
            Decision::Replay(r) => DecisionView::Replay(r@),
            Decision::Mutated { recorded, submitted } => DecisionView::Mutated {
                recorded: recorded@,
                submitted: submitted@,
            },
        }
    }
}

/// What a record says: the checksum of the body, and the answer given.
pub struct RecordedView {
    pub checksum: Seq<char>,
    pub result: ResultView,
}

impl View for Recorded {
    type V = RecordedView;

    open spec fn view(&self) -> RecordedView {
        RecordedView { checksum: self.checksum@, result: self.result@ }
    }
}

/// The checksum of a command's body, where it can be encoded.
pub open spec fn body_checksum(command: Command) -> Option<Seq<char>> {
    command.payload.sum()
}

/// The whole dedupe rule, given the checksum of the body and what is recorded for the id.
pub open spec fn decision(
    submitted: Option<Seq<char>>,
    recorded: Option<RecordedView>,
) -> Result<DecisionView, ServerErrorView> {
    match submitted {
        None => Err(
            ServerErrorView::Corrupt {
                detail: "a submitted payload could not be encoded for checksumming"@,
            },
        ),
        Some(body) => match recorded {
            None => Ok(DecisionView::Fresh),
            Some(r) => if r.checksum == body {
                Ok(DecisionView::Replay(r.result))
            } else {
                Ok(DecisionView::Mutated { recorded: r.checksum, submitted: body })
            },
        },
    }
}

/// A decision or the reason there is none, as what it says.
pub open spec fn decision_result(
    r: Result<Decision, ServerError>,
) -> Result<DecisionView, ServerErrorView> {
    match r {
        Ok(d) => Ok(d@),
        Err(e) => Err(e@),
    }
}

/// Decides what a submission is, given the checksum of its body and whatever the store holds for
/// its id.
fn decide_body(submitted: Option<&HexString>, recorded: Option<&Recorded>) -> (r: Result<
    Decision,
    ServerError,
>)
    ensures
        decision_result(r) == decision(
            match submitted {
                Some(h) => Some(h@),
                None => None,
            },
            match recorded {
                Some(x) => Some(x@),
                None => None,
            },
        ),
{
    let submitted: &HexString = match submitted {
        Some(h) => h,
        None => return Err(
            ServerError::Corrupt {
                detail: "a submitted payload could not be encoded for checksumming".to_owned(),
            },
        ),
    };
    match recorded {
        None => Ok(Decision::Fresh),
        Some(prior) => {
            if prior.checksum == submitted.text {
                Ok(Decision::Replay(prior.result.clone()))
            } else {
                Ok(
                    Decision::Mutated {
                        recorded: prior.checksum.clone(),
                        submitted: submitted.text.clone(),
                    },
                )
            }
        },
    }
}

/// Decides what a submission is, given whatever the store holds for its id. The checksum of the
/// body is the one that the payload carries.
///
/// A pure function, so every server runs the same rule.
///
/// # Errors
/// [`ServerError::Corrupt`] if the submitted payload cannot be encoded for checksumming.
pub fn decide(command: &Command, recorded: Option<&Recorded>) -> (r: Result<Decision, ServerError>)
    ensures
        decision_result(r) == decision(
            body_checksum(*command),
            match recorded {
                Some(x) => Some(x@),
                None => None,
            },
        ),
{
    decide_body(command.payload.checksum(), recorded)
}

/// Decides what a submission is, given whatever the store holds for its id. The checksum of the
/// body is taken over its text, whatever checksum the payload carries.
///
/// # Errors
/// [`ServerError::Corrupt`] if the submitted payload cannot be encoded for checksumming.
pub fn decide_with<W: Codec>(command: &Command, recorded: Option<&Recorded>, codec: &W) -> (r:
    Result<Decision, ServerError>)
    requires
        is_function(codec),
    ensures
        decision_result(r) == decision(
            payload_checksum(codec, command.payload.text()),
            match recorded {
                Some(x) => Some(x@),
                None => None,
            },
        ),
        is_weighed(codec, command.payload) ==> decision_result(r) == decision(
            body_checksum(*command),
            match recorded {
                Some(x) => Some(x@),
                None => None,
            },
        ),
{
    match payload_with(codec, command.payload.json()) {
        Some(h) => decide_body(Some(&h), recorded),
        None => decide_body(None, recorded),
    }
}

/// One row of `sync_command_results`, as read from the database. The reason has been put through
/// the protocol's constructor, and what that answered is kept as it came.
#[derive(Debug)]
pub struct StoredResult {
    pub payload_checksum: String,
    /// `applied`, `rejected` or `superseded`.
    pub status: String,
    pub reason: Option<Result<Reason, ProtocolError>>,
    pub server_seq: Option<i64>,
}

/// The status that a stored text stands for.
pub open spec fn status_of(text: Seq<char>) -> Option<Status> {
    if text == "applied"@ {
        Some(Status::Applied)
    } else if text == "rejected"@ {
        Some(Status::Rejected)
    } else if text == "superseded"@ {
        Some(Status::Superseded)
    } else {
        None
    }
}

/// The text that a status is stored as.
pub open spec fn status_text(status: Status) -> Seq<char> {
    match status {
        Status::Applied => "applied"@,
        Status::Rejected => "rejected"@,
        Status::Superseded => "superseded"@,
    }
}

/// The answer that a stored row stands for.
pub open spec fn stored_result(
    id: CommandId,
    row: StoredResult,
) -> Result<ResultView, ServerErrorView> {
    match status_of(row.status@) {
        None => Err(
            ServerErrorView::Corrupt {
                detail: "sync_command_results.status is '"@ + row.status@ + "'"@,
            },
        ),
        Some(status) => {
            if row.reason matches Some(Err(e)) {
                Err(corruption(row.reason->0->Err_0))
            } else if row.server_seq is Some && row.server_seq->0 < 0 {
                Err(
                    ServerErrorView::Corrupt {
                        detail: "sync_command_results.server_seq "@ + signed_padded(
                            row.server_seq->0 as int,
                            0,
                        ) + " is negative"@,
                    },
                )
            } else if row.server_seq == Some(0i64) {
                Err(corruption(ProtocolError::Zero))
            } else if status == Status::Rejected && row.reason is None {
                Err(corruption(ProtocolError::RejectedWithoutReason))
            } else {
                Ok(
                    ResultView {
                        id: id.raw,
                        status,
                        reason: match row.reason {
                            Some(r) => Some((r->Ok_0)@),
                            None => None,
                        },
                        server_seq: match row.server_seq {
                            Some(s) => Some(SeqNo { value: s as u64 }),
                            None => None,
                        },
                    },
                )
            }
        },
    }
}

/// Rebuilds an answer from a stored row.
///
/// # Errors
/// [`ServerError::Corrupt`] for the first thing the row holds that an answer cannot.
pub fn read_result(id: CommandId, row: StoredResult) -> (r: Result<CommandResult, ServerError>)
    ensures
        match r {
            Ok(v) => stored_result(id, row) == Ok::<ResultView, ServerErrorView>(v@),
            Err(e) => stored_result(id, row) == Err::<ResultView, ServerErrorView>(e@),
        },
{
    let status: Status = if row.status == "applied".to_owned() {
        Status::Applied
    } else if row.status == "rejected".to_owned() {
        Status::Rejected
    } else if row.status == "superseded".to_owned() {
        Status::Superseded
    } else {
        let mut detail: String = "sync_command_results.status is '".to_owned();
        detail.append(row.status.as_str());
        detail.append("'");
        return Err(ServerError::Corrupt { detail });
    };
    let reason: Option<Reason> = match row.reason {
        None => None,
        Some(Ok(text)) => Some(text),
        Some(Err(e)) => return Err(corrupt(e)),
    };
    let server_seq: Option<SeqNo> = match row.server_seq {
        None => None,
        Some(s) => {
            if s < 0 {
                let mut detail: String = "sync_command_results.server_seq ".to_owned();
                push_signed_padded(&mut detail, s, 0);
                detail.append(" is negative");
                return Err(ServerError::Corrupt { detail });
            }
            match SeqNo::new(s as u64) {
                Ok(v) => Some(v),
                Err(e) => return Err(corrupt(e)),
            }
        },
    };
    if status == Status::Rejected && reason.is_none() {
        return Err(corrupt(ProtocolError::RejectedWithoutReason));
    }
    Ok(CommandResult { id, status, reason, server_seq })
}

/// What a submission is, given the row found for its id: a row that cannot be read is an error,
/// and any other goes through the dedupe rule.
pub open spec fn classified(
    command: Command,
    row: Option<StoredResult>,
) -> Result<DecisionView, ServerErrorView> {
    match row {
        None => decision(body_checksum(command), None),
        Some(found) => match stored_result(command.id, found) {
            Err(e) => Err(e),
            Ok(result) => decision(
                body_checksum(command),
                Some(RecordedView { checksum: found.payload_checksum@, result }),
            ),
        },
    }
}

/// Decides whether a command is fresh, a replay, or a mutated reuse, from the row that the table
/// holds for its id. Does not write.
///
/// # Errors
/// [`ServerError::Corrupt`] if the row cannot be read back as a valid answer, or the payload
/// cannot be encoded.
pub fn classify(command: &Command, row: Option<StoredResult>) -> (r: Result<Decision, ServerError>)
    ensures
        decision_result(r) == classified(*command, row),
        row is None && body_checksum(*command) is Some ==> (r matches Ok(d) && d is Fresh),
        row matches Some(found) ==> (r matches Ok(d) ==> match d {
            Decision::Fresh => false,
            Decision::Replay(_) => body_checksum(*command) == Some(found.payload_checksum@),
            Decision::Mutated { recorded, submitted } => {
                &&& recorded@ == found.payload_checksum@
                &&& body_checksum(*command) == Some(submitted@)
                &&& recorded@ != submitted@
            },
        }),
{
    match row {
        None => decide(command, None),
        Some(found) => {
            let checksum: String = found.payload_checksum.clone();
            match read_result(command.id, found) {
                Err(e) => Err(e),
                Ok(result) => {
                    let recorded = Recorded { checksum, result };
                    decide(command, Some(&recorded))
                },
            }
        },
    }
}

/// The row to insert into `sync_command_results` for a decided command.
#[derive(Debug)]
pub struct NewRecord {
    pub command_id: String,
    pub payload_checksum: String,
    pub status: String,
    pub reason: Option<String>,
    pub server_seq: Option<i64>,
    pub scope: String,
}

/// What an inserted row says.
pub struct NewRecordView {
    pub command_id: Seq<char>,
    pub payload_checksum: Seq<char>,
    pub status: Seq<char>,
    pub reason: Option<Seq<char>>,
    pub server_seq: Option<int>,
    pub scope: Seq<char>,
}

impl View for NewRecord {
    type V = NewRecordView;

    open spec fn view(&self) -> NewRecordView {
        NewRecordView {
            command_id: self.command_id@,
            payload_checksum: self.payload_checksum@,
            status: self.status@,
            reason: match self.reason {
                Some(r) => Some(r@),
                None => None,
            },
            server_seq: match self.server_seq {
                Some(s) => Some(s as int),
                None => None,
            },
            scope: self.scope@,
        }
    }
}

/// What has happened so far on the way to recording an outcome.
#[derive(Debug)]
pub enum RecordEvent {
    /// Nothing yet.
    Start,
    /// The insert ran, and this many rows were inserted.
    Inserted(u64),
    /// The row that won was looked up.
    Found(Decision),
}

/// What to do next on the way to recording an outcome.
#[derive(Debug)]
pub enum RecordStep {
    /// Insert this row, unless there is one for its command id.
    Insert(NewRecord),
    /// Look up the command: somebody else's row was there first.
    Classify,
    /// Done: the outcome that counts.
    Done(CommandResult),
    /// Give up.
    Failed(ServerError),
}

/// What a step says.
pub enum RecordStepView {
    Insert(NewRecordView),
    Classify,
    Done(ResultView),
    Failed(ServerErrorView),
}

impl View for RecordStep {
    type V = RecordStepView;

    open spec fn view(&self) -> RecordStepView {
        match self {
            RecordStep::Insert(row) => RecordStepView::Insert(row@),
            RecordStep::Classify => RecordStepView::Classify,
            RecordStep::Done(r) => RecordStepView::Done(r@),
            RecordStep::Failed(e) => RecordStepView::Failed(e@),
        }
    }
}

/// The first step of recording: the row to insert.
pub open spec fn record_start(command: Command, result: ResultView) -> RecordStepView {
    match body_checksum(command) {
        None => RecordStepView::Failed(
            ServerErrorView::Corrupt {
                detail: "a payload could not be encoded for checksumming"@,
            },
        ),
        Some(checksum) => {
            if result.server_seq is Some && result.server_seq->0.value > i64::MAX {
                RecordStepView::Failed(
                    ServerErrorView::Corrupt { detail: "server_seq does not fit a bigint"@ },
                )
            } else {
                RecordStepView::Insert(
                    NewRecordView {
                        command_id: id_text(command.id.raw),
                        payload_checksum: checksum,
                        status: status_text(result.status),
                        reason: result.reason,
                        server_seq: match result.server_seq {
                            Some(s) => Some(s.value as int),
                            None => None,
                        },
                        scope: command.scope@,
                    },
                )
            }
        },
    }
}

/// What recording does once somebody else's row was there first, and the command has been looked
/// up.
pub open spec fn after_race(id: u128, decided: DecisionView) -> RecordStepView {
    match decided {
        DecisionView::Replay(existing) => RecordStepView::Done(existing),
        DecisionView::Mutated { recorded, submitted } => RecordStepView::Failed(
            ServerErrorView::Corrupt {
                detail: "command "@ + id_text(id)
                    + " lost an insert race to a record with checksum "@ + recorded
                    + ", but this submission's payload hashes to "@ + submitted,
            },
        ),
        DecisionView::Fresh => RecordStepView::Failed(
            ServerErrorView::Corrupt {
                detail: "command "@ + id_text(id)
                    + " lost an insert race and then found no record at all"@,
            },
        ),
    }
}

/// What recording does about what has happened.
pub open spec fn record_step(
    command: Command,
    result: ResultView,
    event: RecordEvent,
) -> RecordStepView {
    match event {
        RecordEvent::Start => record_start(command, result),
        RecordEvent::Inserted(n) => if n == 1 {
            RecordStepView::Done(result)
        } else {
            RecordStepView::Classify
        },
        RecordEvent::Found(d) => after_race(command.id.raw, d@),
    }
}

/// Records an outcome, or settles on the one already recorded: one step for each thing that
/// happened.
///
/// The insert does nothing where the id has a row, which makes the database the arbiter of who
/// wins a concurrent submission of the same id. Whoever loses reads the winner's outcome instead.
pub fn record(command: &Command, result: &CommandResult, event: RecordEvent) -> (s: RecordStep)
    ensures
        s@ == record_step(*command, result@, event),
{
    match event {
        RecordEvent::Start => {
            let checksum: String = match command.payload.checksum() {
                Some(h) => h.text.clone(),
                None => return RecordStep::Failed(
                    ServerError::Corrupt {
                        detail: "a payload could not be encoded for checksumming".to_owned(),
                    },
                ),
            };
            let status: String = match result.status {
                Status::Applied => "applied".to_owned(),
                Status::Rejected => "rejected".to_owned(),
                Status::Superseded => "superseded".to_owned(),
            };
            let reason: Option<String> = match &result.reason {
                Some(r) => Some(r.text.clone()),
                None => None,
            };
            let server_seq: Option<i64> = match result.server_seq {
                Some(s) => {
                    if s.get() > 0x7fff_ffff_ffff_ffff {
                        return RecordStep::Failed(
                            ServerError::Corrupt {
                                detail: "server_seq does not fit a bigint".to_owned(),
                            },
                        );
                    }
                    Some(s.get() as i64)
                },
                None => None,
            };
            RecordStep::Insert(
                NewRecord {
                    command_id: command.id.text(),
                    payload_checksum: checksum,
                    status,
                    reason,
                    server_seq,
                    scope: command.scope.text.clone(),
                },
            )
        },
        RecordEvent::Inserted(n) => {
            if n == 1 {
                RecordStep::Done(result.clone())
            } else {
                RecordStep::Classify
            }
        },
        RecordEvent::Found(Decision::Replay(existing)) => RecordStep::Done(existing),
        RecordEvent::Found(Decision::Mutated { recorded, submitted }) => {
            let mut detail: String = "command ".to_owned();
            detail.append(command.id.text().as_str());
            detail.append(" lost an insert race to a record with checksum ");
            detail.append(recorded.as_str());
            detail.append(", but this submission's payload hashes to ");
            detail.append(submitted.as_str());
            RecordStep::Failed(ServerError::Corrupt { detail })
        },
        RecordEvent::Found(Decision::Fresh) => {
            let mut detail: String = "command ".to_owned();
            detail.append(command.id.text().as_str());
            detail.append(" lost an insert race and then found no record at all");
            RecordStep::Failed(ServerError::Corrupt { detail })
        },
    }
}

/// The sentence for a command whose id was reused with a different body.
pub open spec fn mutated_sentence() -> Seq<char> {
    "This request could not be verified. Please try again."@
}

/// The reason returned for a command whose id was reused with a different body. A fixed sentence:
/// the checksums mean nothing to the person reading it.
#[must_use]
pub fn mutated_reason() -> (r: Reason)
    ensures
        r@ == mutated_sentence(),
{
    Reason::new("This request could not be verified. Please try again.")
}

/// Two commands whose payloads were weighed by one codec are one and the same submission to the
/// table when their texts have the same checksum, and only then: a command is a replay of another
/// under its id exactly when the codec gives both texts one checksum.
pub proof fn a_replay_is_decided_by_the_text<W: Codec>(
    codec: &W,
    first: Command,
    later: Command,
    result: ResultView,
)
    requires
        is_weighed(codec, first.payload),
        is_weighed(codec, later.payload),
        payload_checksum(codec, first.payload.text()) is Some,
        payload_checksum(codec, later.payload.text()) is Some,
    ensures
        ({
            let sum = payload_checksum(codec, first.payload.text());
            let sum2 = payload_checksum(codec, later.payload.text());
            let prior = Some(RecordedView { checksum: sum->0, result });
            &&& body_checksum(first) == sum
            &&& body_checksum(later) == sum2
            &&& first.payload.text() == later.payload.text() ==> sum == sum2
            &&& sum == sum2 ==> decision(body_checksum(later), prior) == Ok::<
                DecisionView,
                ServerErrorView,
            >(DecisionView::Replay(result))
            &&& sum != sum2 ==> decision(body_checksum(later), prior) == Ok::<
                DecisionView,
                ServerErrorView,
            >(DecisionView::Mutated { recorded: sum->0, submitted: sum2->0 })
        }),
{
}

/// A recorded outcome is given back exactly when the body is the one it was recorded for.
pub proof fn a_replay_needs_the_same_body(
    submitted: Option<Seq<char>>,
    recorded: Option<RecordedView>,
    result: ResultView,
)
    ensures
        decision(submitted, recorded) == Ok::<DecisionView, ServerErrorView>(
            DecisionView::Replay(result),
        ) <==> submitted is Some && recorded == Some(
            RecordedView { checksum: submitted->0, result },
        ),
{
}

/// A row that [`record`] has inserted reads back as the outcome it was written for, and a
/// resubmission of the same command is a replay with that outcome. An outcome that is a
/// rejection has a reason, and positions in the log are not zero.
pub proof fn a_record_reads_back(command: Command, result: CommandResult, row: StoredResult)
    requires
        result.id == command.id,
        result.status == Status::Rejected ==> result.reason is Some,
        result.server_seq is Some ==> result.server_seq->0.value > 0,
        record_start(command, result@) matches RecordStepView::Insert(new) && {
            &&& row.payload_checksum@ == new.payload_checksum
            &&& row.status@ == new.status
            &&& match row.reason {
                Some(Ok(r)) => new.reason == Some(r@),
                Some(Err(_)) => false,
                None => new.reason is None,
            }
            &&& match row.server_seq {
                Some(s) => new.server_seq == Some(s as int),
                None => new.server_seq is None,
            }
        },
    ensures
        stored_result(command.id, row) == Ok::<ResultView, ServerErrorView>(result@),
        classified(command, Some(row)) == Ok::<DecisionView, ServerErrorView>(
            DecisionView::Replay(result@),
        ),
{
    reveal_strlit("applied");
    reveal_strlit("rejected");
    reveal_strlit("superseded");
    assert("applied"@[0] == 'a');
    assert("rejected"@[0] == 'r');
    assert("superseded"@[0] == 's');
    assert(status_of(status_text(result.status)) == Some(result.status));
}

/// The row that is found for a command's id decides what the submission is. Of a row that reads
/// back as an answer and a body that can be encoded: it is a replay of that answer exactly when the
/// row was made for a body of the same checksum, and otherwise a reuse of the id, with those two
/// checksums. A row that does not read back is an error, and without a row the submission is fresh.
pub proof fn the_row_decides_a_submission(command: Command, row: StoredResult)
    ensures
        body_checksum(command) matches Some(body) ==> (classified(command, None) matches Ok(d)
            && d is Fresh),
        stored_result(command.id, row) matches Err(e) ==> classified(command, Some(row)) == Err::<
            DecisionView,
            ServerErrorView,
        >(e),
        stored_result(command.id, row) matches Ok(answer) ==> (body_checksum(command) matches Some(
            body,
        ) ==> (classified(command, Some(row)) matches Ok(d) && {
            &&& d is Replay <==> row.payload_checksum@ == body
            &&& d is Mutated <==> row.payload_checksum@ != body
            &&& d matches DecisionView::Replay(given) ==> given == answer
            &&& d matches DecisionView::Mutated { recorded, submitted } ==> recorded
                == row.payload_checksum@ && submitted == body
        })),
        body_checksum(command) is None ==> classified(command, None) is Err && classified(
            command,
            Some(row),
        ) is Err,
{
}

/// What a row reads back as, field by field. It is an answer exactly when its status is one of the
/// three, its reason is one that the protocol takes, its position is not below one, and a refusal
/// has a reason; and then the answer is about the command it was looked up for and says what the
/// row says.
pub proof fn a_row_says_what_it_holds(id: CommandId, row: StoredResult)
    ensures
        stored_result(id, row) is Ok <==> {
            &&& row.status@ == "applied"@ || row.status@ == "rejected"@ || row.status@
                == "superseded"@
            &&& row.reason matches Some(r) ==> r is Ok
            &&& row.server_seq matches Some(q) ==> q >= 1
            &&& row.status@ == "rejected"@ ==> row.reason is Some
        },
        stored_result(id, row) matches Ok(answer) ==> {
            &&& answer.id == id.raw
            &&& answer.status == Status::Applied <==> row.status@ == "applied"@
            &&& answer.status == Status::Rejected <==> row.status@ == "rejected"@
            &&& answer.status == Status::Superseded <==> row.status@ == "superseded"@
            &&& answer.reason is Some <==> row.reason is Some
            &&& row.reason matches Some(Ok(text)) ==> answer.reason == Some(text@)
            &&& answer.server_seq is Some <==> row.server_seq is Some
            &&& row.server_seq matches Some(q) ==> answer.server_seq->0.value == q
        },
        stored_result(id, row) matches Err(e) ==> e is Corrupt,
{
    reveal_strlit("applied");
    reveal_strlit("rejected");
    reveal_strlit("superseded");
    assert("applied"@[0] == 'a');
    assert("rejected"@[0] == 'r');
    assert("superseded"@[0] == 's');
}

/// Which outcomes make a row, and what the row says: one for every body that can be encoded, unless
/// the position does not fit the column; it names the command and its scope, holds the checksum of
/// the body, and says what the outcome says.
pub proof fn a_row_is_made_of_its_outcome(command: Command, result: ResultView)
    ensures
        record_step(command, result, RecordEvent::Start) is Insert <==> body_checksum(
            command,
        ) is Some && (result.server_seq matches Some(q) ==> q.value <= i64::MAX),
        record_step(command, result, RecordEvent::Start) is Insert || record_step(
            command,
            result,
            RecordEvent::Start,
        ) is Failed,
        record_step(command, result, RecordEvent::Start) matches RecordStepView::Insert(row) ==> {
            &&& row.command_id == id_text(command.id.raw)
            &&& Some(row.payload_checksum) == body_checksum(command)
            &&& row.scope == command.scope@
            &&& row.status == "applied"@ <==> result.status == Status::Applied
            &&& row.status == "rejected"@ <==> result.status == Status::Rejected
            &&& row.status == "superseded"@ <==> result.status == Status::Superseded
            &&& row.reason == result.reason
            &&& row.server_seq is Some <==> result.server_seq is Some
            &&& result.server_seq matches Some(q) ==> row.server_seq == Some(q.value as int)
        },
{
    reveal_strlit("applied");
    reveal_strlit("rejected");
    reveal_strlit("superseded");
    assert("applied"@[0] == 'a');
    assert("rejected"@[0] == 'r');
    assert("superseded"@[0] == 's');
}

/// An insert that went through settles the outcome, and one that did not looks up who was there
/// first: the same body is given that one's outcome, and anything else is an error.
pub proof fn whoever_was_first_settles_the_outcome(
    command: Command,
    result: ResultView,
    rows: u64,
    found: Decision,
)
    ensures
        rows == 1 ==> record_step(command, result, RecordEvent::Inserted(rows))
            == RecordStepView::Done(result),
        rows != 1 ==> record_step(command, result, RecordEvent::Inserted(rows)) is Classify,
        match found {
            Decision::Replay(first) => record_step(command, result, RecordEvent::Found(found))
                == RecordStepView::Done(first@),
            _ => record_step(command, result, RecordEvent::Found(found)) matches
                RecordStepView::Failed(e) && e is Corrupt,
        },
{
}

/// What [`classify`] says is what the row says. It finds a replay exactly when there is a row that
/// reads back as an answer and was made for a body of the same checksum, and then gives that answer;
/// it finds a reuse of the id exactly when the row was made for a body of another; and it finds the
/// command fresh exactly when there is no row.
pub proof fn classifying_goes_by_the_row(
    command: &Command,
    row: Option<StoredResult>,
    r: Result<Decision, ServerError>,
)
    requires
        call_ensures(classify, (command, row), r),
        body_checksum(*command) is Some,
    ensures
        r matches Ok(d) ==> (d is Fresh <==> row is None),
        row is None ==> r is Ok,
        row matches Some(found) ==> (r is Ok <==> stored_result(command.id, found) is Ok),
        row matches Some(found) ==> (r matches Ok(d) ==> {
            let same = Some(found.payload_checksum@) == body_checksum(*command);
            &&& d is Replay <==> same
            &&& d is Mutated <==> !same
            &&& d matches Decision::Replay(given) ==> stored_result(command.id, found) == Ok::<
                ResultView,
                ServerErrorView,
            >(given@)
            &&& d matches Decision::Mutated { recorded, submitted } ==> recorded@
                == found.payload_checksum@ && Some(submitted@) == body_checksum(*command)
        }),
{
    if let Some(found) = row {
        the_row_decides_a_submission(*command, found);
    }
}

} // verus!
