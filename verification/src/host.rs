//! Forwarding commands to the host, and recording what it decided.
//!
//! Domain logic never lives here: the host applies its own rules. And a failure to reach the
//! host is not an answer: a timeout tells nothing about whether the command was applied, so it is
//! never recorded as an outcome.
//!
//! [`forward`] is the order of the work, one step for each thing that happened. Reading the
//! table, asking the host and writing the table are the caller's.
use crate::dedupe::{
    after_race, body_checksum, decision, mutated_reason, mutated_sentence, record_step, Decision,
    DecisionView, RecordEvent, RecordStepView, RecordedView,
};
use crate::error::{ServerError, ServerErrorView};
use crate::protocol::{Command, CommandId, CommandResult, Reason, ResultView, SeqNo, Status};
use crate::text::{decimal, push_decimal};
use vstd::prelude::*;
use vstd::string::*;

verus! {

/// What the host decided about a command. There is no variant for a failure to reach it.
#[derive(Debug, PartialEq, Eq)]
pub enum HostOutcome {
    /// The host applied it, writing state and the change-log row in one transaction.
    Applied {
        /// Where the resulting change landed in the log.
        server_seq: SeqNo,
    },
    /// The host refused it, and here is what to tell the user.
    Rejected {
        /// The host's explanation. Carried through to the client unchanged.
        reason: Reason,
    },
    /// A later command overtook it.
    Superseded,
}

/// Why the host could not be asked, or could not answer. None of these are verdicts.
#[derive(Debug, PartialEq, Eq)]
#[non_exhaustive]
pub enum HostError {
    /// The host did not answer within its deadline.
    Timeout,
    /// The host answered with a status that is not a verdict.
    Status {
        /// The status code returned.
        code: u16,
    },
    /// The host could not be reached at all.
    Unreachable {
        /// The transport's description, for the operator.
        detail: String,
    },
    /// The host answered, but not with something this server can read.
    Malformed {
        /// What was wrong.
        detail: String,
    },
}

impl HostError {
    /// The error in words, for the operator.
    pub fn message(&self) -> (s: String)
        ensures
            s@ == match *self {
                HostError::Timeout => "the host did not answer in time"@,
                HostError::Status { code } => "the host answered with status "@ + decimal(
                    code as nat,
                ),
                HostError::Unreachable { detail } => "the host was unreachable: "@ + detail@,
                HostError::Malformed { detail } => "the host's answer was unreadable: "@ + detail@,
            },
    {
        match self {
            HostError::Timeout => "the host did not answer in time".to_owned(),
            HostError::Status { code } => {
                let mut s: String = "the host answered with status ".to_owned();
                push_decimal(&mut s, *code as u64);
                s
            },
            HostError::Unreachable { detail } => {
                "the host was unreachable: ".to_owned().concat(detail.as_str())
            },
            HostError::Malformed { detail } => {
                "the host's answer was unreadable: ".to_owned().concat(detail.as_str())
            },
        }
    }
}

/// What forwarding one command produced.
#[derive(Debug, PartialEq, Eq)]
pub enum Forwarded {
    /// The host decided, and the outcome is recorded.
    Decided(CommandResult),
    /// A replay of a command already decided. The host was never asked.
    Replayed(CommandResult),
    /// The command id was reused with a different body. Refused without asking the host.
    Mutated(CommandResult),
    /// The host could not be asked or could not answer, so nothing was recorded. The client
    /// should retry.
    Unresolved {
        /// Why the host could not be reached, for the operator.
        error: HostError,
    },
}

/// What forwarding produced, the answers with their reasons as sequences of characters.
pub enum ForwardedView {
    Decided(ResultView),
    Replayed(ResultView),
    Mutated(ResultView),
    Unresolved { error: HostError },
}

impl View for Forwarded {
    type V = ForwardedView;

    open spec fn view(&self) -> ForwardedView {
        match self {
            Forwarded::Decided(r) => ForwardedView::Decided(r@),
            Forwarded::Replayed(r) => ForwardedView::Replayed(r@),
            Forwarded::Mutated(r) => ForwardedView::Mutated(r@),
            Forwarded::Unresolved { error } => ForwardedView::Unresolved { error: *error },
        }
    }
}

impl Forwarded {
    /// The result to send back, when there is one. The protocol has no way to say "I do not know
    /// yet", so an unresolved command has none.
    #[must_use]
    pub fn result(&self) -> (r: Option<&CommandResult>)
        ensures
            match *self {
                Forwarded::Decided(x) | Forwarded::Replayed(x) | Forwarded::Mutated(x) => r
                    == Some(&x),
                Forwarded::Unresolved { .. } => r is None,
            },
    {
        match self {
            Forwarded::Decided(r) => Some(r),
            Forwarded::Replayed(r) => Some(r),
            Forwarded::Mutated(r) => Some(r),
            Forwarded::Unresolved { .. } => None,
        }
    }
}

/// What has happened so far on the way of one command.
#[derive(Debug)]
pub enum ForwardEvent {
    /// Nothing yet.
    Start,
    /// The dedupe table was asked about the command.
    Classified(Result<Decision, ServerError>),
    /// The host was asked to apply the command.
    Answered(Result<HostOutcome, HostError>),
    /// The outcome was recorded, and this is the one that counts.
    Recorded(Result<CommandResult, ServerError>),
}

/// What to do next for one command.
#[derive(Debug)]
pub enum ForwardStep {
    /// Ask the dedupe table about it.
    Classify,
    /// Ask the host to apply it.
    AskHost,
    /// Record this outcome.
    Record(CommandResult),
    /// Done.
    Done(Forwarded),
    /// The table could not be read or written.
    Failed(ServerError),
}

/// What a step says.
pub enum ForwardStepView {
    Classify,
    AskHost,
    Record(ResultView),
    Done(ForwardedView),
    Failed(ServerErrorView),
}

impl View for ForwardStep {
    type V = ForwardStepView;

    open spec fn view(&self) -> ForwardStepView {
        match self {
            ForwardStep::Classify => ForwardStepView::Classify,
            ForwardStep::AskHost => ForwardStepView::AskHost,
            ForwardStep::Record(r) => ForwardStepView::Record(r@),
            ForwardStep::Done(f) => ForwardStepView::Done(f@),
            ForwardStep::Failed(e) => ForwardStepView::Failed(e@),
        }
    }
}

/// The answer to a reuse of an id with another body.
pub open spec fn mutated_answer(id: u128) -> ResultView {
    ResultView {
        id,
        status: Status::Rejected,
        reason: Some(mutated_sentence()),
        server_seq: None,
    }
}

/// The answer that a verdict of the host is, the host's own words unchanged.
pub open spec fn host_answer(id: u128, outcome: HostOutcome) -> ResultView {
    match outcome {
        HostOutcome::Applied { server_seq } => ResultView {
            id,
            status: Status::Applied,
            reason: None,
            server_seq: Some(server_seq),
        },
        HostOutcome::Rejected { reason } => ResultView {
            id,
            status: Status::Rejected,
            reason: Some(reason@),
            server_seq: None,
        },
        HostOutcome::Superseded => ResultView {
            id,
            status: Status::Superseded,
            reason: None,
            server_seq: None,
        },
    }
}

/// What to do once the command has been classified.
pub open spec fn after_classify(
    id: u128,
    decided: Result<DecisionView, ServerErrorView>,
) -> ForwardStepView {
    match decided {
        Err(e) => ForwardStepView::Failed(e),
        Ok(DecisionView::Replay(existing)) => ForwardStepView::Done(
            ForwardedView::Replayed(existing),
        ),
        Ok(DecisionView::Mutated { .. }) => ForwardStepView::Done(
            ForwardedView::Mutated(mutated_answer(id)),
        ),
        Ok(DecisionView::Fresh) => ForwardStepView::AskHost,
    }
}

/// What to do once the host has been asked.
pub open spec fn after_host(
    id: u128,
    answered: Result<HostOutcome, HostError>,
) -> ForwardStepView {
    match answered {
        Ok(outcome) => ForwardStepView::Record(host_answer(id, outcome)),
        Err(error) => ForwardStepView::Done(ForwardedView::Unresolved { error }),
    }
}

/// What to do once the outcome has been recorded, or could not be.
pub open spec fn after_record(recorded: Result<ResultView, ServerErrorView>) -> ForwardStepView {
    match recorded {
        Ok(r) => ForwardStepView::Done(ForwardedView::Decided(r)),
        Err(e) => ForwardStepView::Failed(e),
    }
}

/// What forwarding does about what has happened.
pub open spec fn forward_step(id: u128, event: ForwardEvent) -> ForwardStepView {
    match event {
        ForwardEvent::Start => ForwardStepView::Classify,
        ForwardEvent::Classified(Ok(d)) => after_classify(id, Ok(d@)),
        ForwardEvent::Classified(Err(e)) => after_classify(id, Err(e@)),
        ForwardEvent::Answered(answered) => after_host(id, answered),
        ForwardEvent::Recorded(Ok(r)) => after_record(Ok(r@)),
        ForwardEvent::Recorded(Err(e)) => after_record(Err(e@)),
    }
}

/// Forwards one command to the host, deduping first and recording the outcome after.
///
/// The order is the correctness argument: classify, so that a replay is never applied twice;
/// refuse a mutated body before the host sees it, and without recording anything, so that the
/// first record survives untouched; ask the host; record.
pub fn forward(id: CommandId, event: ForwardEvent) -> (s: ForwardStep)
    ensures
        s@ == forward_step(id.raw, event),
        event matches ForwardEvent::Answered(Ok(outcome)) ==> (s matches ForwardStep::Record(r) && {
            &&& r.id == id
            &&& match outcome {
                HostOutcome::Applied { server_seq } => r.status == Status::Applied && r.reason is None
                    && r.server_seq == Some(server_seq),
                HostOutcome::Rejected { reason } => r.status == Status::Rejected && r.reason
                    == Some(reason) && r.server_seq is None,
                HostOutcome::Superseded => r.status == Status::Superseded && r.reason is None
                    && r.server_seq is None,
            }
        }),
{
    match event {
        ForwardEvent::Start => ForwardStep::Classify,
        ForwardEvent::Classified(Err(e)) => ForwardStep::Failed(e),
        ForwardEvent::Classified(Ok(Decision::Replay(existing))) => {
            ForwardStep::Done(Forwarded::Replayed(existing))
        },
        ForwardEvent::Classified(Ok(Decision::Mutated { .. })) => ForwardStep::Done(
            Forwarded::Mutated(
                CommandResult {
                    id,
                    status: Status::Rejected,
                    reason: Some(mutated_reason()),
                    server_seq: None,
                },
            ),
        ),
        ForwardEvent::Classified(Ok(Decision::Fresh)) => ForwardStep::AskHost,
        ForwardEvent::Answered(Err(error)) => ForwardStep::Done(Forwarded::Unresolved { error }),
        ForwardEvent::Answered(Ok(HostOutcome::Applied { server_seq })) => ForwardStep::Record(
            CommandResult {
                id,
                status: Status::Applied,
                reason: None,
                server_seq: Some(server_seq),
            },
        ),
        ForwardEvent::Answered(Ok(HostOutcome::Rejected { reason })) => ForwardStep::Record(
            CommandResult { id, status: Status::Rejected, reason: Some(reason), server_seq: None },
        ),
        ForwardEvent::Answered(Ok(HostOutcome::Superseded)) => ForwardStep::Record(
            CommandResult { id, status: Status::Superseded, reason: None, server_seq: None },
        ),
        ForwardEvent::Recorded(Ok(r)) => ForwardStep::Done(Forwarded::Decided(r)),
        ForwardEvent::Recorded(Err(e)) => ForwardStep::Failed(e),
    }
}

/// What is recorded for each command id.
pub type Store = Map<u128, RecordedView>;

/// What the store holds for a command id.
pub open spec fn found_in(store: Store, id: u128) -> Option<RecordedView> {
    if store.dom().contains(id) {
        Some(store[id])
    } else {
        None
    }
}

/// One whole recording of an outcome: the steps that [`record`](crate::dedupe::record) asks for,
/// taken on a store that inserts a row only where the command id has none. The result is the
/// outcome that counts, or why there is none, and the store after.
pub open spec fn recorded_on(store: Store, command: Command, result: ResultView) -> (
    Result<ResultView, ServerErrorView>,
    Store,
) {
    let id = command.id.raw;
    match record_step(command, result, RecordEvent::Start) {
        RecordStepView::Failed(e) => (Err(e), store),
        RecordStepView::Insert(row) => {
            let taken = store.dom().contains(id);
            let after = if taken {
                store
            } else {
                store.insert(id, RecordedView { checksum: row.payload_checksum, result })
            };
            let step = match record_step(
                command,
                result,
                RecordEvent::Inserted(
                    if taken {
                        0
                    } else {
                        1
                    },
                ),
            ) {
                RecordStepView::Classify => match decision(
                    body_checksum(command),
                    found_in(store, id),
                ) {
                    Ok(d) => after_race(id, d),
                    Err(e) => RecordStepView::Failed(e),
                },
                other => other,
            };
            match step {
                RecordStepView::Done(r) => (Ok(r), after),
                RecordStepView::Failed(e) => (Err(e), after),
                _ => arbitrary(),
            }
        },
        _ => arbitrary(),
    }
}

/// One whole forward of a command: the steps that [`forward`] asks for, taken on a store. `host`
/// is what the host would answer, and the second half of the result says whether it was asked.
pub open spec fn forwarded(
    store: Store,
    command: Command,
    host: Result<HostOutcome, HostError>,
) -> (ForwardStepView, bool, Store) {
    let id = command.id.raw;
    match after_classify(id, decision(body_checksum(command), found_in(store, id))) {
        ForwardStepView::AskHost => match after_host(id, host) {
            ForwardStepView::Record(result) => {
                let (recorded, after) = recorded_on(store, command, result);
                (after_record(recorded), true, after)
            },
            other => (other, true, store),
        },
        other => (other, false, store),
    }
}

/// The outcome can be recorded: the position that it names fits the table's column.
pub open spec fn is_recordable(outcome: HostOutcome) -> bool {
    outcome matches HostOutcome::Applied { server_seq } ==> server_seq.value <= i64::MAX
}

/// Recording settles on one outcome: the first to come makes the record, under the checksum of the
/// command's body; whoever comes later under the same body is given the recorded outcome, and
/// under another body an error; and either way no record changes. An outcome whose position does
/// not fit the table is an error.
pub proof fn a_recording_settles_on_one_outcome(store: Store, command: Command, result: ResultView)
    requires
        body_checksum(command) is Some,
    ensures
        ({
            let id = command.id.raw;
            let body = body_checksum(command)->0;
            let (r, after) = recorded_on(store, command, result);
            if result.server_seq is Some && result.server_seq->0.value > i64::MAX {
                r is Err && after == store
            } else if !store.dom().contains(id) {
                &&& r == Ok::<ResultView, ServerErrorView>(result)
                &&& after == store.insert(id, RecordedView { checksum: body, result })
            } else if store[id].checksum == body {
                r == Ok::<ResultView, ServerErrorView>(store[id].result) && after == store
            } else {
                r is Err && after == store
            }
        }),
{
}

/// A host that could not be reached has not decided: nothing is recorded, and the command is
/// unresolved.
pub proof fn a_failure_is_no_verdict(store: Store, command: Command, error: HostError)
    requires
        body_checksum(command) is Some,
        !store.dom().contains(command.id.raw),
    ensures
        forwarded(store, command, Err(error)) == (
            ForwardStepView::Done(ForwardedView::Unresolved { error }),
            true,
            store,
        ),
{
}

/// Whatever the host says the first time, the same command forwarded again is answered with the
/// recorded outcome: the host is not asked, and nothing changes.
pub proof fn a_decided_command_is_never_applied_again(
    store: Store,
    command: Command,
    outcome: HostOutcome,
    later: Result<HostOutcome, HostError>,
)
    requires
        body_checksum(command) is Some,
        !store.dom().contains(command.id.raw),
        is_recordable(outcome),
    ensures
        ({
            let answer = host_answer(command.id.raw, outcome);
            let (first, asked, after) = forwarded(store, command, Ok(outcome));
            &&& asked
            &&& first == ForwardStepView::Done(ForwardedView::Decided(answer))
            &&& forwarded(after, command, later) == (
                ForwardStepView::Done(ForwardedView::Replayed(answer)),
                false,
                after,
            )
        }),
{
}

/// A known id with another body is refused without asking the host, and the record it reuses the
/// id of stays as it was.
pub proof fn a_tampered_replay_gets_nothing(
    store: Store,
    command: Command,
    host: Result<HostOutcome, HostError>,
)
    requires
        body_checksum(command) is Some,
        store.dom().contains(command.id.raw),
        store[command.id.raw].checksum != body_checksum(command)->0,
    ensures
        forwarded(store, command, host) == (
            ForwardStepView::Done(ForwardedView::Mutated(mutated_answer(command.id.raw))),
            false,
            store,
        ),
        mutated_answer(command.id.raw).status == Status::Rejected,
{
}

/// A record, once made, is never changed by forwarding anything.
pub proof fn records_are_final(
    store: Store,
    command: Command,
    host: Result<HostOutcome, HostError>,
    other: u128,
)
    requires
        store.dom().contains(other),
    ensures
        forwarded(store, command, host).2.dom().contains(other),
        forwarded(store, command, host).2[other] == store[other],
{
}

/// What is recorded says what the host said: the status is the one that the host gave, the position
/// is there exactly when the host gave one and is that one, and so is the reason. A host that could
/// not be asked leaves nothing to record.
pub proof fn what_the_host_said_is_recorded(
    id: u128,
    answered: Result<HostOutcome, HostError>,
)
    ensures
        forward_step(id, ForwardEvent::Answered(answered)) is Record <==> answered is Ok,
        forward_step(id, ForwardEvent::Answered(answered)) matches ForwardStepView::Record(r) ==> {
            let outcome = answered->Ok_0;
            &&& r.id == id
            &&& r.status == Status::Applied <==> outcome is Applied
            &&& r.status == Status::Rejected <==> outcome is Rejected
            &&& r.status == Status::Superseded <==> outcome is Superseded
            &&& r.server_seq is Some <==> outcome is Applied
            &&& outcome matches HostOutcome::Applied { server_seq } ==> r.server_seq == Some(
                server_seq,
            )
            &&& r.reason is Some <==> outcome is Rejected
            &&& outcome matches HostOutcome::Rejected { reason } ==> r.reason == Some(reason@)
        },
        answered matches Err(error) ==> forward_step(id, ForwardEvent::Answered(answered))
            == ForwardStepView::Done(ForwardedView::Unresolved { error }),
{
}

/// A command is classified before anything else is done with it, and the host is asked about a
/// fresh one and about no other: a replay is answered with what was recorded, a reuse of the id is
/// refused with a reason and without a position, and an error of the table is reported.
pub proof fn the_host_is_asked_about_fresh_commands_only(
    id: u128,
    decided: Result<Decision, ServerError>,
    recorded: Result<CommandResult, ServerError>,
)
    ensures
        forward_step(id, ForwardEvent::Start) is Classify,
        forward_step(id, ForwardEvent::Classified(decided)) is AskHost <==> (decided matches Ok(d)
            && d is Fresh),
        decided matches Ok(Decision::Replay(first)) ==> forward_step(
            id,
            ForwardEvent::Classified(decided),
        ) == ForwardStepView::Done(ForwardedView::Replayed(first@)),
        decided matches Ok(Decision::Mutated { .. }) ==> (forward_step(
            id,
            ForwardEvent::Classified(decided),
        ) matches ForwardStepView::Done(ForwardedView::Mutated(r)) && r.id == id && r.status
            == Status::Rejected && r.server_seq is None && r.reason == Some(
            "This request could not be verified. Please try again."@,
        )),
        decided matches Err(e) ==> forward_step(id, ForwardEvent::Classified(decided))
            == ForwardStepView::Failed(e@),
        match recorded {
            Ok(r) => forward_step(id, ForwardEvent::Recorded(recorded)) == ForwardStepView::Done(
                ForwardedView::Decided(r@),
            ),
            Err(e) => forward_step(id, ForwardEvent::Recorded(recorded))
                == ForwardStepView::Failed(e@),
        },
{
}

/// What a client hears of a decided command is what the host said, now and whenever it asks again.
pub proof fn the_client_hears_what_the_host_said(
    store: Store,
    command: Command,
    outcome: HostOutcome,
    later: Result<HostOutcome, HostError>,
)
    requires
        body_checksum(command) is Some,
        !store.dom().contains(command.id.raw),
        is_recordable(outcome),
    ensures
        ({
            let (first, asked, after) = forwarded(store, command, Ok(outcome));
            let (again, asked_again, unchanged) = forwarded(after, command, later);
            &&& asked && !asked_again
            &&& first matches ForwardStepView::Done(ForwardedView::Decided(r))
            &&& again == ForwardStepView::Done(ForwardedView::Replayed(r))
            &&& unchanged == after
            &&& after.dom() == store.dom().insert(command.id.raw)
            &&& after[command.id.raw].result == r
            &&& Some(after[command.id.raw].checksum) == body_checksum(command)
            &&& r.id == command.id.raw
            &&& match outcome {
                HostOutcome::Applied { server_seq } => r.status == Status::Applied && r.server_seq
                    == Some(server_seq) && r.reason is None,
                HostOutcome::Rejected { reason } => r.status == Status::Rejected && r.reason == Some(
                    reason@,
                ) && r.server_seq is None,
                HostOutcome::Superseded => r.status == Status::Superseded && r.reason is None
                    && r.server_seq is None,
            }
        }),
{
    a_decided_command_is_never_applied_again(store, command, outcome, later);
    a_recording_settles_on_one_outcome(store, command, host_answer(command.id.raw, outcome));
    assert(forwarded(store, command, Ok(outcome)).2.dom() =~= store.dom().insert(command.id.raw));
}

/// Whatever was decided about a command is sent back, and a command that is not resolved is left
/// without an answer.
pub proof fn what_is_decided_is_sent_back(f: &Forwarded, r: Option<&CommandResult>)
    requires
        call_ensures(Forwarded::result, (f,), r),
    ensures
        r is None <==> f is Unresolved,
        f matches Forwarded::Decided(x) ==> r == Some(x),
        f matches Forwarded::Replayed(x) ==> r == Some(x),
        f matches Forwarded::Mutated(x) ==> r == Some(x),
{
}

} // verus!
