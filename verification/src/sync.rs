//! The synchronizer: for one board and one message, whether to post a mirror or
//! to edit the one that exists, and what to record once that is done.
//!
//! The engine does no posting itself. A transition is a short exchange: the
//! caller hands in a signal, `step` answers with a command and the phase to hand
//! back with the next signal, until the command is `Stop`.

use crate::db::{
    create, lookup, mirror_of, mirrors, unique_mirrors, update_count, with_count, with_mirror,
    BoardRow, BoardRowView, Database, MessageView,
};
use crate::render::{
    create_board_message, header, header_of, mirror_of_snapshot, MirrorMessage, MirrorView,
    Snapshot, SnapshotView,
};
use crate::seqs::{
    first_where, kept, lemma_first_where_bounds, lemma_first_where_is, lemma_kept_has,
    lemma_kept_none,
};
use crate::text::{
    decimal, decimal_string, lemma_parse_decimal, parse_u64, parsed_u64, same,
};
use vstd::prelude::*;

verus! {

/// How a transition ended.
#[derive(Clone, Copy, Debug, PartialEq, Eq, Structural)]
pub enum Outcome {
    /// A mirror was posted and recorded.
    Created,
    /// The mirror's count was edited and recorded.
    Updated,
    /// The board's channel is not among the guild's channels. Nothing was written.
    DestinationUnavailable,
    /// The mirror could not be posted or edited. Nothing was recorded.
    ExternalWriteFailed,
    /// The signal does not answer the command that was given. Nothing was
    /// recorded.
    OutOfTurn,
}

/// Where a transition stands.
#[derive(Clone, Copy, Debug, PartialEq, Eq, Structural)]
pub enum Phase {
    /// Nothing has been decided yet.
    Deciding,
    /// A mirror is being posted.
    Posting,
    /// The mirror is being edited.
    Editing,
    /// The transition is over.
    Closed,
}

/// What the caller reports.
#[derive(Clone, Copy, Debug, PartialEq, Eq, Structural)]
pub enum Signal {
    /// A reaction event asks for the transition.
    Begin,
    /// The mirror was posted, as the message of this identifier.
    Posted(u64),
    /// The mirror was edited.
    Edited,
    /// Posting or editing failed, or was not acknowledged in time.
    Failed,
}

/// What the caller is to do next.
#[derive(Debug)]
pub enum Command {
    /// Post `mirror` to `channel`, then signal `Posted` or `Failed`.
    Post { channel: u64, mirror: MirrorMessage },
    /// Replace the header of `message` in `channel` by `content`, then signal
    /// `Edited` or `Failed`.
    Edit { channel: u64, message: u64, content: String },
    /// Nothing more: the transition ended.
    Stop(Outcome),
}

/// A command as a mathematical value.
pub enum CommandView {
    Post { channel: u64, mirror: MirrorView },
    Edit { channel: u64, message: u64, content: Seq<char> },
    Stop(Outcome),
}

impl View for Command {
    type V = CommandView;

    open spec fn view(&self) -> CommandView {
        match self {
            Command::Post { channel, mirror } => CommandView::Post {
                channel: *channel,
                mirror: mirror@,
            },
            Command::Edit { channel, message, content } => CommandView::Edit {
                channel: *channel,
                message: *message,
                content: content@,
            },
            Command::Stop(outcome) => CommandView::Stop(*outcome),
        }
    }
}

/// The answer to a signal.
#[derive(Debug)]
pub struct Step {
    /// The phase to hand back with the next signal.
    pub phase: Phase,
    /// What to do before that.
    pub command: Command,
}

/// An answer as a mathematical value.
pub struct StepView {
    pub phase: Phase,
    pub command: CommandView,
}

impl View for Step {
    type V = StepView;

    open spec fn view(&self) -> StepView {
        StepView { phase: self.phase, command: self.command@ }
    }
}

/// What one transition is about: a board that the event qualifies for, the
/// effective count, and the channels of the guild.
#[derive(Debug)]
pub struct Job {
    pub board: BoardRow,
    pub count: usize,
    pub channels: Vec<u64>,
}

/// A job as a mathematical value.
pub struct JobView {
    pub board: BoardRowView,
    pub count: nat,
    pub channels: Seq<u64>,
}

impl View for Job {
    type V = JobView;

    open spec fn view(&self) -> JobView {
        JobView { board: self.board@, count: self.count as nat, channels: self.channels@ }
    }
}

/// The channels whose identifier is written `dest`.
pub open spec fn written(dest: Seq<char>) -> spec_fn(u64) -> bool {
    |c: u64| decimal(c as nat) == dest
}

/// The channel that a board posts to: the first of the guild's channels whose
/// identifier the board names, if any.
pub open spec fn destination_of(channels: Seq<u64>, dest: Seq<char>) -> Option<u64> {
    let i = first_where(channels, written(dest));
    if i < channels.len() {
        Some(channels[i])
    } else {
        None
    }
}

/// The count as it is recorded: the count itself, or the largest count a record
/// can hold if it is beyond that.
pub open spec fn recorded_count(count: nat) -> i64 {
    if count <= i64::MAX {
        count as i64
    } else {
        i64::MAX
    }
}

/// The key under which a message is recorded: its identifier in decimal.
pub open spec fn source_key(snapshot: SnapshotView) -> Seq<char> {
    decimal(snapshot.id as nat)
}

/// The create path: post the mirror to `channel`.
pub open spec fn post_plan(job: JobView, snapshot: SnapshotView, channel: u64) -> StepView {
    StepView {
        phase: Phase::Posting,
        command: CommandView::Post {
            channel,
            mirror: mirror_of_snapshot(snapshot, job.board.board.name, job.count),
        },
    }
}

/// The update path: replace the header of the recorded mirror. Only the header is
/// built. A record whose mirror identifier is no message identifier cannot be
/// edited: the update fails.
pub open spec fn edit_plan(
    job: JobView,
    snapshot: SnapshotView,
    channel: u64,
    record: MessageView,
) -> StepView {
    match parsed_u64(record.dest_id) {
        Some(message) if message != 0 => StepView {
            phase: Phase::Editing,
            command: CommandView::Edit {
                channel,
                message,
                content: header_of(
                    job.board.board.name,
                    job.count,
                    snapshot.channel_id,
                    snapshot.post.author.id,
                ),
            },
        },
        _ => stop(Outcome::ExternalWriteFailed),
    }
}

/// The end of a transition.
pub open spec fn stop(outcome: Outcome) -> StepView {
    StepView { phase: Phase::Closed, command: CommandView::Stop(outcome) }
}

/// The decision: without a destination nothing is done; without a record the
/// mirror is posted; with one it is edited.
pub open spec fn plan_of(ms: Seq<MessageView>, job: JobView, snapshot: SnapshotView) -> StepView {
    match destination_of(job.channels, job.board.board.dest_channel) {
        None => stop(Outcome::DestinationUnavailable),
        Some(channel) => match mirror_of(ms, job.board.board_id, source_key(snapshot)) {
            None => post_plan(job, snapshot, channel),
            Some(record) => edit_plan(job, snapshot, channel, record),
        },
    }
}

/// The record of a mirror posted as message `posted`.
pub open spec fn record_of(job: JobView, snapshot: SnapshotView, posted: u64) -> MessageView {
    MessageView {
        user_id: decimal(snapshot.post.author.id as nat),
        source_id: source_key(snapshot),
        dest_id: decimal(posted as nat),
        board_id: job.board.board_id,
        reaction_count: recorded_count(job.count),
    }
}

/// An answer and the records it leaves.
pub struct Transition {
    pub step: StepView,
    pub messages: Seq<MessageView>,
}

/// What a signal leads to, from the records `ms`.
///
/// * `Begin` while deciding: the decision of `plan_of`.
/// * `Posted` while posting: the mirror is recorded and the transition ends as
///   `Created`. If meanwhile a record has appeared for the board and the message,
///   no second one is made: the transition goes on as an update.
/// * `Edited` while editing: the count is recorded and the transition ends as
///   `Updated`. If the record is gone, the transition goes on as a creation.
/// * `Failed` while posting or editing: the transition ends as
///   `ExternalWriteFailed`.
/// * Any other signal ends the transition as `OutOfTurn`.
///
/// Only `Created` and `Updated` change the records.
pub open spec fn step_of(
    ms: Seq<MessageView>,
    job: JobView,
    snapshot: SnapshotView,
    phase: Phase,
    signal: Signal,
) -> Transition {
    let key = source_key(snapshot);
    let board = job.board.board_id;
    match (phase, signal) {
        (Phase::Deciding, Signal::Begin) => Transition {
            step: plan_of(ms, job, snapshot),
            messages: ms,
        },
        (Phase::Posting, Signal::Posted(posted)) => if posted == 0 {
            Transition { step: stop(Outcome::ExternalWriteFailed), messages: ms }
        } else if mirror_of(ms, board, key) is None {
            Transition {
                step: stop(Outcome::Created),
                messages: with_mirror(ms, record_of(job, snapshot, posted)),
            }
        } else {
            Transition { step: plan_of(ms, job, snapshot), messages: ms }
        },
        (Phase::Editing, Signal::Edited) => {
            let i = first_where(ms, mirrors(board, key));
            if i < ms.len() {
                Transition {
                    step: stop(Outcome::Updated),
                    messages: with_count(ms, i, recorded_count(job.count)),
                }
            } else {
                Transition { step: plan_of(ms, job, snapshot), messages: ms }
            }
        },
        (Phase::Posting, Signal::Failed) | (Phase::Editing, Signal::Failed) => Transition {
            step: stop(Outcome::ExternalWriteFailed),
            messages: ms,
        },
        _ => Transition { step: stop(Outcome::OutOfTurn), messages: ms },
    }
}

/// The channel that the board of `job` posts to.
fn destination(job: &Job) -> (r: Option<u64>)
    ensures
        r == destination_of(job@.channels, job@.board.board.dest_channel),
{
    let ghost p = written(job@.board.board.dest_channel);
    let mut i: usize = 0;
    while i < job.channels.len()
        invariant
            i <= job.channels.len(),
            p == written(job@.board.board.dest_channel),
            forall|j: int| 0 <= j < i ==> !p(#[trigger] job.channels@[j]),
        decreases job.channels.len() - i,
    {
        let id: String = decimal_string(job.channels[i]);
        if same(id.as_str(), job.board.board.dest_channel.as_str()) {
            proof {
                lemma_first_where_is(job.channels@, p, i as int);
            }
            return Some(job.channels[i]);
        }
        i = i + 1;
    }
    proof {
        lemma_first_where_is(job.channels@, p, i as int);
    }
    None
}

/// The count as it is recorded.
fn count_to_record(count: usize) -> (r: i64)
    ensures
        r == recorded_count(count as nat),
{
    if count as u64 <= i64::MAX as u64 {
        count as i64
    } else {
        i64::MAX
    }
}

fn end(outcome: Outcome) -> (r: Step)
    ensures
        r@ == stop(outcome),
{
    Step { phase: Phase::Closed, command: Command::Stop(outcome) }
}

/// Decides between the create path and the update path.
pub fn plan(db: &Database, job: &Job, snapshot: &Snapshot) -> (r: Step)
    ensures
        r@ == plan_of(db.messages(), job@, snapshot@),
{
    let channel: u64 = match destination(job) {
        None => {
            return end(Outcome::DestinationUnavailable);
        },
        Some(c) => c,
    };
    let key: String = decimal_string(snapshot.id);
    match lookup(db, job.board.board_id, key.as_str()) {
        None => Step {
            phase: Phase::Posting,
            command: Command::Post {
                channel,
                mirror: create_board_message(snapshot, job.board.board.name.as_str(), job.count),
            },
        },
        Some(record) => match parse_u64(record.dest_id.as_str()) {
            Some(message) => {
                if message == 0 {
                    return end(Outcome::ExternalWriteFailed);
                }
                Step {
                    phase: Phase::Editing,
                    command: Command::Edit {
                        channel,
                        message,
                        content: header(
                            job.board.board.name.as_str(),
                            job.count,
                            snapshot.channel_id,
                            snapshot.post.author.id,
                        ),
                    },
                }
            },
            None => end(Outcome::ExternalWriteFailed),
        },
    }
}

/// Answers `signal`, received in `phase`, for the transition of `job` on
/// `snapshot`, and records what the signal has settled.
pub fn step(db: &mut Database, job: &Job, snapshot: &Snapshot, phase: Phase, signal: Signal) -> (r:
    Step)
    requires
        old(db).wf(),
    ensures
        final(db).wf(),
        final(db).boards() == old(db).boards(),
        final(db).next_board_id() == old(db).next_board_id(),
        r@ == step_of(old(db).messages(), job@, snapshot@, phase, signal).step,
        final(db).messages() == step_of(old(db).messages(), job@, snapshot@, phase, signal).messages,
{
    match (phase, signal) {
        (Phase::Deciding, Signal::Begin) => plan(db, job, snapshot),
        (Phase::Posting, Signal::Posted(posted)) => {
            if posted == 0 {
                return end(Outcome::ExternalWriteFailed);
            }
            let key: String = decimal_string(snapshot.id);
            let user: String = decimal_string(snapshot.post.author.id);
            let dest: String = decimal_string(posted);
            let count: i64 = count_to_record(job.count);
            match create(db, job.board.board_id, user, key, dest, count) {
                Ok(()) => end(Outcome::Created),
                Err(_) => plan(db, job, snapshot),
            }
        },
        (Phase::Editing, Signal::Edited) => {
            let key: String = decimal_string(snapshot.id);
            let count: i64 = count_to_record(job.count);
            match update_count(db, job.board.board_id, key.as_str(), count) {
                Ok(()) => end(Outcome::Updated),
                Err(_) => plan(db, job, snapshot),
            }
        },
        (Phase::Posting, Signal::Failed) => end(Outcome::ExternalWriteFailed),
        (Phase::Editing, Signal::Failed) => end(Outcome::ExternalWriteFailed),
        _ => end(Outcome::OutOfTurn),
    }
}


/// Where no two records share a board and a message, a board holds at most one
/// record of a message.
pub proof fn lemma_at_most_one_mirror(ms: Seq<MessageView>, board_id: i64, source: Seq<char>)
    requires
        unique_mirrors(ms),
    ensures
        kept(ms, mirrors(board_id, source)).len() <= 1,
        mirror_of(ms, board_id, source) is Some <==> kept(ms, mirrors(board_id, source)).len()
            == 1,
    decreases ms.len(),
{
    let p = mirrors(board_id, source);
    lemma_first_where_bounds(ms, p);
    if ms.len() > 0 {
        let head = ms.drop_last();
        assert forall|i: int, j: int| 0 <= i < j < head.len() implies !((
        #[trigger] head[i]).board_id == (#[trigger] head[j]).board_id && head[i].source_id
            == head[j].source_id) by {
            assert(head[i] == ms[i] && head[j] == ms[j]);
        }
        lemma_at_most_one_mirror(head, board_id, source);
        if p(ms.last()) {
            assert forall|i: int| 0 <= i < head.len() implies !p(#[trigger] head[i]) by {
                assert(head[i] == ms[i]);
                assert(ms[ms.len() - 1] == ms.last());
            }
            lemma_kept_none(head, p);
        }
    }
    if first_where(ms, p) < ms.len() {
        lemma_kept_has(ms, p, first_where(ms, p));
    } else {
        lemma_kept_none(ms, p);
    }
}

/// No signal makes a second record for a board and a message: whatever the
/// phase and the signal, and whatever other transitions have run in between, the
/// records stay unique.
pub proof fn lemma_step_keeps_mirrors_unique(
    ms: Seq<MessageView>,
    job: JobView,
    snapshot: SnapshotView,
    phase: Phase,
    signal: Signal,
)
    requires
        unique_mirrors(ms),
    ensures
        unique_mirrors(step_of(ms, job, snapshot, phase, signal).messages),
{
    let after = step_of(ms, job, snapshot, phase, signal).messages;
    let p = mirrors(job.board.board_id, source_key(snapshot));
    lemma_first_where_bounds(ms, p);
    assert forall|i: int, j: int| 0 <= i < j < after.len() implies !((
    #[trigger] after[i]).board_id == (#[trigger] after[j]).board_id && after[i].source_id
        == after[j].source_id) by {
        if after.len() > ms.len() {
            if j == ms.len() {
                assert(!p(ms[i]));
            } else {
                assert(after[i] == ms[i] && after[j] == ms[j]);
            }
        } else {
            assert(after[i].board_id == ms[i].board_id && after[i].source_id == ms[i].source_id);
            assert(after[j].board_id == ms[j].board_id && after[j].source_id == ms[j].source_id);
        }
    }
}

/// One call of `step`: a signal for a transition.
pub struct Call {
    pub job: JobView,
    pub snapshot: SnapshotView,
    pub phase: Phase,
    pub signal: Signal,
}

/// The records after a series of calls, in the order they reach the tables.
/// Transitions that run at the same time reach the tables one call after
/// another, in some order: every such order is a series.
pub open spec fn records_after(ms: Seq<MessageView>, calls: Seq<Call>) -> Seq<MessageView>
    decreases calls.len(),
{
    if calls.len() == 0 {
        ms
    } else {
        let call = calls.last();
        step_of(
            records_after(ms, calls.drop_last()),
            call.job,
            call.snapshot,
            call.phase,
            call.signal,
        ).messages
    }
}

/// However many events are processed, and however their transitions interleave,
/// a board never holds two records of one message.
pub proof fn lemma_never_two_mirrors(
    ms: Seq<MessageView>,
    calls: Seq<Call>,
    board_id: i64,
    source: Seq<char>,
)
    requires
        unique_mirrors(ms),
    ensures
        unique_mirrors(records_after(ms, calls)),
        kept(records_after(ms, calls), mirrors(board_id, source)).len() <= 1,
    decreases calls.len(),
{
    if calls.len() > 0 {
        let call = calls.last();
        lemma_never_two_mirrors(ms, calls.drop_last(), board_id, source);
        lemma_step_keeps_mirrors_unique(
            records_after(ms, calls.drop_last()),
            call.job,
            call.snapshot,
            call.phase,
            call.signal,
        );
    }
    lemma_at_most_one_mirror(records_after(ms, calls), board_id, source);
}

/// A transition that ends as `Created` or `Updated` leaves exactly one record of
/// the message on the board, and that record holds the count of the transition.
/// Every other answer leaves the records as they were.
pub proof fn lemma_settled_count(
    ms: Seq<MessageView>,
    job: JobView,
    snapshot: SnapshotView,
    phase: Phase,
    signal: Signal,
)
    requires
        unique_mirrors(ms),
    ensures
        ({
            let after = step_of(ms, job, snapshot, phase, signal);
            let here = mirrors(job.board.board_id, source_key(snapshot));
            if after.step == stop(Outcome::Created) || after.step == stop(Outcome::Updated) {
                &&& kept(after.messages, here).len() == 1
                &&& mirror_of(after.messages, job.board.board_id, source_key(snapshot)) matches Some(
                    m,
                )
                &&& m.reaction_count == recorded_count(job.count)
            } else {
                after.messages == ms
            }
        }),
{
    let after = step_of(ms, job, snapshot, phase, signal);
    let here = mirrors(job.board.board_id, source_key(snapshot));
    lemma_first_where_bounds(ms, here);
    lemma_plan_never_settles(ms, job, snapshot);
    if after.step == stop(Outcome::Created) || after.step == stop(Outcome::Updated) {
        lemma_step_keeps_mirrors_unique(ms, job, snapshot, phase, signal);
        if after.messages.len() > ms.len() {
            assert(here(after.messages[ms.len() as int]));
            assert forall|j: int| 0 <= j < ms.len() implies !here(#[trigger] after.messages[j]) by {
                assert(after.messages[j] == ms[j]);
            }
            lemma_first_where_is(after.messages, here, ms.len() as int);
        } else {
            let i = first_where(ms, here);
            assert(after.messages == with_count(ms, i, recorded_count(job.count)));
            assert forall|j: int| 0 <= j < i implies !here(#[trigger] after.messages[j]) by {
                assert(!here(ms[j]));
            }
            assert(here(after.messages[i]));
            lemma_first_where_is(after.messages, here, i);
        }
        lemma_at_most_one_mirror(after.messages, job.board.board_id, source_key(snapshot));
    }
}

/// After any series of calls, if the last call settled a transition, the board
/// holds exactly one record of the message, and it holds the count of that last
/// transition: among events that interleave, the one recorded last sets the
/// count.
pub proof fn lemma_last_settled_count(ms: Seq<MessageView>, calls: Seq<Call>)
    requires
        unique_mirrors(ms),
        calls.len() > 0,
        ({
            let last = calls.last();
            let answer = step_of(
                records_after(ms, calls.drop_last()),
                last.job,
                last.snapshot,
                last.phase,
                last.signal,
            ).step;
            answer == stop(Outcome::Created) || answer == stop(Outcome::Updated)
        }),
    ensures
        ({
            let last = calls.last();
            let here = mirrors(last.job.board.board_id, source_key(last.snapshot));
            &&& kept(records_after(ms, calls), here).len() == 1
            &&& mirror_of(
                records_after(ms, calls),
                last.job.board.board_id,
                source_key(last.snapshot),
            ) matches Some(m)
            &&& m.reaction_count == recorded_count(last.job.count)
        }),
{
    let last = calls.last();
    lemma_never_two_mirrors(
        ms,
        calls.drop_last(),
        last.job.board.board_id,
        source_key(last.snapshot),
    );
    lemma_settled_count(
        records_after(ms, calls.drop_last()),
        last.job,
        last.snapshot,
        last.phase,
        last.signal,
    );
}

/// A decision alone settles nothing: it never reports `Created` or `Updated`.
proof fn lemma_plan_never_settles(ms: Seq<MessageView>, job: JobView, snapshot: SnapshotView)
    ensures
        plan_of(ms, job, snapshot) != stop(Outcome::Created),
        plan_of(ms, job, snapshot) != stop(Outcome::Updated),
{
}

/// A mirror is posted once. After a transition has recorded a mirror, the next
/// event for the same message on the same board does not post again: it edits
/// the mirror that was posted. If it brings the same count, recording it leaves
/// the records exactly as they were.
pub proof fn lemma_create_then_update(
    ms: Seq<MessageView>,
    job: JobView,
    snapshot: SnapshotView,
    posted: u64,
)
    requires
        unique_mirrors(ms),
        step_of(ms, job, snapshot, Phase::Posting, Signal::Posted(posted)).step == stop(
            Outcome::Created,
        ),
    ensures
        ({
            let created = step_of(ms, job, snapshot, Phase::Posting, Signal::Posted(posted)).messages;
            let again = step_of(created, job, snapshot, Phase::Deciding, Signal::Begin);
            let edited = step_of(created, job, snapshot, Phase::Editing, Signal::Edited);
            &&& !(again.step.command is Post)
            &&& again.messages == created
            &&& destination_of(job.channels, job.board.board.dest_channel) matches Some(channel)
                ==> again.step == (StepView {
                phase: Phase::Editing,
                command: CommandView::Edit {
                    channel,
                    message: posted,
                    content: header_of(
                        job.board.board.name,
                        job.count,
                        snapshot.channel_id,
                        snapshot.post.author.id,
                    ),
                },
            })
            &&& edited.step == stop(Outcome::Updated)
            &&& edited.messages == created
        }),
{
    let here = mirrors(job.board.board_id, source_key(snapshot));
    let created = step_of(ms, job, snapshot, Phase::Posting, Signal::Posted(posted)).messages;
    lemma_plan_never_settles(ms, job, snapshot);
    lemma_first_where_bounds(ms, here);
    assert(posted != 0);
    assert(mirror_of(ms, job.board.board_id, source_key(snapshot)) is None);
    let record = record_of(job, snapshot, posted);
    assert(created == ms.push(record));
    assert forall|j: int| 0 <= j < ms.len() implies !here(#[trigger] created[j]) by {
        assert(created[j] == ms[j]);
    }
    assert(here(created[ms.len() as int]));
    lemma_first_where_is(created, here, ms.len() as int);
    lemma_parse_decimal(posted);
    assert(with_count(created, ms.len() as int, recorded_count(job.count)) =~= created);
}

} // verus!
