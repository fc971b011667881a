//! What a reaction event counts for: the number of reactors, the author's own
//! reaction left out.

use crate::db::{by_name, qualifies, qualifying_boards, BoardRow, BoardRowView, Database};
use crate::reaction::ReactionKey;
use crate::render::{Snapshot, SnapshotView};
use crate::seqs::{kept, views};
use crate::sync::{Job, JobView};
use vstd::prelude::*;

verus! {

/// The effective count of a message: how many users reacted, not counting the
/// author of the message.
pub open spec fn effective_count_of(reactors: Seq<u64>, author: u64) -> int {
    if reactors.contains(author) {
        reactors.len() - 1
    } else {
        reactors.len() as int
    }
}

/// The effective count of a message whose reactors are `reactors`, each user
/// listed once, and whose author is `author`.
pub fn effective_count(reactors: &Vec<u64>, author: u64) -> (count: usize)
    ensures
        count == effective_count_of(reactors@, author),
{
    let mut i: usize = 0;
    while i < reactors.len()
        invariant
            i <= reactors.len(),
            forall|j: int| 0 <= j < i ==> reactors@[j] != author,
        decreases reactors.len() - i,
    {
        if reactors[i] == author {
            assert(reactors@.contains(author));
            return reactors.len() - 1;
        }
        i = i + 1;
    }
    reactors.len()
}

/// The effective count is the size of the reactor set, less one if the author is
/// in it, and is never negative.
pub proof fn lemma_effective_count_of_set(reactors: Seq<u64>, author: u64)
    requires
        reactors.no_duplicates(),
    ensures
        effective_count_of(reactors, author) == if reactors.to_set().contains(author) {
            reactors.to_set().len() - 1
        } else {
            reactors.to_set().len() as int
        },
        effective_count_of(reactors, author) == reactors.to_set().remove(author).len(),
        effective_count_of(reactors, author) >= 0,
{
    reactors.unique_seq_to_set();
    assert(reactors.to_set().contains(author) <==> reactors.contains(author));
    if reactors.contains(author) {
        let i = choose|i: int| 0 <= i < reactors.len() && reactors[i] == author;
        assert(reactors.len() >= 1);
    } else {
        assert(reactors.to_set().remove(author) =~= reactors.to_set());
    }
}

/// The effective count does not depend on the order in which the reactors are
/// listed: two listings of one reactor set count the same.
pub proof fn lemma_effective_count_of_listing(a: Seq<u64>, b: Seq<u64>, author: u64)
    requires
        a.no_duplicates(),
        b.no_duplicates(),
        a.to_set() == b.to_set(),
    ensures
        effective_count_of(a, author) == effective_count_of(b, author),
{
    lemma_effective_count_of_set(a, author);
    lemma_effective_count_of_set(b, author);
}


/// Why a reaction event asks for nothing.
#[derive(Clone, Copy, Debug, PartialEq, Eq, Structural)]
pub enum EventError {
    /// The message, or its channel, could not be fetched: it is gone.
    SourceUnavailable,
    /// The reaction was not added in a guild.
    NotInGuild,
}

/// What was fetched for a reaction event: the message reacted to, and the users
/// who have reacted to it with the reaction of the event, each listed once.
#[derive(Debug)]
pub struct Source {
    pub snapshot: Snapshot,
    pub reactors: Vec<u64>,
}

/// What was fetched, as a mathematical value.
pub struct SourceView {
    pub snapshot: SnapshotView,
    pub reactors: Seq<u64>,
}

impl View for Source {
    type V = SourceView;

    open spec fn view(&self) -> SourceView {
        SourceView { snapshot: self.snapshot@, reactors: self.reactors@ }
    }
}

/// The transitions that a reaction event asks for: one for each board of the
/// guild that the reaction triggers and whose threshold the effective count
/// reaches, in ascending order of board name, each at the effective count.
pub open spec fn jobs_of(
    boards: Seq<BoardRowView>,
    guild: Seq<char>,
    form: Seq<char>,
    count: int,
    channels: Seq<u64>,
) -> Seq<JobView> {
    by_name(kept(boards, qualifies(guild, form, count))).map_values(
        |row: BoardRowView| JobView { board: row, count: count as nat, channels },
    )
}

/// The effective count of what was fetched: the reactors, the author of the
/// message left out.
pub open spec fn count_of(source: SourceView) -> int {
    effective_count_of(source.reactors, source.snapshot.post.author.id)
}

/// Takes in a reaction event: `reaction` was added, in guild `guild_id`, to the
/// message of `source`; `channels` are the guild's channels. Returns the
/// transitions to run, and changes nothing.
///
/// An event whose message could not be fetched asks for nothing, and neither
/// does one outside a guild. An event that no board qualifies for asks for no
/// transition, which is no error.
pub fn handle_reaction_add(
    db: &Database,
    guild_id: Option<&str>,
    reaction: &ReactionKey,
    source: Option<&Source>,
    channels: &Vec<u64>,
) -> (r: Result<Vec<Job>, EventError>)
    ensures
        match (source, guild_id) {
            (None, _) => r == Err::<Vec<Job>, EventError>(EventError::SourceUnavailable),
            (Some(_), None) => r == Err::<Vec<Job>, EventError>(EventError::NotInGuild),
            (Some(fetched), Some(guild)) => r is Ok && views(r->Ok_0@) == jobs_of(
                db.boards(),
                guild@,
                reaction@.canonical(),
                count_of(fetched@),
                channels@,
            ),
        },
{
    let fetched: &Source = match source {
        None => {
            return Err(EventError::SourceUnavailable);
        },
        Some(s) => s,
    };
    let guild: &str = match guild_id {
        None => {
            return Err(EventError::NotInGuild);
        },
        Some(g) => g,
    };
    let count: usize = effective_count(&fetched.reactors, fetched.snapshot.post.author.id);
    let rows: Vec<BoardRow> = qualifying_boards(db, guild, reaction, count);
    let ghost chosen = views(rows@);
    let ghost wanted = jobs_of(
        db.boards(),
        guild@,
        reaction@.canonical(),
        count as int,
        channels@,
    );
    let mut jobs: Vec<Job> = Vec::new();
    let mut i: usize = 0;
    while i < rows.len()
        invariant
            i <= rows.len(),
            chosen == views(rows@),
            wanted == chosen.map_values(
                |row: BoardRowView| JobView { board: row, count: count as nat, channels: channels@ },
            ),
            views(jobs@) == wanted.take(i as int),
        decreases rows.len() - i,
    {
        let ghost had = views(jobs@);
        let job = Job { board: rows[i].clone(), count, channels: channels.clone() };
        assert(job@ == wanted[i as int]);
        jobs.push(job);
        assert(views(jobs@) =~= had.push(wanted[i as int]));
        assert(wanted.take(i + 1) =~= wanted.take(i as int).push(wanted[i as int]));
        i = i + 1;
    }
    assert(wanted.take(i as int) =~= wanted);
    Ok(jobs)
}

} // verus!
