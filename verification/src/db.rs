//! The two tables of the engine, boards and mirrored messages, and the queries
//! on them.
//!
//! A `Database` is a value in memory; loading it from and saving it to a file is
//! the caller's part.

pub use crate::reaction::{from_csv, to_csv};
use crate::reaction::{canonicals, contains_key, has_form, keys, keys_of_csv, ReactionKey};
use crate::seqs::{
    first_where, kept, lemma_first_where_bounds, lemma_first_where_is, lemma_kept_holds,
    lemma_kept_members, lemma_kept_next, views,
};
use crate::text::{
    joined, lemma_lex_irreflexive, lemma_lex_total, lemma_lex_transitive, less, lex_less,
    parse_u64, parsed_u64, same, texts,
};
use std::collections::HashMap;
use vstd::prelude::*;

verus! {

/// A mirroring policy: which reactions trigger it, how many are needed, and where
/// mirrors go.
#[derive(Debug)]
pub struct Board {
    /// The board's name, unique within its guild.
    pub name: String,
    /// The trigger reactions, as a comma-separated list of canonical texts.
    pub reactions: String,
    /// How many reactions a message needs to be mirrored.
    pub min_reactions: i32,
    /// The channel that mirrors are posted to.
    pub dest_channel: String,
}

/// A board as a mathematical value.
pub struct BoardView {
    pub name: Seq<char>,
    pub reactions: Seq<char>,
    pub min_reactions: i32,
    pub dest_channel: Seq<char>,
}

impl View for Board {
    type V = BoardView;

    open spec fn view(&self) -> BoardView {
        BoardView {
            name: self.name@,
            reactions: self.reactions@,
            min_reactions: self.min_reactions,
            dest_channel: self.dest_channel@,
        }
    }
}

impl Clone for Board {
    fn clone(&self) -> (r: Self)
        ensures
            r == *self,
    {
        Board {
            name: self.name.clone(),
            reactions: self.reactions.clone(),
            min_reactions: self.min_reactions,
            dest_channel: self.dest_channel.clone(),
        }
    }
}

/// The record that a board has mirrored a message.
#[derive(Debug)]
pub struct Message {
    /// The author of the mirrored message.
    pub user_id: String,
    /// The mirrored message.
    pub source_id: String,
    /// The mirror: the message posted to the board's channel.
    pub dest_id: String,
    /// The board that holds the mirror.
    pub board_id: i64,
    /// The count that the mirror last displayed.
    pub reaction_count: i64,
}

/// A mirror record as a mathematical value.
pub struct MessageView {
    pub user_id: Seq<char>,
    pub source_id: Seq<char>,
    pub dest_id: Seq<char>,
    pub board_id: i64,
    pub reaction_count: i64,
}

impl View for Message {
    type V = MessageView;

    open spec fn view(&self) -> MessageView {
        MessageView {
            user_id: self.user_id@,
            source_id: self.source_id@,
            dest_id: self.dest_id@,
            board_id: self.board_id,
            reaction_count: self.reaction_count,
        }
    }
}

impl Clone for Message {
    fn clone(&self) -> (r: Self)
        ensures
            r == *self,
    {
        Message {
            user_id: self.user_id.clone(),
            source_id: self.source_id.clone(),
            dest_id: self.dest_id.clone(),
            board_id: self.board_id,
            reaction_count: self.reaction_count,
        }
    }
}

/// A row of the boards table: a board, the guild it belongs to, and its
/// identifier.
#[derive(Debug)]
pub struct BoardRow {
    pub board_id: i64,
    pub guild_id: String,
    pub board: Board,
}

/// A row of the boards table as a mathematical value.
pub struct BoardRowView {
    pub board_id: i64,
    pub guild_id: Seq<char>,
    pub board: BoardView,
}

impl View for BoardRow {
    type V = BoardRowView;

    open spec fn view(&self) -> BoardRowView {
        BoardRowView { board_id: self.board_id, guild_id: self.guild_id@, board: self.board@ }
    }
}

impl Clone for BoardRow {
    fn clone(&self) -> (r: Self)
        ensures
            r == *self,
    {
        BoardRow {
            board_id: self.board_id,
            guild_id: self.guild_id.clone(),
            board: self.board.clone(),
        }
    }
}

/// Why a query on the tables failed.
#[derive(Clone, Copy, Debug, PartialEq, Eq, Structural)]
pub enum DbError {
    /// No row answers the query.
    NotFound,
    /// The board already holds a mirror of the message.
    DuplicateMirror,
    /// The guild already has a board of that name.
    DuplicateBoard,
    /// The threshold does not fit the column that holds it.
    InvalidThreshold,
    /// No board identifier is left.
    Full,
}

/// The rows of guild `guild`.
pub open spec fn in_guild(guild: Seq<char>) -> spec_fn(BoardRowView) -> bool {
    |r: BoardRowView| r.guild_id == guild
}

/// The row of the board `name` of guild `guild`.
pub open spec fn named(guild: Seq<char>, name: Seq<char>) -> spec_fn(BoardRowView) -> bool {
    |r: BoardRowView| r.guild_id == guild && r.board.name == name
}

/// The row of the board with identifier `board_id`.
pub open spec fn numbered(board_id: i64) -> spec_fn(BoardRowView) -> bool {
    |r: BoardRowView| r.board_id == board_id
}

/// The records of board `board_id`.
pub open spec fn on_board(board_id: i64) -> spec_fn(MessageView) -> bool {
    |m: MessageView| m.board_id == board_id
}

/// The record that board `board_id` has mirrored message `source`.
pub open spec fn mirrors(board_id: i64, source: Seq<char>) -> spec_fn(MessageView) -> bool {
    |m: MessageView| m.board_id == board_id && m.source_id == source
}

/// No two records are of the same board and message: a board mirrors a message at
/// most once.
pub open spec fn unique_mirrors(ms: Seq<MessageView>) -> bool {
    forall|i: int, j: int|
        0 <= i < j < ms.len() ==> !((#[trigger] ms[i]).board_id == (#[trigger] ms[j]).board_id
            && ms[i].source_id == ms[j].source_id)
}

/// No two boards share an identifier, nor a guild and a name, and every
/// identifier in use is below the next one to be given out.
pub open spec fn unique_boards(bs: Seq<BoardRowView>, next: i64) -> bool {
    &&& forall|i: int| 0 <= i < bs.len() ==> (#[trigger] bs[i]).board_id < next
    &&& forall|i: int, j: int|
        0 <= i < j < bs.len() ==> (#[trigger] bs[i]).board_id != (#[trigger] bs[j]).board_id
    &&& forall|i: int, j: int|
        0 <= i < j < bs.len() ==> !((#[trigger] bs[i]).guild_id == (#[trigger] bs[j]).guild_id
            && bs[i].board.name == bs[j].board.name)
}

/// The record that board `board_id` has mirrored `source`, if there is one.
pub open spec fn mirror_of(ms: Seq<MessageView>, board_id: i64, source: Seq<char>) -> Option<
    MessageView,
> {
    let i = first_where(ms, mirrors(board_id, source));
    if i < ms.len() {
        Some(ms[i])
    } else {
        None
    }
}

/// The records with one more, `record`, at the end.
pub open spec fn with_mirror(ms: Seq<MessageView>, record: MessageView) -> Seq<MessageView> {
    ms.push(record)
}

/// The records after the count of the mirror at `i` has become `count`: nothing
/// else changes.
pub open spec fn with_count(ms: Seq<MessageView>, i: int, count: i64) -> Seq<MessageView> {
    ms.update(i, MessageView { reaction_count: count, ..ms[i] })
}

/// The boards and the mirror records of every guild.
pub struct Database {
    boards: Vec<BoardRow>,
    messages: Vec<Message>,
    next_board_id: i64,
}

impl Database {
    /// The boards table, in the order the boards were added.
    pub closed spec fn boards(&self) -> Seq<BoardRowView> {
        views(self.boards@)
    }

    /// The messages table, in the order the mirrors were recorded.
    pub closed spec fn messages(&self) -> Seq<MessageView> {
        views(self.messages@)
    }

    /// The identifier that the next board will get.
    pub closed spec fn next_board_id(&self) -> i64 {
        self.next_board_id
    }

    /// The tables are consistent: boards are unique by identifier and by guild and
    /// name, and a board mirrors a message at most once.
    pub open spec fn wf(&self) -> bool {
        &&& unique_boards(self.boards(), self.next_board_id())
        &&& unique_mirrors(self.messages())
    }
}

/// A database with two empty tables.
pub fn create_db() -> (db: Database)
    ensures
        db.wf(),
        db.boards() == Seq::<BoardRowView>::empty(),
        db.messages() == Seq::<MessageView>::empty(),
        db.next_board_id() == 1,
{
    let db = Database { boards: Vec::new(), messages: Vec::new(), next_board_id: 1 };
    assert(db.boards() =~= Seq::<BoardRowView>::empty());
    assert(db.messages() =~= Seq::<MessageView>::empty());
    db
}

/// Where the row of board `name` of guild `guild` stands.
fn find_board(db: &Database, guild: &str, name: &str) -> (i: usize)
    ensures
        i == first_where(db.boards(), named(guild@, name@)),
        i <= db.boards().len(),
        i < db.boards().len() ==> db.boards()[i as int] == db.boards@[i as int]@,
        db.boards().len() == db.boards@.len(),
{
    let mut i: usize = 0;
    while i < db.boards.len()
        invariant
            i <= db.boards.len(),
            forall|j: int| 0 <= j < i ==> !named(guild@, name@)(#[trigger] db.boards()[j]),
        decreases db.boards.len() - i,
    {
        let row: &BoardRow = &db.boards[i];
        assert(db.boards()[i as int] == row@);
        if same(row.guild_id.as_str(), guild) && same(row.board.name.as_str(), name) {
            proof {
                lemma_first_where_is(db.boards(), named(guild@, name@), i as int);
            }
            return i;
        }
        i = i + 1;
    }
    proof {
        lemma_first_where_is(db.boards(), named(guild@, name@), i as int);
    }
    i
}

/// Where the record that board `board_id` has mirrored `source` stands.
fn find_mirror(db: &Database, board_id: i64, source: &str) -> (i: usize)
    ensures
        i == first_where(db.messages(), mirrors(board_id, source@)),
        i <= db.messages().len(),
        i < db.messages().len() ==> db.messages()[i as int] == db.messages@[i as int]@,
        db.messages().len() == db.messages@.len(),
{
    let mut i: usize = 0;
    while i < db.messages.len()
        invariant
            i <= db.messages.len(),
            forall|j: int| 0 <= j < i ==> !mirrors(board_id, source@)(#[trigger] db.messages()[j]),
        decreases db.messages.len() - i,
    {
        let m: &Message = &db.messages[i];
        assert(db.messages()[i as int] == m@);
        if m.board_id == board_id && same(m.source_id.as_str(), source) {
            proof {
                lemma_first_where_is(db.messages(), mirrors(board_id, source@), i as int);
            }
            return i;
        }
        i = i + 1;
    }
    proof {
        lemma_first_where_is(db.messages(), mirrors(board_id, source@), i as int);
    }
    i
}

/// The record that board `board_id` has mirrored `source`, if there is one.
pub fn lookup(db: &Database, board_id: i64, source: &str) -> (r: Option<Message>)
    ensures
        match r {
            Some(m) => mirror_of(db.messages(), board_id, source@) == Some(m@),
            None => mirror_of(db.messages(), board_id, source@) is None,
        },
{
    let i: usize = find_mirror(db, board_id, source);
    if i < db.messages.len() {
        Some(db.messages[i].clone())
    } else {
        None
    }
}

/// Records that board `board_id` has mirrored `source_id`, a message of
/// `user_id`, as `dest_id`, displaying `reaction_count`. A board mirrors a message
/// once: a second record is refused and the tables stay as they are.
pub fn create(
    db: &mut Database,
    board_id: i64,
    user_id: String,
    source_id: String,
    dest_id: String,
    reaction_count: i64,
) -> (r: Result<(), DbError>)
    requires
        old(db).wf(),
    ensures
        final(db).wf(),
        final(db).boards() == old(db).boards(),
        final(db).next_board_id() == old(db).next_board_id(),
        match r {
            Ok(()) => mirror_of(old(db).messages(), board_id, source_id@) is None
                && final(db).messages() == with_mirror(
                old(db).messages(),
                MessageView {
                    user_id: user_id@,
                    source_id: source_id@,
                    dest_id: dest_id@,
                    board_id,
                    reaction_count,
                },
            ),
            Err(e) => e == DbError::DuplicateMirror && mirror_of(
                old(db).messages(),
                board_id,
                source_id@,
            ) is Some && final(db).messages() == old(db).messages(),
        },
{
    let i: usize = find_mirror(db, board_id, source_id.as_str());
    if i < db.messages.len() {
        return Err(DbError::DuplicateMirror);
    }
    let record = Message { user_id, source_id, dest_id, board_id, reaction_count };
    let ghost had = db.messages();
    db.messages.push(record);
    proof {
        assert(db.messages() =~= had.push(record@));
        lemma_first_where_bounds(had, mirrors(board_id, source_id@));
        assert forall|a: int, b: int| 0 <= a < b < db.messages().len() implies !((
        #[trigger] db.messages()[a]).board_id == (#[trigger] db.messages()[b]).board_id
            && db.messages()[a].source_id == db.messages()[b].source_id) by {
            if b == had.len() {
                assert(!mirrors(board_id, source_id@)(had[a]));
            } else {
                assert(db.messages()[a] == had[a] && db.messages()[b] == had[b]);
            }
        }
    }
    Ok(())
}


/// Sets the count that the mirror of `source` on board `board_id` displays.
/// Nothing else of the record changes, and no other record.
pub fn update_count(db: &mut Database, board_id: i64, source: &str, reaction_count: i64) -> (r:
    Result<(), DbError>)
    requires
        old(db).wf(),
    ensures
        final(db).wf(),
        final(db).boards() == old(db).boards(),
        final(db).next_board_id() == old(db).next_board_id(),
        match r {
            Ok(()) => {
                let i = first_where(old(db).messages(), mirrors(board_id, source@));
                i < old(db).messages().len() && final(db).messages() == with_count(
                    old(db).messages(),
                    i,
                    reaction_count,
                )
            },
            Err(e) => e == DbError::NotFound && mirror_of(old(db).messages(), board_id, source@)
                is None && final(db).messages() == old(db).messages(),
        },
{
    let i: usize = find_mirror(db, board_id, source);
    if i >= db.messages.len() {
        return Err(DbError::NotFound);
    }
    let ghost had = db.messages();
    db.messages[i].reaction_count = reaction_count;
    proof {
        assert(db.messages() =~= with_count(had, i as int, reaction_count));
        assert forall|a: int, b: int| 0 <= a < b < db.messages().len() implies !((
        #[trigger] db.messages()[a]).board_id == (#[trigger] db.messages()[b]).board_id
            && db.messages()[a].source_id == db.messages()[b].source_id) by {
            assert(db.messages()[a].board_id == had[a].board_id);
            assert(db.messages()[a].source_id == had[a].source_id);
            assert(db.messages()[b].board_id == had[b].board_id);
            assert(db.messages()[b].source_id == had[b].source_id);
        }
    }
    Ok(())
}

/// The identifier of board `name` of guild `guild`, if the guild has that board.
pub open spec fn board_id_of(bs: Seq<BoardRowView>, guild: Seq<char>, name: Seq<char>) -> Option<
    i64,
> {
    let i = first_where(bs, named(guild, name));
    if i < bs.len() {
        Some(bs[i].board_id)
    } else {
        None
    }
}

/// The identifier of board `name` of guild `guild`.
pub fn board_id(db: &Database, guild_id: &str, board_name: &str) -> (r: Option<i64>)
    ensures
        r == board_id_of(db.boards(), guild_id@, board_name@),
{
    let i: usize = find_board(db, guild_id, board_name);
    if i < db.boards.len() {
        Some(db.boards[i].board_id)
    } else {
        None
    }
}

/// The mirror of message `source_id` on board `board_name` of guild `guild_id`:
/// the identifier of the message posted to the board's channel.
pub fn get_message_dest(db: &Database, guild_id: &str, board_name: &str, source_id: &str) -> (r:
    Result<String, DbError>)
    ensures
        match r {
            Ok(dest) => board_id_of(db.boards(), guild_id@, board_name@) matches Some(id)
                && mirror_of(db.messages(), id, source_id@) matches Some(m) && dest@ == m.dest_id,
            Err(e) => e == DbError::NotFound && (board_id_of(
                db.boards(),
                guild_id@,
                board_name@,
            ) matches Some(id) ==> mirror_of(db.messages(), id, source_id@) is None),
        },
{
    match board_id(db, guild_id, board_name) {
        None => Err(DbError::NotFound),
        Some(id) => match lookup(db, id, source_id) {
            None => Err(DbError::NotFound),
            Some(m) => Ok(m.dest_id),
        },
    }
}

/// Records that board `board_name` of guild `guild_id` has mirrored `source_id`,
/// a message of `user_id`, as `dest_id`, displaying `reaction_count`.
pub fn add_message(
    db: &mut Database,
    guild_id: &str,
    board_name: &str,
    user_id: String,
    source_id: String,
    dest_id: String,
    reaction_count: i64,
) -> (r: Result<(), DbError>)
    requires
        old(db).wf(),
    ensures
        final(db).wf(),
        final(db).boards() == old(db).boards(),
        final(db).next_board_id() == old(db).next_board_id(),
        match board_id_of(old(db).boards(), guild_id@, board_name@) {
            None => r == Err::<(), DbError>(DbError::NotFound) && final(db).messages() == old(db).messages(),
            Some(id) => match mirror_of(old(db).messages(), id, source_id@) {
                Some(_) => r == Err::<(), DbError>(DbError::DuplicateMirror) && final(db).messages() == old(db).messages(),
                None => r is Ok && final(db).messages() == with_mirror(
                    old(db).messages(),
                    MessageView {
                        user_id: user_id@,
                        source_id: source_id@,
                        dest_id: dest_id@,
                        board_id: id,
                        reaction_count,
                    },
                ),
            },
        },
{
    match board_id(db, guild_id, board_name) {
        None => Err(DbError::NotFound),
        Some(id) => create(db, id, user_id, source_id, dest_id, reaction_count),
    }
}

/// Sets the count that the mirror of `source_id` on board `board_name` of guild
/// `guild_id` displays.
pub fn update_message_reaction_count(
    db: &mut Database,
    guild_id: &str,
    board_name: &str,
    source_id: &str,
    reaction_count: i64,
) -> (r: Result<(), DbError>)
    requires
        old(db).wf(),
    ensures
        final(db).wf(),
        final(db).boards() == old(db).boards(),
        final(db).next_board_id() == old(db).next_board_id(),
        match board_id_of(old(db).boards(), guild_id@, board_name@) {
            None => r == Err::<(), DbError>(DbError::NotFound) && final(db).messages() == old(db).messages(),
            Some(id) => {
                let i = first_where(old(db).messages(), mirrors(id, source_id@));
                if i < old(db).messages().len() {
                    r is Ok && final(db).messages() == with_count(
                        old(db).messages(),
                        i,
                        reaction_count,
                    )
                } else {
                    r == Err::<(), DbError>(DbError::NotFound) && final(db).messages() == old(db).messages()
                }
            },
        },
{
    match board_id(db, guild_id, board_name) {
        None => Err(DbError::NotFound),
        Some(id) => update_count(db, id, source_id, reaction_count),
    }
}


/// The boards of guild `guild` that a reaction of canonical text `form` triggers.
pub open spec fn listens(guild: Seq<char>, form: Seq<char>) -> spec_fn(BoardRowView) -> bool {
    |r: BoardRowView| r.guild_id == guild && has_form(keys_of_csv(r.board.reactions), form)
}

/// The boards of guild `guild` that a reaction of canonical text `form` triggers
/// and whose threshold `count` reaches: a threshold equal to the count is reached.
pub open spec fn qualifies(guild: Seq<char>, form: Seq<char>, count: int) -> spec_fn(
    BoardRowView,
) -> bool {
    |r: BoardRowView|
        r.guild_id == guild && has_form(keys_of_csv(r.board.reactions), form)
            && r.board.min_reactions <= count
}

/// Whether `reaction` triggers the board of `row`, a board of guild `guild_id`.
fn row_listens(row: &BoardRow, guild_id: &str, reaction: &ReactionKey) -> (r: bool)
    ensures
        r == listens(guild_id@, reaction@.canonical())(row@),
{
    if !same(row.guild_id.as_str(), guild_id) {
        return false;
    }
    let triggers: Vec<ReactionKey> = from_csv(row.board.reactions.clone());
    contains_key(&triggers, reaction)
}

/// Where a board named `name` goes in `sorted`: before the first board whose name
/// comes after `name`.
pub open spec fn place_of(sorted: Seq<BoardRowView>, name: Seq<char>) -> int {
    first_where(sorted, |r: BoardRowView| lex_less(name, r.board.name))
}

/// `rows` in ascending order of board name; boards of one name keep their order.
pub open spec fn by_name(rows: Seq<BoardRowView>) -> Seq<BoardRowView>
    decreases rows.len(),
{
    if rows.len() == 0 {
        Seq::<BoardRowView>::empty()
    } else {
        let head = by_name(rows.drop_last());
        head.insert(place_of(head, rows.last().board.name), rows.last())
    }
}

/// Whether no board of `rows` stands after a board whose name comes after its
/// own.
pub open spec fn name_ordered(rows: Seq<BoardRowView>) -> bool {
    forall|i: int, j: int|
        0 <= i < j < rows.len() ==> !lex_less(
            (#[trigger] rows[j]).board.name,
            (#[trigger] rows[i]).board.name,
        )
}

/// Placing a board keeps the order of names.
proof fn lemma_place_ordered(sorted: Seq<BoardRowView>, row: BoardRowView)
    requires
        name_ordered(sorted),
    ensures
        0 <= place_of(sorted, row.board.name) <= sorted.len(),
        name_ordered(sorted.insert(place_of(sorted, row.board.name), row)),
{
    let name = row.board.name;
    let after = |r: BoardRowView| lex_less(name, r.board.name);
    let p = place_of(sorted, name);
    lemma_first_where_bounds(sorted, after);
    let next = sorted.insert(p, row);
    assert forall|i: int, j: int| 0 <= i < j < next.len() implies !lex_less(
        (#[trigger] next[j]).board.name,
        (#[trigger] next[i]).board.name,
    ) by {
        if j < p {
            assert(next[i] == sorted[i] && next[j] == sorted[j]);
        } else if j == p {
            assert(next[i] == sorted[i]);
            assert(!after(sorted[i]));
        } else if i == p {
            assert(next[j] == sorted[j - 1]);
            assert(after(sorted[p]));
            if j - 1 > p {
                let first = sorted[p].board.name;
                let later = sorted[j - 1].board.name;
                assert(!lex_less(later, first));
                if lex_less(later, name) {
                    lemma_lex_transitive(later, name, first);
                }
            } else {
                let first = sorted[p].board.name;
                if lex_less(first, name) {
                    lemma_lex_transitive(first, name, first);
                    lemma_lex_irreflexive(first);
                }
            }
        } else if i < p {
            assert(next[i] == sorted[i] && next[j] == sorted[j - 1]);
        } else {
            assert(next[i] == sorted[i - 1] && next[j] == sorted[j - 1]);
        }
    }
}

/// Ordering by name yields the names in order.
pub proof fn lemma_by_name_ordered(rows: Seq<BoardRowView>)
    ensures
        name_ordered(by_name(rows)),
        by_name(rows).len() == rows.len(),
    decreases rows.len(),
{
    if rows.len() > 0 {
        lemma_by_name_ordered(rows.drop_last());
        lemma_place_ordered(by_name(rows.drop_last()), rows.last());
    }
}

/// Ordering by name neither adds nor loses a board.
pub proof fn lemma_by_name_members(rows: Seq<BoardRowView>, row: BoardRowView)
    ensures
        by_name(rows).contains(row) <==> rows.contains(row),
    decreases rows.len(),
{
    if rows.len() > 0 {
        let init = rows.drop_last();
        let head = by_name(init);
        lemma_by_name_members(init, row);
        lemma_by_name_ordered(init);
        lemma_place_ordered(head, rows.last());
        let p = place_of(head, rows.last().board.name);
        let next = head.insert(p, rows.last());
        if head.contains(row) {
            let i = choose|i: int| 0 <= i < head.len() && head[i] == row;
            if i < p {
                assert(next[i] == row);
            } else {
                assert(next[i + 1] == row);
            }
        }
        if row == rows.last() {
            assert(next[p] == row);
            assert(rows[rows.len() - 1] == row);
        }
        if next.contains(row) {
            let i = choose|i: int| 0 <= i < next.len() && next[i] == row;
            if i < p {
                assert(head[i] == row);
            } else if i > p {
                assert(head[i - 1] == row);
            }
        }
        if init.contains(row) {
            let i = choose|i: int| 0 <= i < init.len() && init[i] == row;
            assert(rows[i] == row);
        }
        if rows.contains(row) {
            let i = choose|i: int| 0 <= i < rows.len() && rows[i] == row;
            if i < init.len() {
                assert(init[i] == row);
            }
        }
    }
}

/// Ordering by name only rearranges the boards: each board comes out as often as
/// it went in.
pub proof fn lemma_by_name_permutes(rows: Seq<BoardRowView>)
    ensures
        by_name(rows).to_multiset() == rows.to_multiset(),
    decreases rows.len(),
{
    if rows.len() > 0 {
        let init = rows.drop_last();
        let head = by_name(init);
        lemma_by_name_permutes(init);
        lemma_by_name_ordered(init);
        lemma_place_ordered(head, rows.last());
        let p = place_of(head, rows.last().board.name);
        vstd::seq_lib::to_multiset_insert(head, p, rows.last());
        vstd::seq_lib::to_multiset_build(init, rows.last());
        assert(rows =~= init.push(rows.last()));
        assert(by_name(rows) == head.insert(p, rows.last()));
        assert(head.insert(p, rows.last()).to_multiset() == head.to_multiset().insert(rows.last()));
        assert(init.push(rows.last()).to_multiset() =~= init.to_multiset().insert(rows.last()));
    } else {
        assert(rows =~= Seq::<BoardRowView>::empty());
    }
}

/// Whether no two boards of `rows` bear the same name.
pub open spec fn distinct_names(rows: Seq<BoardRowView>) -> bool {
    forall|i: int, j: int|
        0 <= i < j < rows.len() ==> (#[trigger] rows[i]).board.name != (#[trigger] rows[j]).board.name
}

/// Whether names strictly ascend along `rows`.
pub open spec fn name_ascending(rows: Seq<BoardRowView>) -> bool {
    forall|i: int, j: int|
        0 <= i < j < rows.len() ==> lex_less(
            (#[trigger] rows[i]).board.name,
            (#[trigger] rows[j]).board.name,
        )
}

/// Boards of distinct names come out in strictly ascending order of name.
pub proof fn lemma_by_name_ascending(rows: Seq<BoardRowView>)
    requires
        distinct_names(rows),
    ensures
        name_ascending(by_name(rows)),
    decreases rows.len(),
{
    if rows.len() > 0 {
        let init = rows.drop_last();
        let row = rows.last();
        assert forall|i: int, j: int| 0 <= i < j < init.len() implies (
        #[trigger] init[i]).board.name != (#[trigger] init[j]).board.name by {
            assert(init[i] == rows[i] && init[j] == rows[j]);
        }
        lemma_by_name_ascending(init);
        let head = by_name(init);
        let after = |r: BoardRowView| lex_less(row.board.name, r.board.name);
        let p = place_of(head, row.board.name);
        lemma_first_where_bounds(head, after);
        let next = head.insert(p, row);
        assert forall|k: int| 0 <= k < head.len() implies (#[trigger] head[k]).board.name
            != row.board.name by {
            lemma_by_name_members(init, head[k]);
            assert(head.contains(head[k]));
            let m = choose|m: int| 0 <= m < init.len() && init[m] == head[k];
            assert(rows[m] == head[k]);
            assert(rows[rows.len() - 1] == row);
        }
        assert forall|i: int, j: int| 0 <= i < j < next.len() implies lex_less(
            (#[trigger] next[i]).board.name,
            (#[trigger] next[j]).board.name,
        ) by {
            if j < p {
                assert(next[i] == head[i] && next[j] == head[j]);
            } else if j == p {
                assert(next[i] == head[i]);
                assert(!after(head[i]));
                lemma_lex_total(head[i].board.name, row.board.name);
            } else if i == p {
                assert(next[j] == head[j - 1]);
                assert(after(head[p]));
                if j - 1 > p {
                    lemma_lex_transitive(
                        row.board.name,
                        head[p].board.name,
                        head[j - 1].board.name,
                    );
                }
            } else if i < p {
                assert(next[i] == head[i] && next[j] == head[j - 1]);
            } else {
                assert(next[i] == head[i - 1] && next[j] == head[j - 1]);
            }
        }
    }
}

/// Two lists in strictly ascending order of name that hold the same boards are
/// the same list.
pub proof fn lemma_ascending_lists_agree(x: Seq<BoardRowView>, y: Seq<BoardRowView>)
    requires
        name_ascending(x),
        name_ascending(y),
        forall|r: BoardRowView| x.contains(r) <==> y.contains(r),
    ensures
        x == y,
    decreases x.len(),
{
    if x.len() == 0 {
        if y.len() > 0 {
            assert(y.contains(y[0]));
        }
        assert(x =~= y);
    } else {
        assert(x.contains(x[0]));
        let k = choose|k: int| 0 <= k < y.len() && y[k] == x[0];
        assert(y.contains(y[0]));
        let m = choose|m: int| 0 <= m < x.len() && x[m] == y[0];
        if k > 0 {
            // y[0] comes before y[k] = x[0], which does not come after x[m] = y[0]
            assert(lex_less(y[0].board.name, y[k].board.name));
            if m > 0 {
                assert(lex_less(x[0].board.name, x[m].board.name));
                lemma_lex_transitive(y[0].board.name, x[0].board.name, y[0].board.name);
            }
            lemma_lex_irreflexive(y[0].board.name);
        }
        assert(x[0] == y[0]);
        let xs = x.skip(1);
        let ys = y.skip(1);
        assert forall|r: BoardRowView| xs.contains(r) <==> ys.contains(r) by {
            if xs.contains(r) {
                let i = choose|i: int| 0 <= i < xs.len() && xs[i] == r;
                assert(x[i + 1] == r);
                assert(x.contains(r));
                let j = choose|j: int| 0 <= j < y.len() && y[j] == r;
                assert(lex_less(x[0].board.name, x[i + 1].board.name));
                lemma_lex_irreflexive(x[0].board.name);
                assert(j != 0);
                assert(ys[j - 1] == r);
            }
            if ys.contains(r) {
                let j = choose|j: int| 0 <= j < ys.len() && ys[j] == r;
                assert(y[j + 1] == r);
                assert(y.contains(r));
                let i = choose|i: int| 0 <= i < x.len() && x[i] == r;
                assert(lex_less(y[0].board.name, y[j + 1].board.name));
                lemma_lex_irreflexive(y[0].board.name);
                assert(i != 0);
                assert(xs[i - 1] == r);
            }
        }
        assert forall|i: int, j: int| 0 <= i < j < xs.len() implies lex_less(
            (#[trigger] xs[i]).board.name,
            (#[trigger] xs[j]).board.name,
        ) by {
            assert(xs[i] == x[i + 1] && xs[j] == x[j + 1]);
        }
        assert forall|i: int, j: int| 0 <= i < j < ys.len() implies lex_less(
            (#[trigger] ys[i]).board.name,
            (#[trigger] ys[j]).board.name,
        ) by {
            assert(ys[i] == y[i + 1] && ys[j] == y[j + 1]);
        }
        lemma_ascending_lists_agree(xs, ys);
        assert(x =~= seq![x[0]] + xs);
        assert(y =~= seq![y[0]] + ys);
    }
}

/// The order in which boards qualify does not depend on the order in which they
/// are listed: two lists of the same boards, no two of one name, come out the
/// same.
pub proof fn lemma_by_name_same_order(a: Seq<BoardRowView>, b: Seq<BoardRowView>)
    requires
        distinct_names(a),
        distinct_names(b),
        forall|r: BoardRowView| a.contains(r) <==> b.contains(r),
    ensures
        by_name(a) == by_name(b),
{
    lemma_by_name_ascending(a);
    lemma_by_name_ascending(b);
    assert forall|r: BoardRowView| by_name(a).contains(r) <==> by_name(b).contains(r) by {
        lemma_by_name_members(a, r);
        lemma_by_name_members(b, r);
    }
    lemma_ascending_lists_agree(by_name(a), by_name(b));
}

/// The boards of one guild that a table keeps bear distinct names.
pub proof fn lemma_guild_names_distinct(
    bs: Seq<BoardRowView>,
    next: i64,
    guild: Seq<char>,
    p: spec_fn(BoardRowView) -> bool,
)
    requires
        unique_boards(bs, next),
        forall|r: BoardRowView| p(r) ==> r.guild_id == guild,
    ensures
        distinct_names(kept(bs, p)),
    decreases bs.len(),
{
    if bs.len() > 0 {
        let head = bs.drop_last();
        assert(unique_boards(head, next)) by {
            assert forall|i: int| 0 <= i < head.len() implies (#[trigger] head[i]).board_id
                < next by {
                assert(head[i] == bs[i]);
            }
            assert forall|i: int, j: int| 0 <= i < j < head.len() implies (
            #[trigger] head[i]).board_id != (#[trigger] head[j]).board_id && !(head[i].guild_id
                == head[j].guild_id && head[i].board.name == head[j].board.name) by {
                assert(head[i] == bs[i] && head[j] == bs[j]);
            }
        }
        lemma_guild_names_distinct(head, next, guild, p);
        lemma_kept_members(head, p);
        let now = kept(bs, p);
        let before = kept(head, p);
        assert forall|i: int, j: int| 0 <= i < j < now.len() implies (#[trigger] now[i]).board.name
            != (#[trigger] now[j]).board.name by {
            if j < before.len() {
                assert(now[i] == before[i] && now[j] == before[j]);
            } else {
                assert(now[i] == before[i]);
                assert(p(before[i]) && head.contains(before[i]));
                let k = choose|k: int| 0 <= k < head.len() && head[k] == before[i];
                assert(bs[k] == before[i]);
                assert(now[j] == bs[bs.len() - 1]);
                assert(p(bs[bs.len() - 1]));
            }
        }
    }
}

/// Boards of one guild that are chosen by what they are come out in the same
/// order from any two tables that hold the same boards, in whatever order the
/// tables hold them.
pub proof fn lemma_guild_order_is_fixed(
    a: Seq<BoardRowView>,
    a_next: i64,
    b: Seq<BoardRowView>,
    b_next: i64,
    guild: Seq<char>,
    p: spec_fn(BoardRowView) -> bool,
)
    requires
        unique_boards(a, a_next),
        unique_boards(b, b_next),
        forall|r: BoardRowView| a.contains(r) <==> b.contains(r),
        forall|r: BoardRowView| p(r) ==> r.guild_id == guild,
    ensures
        by_name(kept(a, p)) == by_name(kept(b, p)),
{
    lemma_guild_names_distinct(a, a_next, guild, p);
    lemma_guild_names_distinct(b, b_next, guild, p);
    lemma_kept_members(a, p);
    lemma_kept_members(b, p);
    assert forall|r: BoardRowView| kept(a, p).contains(r) <==> kept(b, p).contains(r) by {
        if kept(a, p).contains(r) {
            let k = choose|k: int| 0 <= k < kept(a, p).len() && kept(a, p)[k] == r;
            assert(p(kept(a, p)[k]) && a.contains(kept(a, p)[k]));
            lemma_kept_holds(b, p, r);
        }
        if kept(b, p).contains(r) {
            let k = choose|k: int| 0 <= k < kept(b, p).len() && kept(b, p)[k] == r;
            assert(p(kept(b, p)[k]) && b.contains(kept(b, p)[k]));
            lemma_kept_holds(a, p, r);
        }
    }
    lemma_by_name_same_order(kept(a, p), kept(b, p));
}

/// The boards that an event qualifies for, and their order, are the same for
/// any two tables that hold the same boards, in whatever order the tables hold
/// them.
pub proof fn lemma_qualifying_order_is_fixed(
    a: Seq<BoardRowView>,
    a_next: i64,
    b: Seq<BoardRowView>,
    b_next: i64,
    guild: Seq<char>,
    form: Seq<char>,
    count: int,
)
    requires
        unique_boards(a, a_next),
        unique_boards(b, b_next),
        forall|r: BoardRowView| a.contains(r) <==> b.contains(r),
    ensures
        by_name(kept(a, qualifies(guild, form, count))) == by_name(
            kept(b, qualifies(guild, form, count)),
        ),
{
    lemma_guild_order_is_fixed(a, a_next, b, b_next, guild, qualifies(guild, form, count));
}

/// The boards that a reaction triggers, and their order, are the same for any
/// two tables that hold the same boards, in whatever order the tables hold them.
pub proof fn lemma_listening_order_is_fixed(
    a: Seq<BoardRowView>,
    a_next: i64,
    b: Seq<BoardRowView>,
    b_next: i64,
    guild: Seq<char>,
    form: Seq<char>,
)
    requires
        unique_boards(a, a_next),
        unique_boards(b, b_next),
        forall|r: BoardRowView| a.contains(r) <==> b.contains(r),
    ensures
        by_name(kept(a, listens(guild, form))) == by_name(kept(b, listens(guild, form))),
{
    lemma_guild_order_is_fixed(a, a_next, b, b_next, guild, listens(guild, form));
}

/// Puts `row` at its place in `sorted`.
fn place_row(sorted: &mut Vec<BoardRow>, row: BoardRow)
    ensures
        views(final(sorted)@) == views(old(sorted)@).insert(
            place_of(views(old(sorted)@), row@.board.name),
            row@,
        ),
{
    let ghost had = views(sorted@);
    let ghost after = |r: BoardRowView| lex_less(row@.board.name, r.board.name);
    let mut p: usize = 0;
    while p < sorted.len()
        invariant
            p <= sorted.len(),
            had == views(sorted@),
            sorted@ == old(sorted)@,
            after == (|r: BoardRowView| lex_less(row@.board.name, r.board.name)),
            forall|j: int| 0 <= j < p ==> !after(#[trigger] had[j]),
        decreases sorted.len() - p,
    {
        assert(had[p as int] == sorted@[p as int]@);
        if less(row.board.name.as_str(), sorted[p].board.name.as_str()) {
            proof {
                lemma_first_where_is(had, after, p as int);
            }
            sorted.insert(p, row);
            assert(views(sorted@) =~= had.insert(p as int, row@));
            return ;
        }
        p = p + 1;
    }
    proof {
        lemma_first_where_is(had, after, p as int);
    }
    sorted.insert(p, row);
    assert(views(sorted@) =~= had.insert(p as int, row@));
}

/// The boards of guild `guild_id` that `reaction` triggers, whatever their
/// threshold, in ascending order of name: the order depends on the boards alone,
/// not on the order in which the table holds them.
pub fn find_min_reactions(db: &Database, guild_id: &str, reaction: &ReactionKey) -> (out: Vec<
    BoardRow,
>)
    ensures
        views(out@) == by_name(kept(db.boards(), listens(guild_id@, reaction@.canonical()))),
{
    let ghost p = listens(guild_id@, reaction@.canonical());
    let mut out: Vec<BoardRow> = Vec::new();
    let mut i: usize = 0;
    assert(db.boards().take(0) =~= Seq::<BoardRowView>::empty());
    assert(views(out@) =~= Seq::<BoardRowView>::empty());
    while i < db.boards.len()
        invariant
            i <= db.boards.len(),
            p == listens(guild_id@, reaction@.canonical()),
            views(out@) == by_name(kept(db.boards().take(i as int), p)),
        decreases db.boards.len() - i,
    {
        let row: &BoardRow = &db.boards[i];
        assert(db.boards()[i as int] == row@);
        proof {
            lemma_kept_next(db.boards(), p, i as int);
        }
        if row_listens(row, guild_id, reaction) {
            let ghost chosen = kept(db.boards().take(i as int), p);
            assert(chosen.push(row@).drop_last() =~= chosen);
            place_row(&mut out, row.clone());
        }
        i = i + 1;
    }
    assert(db.boards().take(i as int) =~= db.boards());
    out
}

/// The boards that a reaction event qualifies for: the boards of guild
/// `guild_id` that `reaction` triggers and whose threshold is at most `count`, in
/// ascending order of name.
pub fn qualifying_boards(db: &Database, guild_id: &str, reaction: &ReactionKey, count: usize) -> (out:
    Vec<BoardRow>)
    ensures
        views(out@) == by_name(
            kept(db.boards(), qualifies(guild_id@, reaction@.canonical(), count as int)),
        ),
{
    let ghost p = qualifies(guild_id@, reaction@.canonical(), count as int);
    let mut out: Vec<BoardRow> = Vec::new();
    let mut i: usize = 0;
    assert(db.boards().take(0) =~= Seq::<BoardRowView>::empty());
    assert(views(out@) =~= Seq::<BoardRowView>::empty());
    while i < db.boards.len()
        invariant
            i <= db.boards.len(),
            p == qualifies(guild_id@, reaction@.canonical(), count as int),
            views(out@) == by_name(kept(db.boards().take(i as int), p)),
        decreases db.boards.len() - i,
    {
        let row: &BoardRow = &db.boards[i];
        assert(db.boards()[i as int] == row@);
        proof {
            lemma_kept_next(db.boards(), p, i as int);
        }
        let reached: bool = row.board.min_reactions < 0 || row.board.min_reactions as usize
            <= count;
        if reached && row_listens(row, guild_id, reaction) {
            let ghost chosen = kept(db.boards().take(i as int), p);
            assert(chosen.push(row@).drop_last() =~= chosen);
            place_row(&mut out, row.clone());
        }
        i = i + 1;
    }
    assert(db.boards().take(i as int) =~= db.boards());
    out
}


/// The names of the boards of guild `guild_id`, in table order.
pub fn get_board_names(db: &Database, guild_id: &str) -> (out: Vec<String>)
    ensures
        texts(out@) == kept(db.boards(), in_guild(guild_id@)).map_values(
            |r: BoardRowView| r.board.name,
        ),
{
    let ghost p = in_guild(guild_id@);
    let ghost name_of = |r: BoardRowView| r.board.name;
    let mut out: Vec<String> = Vec::new();
    let mut i: usize = 0;
    assert(db.boards().take(0) =~= Seq::<BoardRowView>::empty());
    assert(texts(out@) =~= kept(db.boards().take(0), p).map_values(name_of));
    while i < db.boards.len()
        invariant
            i <= db.boards.len(),
            p == in_guild(guild_id@),
            name_of == (|r: BoardRowView| r.board.name),
            texts(out@) == kept(db.boards().take(i as int), p).map_values(name_of),
        decreases db.boards.len() - i,
    {
        let row: &BoardRow = &db.boards[i];
        assert(db.boards()[i as int] == row@);
        proof {
            lemma_kept_next(db.boards(), p, i as int);
        }
        if same(row.guild_id.as_str(), guild_id) {
            let ghost had = texts(out@);
            let ghost chosen = kept(db.boards().take(i as int), p);
            out.push(row.board.name.clone());
            assert(texts(out@) =~= had.push(row@.board.name));
            assert(chosen.push(row@).map_values(name_of) =~= chosen.map_values(name_of).push(
                row@.board.name,
            ));
        }
        i = i + 1;
    }
    assert(db.boards().take(i as int) =~= db.boards());
    out
}

/// The boards of guild `guild_id`, in table order.
pub fn get_guild_boards(db: &Database, guild_id: &str) -> (out: Vec<Board>)
    ensures
        views(out@) == kept(db.boards(), in_guild(guild_id@)).map_values(
            |r: BoardRowView| r.board,
        ),
{
    let ghost p = in_guild(guild_id@);
    let ghost board_of = |r: BoardRowView| r.board;
    let mut out: Vec<Board> = Vec::new();
    let mut i: usize = 0;
    assert(db.boards().take(0) =~= Seq::<BoardRowView>::empty());
    assert(views(out@) =~= kept(db.boards().take(0), p).map_values(board_of));
    while i < db.boards.len()
        invariant
            i <= db.boards.len(),
            p == in_guild(guild_id@),
            board_of == (|r: BoardRowView| r.board),
            views(out@) == kept(db.boards().take(i as int), p).map_values(board_of),
        decreases db.boards.len() - i,
    {
        let row: &BoardRow = &db.boards[i];
        assert(db.boards()[i as int] == row@);
        proof {
            lemma_kept_next(db.boards(), p, i as int);
        }
        if same(row.guild_id.as_str(), guild_id) {
            let ghost had = views(out@);
            let ghost chosen = kept(db.boards().take(i as int), p);
            out.push(row.board.clone());
            assert(views(out@) =~= had.push(row@.board));
            assert(chosen.push(row@).map_values(board_of) =~= chosen.map_values(board_of).push(
                row@.board,
            ));
        }
        i = i + 1;
    }
    assert(db.boards().take(i as int) =~= db.boards());
    out
}

/// The first board that `p` holds of, if there is one.
pub open spec fn board_where(bs: Seq<BoardRowView>, p: spec_fn(BoardRowView) -> bool) -> Option<
    BoardView,
> {
    let i = first_where(bs, p);
    if i < bs.len() {
        Some(bs[i].board)
    } else {
        None
    }
}

/// The board `board_name` of guild `guild_id`.
pub fn get_board(db: &Database, guild_id: &str, board_name: &str) -> (r: Result<Board, DbError>)
    ensures
        match r {
            Ok(board) => board_where(db.boards(), named(guild_id@, board_name@)) == Some(board@),
            Err(e) => e == DbError::NotFound && board_where(
                db.boards(),
                named(guild_id@, board_name@),
            ) is None,
        },
{
    let i: usize = find_board(db, guild_id, board_name);
    if i < db.boards.len() {
        Ok(db.boards[i].board.clone())
    } else {
        Err(DbError::NotFound)
    }
}

/// Where the row of the board with identifier `board_id` stands.
fn find_board_by_id(db: &Database, board_id: i64) -> (i: usize)
    ensures
        i == first_where(db.boards(), numbered(board_id)),
        i <= db.boards().len(),
        i < db.boards().len() ==> db.boards()[i as int] == db.boards@[i as int]@,
        db.boards().len() == db.boards@.len(),
{
    let mut i: usize = 0;
    while i < db.boards.len()
        invariant
            i <= db.boards.len(),
            forall|j: int| 0 <= j < i ==> !numbered(board_id)(#[trigger] db.boards()[j]),
        decreases db.boards.len() - i,
    {
        assert(db.boards()[i as int] == db.boards@[i as int]@);
        if db.boards[i].board_id == board_id {
            proof {
                lemma_first_where_is(db.boards(), numbered(board_id), i as int);
            }
            return i;
        }
        i = i + 1;
    }
    proof {
        lemma_first_where_is(db.boards(), numbered(board_id), i as int);
    }
    i
}

/// The board with identifier `board_id`.
pub fn get_board_by_id(db: &Database, board_id: i64) -> (r: Result<Board, DbError>)
    ensures
        match r {
            Ok(board) => board_where(db.boards(), numbered(board_id)) == Some(board@),
            Err(e) => e == DbError::NotFound && board_where(db.boards(), numbered(board_id))
                is None,
        },
{
    let i: usize = find_board_by_id(db, board_id);
    if i < db.boards.len() {
        Ok(db.boards[i].board.clone())
    } else {
        Err(DbError::NotFound)
    }
}

/// The records of the boards of guild `guild`.
pub open spec fn in_guild_of(bs: Seq<BoardRowView>, guild: Seq<char>) -> spec_fn(
    MessageView,
) -> bool {
    |m: MessageView|
        first_where(bs, |r: BoardRowView| r.board_id == m.board_id && r.guild_id == guild)
            < bs.len()
}

/// Whether board `board_id` is a board of guild `guild_id`.
fn board_in_guild(db: &Database, board_id: i64, guild_id: &str) -> (r: bool)
    ensures
        r == (first_where(
            db.boards(),
            |r: BoardRowView| r.board_id == board_id && r.guild_id == guild_id@,
        ) < db.boards().len()),
{
    let ghost p = |r: BoardRowView| r.board_id == board_id && r.guild_id == guild_id@;
    let mut i: usize = 0;
    while i < db.boards.len()
        invariant
            i <= db.boards.len(),
            p == (|r: BoardRowView| r.board_id == board_id && r.guild_id == guild_id@),
            forall|j: int| 0 <= j < i ==> !p(#[trigger] db.boards()[j]),
        decreases db.boards.len() - i,
    {
        assert(db.boards()[i as int] == db.boards@[i as int]@);
        if db.boards[i].board_id == board_id && same(db.boards[i].guild_id.as_str(), guild_id) {
            proof {
                lemma_first_where_is(db.boards(), p, i as int);
            }
            return true;
        }
        i = i + 1;
    }
    proof {
        lemma_first_where_is(db.boards(), p, i as int);
    }
    false
}

/// The mirror records of the boards of guild `guild_id`, in table order.
pub fn get_guild_messages(db: &Database, guild_id: &str) -> (out: Vec<Message>)
    ensures
        views(out@) == kept(db.messages(), in_guild_of(db.boards(), guild_id@)),
{
    let ghost p = in_guild_of(db.boards(), guild_id@);
    let mut out: Vec<Message> = Vec::new();
    let mut i: usize = 0;
    assert(db.messages().take(0) =~= Seq::<MessageView>::empty());
    assert(views(out@) =~= Seq::<MessageView>::empty());
    while i < db.messages.len()
        invariant
            i <= db.messages.len(),
            p == in_guild_of(db.boards(), guild_id@),
            views(out@) == kept(db.messages().take(i as int), p),
        decreases db.messages.len() - i,
    {
        let m: &Message = &db.messages[i];
        assert(db.messages()[i as int] == m@);
        proof {
            lemma_kept_next(db.messages(), p, i as int);
        }
        if board_in_guild(db, m.board_id, guild_id) {
            let ghost had = views(out@);
            out.push(m.clone());
            assert(views(out@) =~= had.push(m@));
        }
        i = i + 1;
    }
    assert(db.messages().take(i as int) =~= db.messages());
    out
}

/// The mirror records of board `board_id`, in table order.
fn messages_on(db: &Database, board_id: i64) -> (out: Vec<Message>)
    ensures
        views(out@) == kept(db.messages(), on_board(board_id)),
{
    let ghost p = on_board(board_id);
    let mut out: Vec<Message> = Vec::new();
    let mut i: usize = 0;
    assert(db.messages().take(0) =~= Seq::<MessageView>::empty());
    assert(views(out@) =~= Seq::<MessageView>::empty());
    while i < db.messages.len()
        invariant
            i <= db.messages.len(),
            p == on_board(board_id),
            views(out@) == kept(db.messages().take(i as int), p),
        decreases db.messages.len() - i,
    {
        let m: &Message = &db.messages[i];
        assert(db.messages()[i as int] == m@);
        proof {
            lemma_kept_next(db.messages(), p, i as int);
        }
        if m.board_id == board_id {
            let ghost had = views(out@);
            out.push(m.clone());
            assert(views(out@) =~= had.push(m@));
        }
        i = i + 1;
    }
    assert(db.messages().take(i as int) =~= db.messages());
    out
}

/// The mirror records of board `board_name` of guild `guild_id`, in table order.
pub fn get_board_messages(db: &Database, guild_id: &str, board_name: &str) -> (r: Result<
    Vec<Message>,
    DbError,
>)
    ensures
        match r {
            Ok(out) => board_id_of(db.boards(), guild_id@, board_name@) matches Some(id)
                && views(out@) == kept(db.messages(), on_board(id)),
            Err(e) => e == DbError::NotFound && board_id_of(db.boards(), guild_id@, board_name@)
                is None,
        },
{
    match board_id(db, guild_id, board_name) {
        None => Err(DbError::NotFound),
        Some(id) => Ok(messages_on(db, id)),
    }
}


/// The threshold that a board gets: the one asked for, 5 where none is, and none
/// at all where the one asked for does not fit the column.
pub open spec fn threshold_of(min_reactions: Option<i64>) -> Option<i32> {
    let asked = match min_reactions {
        Some(v) => v,
        None => 5,
    };
    if i32::MIN <= asked <= i32::MAX {
        Some(asked as i32)
    } else {
        None
    }
}

fn threshold(min_reactions: Option<i64>) -> (r: Option<i32>)
    ensures
        r == threshold_of(min_reactions),
{
    let asked: i64 = match min_reactions {
        Some(v) => v,
        None => 5,
    };
    if asked >= -2147483648 && asked <= 2147483647 {
        Some(asked as i32)
    } else {
        None
    }
}

/// Why a board cannot be added, if it cannot.
pub open spec fn add_error(
    bs: Seq<BoardRowView>,
    next: i64,
    guild: Seq<char>,
    name: Seq<char>,
    min_reactions: Option<i64>,
) -> Option<DbError> {
    if threshold_of(min_reactions) is None {
        Some(DbError::InvalidThreshold)
    } else if board_id_of(bs, guild, name) is Some {
        Some(DbError::DuplicateBoard)
    } else if next == i64::MAX {
        Some(DbError::Full)
    } else {
        None
    }
}

/// Adds a board to guild `guild_id`. The board gets the next identifier; its
/// trigger reactions are stored as a comma-separated list of canonical texts.
/// A guild has one board of a name: a second is refused.
pub fn add_board(
    db: &mut Database,
    guild_id: String,
    name: String,
    reactions: Vec<ReactionKey>,
    min_reactions: Option<i64>,
    dest_channel: String,
) -> (r: Result<(), DbError>)
    requires
        old(db).wf(),
    ensures
        final(db).wf(),
        final(db).messages() == old(db).messages(),
        match r {
            Ok(_) => add_error(
                old(db).boards(),
                old(db).next_board_id(),
                guild_id@,
                name@,
                min_reactions,
            ) is None,
            Err(e) => add_error(
                old(db).boards(),
                old(db).next_board_id(),
                guild_id@,
                name@,
                min_reactions,
            ) == Some(e),
        },
        match threshold_of(min_reactions) {
            None => r == Err::<(), DbError>(DbError::InvalidThreshold) && final(db).boards() == old(db).boards() && final(db).next_board_id() == old(db).next_board_id(),
            Some(min) => if board_id_of(old(db).boards(), guild_id@, name@) is Some {
                r == Err::<(), DbError>(DbError::DuplicateBoard) && final(db).boards() == old(db).boards() && final(db).next_board_id() == old(db).next_board_id()
            } else if old(db).next_board_id() == i64::MAX {
                r == Err::<(), DbError>(DbError::Full) && final(db).boards() == old(db).boards()
                    && final(db).next_board_id() == old(db).next_board_id()
            } else {
                r is Ok && final(db).next_board_id() == old(db).next_board_id() + 1 && final(db).boards() == old(db).boards().push(
                    BoardRowView {
                        board_id: old(db).next_board_id(),
                        guild_id: guild_id@,
                        board: BoardView {
                            name: name@,
                            reactions: joined(canonicals(keys(reactions@)), seq![',']),
                            min_reactions: min,
                            dest_channel: dest_channel@,
                        },
                    },
                )
            },
        },
{
    let min: i32 = match threshold(min_reactions) {
        None => {
            return Err(DbError::InvalidThreshold);
        },
        Some(m) => m,
    };
    let at: usize = find_board(db, guild_id.as_str(), name.as_str());
    if at < db.boards.len() {
        return Err(DbError::DuplicateBoard);
    }
    if db.next_board_id == i64::MAX {
        return Err(DbError::Full);
    }
    let ghost had = db.boards();
    proof {
        lemma_first_where_bounds(had, named(guild_id@, name@));
    }
    let row = BoardRow {
        board_id: db.next_board_id,
        guild_id,
        board: Board { name, reactions: to_csv(reactions), min_reactions: min, dest_channel },
    };
    db.boards.push(row);
    db.next_board_id = db.next_board_id + 1;
    proof {
        assert(db.boards() =~= had.push(row@));
        let now = db.boards();
        assert forall|i: int| 0 <= i < now.len() implies (#[trigger] now[i]).board_id
            < db.next_board_id() by {
            if i < had.len() {
                assert(now[i] == had[i]);
            }
        }
        assert forall|i: int, j: int| 0 <= i < j < now.len() implies (#[trigger] now[i]).board_id
            != (#[trigger] now[j]).board_id && !(now[i].guild_id == now[j].guild_id
            && now[i].board.name == now[j].board.name) by {
            assert(now[i] == had[i]);
            if j < had.len() {
                assert(now[j] == had[j]);
            } else {
                assert(!named(row@.guild_id, row@.board.name)(had[i]));
            }
        }
        assert(db.messages() == old(db).messages());
    }
    Ok(())
}

/// The records that are not of board `board_id`.
pub open spec fn off_board(board_id: i64) -> spec_fn(MessageView) -> bool {
    |m: MessageView| m.board_id != board_id
}

/// Keeping some records of a table without duplicates leaves no duplicates.
pub proof fn lemma_kept_mirrors_unique(ms: Seq<MessageView>, p: spec_fn(MessageView) -> bool)
    requires
        unique_mirrors(ms),
    ensures
        unique_mirrors(kept(ms, p)),
    decreases ms.len(),
{
    if ms.len() > 0 {
        let head = ms.drop_last();
        assert forall|i: int, j: int| 0 <= i < j < head.len() implies !((
        #[trigger] head[i]).board_id == (#[trigger] head[j]).board_id && head[i].source_id
            == head[j].source_id) by {
            assert(head[i] == ms[i] && head[j] == ms[j]);
        }
        lemma_kept_mirrors_unique(head, p);
        lemma_kept_members(head, p);
        let now = kept(ms, p);
        let before = kept(head, p);
        assert forall|i: int, j: int| 0 <= i < j < now.len() implies !((
        #[trigger] now[i]).board_id == (#[trigger] now[j]).board_id && now[i].source_id
            == now[j].source_id) by {
            if j < before.len() {
                assert(now[i] == before[i] && now[j] == before[j]);
            } else {
                assert(now[i] == before[i]);
                assert(head.contains(before[i]));
                let k = choose|k: int| 0 <= k < head.len() && head[k] == before[i];
                assert(ms[k] == before[i]);
                assert(now[j] == ms[ms.len() - 1]);
            }
        }
    }
}

/// Deletes board `board_name` of guild `guild_id`, and with it the mirror
/// records of that board. A guild without such a board is left as it is.
pub fn delete_board(db: &mut Database, guild_id: &str, board_name: &str)
    requires
        old(db).wf(),
    ensures
        final(db).wf(),
        final(db).next_board_id() == old(db).next_board_id(),
        ({
            let i = first_where(old(db).boards(), named(guild_id@, board_name@));
            if i < old(db).boards().len() {
                &&& final(db).boards() == old(db).boards().remove(i)
                &&& final(db).messages() == kept(
                    old(db).messages(),
                    off_board(old(db).boards()[i].board_id),
                )
            } else {
                &&& final(db).boards() == old(db).boards()
                &&& final(db).messages() == old(db).messages()
            }
        }),
{
    let at: usize = find_board(db, guild_id, board_name);
    if at >= db.boards.len() {
        return ;
    }
    let ghost had = db.boards();
    let ghost records = db.messages();
    let gone: BoardRow = db.boards.remove(at);
    let id: i64 = gone.board_id;
    proof {
        assert(db.boards() =~= had.remove(at as int));
        let now = db.boards();
        assert forall|i: int| 0 <= i < now.len() implies (#[trigger] now[i]).board_id
            < db.next_board_id() by {
            if i < at {
                assert(now[i] == had[i]);
            } else {
                assert(now[i] == had[i + 1]);
            }
        }
        assert forall|i: int, j: int| 0 <= i < j < now.len() implies (#[trigger] now[i]).board_id
            != (#[trigger] now[j]).board_id && !(now[i].guild_id == now[j].guild_id
            && now[i].board.name == now[j].board.name) by {
            let a = if i < at { i } else { i + 1 };
            let b = if j < at { j } else { j + 1 };
            assert(now[i] == had[a] && now[j] == had[b]);
        }
    }
    let ghost p = off_board(id);
    let mut left: Vec<Message> = Vec::new();
    let mut k: usize = 0;
    assert(records.take(0) =~= Seq::<MessageView>::empty());
    assert(views(left@) =~= Seq::<MessageView>::empty());
    while k < db.messages.len()
        invariant
            k <= db.messages.len(),
            p == off_board(id),
            records == db.messages(),
            views(left@) == kept(records.take(k as int), p),
        decreases db.messages.len() - k,
    {
        let m: &Message = &db.messages[k];
        assert(records[k as int] == m@);
        proof {
            lemma_kept_next(records, p, k as int);
        }
        if m.board_id != id {
            let ghost before = views(left@);
            left.push(m.clone());
            assert(views(left@) =~= before.push(m@));
        }
        k = k + 1;
    }
    assert(records.take(k as int) =~= records);
    db.messages = left;
    proof {
        lemma_kept_mirrors_unique(records, p);
    }
}

/// A board after an edit: each part that was given replaces the old one.
pub open spec fn edited(
    board: BoardView,
    new_name: Option<Seq<char>>,
    reactions: Option<Seq<char>>,
    min_reactions: Option<i32>,
    dest_channel: Option<Seq<char>>,
) -> BoardView {
    BoardView {
        name: match new_name {
            Some(n) => n,
            None => board.name,
        },
        reactions: match reactions {
            Some(r) => r,
            None => board.reactions,
        },
        min_reactions: match min_reactions {
            Some(m) => m,
            None => board.min_reactions,
        },
        dest_channel: match dest_channel {
            Some(d) => d,
            None => board.dest_channel,
        },
    }
}

/// The views of optional texts and key lists, as an edit takes them.
pub open spec fn text_of(s: Option<String>) -> Option<Seq<char>> {
    match s {
        Some(t) => Some(t@),
        None => None,
    }
}

/// The comma-separated list that an edit stores for the keys it is given.
pub open spec fn csv_of(reactions: Option<Vec<ReactionKey>>) -> Option<Seq<char>> {
    match reactions {
        Some(ks) => Some(joined(canonicals(keys(ks@)), seq![','])),
        None => None,
    }
}

/// The threshold that an edit stores: none where none is given.
pub open spec fn edit_threshold(min_reactions: Option<i64>) -> Option<i32> {
    match min_reactions {
        Some(_) => threshold_of(min_reactions),
        None => None,
    }
}

/// Why a board cannot be edited, if it cannot.
pub open spec fn edit_error(
    bs: Seq<BoardRowView>,
    guild: Seq<char>,
    name: Seq<char>,
    new_name: Option<Seq<char>>,
    min_reactions: Option<i64>,
) -> Option<DbError> {
    if min_reactions is Some && threshold_of(min_reactions) is None {
        Some(DbError::InvalidThreshold)
    } else if first_where(bs, named(guild, name)) >= bs.len() {
        None
    } else if new_name matches Some(n) && n != name && board_id_of(bs, guild, n) is Some {
        Some(DbError::DuplicateBoard)
    } else {
        None
    }
}

/// Edits board `board_name` of guild `guild_id`: each part that is given
/// replaces the old one, the others stay. A guild without such a board is left as
/// it is. A new name that another board of the guild bears is refused.
pub fn edit_board(
    db: &mut Database,
    guild_id: &str,
    board_name: &str,
    new_name: Option<String>,
    reactions: Option<Vec<ReactionKey>>,
    min_reactions: Option<i64>,
    dest_channel: Option<String>,
) -> (r: Result<(), DbError>)
    requires
        old(db).wf(),
    ensures
        final(db).wf(),
        final(db).messages() == old(db).messages(),
        final(db).next_board_id() == old(db).next_board_id(),
        match r {
            Ok(_) => edit_error(
                old(db).boards(),
                guild_id@,
                board_name@,
                text_of(new_name),
                min_reactions,
            ) is None,
            Err(e) => edit_error(
                old(db).boards(),
                guild_id@,
                board_name@,
                text_of(new_name),
                min_reactions,
            ) == Some(e),
        },
        ({
            let bs = old(db).boards();
            let i = first_where(bs, named(guild_id@, board_name@));
            if min_reactions is Some && threshold_of(min_reactions) is None {
                r == Err::<(), DbError>(DbError::InvalidThreshold) && final(db).boards() == bs
            } else if i >= bs.len() {
                r is Ok && final(db).boards() == bs
            } else if new_name matches Some(n) && n@ != board_name@ && board_id_of(
                bs,
                guild_id@,
                n@,
            ) is Some {
                r == Err::<(), DbError>(DbError::DuplicateBoard) && final(db).boards() == bs
            } else {
                r is Ok && final(db).boards() == bs.update(
                    i,
                    BoardRowView {
                        board: edited(
                            bs[i].board,
                            text_of(new_name),
                            csv_of(reactions),
                            edit_threshold(min_reactions),
                            text_of(dest_channel),
                        ),
                        ..bs[i]
                    },
                )
            }
        }),
{
    let min: Option<i32> = match min_reactions {
        Some(_) => match threshold(min_reactions) {
            None => {
                return Err(DbError::InvalidThreshold);
            },
            Some(m) => Some(m),
        },
        None => None,
    };
    let at: usize = find_board(db, guild_id, board_name);
    if at >= db.boards.len() {
        return Ok(());
    }
    let ghost had = db.boards();
    proof {
        lemma_first_where_bounds(had, named(guild_id@, board_name@));
    }
    match &new_name {
        Some(n) => {
            if !same(n.as_str(), board_name) {
                let other: usize = find_board(db, guild_id, n.as_str());
                if other < db.boards.len() {
                    return Err(DbError::DuplicateBoard);
                }
                proof {
                    lemma_first_where_bounds(had, named(guild_id@, n@));
                }
            }
        },
        None => {},
    }
    let old_row: &BoardRow = &db.boards[at];
    let name: String = match new_name {
        Some(n) => n,
        None => old_row.board.name.clone(),
    };
    let csv: String = match reactions {
        Some(ks) => to_csv(ks),
        None => old_row.board.reactions.clone(),
    };
    let dest: String = match dest_channel {
        Some(d) => d,
        None => old_row.board.dest_channel.clone(),
    };
    let row = BoardRow {
        board_id: old_row.board_id,
        guild_id: old_row.guild_id.clone(),
        board: Board {
            name,
            reactions: csv,
            min_reactions: match min {
                Some(m) => m,
                None => old_row.board.min_reactions,
            },
            dest_channel: dest,
        },
    };
    db.boards[at] = row;
    proof {
        let now = db.boards();
        assert(now =~= had.update(at as int, row@));
        assert forall|i: int| 0 <= i < now.len() implies (#[trigger] now[i]).board_id
            < db.next_board_id() by {
            assert(now[i].board_id == had[i].board_id);
        }
        assert forall|i: int, j: int| 0 <= i < j < now.len() implies (#[trigger] now[i]).board_id
            != (#[trigger] now[j]).board_id && !(now[i].guild_id == now[j].guild_id
            && now[i].board.name == now[j].board.name) by {
            assert(now[i].board_id == had[i].board_id && now[j].board_id == had[j].board_id);
            assert(now[i].guild_id == had[i].guild_id && now[j].guild_id == had[j].guild_id);
            if i == at {
                assert(now[j] == had[j]);
                assert(!named(guild_id@, row@.board.name)(had[j]) || row@.board.name
                    == board_name@);
            } else if j == at {
                assert(now[i] == had[i]);
                assert(!named(guild_id@, row@.board.name)(had[i]) || row@.board.name
                    == board_name@);
            } else {
                assert(now[i] == had[i] && now[j] == had[j]);
            }
        }
    }
    Ok(())
}


/// The total of user `user`.
pub open spec fn of_user(user: u64) -> spec_fn((u64, u64)) -> bool {
    |t: (u64, u64)| t.0 == user
}

/// A sum of counts, held at the largest value a total can take.
pub open spec fn capped(sum: int) -> u64 {
    if sum > u64::MAX {
        u64::MAX
    } else {
        sum as u64
    }
}

/// The totals after `count` reactions are credited to `user`: added to the
/// user's total, or a new total after the others.
pub open spec fn credited(totals: Seq<(u64, u64)>, user: u64, count: u64) -> Seq<(u64, u64)> {
    let i = first_where(totals, of_user(user));
    if i < totals.len() {
        totals.update(i, (user, capped(totals[i].1 + count)))
    } else {
        totals.push((user, count))
    }
}

/// The author that a record credits and the reactions it credits: none where the
/// author is no user identifier or the count is negative.
pub open spec fn credit_of(m: MessageView) -> Option<(u64, u64)> {
    match parsed_u64(m.user_id) {
        Some(user) if user != 0 && m.reaction_count >= 0 => Some((user, m.reaction_count as u64)),
        _ => None,
    }
}

/// The reactions that each author has gathered over `ms`: one total per author,
/// in the order the authors first appear.
pub open spec fn tally(ms: Seq<MessageView>) -> Seq<(u64, u64)>
    decreases ms.len(),
{
    if ms.len() == 0 {
        Seq::<(u64, u64)>::empty()
    } else {
        let head = tally(ms.drop_last());
        match credit_of(ms.last()) {
            Some((user, count)) => credited(head, user, count),
            None => head,
        }
    }
}

/// The reactions that the records of `ms` credit to `user`, summed.
pub open spec fn credited_to(ms: Seq<MessageView>, user: u64) -> nat
    decreases ms.len(),
{
    if ms.len() == 0 {
        0
    } else {
        credited_to(ms.drop_last(), user) + match credit_of(ms.last()) {
            Some((u, count)) => if u == user {
                count as nat
            } else {
                0
            },
            None => 0,
        }
    }
}

/// Whether record `m` credits `user`.
pub open spec fn credits(m: MessageView, user: u64) -> bool {
    credit_of(m) matches Some((u, _)) && u == user
}

/// Whether some record of `ms` credits `user`.
pub open spec fn is_credited(ms: Seq<MessageView>, user: u64) -> bool {
    exists|i: int| 0 <= i < ms.len() && credits(#[trigger] ms[i], user)
}

/// A user whom no record credits has gathered nothing.
proof fn lemma_uncredited(ms: Seq<MessageView>, user: u64)
    requires
        !is_credited(ms, user),
    ensures
        credited_to(ms, user) == 0,
    decreases ms.len(),
{
    if ms.len() > 0 {
        let init = ms.drop_last();
        assert(!credits(ms[ms.len() - 1], user));
        if is_credited(init, user) {
            let i = choose|i: int| 0 <= i < init.len() && credits(#[trigger] init[i], user);
            assert(credits(ms[i], user));
        }
        lemma_uncredited(init, user);
    }
}

/// What a tally holds of one user: a total if and only if some record credits
/// the user, and then the sum of what the records credit to the user, held at
/// the largest value a total can take.
pub proof fn lemma_tally_of_user(ms: Seq<MessageView>, user: u64)
    ensures
        ({
            let i = first_where(tally(ms), of_user(user));
            &&& 0 <= i <= tally(ms).len()
            &&& i < tally(ms).len() <==> is_credited(ms, user)
            &&& i < tally(ms).len() ==> tally(ms)[i] == (user, capped(credited_to(ms, user) as int))
        }),
    decreases ms.len(),
{
    let p = of_user(user);
    lemma_first_where_bounds(tally(ms), p);
    if ms.len() > 0 {
        let init = ms.drop_last();
        let m = ms.last();
        let head = tally(init);
        let i = first_where(head, p);
        lemma_tally_of_user(init, user);
        lemma_first_where_bounds(head, p);
        assert(ms[ms.len() - 1] == m);
        if is_credited(init, user) {
            let k = choose|k: int| 0 <= k < init.len() && credits(#[trigger] init[k], user);
            assert(credits(ms[k], user));
        }
        if is_credited(ms, user) && !credits(m, user) {
            let k = choose|k: int| 0 <= k < ms.len() && credits(#[trigger] ms[k], user);
            assert(credits(init[k], user));
        }
        match credit_of(m) {
            None => {},
            Some((u, count)) => {
                let q = of_user(u);
                let j = first_where(head, q);
                lemma_first_where_bounds(head, q);
                let t = tally(ms);
                if u == user {
                    if j < head.len() {
                        assert forall|k: int| 0 <= k < j implies !p(#[trigger] t[k]) by {
                            assert(t[k] == head[k]);
                        }
                        lemma_first_where_is(t, p, j);
                    } else {
                        assert forall|k: int| 0 <= k < head.len() implies !p(#[trigger] t[k]) by {
                            assert(t[k] == head[k]);
                        }
                        lemma_first_where_is(t, p, head.len() as int);
                        lemma_uncredited(init, user);
                    }
                } else {
                    if j < head.len() {
                        assert forall|k: int| 0 <= k < t.len() implies p(#[trigger] t[k]) == p(
                            head[k],
                        ) by {
                            assert(t[k].0 == head[k].0);
                        }
                        assert forall|k: int| 0 <= k < i implies !p(#[trigger] t[k]) by {
                            assert(!p(head[k]));
                        }
                        lemma_first_where_is(t, p, i);
                    } else {
                        assert forall|k: int| 0 <= k < i implies !p(#[trigger] t[k]) by {
                            assert(t[k] == head[k]);
                        }
                        if i < head.len() {
                            assert(t[i] == head[i]);
                            lemma_first_where_is(t, p, i);
                        } else {
                            assert(!p(t[head.len() as int]));
                            lemma_first_where_is(t, p, t.len() as int);
                        }
                    }
                }
            },
        }
    }
}

/// A tally holds each user once.
pub proof fn lemma_tally_users_distinct(ms: Seq<MessageView>)
    ensures
        forall|i: int, j: int|
            0 <= i < j < tally(ms).len() ==> (#[trigger] tally(ms)[i]).0 != (#[trigger] tally(
                ms,
            )[j]).0,
    decreases ms.len(),
{
    if ms.len() > 0 {
        let init = ms.drop_last();
        let head = tally(init);
        lemma_tally_users_distinct(init);
        match credit_of(ms.last()) {
            None => {},
            Some((u, count)) => {
                let t = tally(ms);
                let j0 = first_where(head, of_user(u));
                lemma_first_where_bounds(head, of_user(u));
                assert forall|i: int, j: int| 0 <= i < j < t.len() implies (#[trigger] t[i]).0 != (
                #[trigger] t[j]).0 by {
                    if j0 < head.len() {
                        assert(t[i].0 == head[i].0 && t[j].0 == head[j].0);
                    } else if j < head.len() {
                        assert(t[i] == head[i] && t[j] == head[j]);
                    } else {
                        assert(t[i] == head[i]);
                        assert(!of_user(u)(head[i]));
                    }
                }
            },
        }
    }
}

/// Every total of a tally is the sum of what the records credit to its user,
/// held at the largest value a total can take; and some record credits the
/// user.
pub proof fn lemma_tally_totals(ms: Seq<MessageView>, k: int)
    requires
        0 <= k < tally(ms).len(),
    ensures
        tally(ms)[k].1 == capped(credited_to(ms, tally(ms)[k].0) as int),
        is_credited(ms, tally(ms)[k].0),
{
    let t = tally(ms);
    let user = t[k].0;
    lemma_tally_users_distinct(ms);
    assert forall|j: int| 0 <= j < k implies !of_user(user)(#[trigger] t[j]) by {}
    lemma_first_where_is(t, of_user(user), k);
    lemma_tally_of_user(ms, user);
}

/// Whether the sums and the order of first appearance are the totals `t`: the
/// user of each total stands at its place, the map holds the total of each, and
/// the map holds no one else.
spec fn holds_totals(sums: Map<u64, u64>, order: Seq<u64>, t: Seq<(u64, u64)>) -> bool {
    &&& order.len() == t.len()
    &&& forall|k: int|
        0 <= k < t.len() ==> order[k] == (#[trigger] t[k]).0 && sums.contains_key(t[k].0)
            && sums[t[k].0] == t[k].1
    &&& forall|u: u64| #[trigger] sums.contains_key(u) ==> first_where(t, of_user(u)) < t.len()
}

/// The reactions that each author has gathered over `ms`. The sums are kept in a
/// hash map; the order of the totals is that in which the authors first appear,
/// not that of the map.
fn tally_of(ms: &Vec<Message>) -> (out: Vec<(u64, u64)>)
    ensures
        out@ == tally(views(ms@)),
{
    broadcast use vstd::std_specs::hash::group_hash_axioms;

    let mut sums: HashMap<u64, u64> = HashMap::new();
    let mut order: Vec<u64> = Vec::new();
    let mut i: usize = 0;
    assert(views(ms@).take(0) =~= Seq::<MessageView>::empty());
    while i < ms.len()
        invariant
            i <= ms.len(),
            holds_totals(sums@, order@, tally(views(ms@).take(i as int))),
        decreases ms.len() - i,
    {
        let m: &Message = &ms[i];
        let ghost t = tally(views(ms@).take(i as int));
        let ghost had = sums@;
        assert(views(ms@).take(i + 1).drop_last() =~= views(ms@).take(i as int));
        assert(views(ms@).take(i + 1).last() == m@);
        match parse_u64(m.user_id.as_str()) {
            Some(user) => {
                if user != 0 && m.reaction_count >= 0 {
                    let count: u64 = m.reaction_count as u64;
                    let ghost at = first_where(t, of_user(user));
                    let ghost next = credited(t, user, count);
                    proof {
                        lemma_first_where_bounds(t, of_user(user));
                        lemma_tally_users_distinct(views(ms@).take(i as int));
                    }
                    let known: Option<u64> = match sums.get(&user) {
                        Some(total) => Some(*total),
                        None => None,
                    };
                    match known {
                        Some(total) => {
                            sums.insert(user, total.saturating_add(count));
                            proof {
                                assert(at < t.len());
                                assert(t[at].0 == user);
                                assert forall|k: int| 0 <= k < next.len() implies order@[k] == (
                                #[trigger] next[k]).0 && sums@.contains_key(next[k].0)
                                    && sums@[next[k].0] == next[k].1 by {
                                    assert(next[k].0 == t[k].0);
                                    if k != at {
                                        assert(t[k].0 != t[at].0);
                                    }
                                }
                                assert forall|u: u64| #[trigger]
                                    sums@.contains_key(u) implies first_where(next, of_user(u))
                                    < next.len() by {
                                    let w = if u == user {
                                        at
                                    } else {
                                        first_where(t, of_user(u))
                                    };
                                    if u != user {
                                        assert(had.contains_key(u));
                                        lemma_first_where_bounds(t, of_user(u));
                                    }
                                    assert(of_user(u)(next[w]));
                                    lemma_first_where_bounds(next, of_user(u));
                                }
                            }
                        },
                        None => {
                            sums.insert(user, count);
                            order.push(user);
                            proof {
                                if at < t.len() {
                                    assert(had.contains_key(t[at].0));
                                }
                                assert(at == t.len());
                                assert forall|k: int| 0 <= k < next.len() implies order@[k] == (
                                #[trigger] next[k]).0 && sums@.contains_key(next[k].0)
                                    && sums@[next[k].0] == next[k].1 by {
                                    if k < t.len() {
                                        assert(next[k] == t[k]);
                                        assert(!of_user(user)(t[k]));
                                    }
                                }
                                assert forall|u: u64| #[trigger]
                                    sums@.contains_key(u) implies first_where(next, of_user(u))
                                    < next.len() by {
                                    let w = if u == user {
                                        t.len() as int
                                    } else {
                                        first_where(t, of_user(u))
                                    };
                                    if u != user {
                                        assert(had.contains_key(u));
                                        lemma_first_where_bounds(t, of_user(u));
                                        assert(next[w] == t[w]);
                                    }
                                    assert(of_user(u)(next[w]));
                                    lemma_first_where_bounds(next, of_user(u));
                                }
                            }
                        },
                    }
                }
            },
            None => {},
        }
        i = i + 1;
    }
    assert(views(ms@).take(i as int) =~= views(ms@));
    let ghost t = tally(views(ms@));
    let mut out: Vec<(u64, u64)> = Vec::new();
    let mut k: usize = 0;
    while k < order.len()
        invariant
            k <= order.len(),
            holds_totals(sums@, order@, t),
            out@ == t.take(k as int),
        decreases order.len() - k,
    {
        let user: u64 = order[k];
        assert(user == t[k as int].0);
        let total: u64 = match sums.get(&user) {
            Some(total) => *total,
            None => 0,
        };
        out.push((user, total));
        assert(t.take(k + 1) =~= t.take(k as int).push(t[k as int]));
        k = k + 1;
    }
    assert(t.take(k as int) =~= t);
    out
}

/// The reactions that each author has gathered on board `board_name` of guild
/// `guild_id`: one total per author, in the order the authors first appear in
/// the table. A guild without such a board has no totals.
pub fn get_board_user_reactions(db: &Database, guild_id: &str, board_name: &str) -> (out: Vec<
    (u64, u64),
>)
    ensures
        out@ == match board_id_of(db.boards(), guild_id@, board_name@) {
            Some(id) => tally(kept(db.messages(), on_board(id))),
            None => Seq::<(u64, u64)>::empty(),
        },
{
    match board_id(db, guild_id, board_name) {
        None => Vec::new(),
        Some(id) => {
            let records: Vec<Message> = messages_on(db, id);
            tally_of(&records)
        },
    }
}

/// The identifier of the first board of guild `guild`, if the guild has a board.
pub open spec fn first_board_of(bs: Seq<BoardRowView>, guild: Seq<char>) -> Option<i64> {
    let i = first_where(bs, in_guild(guild));
    if i < bs.len() {
        Some(bs[i].board_id)
    } else {
        None
    }
}

/// The reactions that each author has gathered on the first board of guild
/// `guild_id`: one total per author, in the order the authors first appear in
/// the table. A guild without a board has no totals.
pub fn get_guild_user_reactions(db: &Database, guild_id: &str) -> (out: Vec<(u64, u64)>)
    ensures
        out@ == match first_board_of(db.boards(), guild_id@) {
            Some(id) => tally(kept(db.messages(), on_board(id))),
            None => Seq::<(u64, u64)>::empty(),
        },
{
    let ghost p = in_guild(guild_id@);
    let mut i: usize = 0;
    while i < db.boards.len()
        invariant
            i <= db.boards.len(),
            p == in_guild(guild_id@),
            forall|j: int| 0 <= j < i ==> !p(#[trigger] db.boards()[j]),
        decreases db.boards.len() - i,
    {
        assert(db.boards()[i as int] == db.boards@[i as int]@);
        if same(db.boards[i].guild_id.as_str(), guild_id) {
            proof {
                lemma_first_where_is(db.boards(), p, i as int);
            }
            let records: Vec<Message> = messages_on(db, db.boards[i].board_id);
            return tally_of(&records);
        }
        i = i + 1;
    }
    proof {
        lemma_first_where_is(db.boards(), p, i as int);
    }
    Vec::new()
}

/// Whether rows can be the boards table: see `unique_boards`.
fn boards_fit(rows: &Vec<BoardRow>, next: i64) -> (r: bool)
    ensures
        r == unique_boards(views(rows@), next),
{
    let ghost bs = views(rows@);
    let mut j: usize = 0;
    while j < rows.len()
        invariant
            j <= rows.len(),
            bs == views(rows@),
            forall|b: int| 0 <= b < j ==> (#[trigger] bs[b]).board_id < next,
            forall|a: int, b: int|
                0 <= a < b < j ==> (#[trigger] bs[a]).board_id != (#[trigger] bs[b]).board_id
                    && !(bs[a].guild_id == bs[b].guild_id && bs[a].board.name
                    == bs[b].board.name),
        decreases rows.len() - j,
    {
        assert(bs[j as int] == rows@[j as int]@);
        if rows[j].board_id >= next {
            return false;
        }
        let mut i: usize = 0;
        while i < j
            invariant
                i <= j < rows.len(),
                bs == views(rows@),
                forall|a: int|
                    0 <= a < i ==> (#[trigger] bs[a]).board_id != bs[j as int].board_id && !(
                    bs[a].guild_id == bs[j as int].guild_id && bs[a].board.name
                        == bs[j as int].board.name),
            decreases j - i,
        {
            assert(bs[i as int] == rows@[i as int]@);
            assert(bs[j as int] == rows@[j as int]@);
            if rows[i].board_id == rows[j].board_id || (same(
                rows[i].guild_id.as_str(),
                rows[j].guild_id.as_str(),
            ) && same(rows[i].board.name.as_str(), rows[j].board.name.as_str())) {
                return false;
            }
            i = i + 1;
        }
        j = j + 1;
    }
    true
}

/// Whether records can be the messages table: see `unique_mirrors`.
fn mirrors_fit(records: &Vec<Message>) -> (r: bool)
    ensures
        r == unique_mirrors(views(records@)),
{
    let ghost ms = views(records@);
    let mut j: usize = 0;
    while j < records.len()
        invariant
            j <= records.len(),
            ms == views(records@),
            forall|a: int, b: int|
                0 <= a < b < j ==> !((#[trigger] ms[a]).board_id == (#[trigger] ms[b]).board_id
                    && ms[a].source_id == ms[b].source_id),
        decreases records.len() - j,
    {
        let mut i: usize = 0;
        while i < j
            invariant
                i <= j < records.len(),
                ms == views(records@),
                forall|a: int|
                    0 <= a < i ==> !((#[trigger] ms[a]).board_id == ms[j as int].board_id
                        && ms[a].source_id == ms[j as int].source_id),
            decreases j - i,
        {
            assert(ms[i as int] == records@[i as int]@);
            assert(ms[j as int] == records@[j as int]@);
            if records[i].board_id == records[j].board_id && same(
                records[i].source_id.as_str(),
                records[j].source_id.as_str(),
            ) {
                return false;
            }
            i = i + 1;
        }
        j = j + 1;
    }
    true
}

/// Makes a database of stored rows: `boards` and `messages` as the two tables,
/// `next_board_id` as the identifier that the next board gets. Rows that break
/// the rules of the tables are refused as a whole.
pub fn load(boards: Vec<BoardRow>, messages: Vec<Message>, next_board_id: i64) -> (r: Option<
    Database,
>)
    ensures
        match r {
            Some(db) => db.wf() && db.boards() == views(boards@) && db.messages() == views(
                messages@,
            ) && db.next_board_id() == next_board_id,
            None => !(unique_boards(views(boards@), next_board_id) && unique_mirrors(
                views(messages@),
            )),
        },
{
    if boards_fit(&boards, next_board_id) && mirrors_fit(&messages) {
        Some(Database { boards, messages, next_board_id })
    } else {
        None
    }
}

/// The rows of the boards table, to be stored.
pub fn board_rows(db: &Database) -> (rows: Vec<BoardRow>)
    ensures
        views(rows@) == db.boards(),
{
    let mut rows: Vec<BoardRow> = Vec::new();
    let mut i: usize = 0;
    while i < db.boards.len()
        invariant
            i <= db.boards.len(),
            views(rows@) == db.boards().take(i as int),
        decreases db.boards.len() - i,
    {
        let ghost had = views(rows@);
        rows.push(db.boards[i].clone());
        assert(views(rows@) =~= had.push(db.boards@[i as int]@));
        assert(db.boards().take(i + 1) =~= db.boards().take(i as int).push(db.boards()[i as int]));
        i = i + 1;
    }
    assert(db.boards().take(i as int) =~= db.boards());
    rows
}

/// The rows of the messages table, to be stored.
pub fn message_rows(db: &Database) -> (rows: Vec<Message>)
    ensures
        views(rows@) == db.messages(),
{
    let mut rows: Vec<Message> = Vec::new();
    let mut i: usize = 0;
    while i < db.messages.len()
        invariant
            i <= db.messages.len(),
            views(rows@) == db.messages().take(i as int),
        decreases db.messages.len() - i,
    {
        let ghost had = views(rows@);
        rows.push(db.messages[i].clone());
        assert(views(rows@) =~= had.push(db.messages@[i as int]@));
        assert(db.messages().take(i + 1) =~= db.messages().take(i as int).push(
            db.messages()[i as int],
        ));
        i = i + 1;
    }
    assert(db.messages().take(i as int) =~= db.messages());
    rows
}

impl Clone for Database {
    /// A second copy of the tables: a change can be tried on it, and dropped if
    /// it cannot be stored.
    fn clone(&self) -> (r: Self)
        ensures
            r.boards() == self.boards(),
            r.messages() == self.messages(),
            r.next_board_id() == self.next_board_id(),
            self.wf() ==> r.wf(),
    {
        Database {
            boards: board_rows(self),
            messages: message_rows(self),
            next_board_id: self.next_board_id,
        }
    }
}

/// The identifier that the next board gets, to be stored.
pub fn next_id(db: &Database) -> (next: i64)
    ensures
        next == db.next_board_id(),
{
    db.next_board_id
}

} // verus!
