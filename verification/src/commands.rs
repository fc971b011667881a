//! What the commands of the bot decide and say: each takes the tables and the
//! command's arguments and returns the reply, or what to fetch for it.

use crate::db::{
    add_board, add_error, board_id_of, board_where, delete_board, edit_board, edit_error, edited,
    edit_threshold, first_board_of, get_board, get_board_by_id, get_board_messages,
    get_board_names, get_board_user_reactions, get_guild_boards, get_guild_messages,
    get_guild_user_reactions, in_guild, in_guild_of, named, numbered, off_board, on_board, tally,
    threshold_of, Board, BoardRowView, BoardView, Database, DbError, Message, MessageView,
};
pub use crate::reaction::parse_reactions;
use crate::reaction::{
    candidates, canonicals, catalog, from_csv, join_keys, keys, keys_of_csv, ReactionKey,
};
use crate::seqs::{
    first_where, kept, lemma_first_where_bounds, lemma_first_where_is, lemma_kept_next, views,
};
use crate::text::{
    decimal, decimal_string, has_prefix, joined, parse_u64, parsed_u64, push_decimal,
    push_signed_decimal, same, signed_decimal, texts,
};
use rand::Rng;
use vstd::prelude::*;
use vstd::string::StringExecFns;

verus! {

/// How many entries a page of a leaderboard shows.
pub const ENTRIES_PER_PAGE: usize = 10;

/// One line of a leaderboard: the rank, the user and the reactions gathered.
pub open spec fn entry_line(rank: nat, user: u64, count: u64) -> Seq<char> {
    "**#"@ + decimal(rank) + "** <@"@ + decimal(user as nat) + "> • "@ + decimal(count as nat)
        + " reactions\n"@
}

/// The lines of the entries `from..to` of `data`; entry `k` has rank `k + 1`.
pub open spec fn entry_lines(data: Seq<(u64, u64)>, from: int, to: int) -> Seq<char>
    decreases to - from,
{
    if to <= from {
        Seq::<char>::empty()
    } else {
        entry_lines(data, from, to - 1) + entry_line(to as nat, data[to - 1].0, data[to - 1].1)
    }
}

/// How many pages `len` entries take.
pub open spec fn page_count(len: nat) -> nat {
    (len + 9) / 10
}

/// Page `n` of a leaderboard, counted from 0: its entries, then a footer that
/// numbers the page.
pub open spec fn page_of(data: Seq<(u64, u64)>, n: int) -> Seq<char> {
    let to = if 10 * n + 10 <= data.len() {
        10 * n + 10
    } else {
        data.len() as int
    };
    entry_lines(data, 10 * n, to) + "\n*Page "@ + decimal((n + 1) as nat) + " of "@ + decimal(
        page_count(data.len()),
    ) + "*"@
}

/// The pages of a leaderboard.
pub open spec fn pages_of(data: Seq<(u64, u64)>) -> Seq<Seq<char>> {
    Seq::new(page_count(data.len()), |n: int| page_of(data, n))
}

/// Lays the entries of a leaderboard out on pages of ten, in the order given.
pub fn create_leaderboard_pages(data: &Vec<(u64, u64)>) -> (pages: Vec<String>)
    ensures
        texts(pages@) == pages_of(data@),
{
    let total: usize = data.len() / 10 + if data.len() % 10 != 0 {
        1
    } else {
        0
    };
    assert(total == page_count(data@.len()));
    let mut pages: Vec<String> = Vec::new();
    let mut n: usize = 0;
    assert(texts(pages@) =~= pages_of(data@).take(0));
    while n < total
        invariant
            n <= total,
            total == page_count(data@.len()),
            10 * total < data.len() + 10,
            texts(pages@) == pages_of(data@).take(n as int),
        decreases total - n,
    {
        let from: usize = n * 10;
        let to: usize = if data.len() - from >= 10 {
            from + 10
        } else {
            data.len()
        };
        let mut page = String::new();
        let mut k: usize = from;
        assert(page@ =~= entry_lines(data@, from as int, k as int));
        while k < to
            invariant
                from <= k <= to <= data.len(),
                page@ == entry_lines(data@, from as int, k as int),
            decreases to - k,
        {
            let ghost had = page@;
            page.append("**#");
            push_decimal(&mut page, (k + 1) as u64);
            page.append("** <@");
            push_decimal(&mut page, data[k].0);
            page.append("> • ");
            push_decimal(&mut page, data[k].1);
            page.append(" reactions\n");
            assert(page@ =~= had + entry_line((k + 1) as nat, data@[k as int].0, data@[k as int].1));
            k = k + 1;
        }
        page.append("\n*Page ");
        push_decimal(&mut page, (n + 1) as u64);
        page.append(" of ");
        push_decimal(&mut page, total as u64);
        page.append("*");
        assert(page@ == page_of(data@, n as int));
        let ghost had = texts(pages@);
        pages.push(page);
        assert(texts(pages@) =~= had.push(page@));
        assert(pages_of(data@).take(n + 1) =~= pages_of(data@).take(n as int).push(
            page_of(data@, n as int),
        ));
        n = n + 1;
    }
    assert(pages_of(data@).take(n as int) =~= pages_of(data@));
    pages
}

/// The totals with fewer reactions than `count`.
pub open spec fn below(count: u64) -> spec_fn((u64, u64)) -> bool {
    |t: (u64, u64)| t.1 < count
}

/// `rows` in descending order of reactions; totals of equal reactions keep their
/// order.
pub open spec fn by_count(rows: Seq<(u64, u64)>) -> Seq<(u64, u64)>
    decreases rows.len(),
{
    if rows.len() == 0 {
        Seq::<(u64, u64)>::empty()
    } else {
        let head = by_count(rows.drop_last());
        head.insert(first_where(head, below(rows.last().1)), rows.last())
    }
}

/// Whether no total of `rows` stands after one of fewer reactions.
pub open spec fn count_ordered(rows: Seq<(u64, u64)>) -> bool {
    forall|i: int, j: int| 0 <= i < j < rows.len() ==> (#[trigger] rows[i]).1 >= (#[trigger] rows[j]).1
}

/// Ordering by count yields the counts in descending order, and as many totals
/// as there were.
pub proof fn lemma_by_count_ordered(rows: Seq<(u64, u64)>)
    ensures
        count_ordered(by_count(rows)),
        by_count(rows).len() == rows.len(),
    decreases rows.len(),
{
    if rows.len() > 0 {
        lemma_by_count_ordered(rows.drop_last());
        let head = by_count(rows.drop_last());
        let row = rows.last();
        let p = first_where(head, below(row.1));
        lemma_first_where_bounds(head, below(row.1));
        let next = head.insert(p, row);
        assert forall|i: int, j: int| 0 <= i < j < next.len() implies (#[trigger] next[i]).1 >= (
        #[trigger] next[j]).1 by {
            if j < p {
                assert(next[i] == head[i] && next[j] == head[j]);
            } else if j == p {
                assert(next[i] == head[i]);
                assert(!below(row.1)(head[i]));
            } else if i == p {
                assert(next[j] == head[j - 1]);
                assert(below(row.1)(head[p]));
                assert(head[p].1 >= head[j - 1].1);
            } else if i < p {
                assert(next[i] == head[i] && next[j] == head[j - 1]);
            } else {
                assert(next[i] == head[i - 1] && next[j] == head[j - 1]);
            }
        }
    }
}

/// Ordering by count only rearranges the totals: each total comes out as often as
/// it went in.
pub proof fn lemma_by_count_permutes(rows: Seq<(u64, u64)>)
    ensures
        by_count(rows).to_multiset() == rows.to_multiset(),
    decreases rows.len(),
{
    if rows.len() > 0 {
        let init = rows.drop_last();
        let head = by_count(init);
        lemma_by_count_permutes(init);
        lemma_first_where_bounds(head, below(rows.last().1));
        let p = first_where(head, below(rows.last().1));
        vstd::seq_lib::to_multiset_insert(head, p, rows.last());
        vstd::seq_lib::to_multiset_build(init, rows.last());
        assert(rows =~= init.push(rows.last()));
        assert(by_count(rows) == head.insert(p, rows.last()));
        assert(head.insert(p, rows.last()).to_multiset() == head.to_multiset().insert(rows.last()));
        assert(init.push(rows.last()).to_multiset() =~= init.to_multiset().insert(rows.last()));
    } else {
        assert(rows =~= Seq::<(u64, u64)>::empty());
    }
}

/// Puts the totals in descending order of reactions.
pub fn sort_by_count(data: &Vec<(u64, u64)>) -> (out: Vec<(u64, u64)>)
    ensures
        out@ == by_count(data@),
{
    let mut out: Vec<(u64, u64)> = Vec::new();
    let mut n: usize = 0;
    assert(data@.take(0) =~= Seq::<(u64, u64)>::empty());
    while n < data.len()
        invariant
            n <= data.len(),
            out@ == by_count(data@.take(n as int)),
        decreases data.len() - n,
    {
        let row: (u64, u64) = data[n];
        assert(data@.take(n + 1).drop_last() =~= data@.take(n as int));
        assert(data@.take(n + 1).last() == row);
        let mut p: usize = 0;
        while p < out.len() && out[p].1 >= row.1
            invariant
                p <= out.len(),
                forall|j: int| 0 <= j < p ==> !below(row.1)(#[trigger] out@[j]),
            decreases out.len() - p,
        {
            p = p + 1;
        }
        proof {
            lemma_first_where_is(out@, below(row.1), p as int);
        }
        out.insert(p, row);
        n = n + 1;
    }
    assert(data@.take(n as int) =~= data@);
    out
}

/// What a command answers with.
#[derive(Debug)]
pub enum Reply {
    /// A plain text.
    Say(String),
    /// One titled page.
    Page { title: String, description: String },
    /// Several titled pages, to be leafed through; the first is shown first.
    Pages { title: String, pages: Vec<String> },
}

/// A reply as a mathematical value.
pub enum ReplyView {
    Say(Seq<char>),
    Page { title: Seq<char>, description: Seq<char> },
    Pages { title: Seq<char>, pages: Seq<Seq<char>> },
}

impl View for Reply {
    type V = ReplyView;

    open spec fn view(&self) -> ReplyView {
        match self {
            Reply::Say(text) => ReplyView::Say(text@),
            Reply::Page { title, description } => ReplyView::Page {
                title: title@,
                description: description@,
            },
            Reply::Pages { title, pages } => ReplyView::Pages {
                title: title@,
                pages: texts(pages@),
            },
        }
    }
}

/// The title of a leaderboard: of the board named, or of the whole server.
pub open spec fn leaderboard_title(name: Option<Seq<char>>) -> Seq<char> {
    match name {
        Some(n) => n + " Leaderboard"@,
        None => "Server Leaderboard"@,
    }
}

/// What the leaderboard command shows for the totals `data`: a notice where
/// there are none; else the totals in descending order, on one page, or on
/// several to leaf through.
pub open spec fn leaderboard_of(data: Seq<(u64, u64)>, name: Option<Seq<char>>) -> ReplyView {
    if data.len() == 0 {
        ReplyView::Say(
            match name {
                Some(n) => "No data found for board '"@ + n + "'"@,
                None => "No leaderboard data found for this server"@,
            },
        )
    } else if data.len() <= 10 {
        ReplyView::Page {
            title: leaderboard_title(name),
            description: pages_of(by_count(data))[0],
        }
    } else {
        ReplyView::Pages { title: leaderboard_title(name), pages: pages_of(by_count(data)) }
    }
}

/// The name of a board as a command is given it.
pub open spec fn name_of(name: Option<&str>) -> Option<Seq<char>> {
    match name {
        Some(n) => Some(n@),
        None => None,
    }
}

/// The totals that the leaderboard command ranks: those of the board named, or,
/// where no board is named, those of the guild's first board.
pub open spec fn totals_of(
    bs: Seq<BoardRowView>,
    ms: Seq<MessageView>,
    guild: Seq<char>,
    name: Option<Seq<char>>,
) -> Seq<(u64, u64)> {
    let board = match name {
        Some(n) => board_id_of(bs, guild, n),
        None => first_board_of(bs, guild),
    };
    match board {
        Some(id) => tally(kept(ms, on_board(id))),
        None => Seq::<(u64, u64)>::empty(),
    }
}

/// The reply of the leaderboard command for the board `name` of guild
/// `guild_id`, or for the guild where no board is named.
pub fn leaderboard(db: &Database, guild_id: &str, name: Option<&str>) -> (reply: Reply)
    ensures
        reply@ == leaderboard_of(
            totals_of(db.boards(), db.messages(), guild_id@, name_of(name)),
            name_of(name),
        ),
{
    let data: Vec<(u64, u64)> = match name {
        Some(n) => get_board_user_reactions(db, guild_id, n),
        None => get_guild_user_reactions(db, guild_id),
    };
    show_leaderboard(&data, name)
}

/// The reply of the leaderboard command for the totals `data`.
pub fn show_leaderboard(data: &Vec<(u64, u64)>, name: Option<&str>) -> (reply: Reply)
    ensures
        reply@ == leaderboard_of(data@, name_of(name)),
{
    if data.len() == 0 {
        let mut text = String::new();
        match name {
            Some(n) => {
                text.append("No data found for board '");
                text.append(n);
                text.append("'");
                assert(text@ =~= "No data found for board '"@ + n@ + "'"@);
            },
            None => {
                text.append("No leaderboard data found for this server");
                assert(text@ =~= "No leaderboard data found for this server"@);
            },
        }
        return Reply::Say(text);
    }
    let ranked: Vec<(u64, u64)> = sort_by_count(data);
    proof {
        lemma_by_count_ordered(data@);
    }
    let mut pages: Vec<String> = create_leaderboard_pages(&ranked);
    let mut title = String::new();
    match name {
        Some(n) => {
            title.append(n);
            title.append(" Leaderboard");
            assert(title@ =~= n@ + " Leaderboard"@);
        },
        None => {
            title.append("Server Leaderboard");
            assert(title@ =~= "Server Leaderboard"@);
        },
    }
    assert(texts(pages@).len() == page_count(ranked@.len()));
    if pages.len() > 1 {
        Reply::Pages { title, pages }
    } else {
        let ghost first = texts(pages@)[0];
        assert(first == pages@[0]@);
        let description: String = pages.remove(0);
        assert(description@ == first);
        Reply::Page { title, description }
    }
}


/// A press of one of the two buttons under a leaderboard.
#[derive(Clone, Copy, Debug, PartialEq, Eq, Structural)]
pub enum Press {
    Previous,
    Next,
}

/// The identifier of the button that leafs back, for the leaderboard shown by
/// interaction `ctx_id`.
pub open spec fn previous_button(ctx_id: u64) -> Seq<char> {
    decimal(ctx_id as nat) + "prev"@
}

/// The identifier of the button that leafs on.
pub open spec fn next_button(ctx_id: u64) -> Seq<char> {
    decimal(ctx_id as nat) + "next"@
}

/// The identifiers of the two buttons under the leaderboard shown by
/// interaction `ctx_id`: the one that leafs back, then the one that leafs on.
pub fn button_ids(ctx_id: u64) -> (ids: (String, String))
    ensures
        ids.0@ == previous_button(ctx_id),
        ids.1@ == next_button(ctx_id),
{
    let mut previous = String::new();
    push_decimal(&mut previous, ctx_id);
    previous.append("prev");
    let mut next = String::new();
    push_decimal(&mut next, ctx_id);
    next.append("next");
    assert(previous@ =~= previous_button(ctx_id));
    assert(next@ =~= next_button(ctx_id));
    (previous, next)
}

/// Which button of the leaderboard shown by interaction `ctx_id` the component
/// `custom_id` is: the button that leafs on, the one that leafs back, or neither.
pub fn press_of(custom_id: &str, ctx_id: u64) -> (r: Option<Press>)
    ensures
        r == if custom_id@ == next_button(ctx_id) {
            Some(Press::Next)
        } else if custom_id@ == previous_button(ctx_id) {
            Some(Press::Previous)
        } else {
            None
        },
{
    let ids: (String, String) = button_ids(ctx_id);
    if crate::text::same(custom_id, ids.1.as_str()) {
        Some(Press::Next)
    } else if crate::text::same(custom_id, ids.0.as_str()) {
        Some(Press::Previous)
    } else {
        None
    }
}

/// The page shown after a press: the next one, or the one before, going round
/// at either end.
pub open spec fn page_after(current: int, pages: int, press: Press) -> int {
    match press {
        Press::Next => (current + 1) % pages,
        Press::Previous => if current == 0 {
            pages - 1
        } else {
            current - 1
        },
    }
}

/// The page to show after `press`, page `current` of `pages` being shown.
pub fn turn_page(current: usize, pages: usize, press: Press) -> (next: usize)
    requires
        pages > 0,
    ensures
        next == page_after(current as int, pages as int, press),
        current < pages ==> next < pages,
{
    match press {
        Press::Next => ((current as u128 + 1) % (pages as u128)) as usize,
        Press::Previous => if current == 0 {
            pages - 1
        } else {
            current - 1
        },
    }
}

/// What a command that shows a mirror is to fetch, or to say instead.
#[derive(Debug)]
pub enum Lookup {
    /// Fetch this message of this channel and show it.
    Fetch { channel_id: u64, message_id: u64 },
    /// Say this.
    Say(String),
    /// There is no mirror to choose from.
    Empty,
    /// The record chosen names no board, or holds an identifier that is none.
    Unreadable,
}

/// A lookup as a mathematical value.
pub enum LookupView {
    Fetch { channel_id: u64, message_id: u64 },
    Say(Seq<char>),
    Empty,
    Unreadable,
}

impl View for Lookup {
    type V = LookupView;

    open spec fn view(&self) -> LookupView {
        match self {
            Lookup::Fetch { channel_id, message_id } => LookupView::Fetch {
                channel_id: *channel_id,
                message_id: *message_id,
            },
            Lookup::Say(text) => LookupView::Say(text@),
            Lookup::Empty => LookupView::Empty,
            Lookup::Unreadable => LookupView::Unreadable,
        }
    }
}

/// What an error of the tables reads as.
pub open spec fn error_text(e: DbError) -> Seq<char> {
    match e {
        DbError::NotFound => "Query returned no rows"@,
        DbError::DuplicateMirror => "The board already mirrors this message"@,
        DbError::DuplicateBoard => "The server already has a board of this name"@,
        DbError::InvalidThreshold => "The threshold is out of range"@,
        DbError::Full => "No board identifier is left"@,
    }
}

/// Appends what `e` reads as.
fn push_error(out: &mut String, e: DbError)
    ensures
        final(out)@ == old(out)@ + error_text(e),
{
    match e {
        DbError::NotFound => out.append("Query returned no rows"),
        DbError::DuplicateMirror => out.append("The board already mirrors this message"),
        DbError::DuplicateBoard => out.append("The server already has a board of this name"),
        DbError::InvalidThreshold => out.append("The threshold is out of range"),
        DbError::Full => out.append("No board identifier is left"),
    }
}

/// Where the mirror of a record is: the channel of the record's board and the
/// message posted there. None where the record names no board, or where either
/// identifier is not one.
pub open spec fn target_of(bs: Seq<BoardRowView>, m: MessageView) -> LookupView {
    match board_where(bs, numbered(m.board_id)) {
        None => LookupView::Unreadable,
        Some(board) => match (parsed_u64(board.dest_channel), parsed_u64(m.dest_id)) {
            (Some(channel_id), Some(message_id)) => if channel_id != 0 && message_id != 0 {
                LookupView::Fetch { channel_id, message_id }
            } else {
                LookupView::Unreadable
            },
            _ => LookupView::Unreadable,
        },
    }
}

/// Where the mirror of record `m` is.
pub fn target(db: &Database, m: &Message) -> (r: Lookup)
    ensures
        r@ == target_of(db.boards(), m@),
{
    let board: Board = match get_board_by_id(db, m.board_id) {
        Err(_) => {
            return Lookup::Unreadable;
        },
        Ok(b) => b,
    };
    match (parse_u64(board.dest_channel.as_str()), parse_u64(m.dest_id.as_str())) {
        (Some(channel_id), Some(message_id)) => if channel_id != 0 && message_id != 0 {
            Lookup::Fetch { channel_id, message_id }
        } else {
            Lookup::Unreadable
        },
        _ => Lookup::Unreadable,
    }
}

/// The records that a command chooses from: those of the board named, or those
/// of every board of the guild. None where the board named does not exist.
pub open spec fn choice_of(
    bs: Seq<BoardRowView>,
    ms: Seq<MessageView>,
    guild: Seq<char>,
    name: Option<Seq<char>>,
) -> Option<Seq<MessageView>> {
    match name {
        Some(n) => match board_id_of(bs, guild, n) {
            Some(id) => Some(kept(ms, on_board(id))),
            None => None,
        },
        None => Some(kept(ms, in_guild_of(bs, guild))),
    }
}

/// The records that a command chooses from.
fn choice(db: &Database, guild_id: &str, name: Option<&str>) -> (r: Option<Vec<Message>>)
    ensures
        match r {
            Some(data) => choice_of(db.boards(), db.messages(), guild_id@, name_of(name)) == Some(
                views(data@),
            ),
            None => choice_of(db.boards(), db.messages(), guild_id@, name_of(name)) is None,
        },
{
    match name {
        Some(n) => match get_board_messages(db, guild_id, n) {
            Ok(data) => Some(data),
            Err(_) => None,
        },
        None => Some(get_guild_messages(db, guild_id)),
    }
}

/// The reply where the records cannot be had: the board named does not exist.
pub open spec fn fetch_error() -> LookupView {
    LookupView::Say("Error fetching message data: "@ + error_text(DbError::NotFound))
}

fn say_fetch_error() -> (r: Lookup)
    ensures
        r@ == fetch_error(),
{
    let mut text = String::new();
    text.append("Error fetching message data: ");
    assert(text@ =~= "Error fetching message data: "@);
    push_error(&mut text, DbError::NotFound);
    Lookup::Say(text)
}

/// Where the record with the most reactions stands: the last of those that no
/// other exceeds. 0 for an empty table.
pub open spec fn top_of(ms: Seq<MessageView>) -> int
    decreases ms.len(),
{
    if ms.len() <= 1 {
        0
    } else {
        let before = top_of(ms.drop_last());
        if ms.last().reaction_count >= ms[before].reaction_count {
            ms.len() - 1
        } else {
            before
        }
    }
}

/// The top record has the most reactions, and every record after it has fewer.
pub proof fn lemma_top_is_greatest(ms: Seq<MessageView>)
    requires
        ms.len() > 0,
    ensures
        0 <= top_of(ms) < ms.len(),
        forall|j: int|
            0 <= j < ms.len() ==> (#[trigger] ms[j]).reaction_count <= ms[top_of(
                ms,
            )].reaction_count,
        forall|j: int|
            top_of(ms) < j < ms.len() ==> (#[trigger] ms[j]).reaction_count < ms[top_of(
                ms,
            )].reaction_count,
    decreases ms.len(),
{
    if ms.len() > 1 {
        let head = ms.drop_last();
        lemma_top_is_greatest(head);
        assert forall|j: int| 0 <= j < ms.len() implies (#[trigger] ms[j]).reaction_count
            <= ms[top_of(ms)].reaction_count by {
            if j < head.len() {
                assert(ms[j] == head[j]);
            }
        }
        assert forall|j: int| top_of(ms) < j < ms.len() implies (#[trigger] ms[j]).reaction_count
            < ms[top_of(ms)].reaction_count by {
            if j < head.len() {
                assert(ms[j] == head[j]);
            }
        }
    }
}

/// What the command that shows the most reacted mirror fetches or says.
pub open spec fn moststarred_of(
    bs: Seq<BoardRowView>,
    ms: Seq<MessageView>,
    guild: Seq<char>,
    name: Option<Seq<char>>,
) -> LookupView {
    match choice_of(bs, ms, guild, name) {
        None => fetch_error(),
        Some(data) => if data.len() == 0 {
            LookupView::Say("No maximum found"@)
        } else {
            target_of(bs, data[top_of(data)])
        },
    }
}

/// The command that shows the most reacted mirror of board `name` of guild
/// `guild_id`, or of the whole guild where no board is named: what to fetch, or
/// what to say.
pub fn moststarred(db: &Database, guild_id: &str, name: Option<&str>) -> (r: Lookup)
    ensures
        r@ == moststarred_of(db.boards(), db.messages(), guild_id@, name_of(name)),
{
    let data: Vec<Message> = match choice(db, guild_id, name) {
        None => {
            return say_fetch_error();
        },
        Some(d) => d,
    };
    if data.len() == 0 {
        let mut text = String::new();
        text.append("No maximum found");
        assert(text@ =~= "No maximum found"@);
        return Lookup::Say(text);
    }
    let ghost ms = views(data@);
    let mut top: usize = 0;
    let mut i: usize = 1;
    assert(ms.take(1).len() == 1);
    while i < data.len()
        invariant
            1 <= i <= data.len(),
            ms == views(data@),
            top < i,
            top == top_of(ms.take(i as int)),
        decreases data.len() - i,
    {
        assert(ms.take(i + 1).drop_last() =~= ms.take(i as int));
        assert(ms.take(i + 1).last() == data@[i as int]@);
        assert(ms.take(i + 1)[top as int] == data@[top as int]@);
        if data[i].reaction_count >= data[top].reaction_count {
            top = i;
        }
        i = i + 1;
    }
    assert(ms.take(i as int) =~= ms);
    target(db, &data[top])
}

/// Draws an index below `n` from rand's thread-local generator, by
/// `Rng::gen_range`. Trusted: the index is below `n`. Which index comes is left
/// open.
#[verifier::external_body]
fn random_below(n: usize) -> (i: usize)
    requires
        n > 0,
    ensures
        i < n,
{
    rand::thread_rng().gen_range(0..n)
}

/// What the command that shows a mirror at random fetches or says, the record
/// drawn being the one at `drawn`: nothing where there is no such record.
pub open spec fn random_of(
    bs: Seq<BoardRowView>,
    ms: Seq<MessageView>,
    guild: Seq<char>,
    name: Option<Seq<char>>,
    drawn: int,
) -> LookupView {
    match choice_of(bs, ms, guild, name) {
        None => fetch_error(),
        Some(data) => if 0 <= drawn < data.len() {
            target_of(bs, data[drawn])
        } else {
            LookupView::Empty
        },
    }
}

/// How many records the command that shows a mirror at random chooses from.
pub open spec fn random_range(
    bs: Seq<BoardRowView>,
    ms: Seq<MessageView>,
    guild: Seq<char>,
    name: Option<Seq<char>>,
) -> nat {
    match choice_of(bs, ms, guild, name) {
        None => 0,
        Some(data) => data.len(),
    }
}

/// The command that shows a mirror at random, once the draw is made: `drawn` is
/// an index into the records to choose from. An index beyond them draws nothing.
pub fn random_at(db: &Database, guild_id: &str, name: Option<&str>, drawn: usize) -> (r: Lookup)
    ensures
        r@ == random_of(db.boards(), db.messages(), guild_id@, name_of(name), drawn as int),
{
    let data: Vec<Message> = match choice(db, guild_id, name) {
        None => {
            return say_fetch_error();
        },
        Some(d) => d,
    };
    if drawn >= data.len() {
        return Lookup::Empty;
    }
    target(db, &data[drawn])
}

/// The command that shows a mirror at random, of board `name` of guild
/// `guild_id` or of the whole guild where no board is named: what to fetch, or
/// what to say. Every record to choose from can be the one drawn.
pub fn random(db: &Database, guild_id: &str, name: Option<&str>) -> (r: Lookup)
    ensures
        random_range(db.boards(), db.messages(), guild_id@, name_of(name)) == 0 ==> r@
            == random_of(db.boards(), db.messages(), guild_id@, name_of(name), 0),
        random_range(db.boards(), db.messages(), guild_id@, name_of(name)) > 0 ==> exists|
            drawn: int,
        |
            0 <= drawn < random_range(db.boards(), db.messages(), guild_id@, name_of(name)) && r@
                == #[trigger] random_of(
                db.boards(),
                db.messages(),
                guild_id@,
                name_of(name),
                drawn,
            ),
{
    let n: usize = match choice(db, guild_id, name) {
        None => 0,
        Some(d) => d.len(),
    };
    if n == 0 {
        return random_at(db, guild_id, name, 0);
    }
    let drawn: usize = random_below(n);
    random_at(db, guild_id, name, drawn)
}


/// The board names of guild `guild_id` that start with `partial`, in table
/// order: what is offered to complete a board name.
pub fn autocomplete_board_names(db: &Database, guild_id: &str, partial: &str) -> (out: Vec<String>)
    ensures
        texts(out@) == kept(
            kept(db.boards(), in_guild(guild_id@)).map_values(|r: BoardRowView| r.board.name),
            |n: Seq<char>| partial@.is_prefix_of(n),
        ),
{
    let names: Vec<String> = get_board_names(db, guild_id);
    let ghost p = |n: Seq<char>| partial@.is_prefix_of(n);
    let mut out: Vec<String> = Vec::new();
    let mut i: usize = 0;
    assert(texts(names@).take(0) =~= Seq::<Seq<char>>::empty());
    assert(texts(out@) =~= Seq::<Seq<char>>::empty());
    while i < names.len()
        invariant
            i <= names.len(),
            p == (|n: Seq<char>| partial@.is_prefix_of(n)),
            texts(out@) == kept(texts(names@).take(i as int), p),
        decreases names.len() - i,
    {
        assert(texts(names@)[i as int] == names@[i as int]@);
        proof {
            lemma_kept_next(texts(names@), p, i as int);
        }
        if has_prefix(names[i].as_str(), partial) {
            let ghost had = texts(out@);
            out.push(names[i].clone());
            assert(texts(out@) =~= had.push(names@[i as int]@));
        }
        i = i + 1;
    }
    assert(texts(names@).take(i as int) =~= texts(names@));
    out
}

/// The trigger reactions of a board as they are shown: their canonical texts
/// with a space between neighbours.
pub open spec fn shown_reactions(board: BoardView) -> Seq<char> {
    joined(canonicals(keys_of_csv(board.reactions)), " "@)
}

/// What is shown of one board that was asked for by name.
pub open spec fn board_text(board: BoardView) -> Seq<char> {
    "**Board: "@ + board.name + "**\n**Destination:** <#"@ + board.dest_channel
        + ">\n**Reactions:** "@ + shown_reactions(board) + "\n**Min Reactions:** "@
        + signed_decimal(board.min_reactions as int)
}

/// The line of one board in the list of a guild's boards.
pub open spec fn board_line(board: BoardView) -> Seq<char> {
    "**"@ + board.name + "** â†’ <#"@ + board.dest_channel + "> ("@ + signed_decimal(
        board.min_reactions as int,
    ) + "+ reactions: "@ + shown_reactions(board) + ")\n"@
}

/// The lines of the boards `bs`, one after another.
pub open spec fn board_lines(bs: Seq<BoardView>) -> Seq<char>
    decreases bs.len(),
{
    if bs.len() == 0 {
        Seq::<char>::empty()
    } else {
        board_lines(bs.drop_last()) + board_line(bs.last())
    }
}

/// What the command that shows boards says: the board asked for, or that there
/// is none of that name; or, where no name is given, the list of the guild's
/// boards, or that the guild has none.
pub open spec fn showboard_of(bs: Seq<BoardRowView>, guild: Seq<char>, name: Option<Seq<char>>) -> Seq<
    char,
> {
    match name {
        Some(n) => match board_where(bs, named(guild, n)) {
            Some(board) => board_text(board),
            None => "Board '"@ + n + "' not found!"@,
        },
        None => {
            let boards = kept(bs, in_guild(guild)).map_values(|r: BoardRowView| r.board);
            if boards.len() == 0 {
                "No boards found in this server!"@
            } else {
                "**Server Boards:**\n\n"@ + board_lines(boards)
            }
        },
    }
}

/// Appends the trigger reactions of `board` as they are shown.
fn push_reactions(out: &mut String, board: &Board)
    ensures
        final(out)@ == old(out)@ + shown_reactions(board@),
{
    let triggers: Vec<ReactionKey> = from_csv(board.reactions.clone());
    let shown: String = join_keys(&triggers, " ");
    out.append(shown.as_str());
}

/// The command that shows board `name` of guild `guild_id`, or every board of
/// the guild where no name is given: what to say.
pub fn showboard(db: &Database, guild_id: &str, name: Option<&str>) -> (reply: String)
    ensures
        reply@ == showboard_of(db.boards(), guild_id@, name_of(name)),
{
    let mut reply = String::new();
    match name {
        Some(n) => match get_board(db, guild_id, n) {
            Ok(board) => {
                reply.append("**Board: ");
                reply.append(board.name.as_str());
                reply.append("**\n**Destination:** <#");
                reply.append(board.dest_channel.as_str());
                reply.append(">\n**Reactions:** ");
                push_reactions(&mut reply, &board);
                reply.append("\n**Min Reactions:** ");
                push_signed_decimal(&mut reply, board.min_reactions as i64);
                assert(reply@ =~= board_text(board@));
            },
            Err(_) => {
                reply.append("Board '");
                reply.append(n);
                reply.append("' not found!");
                assert(reply@ =~= "Board '"@ + n@ + "' not found!"@);
            },
        },
        None => {
            let boards: Vec<Board> = get_guild_boards(db, guild_id);
            if boards.len() == 0 {
                reply.append("No boards found in this server!");
                assert(reply@ =~= "No boards found in this server!"@);
            } else {
                reply.append("**Server Boards:**\n\n");
                assert(reply@ =~= "**Server Boards:**\n\n"@);
                let mut i: usize = 0;
                assert(views(boards@).take(0) =~= Seq::<BoardView>::empty());
                assert(reply@ =~= "**Server Boards:**\n\n"@ + board_lines(views(boards@).take(0)));
                while i < boards.len()
                    invariant
                        i <= boards.len(),
                        reply@ == "**Server Boards:**\n\n"@ + board_lines(
                            views(boards@).take(i as int),
                        ),
                    decreases boards.len() - i,
                {
                    let board: &Board = &boards[i];
                    let ghost had = reply@;
                    assert(views(boards@).take(i + 1).drop_last() =~= views(boards@).take(i as int));
                    assert(views(boards@).take(i + 1).last() == board@);
                    reply.append("**");
                    reply.append(board.name.as_str());
                    reply.append("** â†’ <#");
                    reply.append(board.dest_channel.as_str());
                    reply.append("> (");
                    push_signed_decimal(&mut reply, board.min_reactions as i64);
                    reply.append("+ reactions: ");
                    push_reactions(&mut reply, board);
                    reply.append(")\n");
                    assert(reply@ =~= had + board_line(board@));
                    assert(had + board_line(board@) =~= "**Server Boards:**\n\n"@ + (board_lines(
                        views(boards@).take(i as int),
                    ) + board_line(board@)));
                    i = i + 1;
                }
                assert(views(boards@).take(i as int) =~= views(boards@));
            }
        },
    }
    reply
}

/// What the command that deletes a board says.
pub open spec fn deleteboard_reply(name: Seq<char>) -> Seq<char> {
    "Board '"@ + name + "' deleted successfully!"@
}

/// The command that deletes board `name` of guild `guild_id`: deletes it, with
/// its mirror records, and says so.
pub fn deleteboard(db: &mut Database, guild_id: &str, name: &str) -> (reply: String)
    requires
        old(db).wf(),
    ensures
        final(db).wf(),
        reply@ == deleteboard_reply(name@),
        final(db).next_board_id() == old(db).next_board_id(),
        ({
            let i = first_where(old(db).boards(), named(guild_id@, name@));
            if i < old(db).boards().len() {
                &&& final(db).boards() == old(db).boards().remove(i)
                &&& final(db).messages() == kept(
                    old(db).messages(),
                    off_board(old(db).boards()[i].board_id),
                )
            } else {
                &&& final(db).boards() == old(db).boards()
                &&& final(db).messages() == old(db).messages()
            }
        }),
{
    delete_board(db, guild_id, name);
    let mut reply = String::new();
    reply.append("Board '");
    reply.append(name);
    reply.append("' deleted successfully!");
    assert(reply@ =~= deleteboard_reply(name@));
    reply
}

/// What the command that adds a board says: that the reactions name no key, why
/// the board cannot be added, or that it was, with its threshold and channel.
pub open spec fn addboard_reply(
    bs: Seq<BoardRowView>,
    next: i64,
    guild: Seq<char>,
    name: Seq<char>,
    dest_channel: u64,
    reactions: Seq<char>,
    min_reactions: Option<i64>,
) -> Seq<char> {
    if catalog(candidates(reactions)).len() == 0 {
        "No valid reactions provided. Please provide valid Unicode emojis or custom emojis in the format <:name:id>"@
    } else {
        match add_error(bs, next, guild, name, min_reactions) {
            Some(e) => "Failed to create board: "@ + error_text(e),
            None => "Board '"@ + name + "' created successfully! Messages with "@ + signed_decimal(
                threshold_of(min_reactions)->0 as int,
            ) + " or more reactions will be posted to <#"@ + decimal(dest_channel as nat) + ">"@,
        }
    }
}

/// The boards after the command that adds a board: one more where the reactions
/// name a key and nothing stands against the board, else the same.
pub open spec fn addboard_boards(
    bs: Seq<BoardRowView>,
    next: i64,
    guild: Seq<char>,
    name: Seq<char>,
    dest_channel: u64,
    reactions: Seq<char>,
    min_reactions: Option<i64>,
) -> Seq<BoardRowView> {
    if catalog(candidates(reactions)).len() > 0 && add_error(bs, next, guild, name, min_reactions)
        is None {
        bs.push(
            BoardRowView {
                board_id: next,
                guild_id: guild,
                board: BoardView {
                    name,
                    reactions: joined(canonicals(catalog(candidates(reactions))), seq![',']),
                    min_reactions: threshold_of(min_reactions)->0,
                    dest_channel: decimal(dest_channel as nat),
                },
            },
        )
    } else {
        bs
    }
}

/// The command that adds a board named `name` to guild `guild_id`, posting to
/// channel `dest_channel`, triggered by the reactions that the free text
/// `reactions` names, at `min_reactions` reactions or at 5 where none is given.
pub fn addboard(
    db: &mut Database,
    guild_id: &str,
    name: &str,
    dest_channel: u64,
    reactions: String,
    min_reactions: Option<i64>,
) -> (reply: String)
    requires
        old(db).wf(),
    ensures
        final(db).wf(),
        final(db).messages() == old(db).messages(),
        reply@ == addboard_reply(
            old(db).boards(),
            old(db).next_board_id(),
            guild_id@,
            name@,
            dest_channel,
            reactions@,
            min_reactions,
        ),
        final(db).boards() == addboard_boards(
            old(db).boards(),
            old(db).next_board_id(),
            guild_id@,
            name@,
            dest_channel,
            reactions@,
            min_reactions,
        ),
{
    let mut reply = String::new();
    let parsed: Vec<ReactionKey> = parse_reactions(reactions);
    assert(keys(parsed@).len() == parsed@.len());
    if parsed.len() == 0 {
        reply.append(
            "No valid reactions provided. Please provide valid Unicode emojis or custom emojis in the format <:name:id>",
        );
        assert(reply@
            =~= "No valid reactions provided. Please provide valid Unicode emojis or custom emojis in the format <:name:id>"@);
        return reply;
    }
    let dest: String = decimal_string(dest_channel);
    let guild: String = {
        let mut g = String::new();
        g.append(guild_id);
        assert(g@ =~= guild_id@);
        g
    };
    let board_name: String = {
        let mut n = String::new();
        n.append(name);
        assert(n@ =~= name@);
        n
    };
    match add_board(db, guild, board_name, parsed, min_reactions, dest) {
        Ok(()) => {
            let min: i64 = match min_reactions {
                Some(v) => v,
                None => 5,
            };
            reply.append("Board '");
            reply.append(name);
            reply.append("' created successfully! Messages with ");
            push_signed_decimal(&mut reply, min);
            reply.append(" or more reactions will be posted to <#");
            push_decimal(&mut reply, dest_channel);
            reply.append(">");
            assert(reply@ =~= "Board '"@ + name@ + "' created successfully! Messages with "@
                + signed_decimal(min as int) + " or more reactions will be posted to <#"@
                + decimal(dest_channel as nat) + ">"@);
        },
        Err(e) => {
            reply.append("Failed to create board: ");
            assert(reply@ =~= "Failed to create board: "@);
            push_error(&mut reply, e);
        },
    }
    reply
}


/// The value of a command option, as far as the commands read it.
#[derive(Debug)]
pub enum OptionValue {
    Text(String),
    Integer(i64),
    /// A channel, by its identifier.
    Channel(u64),
    /// A value of any other kind.
    Other,
}

/// An option value as a mathematical value.
pub enum OptionValueView {
    Text(Seq<char>),
    Integer(i64),
    Channel(u64),
    Other,
}

impl View for OptionValue {
    type V = OptionValueView;

    open spec fn view(&self) -> OptionValueView {
        match self {
            OptionValue::Text(s) => OptionValueView::Text(s@),
            OptionValue::Integer(i) => OptionValueView::Integer(*i),
            OptionValue::Channel(c) => OptionValueView::Channel(*c),
            OptionValue::Other => OptionValueView::Other,
        }
    }
}

/// An option given to a command.
#[derive(Debug)]
pub struct CommandOption {
    pub name: String,
    pub value: OptionValue,
}

/// A command option as a mathematical value.
pub struct CommandOptionView {
    pub name: Seq<char>,
    pub value: OptionValueView,
}

impl View for CommandOption {
    type V = CommandOptionView;

    open spec fn view(&self) -> CommandOptionView {
        CommandOptionView { name: self.name@, value: self.value@ }
    }
}

/// What the command that edits a board is asked for: the board, and the parts to
/// replace.
#[derive(Debug)]
pub struct BoardEdit {
    pub name: String,
    pub new_name: Option<String>,
    /// The new trigger reactions, as a free text.
    pub reactions: Option<String>,
    pub min_reactions: Option<i64>,
    pub dest_channel: Option<String>,
}

/// An edit as a mathematical value.
pub struct BoardEditView {
    pub name: Seq<char>,
    pub new_name: Option<Seq<char>>,
    pub reactions: Option<Seq<char>>,
    pub min_reactions: Option<i64>,
    pub dest_channel: Option<Seq<char>>,
}

impl View for BoardEdit {
    type V = BoardEditView;

    open spec fn view(&self) -> BoardEditView {
        BoardEditView {
            name: self.name@,
            new_name: crate::db::text_of(self.new_name),
            reactions: crate::db::text_of(self.reactions),
            min_reactions: self.min_reactions,
            dest_channel: crate::db::text_of(self.dest_channel),
        }
    }
}

/// The edit that asks for nothing, of the board without a name.
pub open spec fn no_edit() -> BoardEditView {
    BoardEditView {
        name: Seq::<char>::empty(),
        new_name: None,
        reactions: None,
        min_reactions: None,
        dest_channel: None,
    }
}

/// The edit `acc` with option `o` read into it, or what is said of an option
/// that cannot be read: one of an unknown name, or of a value of the wrong kind.
pub open spec fn read_option(acc: BoardEditView, o: CommandOptionView) -> Result<
    BoardEditView,
    Seq<char>,
> {
    if o.name == "name"@ {
        match o.value {
            OptionValueView::Text(v) => Ok(BoardEditView { name: v, ..acc }),
            _ => Err("Invalid value for name"@),
        }
    } else if o.name == "new-name"@ {
        match o.value {
            OptionValueView::Text(v) => Ok(BoardEditView { new_name: Some(v), ..acc }),
            _ => Err("Invalid value for new-name"@),
        }
    } else if o.name == "min-reactions"@ {
        match o.value {
            OptionValueView::Integer(v) => Ok(BoardEditView { min_reactions: Some(v), ..acc }),
            _ => Err("Invalid value for min-reactions"@),
        }
    } else if o.name == "dest-channel"@ {
        match o.value {
            OptionValueView::Channel(c) => Ok(
                BoardEditView { dest_channel: Some(decimal(c as nat)), ..acc },
            ),
            _ => Err("Invalid value for dest-channel"@),
        }
    } else if o.name == "reactions"@ {
        match o.value {
            OptionValueView::Text(v) => Ok(BoardEditView { reactions: Some(v), ..acc }),
            _ => Err("Invalid value for reactions"@),
        }
    } else {
        Err("Invalid option"@)
    }
}

/// The edit that the options `os` ask for, read in order, a later option
/// replacing an earlier one of the same name; or what is said of the first
/// option that cannot be read.
pub open spec fn read_options(os: Seq<CommandOptionView>) -> Result<BoardEditView, Seq<char>>
    decreases os.len(),
{
    if os.len() == 0 {
        Ok(no_edit())
    } else {
        match read_options(os.drop_last()) {
            Ok(acc) => read_option(acc, os.last()),
            Err(text) => Err(text),
        }
    }
}

fn refuse(text: &str) -> (r: Result<BoardEdit, String>)
    ensures
        r is Err,
        r->Err_0@ == text@,
{
    let mut s = String::new();
    s.append(text);
    assert(s@ =~= text@);
    Err(s)
}

/// Reads the options of the command that edits a board.
pub fn options_to_edit(options: &Vec<CommandOption>) -> (r: Result<BoardEdit, String>)
    ensures
        match r {
            Ok(edit) => read_options(views(options@)) == Ok::<BoardEditView, Seq<char>>(edit@),
            Err(text) => read_options(views(options@)) == Err::<BoardEditView, Seq<char>>(text@),
        },
{
    let mut edit = BoardEdit {
        name: String::new(),
        new_name: None,
        reactions: None,
        min_reactions: None,
        dest_channel: None,
    };
    let mut i: usize = 0;
    assert(views(options@).take(0) =~= Seq::<CommandOptionView>::empty());
    assert(edit@ == no_edit());
    while i < options.len()
        invariant
            i <= options.len(),
            read_options(views(options@).take(i as int)) == Ok::<BoardEditView, Seq<char>>(edit@),
        decreases options.len() - i,
    {
        let o: &CommandOption = &options[i];
        let ghost upto = views(options@).take(i + 1);
        assert(upto.drop_last() =~= views(options@).take(i as int));
        assert(upto.last() == o@);
        proof {
            lemma_read_error_stays(views(options@), i + 1);
        }
        if same(o.name.as_str(), "name") {
            match &o.value {
                OptionValue::Text(v) => {
                    edit.name = v.clone();
                },
                _ => {
                    return refuse("Invalid value for name");
                },
            }
        } else if same(o.name.as_str(), "new-name") {
            match &o.value {
                OptionValue::Text(v) => {
                    edit.new_name = Some(v.clone());
                },
                _ => {
                    return refuse("Invalid value for new-name");
                },
            }
        } else if same(o.name.as_str(), "min-reactions") {
            match &o.value {
                OptionValue::Integer(v) => {
                    edit.min_reactions = Some(*v);
                },
                _ => {
                    return refuse("Invalid value for min-reactions");
                },
            }
        } else if same(o.name.as_str(), "dest-channel") {
            match &o.value {
                OptionValue::Channel(c) => {
                    edit.dest_channel = Some(decimal_string(*c));
                },
                _ => {
                    return refuse("Invalid value for dest-channel");
                },
            }
        } else if same(o.name.as_str(), "reactions") {
            match &o.value {
                OptionValue::Text(v) => {
                    edit.reactions = Some(v.clone());
                },
                _ => {
                    return refuse("Invalid value for reactions");
                },
            }
        } else {
            return refuse("Invalid option");
        }
        i = i + 1;
    }
    assert(views(options@).take(i as int) =~= views(options@));
    Ok(edit)
}

/// Once an option cannot be read, no later option changes what is said.
proof fn lemma_read_error_stays(os: Seq<CommandOptionView>, k: int)
    requires
        0 <= k <= os.len(),
    ensures
        read_options(os.take(k)) is Err ==> read_options(os) == read_options(os.take(k)),
    decreases os.len() - k,
{
    if k < os.len() {
        assert(os.take(k + 1).drop_last() =~= os.take(k));
        lemma_read_error_stays(os, k + 1);
    } else {
        assert(os.take(k) =~= os);
    }
}

/// The comma-separated list that an edit stores for the reactions that a free
/// text names.
pub open spec fn edit_csv(reactions: Option<Seq<char>>) -> Option<Seq<char>> {
    match reactions {
        Some(text) => Some(joined(canonicals(catalog(candidates(text))), seq![','])),
        None => None,
    }
}

/// What the command that edits a board says: what cannot be read of its
/// options, why the board cannot be edited, or that it was.
pub open spec fn run_reply(bs: Seq<BoardRowView>, guild: Seq<char>, os: Seq<CommandOptionView>) -> Seq<
    char,
> {
    match read_options(os) {
        Err(text) => text,
        Ok(edit) => match edit_error(bs, guild, edit.name, edit.new_name, edit.min_reactions) {
            Some(e) => "Failed to edit board: "@ + error_text(e),
            None => "Board edited successfully"@,
        },
    }
}

/// The boards after the command that edits a board.
pub open spec fn run_boards(bs: Seq<BoardRowView>, guild: Seq<char>, os: Seq<CommandOptionView>) -> Seq<
    BoardRowView,
> {
    match read_options(os) {
        Err(_) => bs,
        Ok(edit) => {
            let i = first_where(bs, named(guild, edit.name));
            if i < bs.len() && edit_error(bs, guild, edit.name, edit.new_name, edit.min_reactions)
                is None {
                bs.update(
                    i,
                    BoardRowView {
                        board: edited(
                            bs[i].board,
                            edit.new_name,
                            edit_csv(edit.reactions),
                            edit_threshold(edit.min_reactions),
                            edit.dest_channel,
                        ),
                        ..bs[i]
                    },
                )
            } else {
                bs
            }
        },
    }
}

/// The command that edits a board of guild `guild_id`: reads its options, edits
/// the board they name, and says what came of it.
pub fn run(db: &mut Database, guild_id: &str, options: &Vec<CommandOption>) -> (reply: String)
    requires
        old(db).wf(),
    ensures
        final(db).wf(),
        final(db).messages() == old(db).messages(),
        final(db).next_board_id() == old(db).next_board_id(),
        reply@ == run_reply(old(db).boards(), guild_id@, views(options@)),
        final(db).boards() == run_boards(old(db).boards(), guild_id@, views(options@)),
{
    let edit: BoardEdit = match options_to_edit(options) {
        Err(text) => {
            return text;
        },
        Ok(e) => e,
    };
    let parsed: Option<Vec<ReactionKey>> = match edit.reactions {
        Some(text) => Some(parse_reactions(text)),
        None => None,
    };
    let mut reply = String::new();
    match edit_board(
        db,
        guild_id,
        edit.name.as_str(),
        edit.new_name,
        parsed,
        edit.min_reactions,
        edit.dest_channel,
    ) {
        Ok(()) => {
            reply.append("Board edited successfully");
            assert(reply@ =~= "Board edited successfully"@);
        },
        Err(e) => {
            reply.append("Failed to edit board: ");
            assert(reply@ =~= "Failed to edit board: "@);
            push_error(&mut reply, e);
        },
    }
    reply
}

} // verus!
