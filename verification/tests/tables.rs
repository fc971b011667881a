use starboard::db::{
    add_board, add_message, board_id, board_rows, create, create_db, delete_board, edit_board,
    find_min_reactions, get_board, get_board_by_id, get_board_messages, get_board_names,
    get_board_user_reactions, get_guild_boards, get_guild_messages, get_guild_user_reactions,
    get_message_dest, load, lookup, message_rows, next_id, qualifying_boards, update_count,
    update_message_reaction_count, BoardRow, Board, Database, DbError, Message,
};
use starboard::reaction::ReactionKey;

fn star() -> ReactionKey {
    ReactionKey::Unicode("⭐".to_string())
}

fn fire() -> ReactionKey {
    ReactionKey::Unicode("🔥".to_string())
}

fn blob() -> ReactionKey {
    ReactionKey::Custom { animated: false, id: 123, name: Some("blob".to_string()) }
}

fn board(db: &mut Database, guild: &str, name: &str, keys: Vec<ReactionKey>, min: Option<i64>) {
    assert_eq!(
        add_board(db, guild.to_string(), name.to_string(), keys, min, "555".to_string()),
        Ok(())
    );
}

fn record(db: &mut Database, guild: &str, name: &str, user: &str, source: &str, count: i64) {
    let dest = format!("9{}", source);
    assert_eq!(
        add_message(db, guild, name, user.to_string(), source.to_string(), dest, count),
        Ok(())
    );
}

fn sample() -> Database {
    let mut db = create_db();
    board(&mut db, "g1", "top", vec![star()], Some(5));
    board(&mut db, "g1", "hot", vec![fire(), blob()], None);
    board(&mut db, "g2", "top", vec![star(), fire()], Some(1));
    record(&mut db, "g1", "top", "10", "100", 7);
    record(&mut db, "g1", "hot", "11", "100", 9);
    record(&mut db, "g1", "top", "10", "101", 5);
    record(&mut db, "g2", "top", "12", "100", 9);
    record(&mut db, "g1", "top", "11", "102", 6);
    db
}

fn sources(ms: &Vec<Message>) -> Vec<(i64, String)> {
    ms.iter().map(|m| (m.board_id, m.source_id.clone())).collect()
}

#[test]
fn a_new_database_is_empty() {
    let db = create_db();
    assert!(board_rows(&db).is_empty());
    assert!(message_rows(&db).is_empty());
    assert_eq!(next_id(&db), 1);
}

#[test]
fn boards_get_identifiers_in_turn_and_the_default_threshold() {
    let db = sample();
    let rows = board_rows(&db);
    assert_eq!(rows.len(), 3);
    assert_eq!(rows[0].board_id, 1);
    assert_eq!(rows[1].board_id, 2);
    assert_eq!(rows[2].board_id, 3);
    assert_eq!(next_id(&db), 4);
    assert_eq!(rows[0].board.min_reactions, 5);
    assert_eq!(rows[1].board.min_reactions, 5);
    assert_eq!(rows[2].board.min_reactions, 1);
    assert_eq!(rows[1].board.reactions, "🔥,<:blob:123>");
    assert_eq!(rows[1].guild_id, "g1");
    assert_eq!(rows[1].board.dest_channel, "555");
    assert_eq!(board_id(&db, "g1", "hot"), Some(2));
    assert_eq!(board_id(&db, "g2", "hot"), None);
}

#[test]
fn a_guild_has_one_board_of_a_name() {
    let mut db = sample();
    let again = add_board(
        &mut db,
        "g1".to_string(),
        "top".to_string(),
        vec![fire()],
        Some(2),
        "1".to_string(),
    );
    assert_eq!(again, Err(DbError::DuplicateBoard));
    assert_eq!(board_rows(&db).len(), 3);
    assert_eq!(next_id(&db), 4);
}

#[test]
fn a_threshold_must_fit_its_column() {
    let mut db = create_db();
    for bad in [i64::MAX, 2147483648, -2147483649, i64::MIN] {
        let r = add_board(
            &mut db,
            "g".to_string(),
            "b".to_string(),
            vec![star()],
            Some(bad),
            "1".to_string(),
        );
        assert_eq!(r, Err(DbError::InvalidThreshold));
    }
    assert!(board_rows(&db).is_empty());
    board(&mut db, "g", "b", vec![star()], Some(2147483647));
    assert_eq!(board_rows(&db)[0].board.min_reactions, 2147483647);
}

#[test]
fn no_board_is_added_when_identifiers_run_out() {
    let mut db = load(vec![], vec![], i64::MAX).unwrap();
    let r = add_board(
        &mut db,
        "g".to_string(),
        "b".to_string(),
        vec![star()],
        None,
        "1".to_string(),
    );
    assert_eq!(r, Err(DbError::Full));
    assert!(board_rows(&db).is_empty());
}

#[test]
fn boards_are_found_by_guild_name_and_identifier() {
    let db = sample();
    assert_eq!(get_board_names(&db, "g1"), vec!["top", "hot"]);
    assert_eq!(get_board_names(&db, "g2"), vec!["top"]);
    assert!(get_board_names(&db, "g3").is_empty());
    let boards = get_guild_boards(&db, "g1");
    assert_eq!(boards.len(), 2);
    assert_eq!(boards[1].name, "hot");
    assert_eq!(get_board(&db, "g2", "top").unwrap().min_reactions, 1);
    assert_eq!(get_board(&db, "g2", "hot").err(), Some(DbError::NotFound));
    assert_eq!(get_board_by_id(&db, 2).unwrap().name, "hot");
    assert_eq!(get_board_by_id(&db, 9).err(), Some(DbError::NotFound));
}

#[test]
fn boards_listen_for_their_own_reactions() {
    let db = sample();
    let names = |rows: Vec<BoardRow>| -> Vec<String> {
        rows.into_iter().map(|r| r.board.name).collect()
    };
    assert_eq!(names(find_min_reactions(&db, "g1", &star())), vec!["top"]);
    assert_eq!(names(find_min_reactions(&db, "g1", &fire())), vec!["hot"]);
    assert_eq!(names(find_min_reactions(&db, "g1", &blob())), vec!["hot"]);
    assert_eq!(names(find_min_reactions(&db, "g2", &fire())), vec!["top"]);
    assert!(find_min_reactions(&db, "g3", &star()).is_empty());
    // A key is matched whole, not as a part of another.
    let part = ReactionKey::Unicode("blob".to_string());
    assert!(find_min_reactions(&db, "g1", &part).is_empty());

    assert_eq!(names(qualifying_boards(&db, "g1", &star(), 5)), vec!["top"]);
    assert!(qualifying_boards(&db, "g1", &star(), 4).is_empty());
    assert_eq!(names(qualifying_boards(&db, "g2", &star(), 1)), vec!["top"]);
    assert!(qualifying_boards(&db, "g2", &star(), 0).is_empty());
}

#[test]
fn a_board_mirrors_a_message_once() {
    let mut db = sample();
    let again = add_message(
        &mut db,
        "g1",
        "top",
        "99".to_string(),
        "100".to_string(),
        "1".to_string(),
        1,
    );
    assert_eq!(again, Err(DbError::DuplicateMirror));
    assert_eq!(create(&mut db, 1, "9".into(), "100".into(), "1".into(), 1), Err(DbError::DuplicateMirror));
    assert_eq!(message_rows(&db).len(), 5);
    assert_eq!(lookup(&db, 1, "100").unwrap().reaction_count, 7);
    assert_eq!(lookup(&db, 1, "100").unwrap().user_id, "10");
}

#[test]
fn a_record_needs_its_board() {
    let mut db = sample();
    let r = add_message(&mut db, "g1", "nope", "1".into(), "1".into(), "1".into(), 1);
    assert_eq!(r, Err(DbError::NotFound));
    assert_eq!(message_rows(&db).len(), 5);
}

#[test]
fn the_mirror_of_a_message_is_found_by_board() {
    let db = sample();
    assert_eq!(get_message_dest(&db, "g1", "top", "100"), Ok("9100".to_string()));
    assert_eq!(get_message_dest(&db, "g1", "hot", "101"), Err(DbError::NotFound));
    assert_eq!(get_message_dest(&db, "g1", "nope", "100"), Err(DbError::NotFound));
    assert!(lookup(&db, 2, "101").is_none());
}

#[test]
fn updating_a_count_changes_that_count_alone() {
    let mut db = sample();
    assert_eq!(update_message_reaction_count(&mut db, "g1", "top", "101", 50), Ok(()));
    let rows = message_rows(&db);
    let counts: Vec<i64> = rows.iter().map(|m| m.reaction_count).collect();
    assert_eq!(counts, vec![7, 9, 50, 9, 6]);
    assert_eq!(rows[2].dest_id, "9101");
    assert_eq!(rows[2].user_id, "10");
    assert_eq!(update_count(&mut db, 3, "100", -1), Ok(()));
    assert_eq!(message_rows(&db)[3].reaction_count, -1);
}

#[test]
fn updating_a_missing_record_fails() {
    let mut db = sample();
    assert_eq!(
        update_message_reaction_count(&mut db, "g1", "top", "999", 1),
        Err(DbError::NotFound)
    );
    assert_eq!(
        update_message_reaction_count(&mut db, "g9", "top", "100", 1),
        Err(DbError::NotFound)
    );
    assert_eq!(update_count(&mut db, 2, "101", 1), Err(DbError::NotFound));
    let counts: Vec<i64> = message_rows(&db).iter().map(|m| m.reaction_count).collect();
    assert_eq!(counts, vec![7, 9, 5, 9, 6]);
}

#[test]
fn records_are_listed_by_board_and_by_guild() {
    let db = sample();
    let top = get_board_messages(&db, "g1", "top").unwrap();
    assert_eq!(
        sources(&top),
        vec![(1, "100".to_string()), (1, "101".to_string()), (1, "102".to_string())]
    );
    assert_eq!(get_board_messages(&db, "g1", "nope").err(), Some(DbError::NotFound));
    let g1 = get_guild_messages(&db, "g1");
    assert_eq!(
        sources(&g1),
        vec![
            (1, "100".to_string()),
            (2, "100".to_string()),
            (1, "101".to_string()),
            (1, "102".to_string())
        ]
    );
    assert_eq!(sources(&get_guild_messages(&db, "g2")), vec![(3, "100".to_string())]);
    assert!(get_guild_messages(&db, "g3").is_empty());
}

#[test]
fn deleting_a_board_takes_its_records_along() {
    let mut db = sample();
    delete_board(&mut db, "g1", "top");
    assert_eq!(get_board_names(&db, "g1"), vec!["hot"]);
    assert_eq!(
        sources(&message_rows(&db)),
        vec![(2, "100".to_string()), (3, "100".to_string())]
    );
    assert_eq!(next_id(&db), 4);
    delete_board(&mut db, "g1", "top");
    delete_board(&mut db, "g9", "hot");
    assert_eq!(board_rows(&db).len(), 2);
    assert_eq!(message_rows(&db).len(), 2);
}

#[test]
fn editing_replaces_what_is_given() {
    let mut db = sample();
    let r = edit_board(
        &mut db,
        "g1",
        "hot",
        Some("warm".to_string()),
        Some(vec![star(), blob()]),
        Some(3),
        Some("777".to_string()),
    );
    assert_eq!(r, Ok(()));
    let b = get_board(&db, "g1", "warm").unwrap();
    assert_eq!(b.reactions, "⭐,<:blob:123>");
    assert_eq!(b.min_reactions, 3);
    assert_eq!(b.dest_channel, "777");
    assert_eq!(board_id(&db, "g1", "warm"), Some(2));
    assert_eq!(board_id(&db, "g1", "hot"), None);

    assert_eq!(edit_board(&mut db, "g1", "warm", None, None, None, None), Ok(()));
    let same = get_board(&db, "g1", "warm").unwrap();
    assert_eq!(same.reactions, "⭐,<:blob:123>");
    assert_eq!(same.min_reactions, 3);
    assert_eq!(same.dest_channel, "777");
}

#[test]
fn editing_refuses_a_name_in_use_and_a_threshold_out_of_range() {
    let mut db = sample();
    assert_eq!(
        edit_board(&mut db, "g1", "hot", Some("top".to_string()), None, None, None),
        Err(DbError::DuplicateBoard)
    );
    assert_eq!(
        edit_board(&mut db, "g1", "hot", Some("hot".to_string()), None, Some(8), None),
        Ok(())
    );
    assert_eq!(
        edit_board(&mut db, "g1", "hot", None, None, Some(1 << 40), None),
        Err(DbError::InvalidThreshold)
    );
    assert_eq!(edit_board(&mut db, "g1", "nope", None, None, Some(1), None), Ok(()));
    assert_eq!(get_board(&db, "g1", "hot").unwrap().min_reactions, 8);
    assert_eq!(get_board_names(&db, "g1"), vec!["top", "hot"]);
}

#[test]
fn reactions_are_tallied_by_author() {
    let mut db = sample();
    assert_eq!(get_board_user_reactions(&db, "g1", "top"), vec![(10, 12), (11, 6)]);
    assert_eq!(get_board_user_reactions(&db, "g1", "hot"), vec![(11, 9)]);
    assert!(get_board_user_reactions(&db, "g1", "nope").is_empty());
    // The tally of a guild is that of its first board.
    assert_eq!(get_guild_user_reactions(&db, "g1"), vec![(10, 12), (11, 6)]);
    assert_eq!(get_guild_user_reactions(&db, "g2"), vec![(12, 9)]);
    assert!(get_guild_user_reactions(&db, "g3").is_empty());

    record(&mut db, "g1", "top", "not a user", "200", 4);
    record(&mut db, "g1", "top", "0", "201", 4);
    record(&mut db, "g1", "top", "13", "202", -4);
    record(&mut db, "g1", "top", "+14", "203", 2);
    assert_eq!(
        get_board_user_reactions(&db, "g1", "top"),
        vec![(10, 12), (11, 6), (14, 2)]
    );
}

#[test]
fn a_tally_stops_at_the_largest_total() {
    let mut db = create_db();
    board(&mut db, "g", "b", vec![star()], None);
    record(&mut db, "g", "b", "1", "1", i64::MAX);
    record(&mut db, "g", "b", "1", "2", i64::MAX);
    assert_eq!(get_board_user_reactions(&db, "g", "b"), vec![(1, u64::MAX - 1)]);
    record(&mut db, "g", "b", "1", "3", 5);
    assert_eq!(get_board_user_reactions(&db, "g", "b"), vec![(1, u64::MAX)]);
}

#[test]
fn stored_rows_load_back() {
    let db = sample();
    let back = load(board_rows(&db), message_rows(&db), next_id(&db)).unwrap();
    assert_eq!(get_board_names(&back, "g1"), vec!["top", "hot"]);
    assert_eq!(message_rows(&back).len(), 5);
    assert_eq!(next_id(&back), 4);
    assert_eq!(lookup(&back, 1, "101").unwrap().dest_id, "9101");
}

#[test]
fn rows_that_break_the_tables_are_refused() {
    let db = sample();
    let row = |id: i64, guild: &str, name: &str| BoardRow {
        board_id: id,
        guild_id: guild.to_string(),
        board: Board {
            name: name.to_string(),
            reactions: "⭐".to_string(),
            min_reactions: 5,
            dest_channel: "1".to_string(),
        },
    };
    let msg = |board_id: i64, source: &str| Message {
        user_id: "1".to_string(),
        source_id: source.to_string(),
        dest_id: "2".to_string(),
        board_id,
        reaction_count: 1,
    };
    assert!(load(vec![row(1, "g", "a"), row(2, "g", "b")], vec![msg(1, "x"), msg(2, "x")], 3).is_some());
    assert!(load(vec![row(1, "g", "a"), row(1, "g", "b")], vec![], 3).is_none());
    assert!(load(vec![row(1, "g", "a"), row(2, "g", "a")], vec![], 3).is_none());
    assert!(load(vec![row(1, "g", "a"), row(2, "h", "a")], vec![], 3).is_some());
    assert!(load(vec![row(3, "g", "a")], vec![], 3).is_none());
    assert!(load(vec![], vec![msg(1, "x"), msg(1, "y"), msg(1, "x")], 1).is_none());
    let mut rows = message_rows(&db);
    rows.push(msg(1, "100"));
    assert!(load(board_rows(&db), rows, next_id(&db)).is_none());
}

#[test]
fn listening_boards_come_in_order_of_name() {
    let names = |rows: Vec<BoardRow>| -> Vec<String> {
        rows.into_iter().map(|r| r.board.name).collect()
    };
    let mut db = create_db();
    board(&mut db, "g", "b", vec![star()], Some(9));
    board(&mut db, "g", "a", vec![star()], Some(1));
    board(&mut db, "g", "c", vec![fire()], Some(1));
    board(&mut db, "h", "0", vec![star()], Some(1));
    assert_eq!(names(find_min_reactions(&db, "g", &star())), vec!["a", "b"]);

    let mut other = create_db();
    board(&mut other, "h", "0", vec![star()], Some(1));
    board(&mut other, "g", "c", vec![fire()], Some(1));
    board(&mut other, "g", "a", vec![star()], Some(1));
    board(&mut other, "g", "b", vec![star()], Some(9));
    assert_eq!(names(find_min_reactions(&other, "g", &star())), vec!["a", "b"]);
    assert_eq!(names(qualifying_boards(&db, "g", &star(), 9)), vec!["a", "b"]);
    assert_eq!(names(qualifying_boards(&db, "g", &star(), 8)), vec!["a"]);
}
