use starboard::commands::{
    addboard, autocomplete_board_names, button_ids, create_leaderboard_pages, deleteboard,
    leaderboard, moststarred, options_to_edit, press_of, random, random_at, run, show_leaderboard,
    showboard, sort_by_count, turn_page, CommandOption, Lookup, OptionValue, Press, Reply,
};
use starboard::db::{
    add_board, add_message, board_rows, create_db, get_board, message_rows, Database,
};
use starboard::reaction::ReactionKey;

fn star() -> ReactionKey {
    ReactionKey::Unicode("⭐".to_string())
}

fn sample() -> Database {
    let mut db = create_db();
    for (guild, name, channel) in [("g1", "top", "555"), ("g1", "hot", "556"), ("g2", "top", "x")] {
        let keys = vec![star(), ReactionKey::Custom { animated: true, id: 9, name: None }];
        let added =
            add_board(&mut db, guild.to_string(), name.to_string(), keys, Some(3), channel.into());
        assert_eq!(added, Ok(()));
    }
    for (guild, name, user, source, dest, count) in [
        ("g1", "top", "10", "100", "9100", 7),
        ("g1", "hot", "11", "100", "9200", 9),
        ("g1", "top", "10", "101", "9101", 9),
        ("g1", "top", "11", "102", "9102", 9),
        ("g1", "top", "12", "103", "9103", 2),
        ("g2", "top", "12", "100", "9300", 1),
    ] {
        let added =
            add_message(&mut db, guild, name, user.into(), source.into(), dest.into(), count);
        assert_eq!(added, Ok(()));
    }
    db
}

fn said(lookup: Lookup) -> String {
    match lookup {
        Lookup::Say(text) => text,
        other => panic!("unexpected {:?}", other),
    }
}

fn fetched(lookup: Lookup) -> (u64, u64) {
    match lookup {
        Lookup::Fetch { channel_id, message_id } => (channel_id, message_id),
        other => panic!("unexpected {:?}", other),
    }
}

fn option(name: &str, value: OptionValue) -> CommandOption {
    CommandOption { name: name.to_string(), value }
}

#[test]
fn a_leaderboard_page_lists_ranks_and_numbers_the_page() {
    let pages = create_leaderboard_pages(&vec![(10, 12), (11, 6)]);
    assert_eq!(
        pages,
        vec!["**#1** <@10> • 12 reactions\n**#2** <@11> • 6 reactions\n\n*Page 1 of 1*"]
    );
    let none: Vec<String> = create_leaderboard_pages(&vec![]);
    assert!(none.is_empty());
}

#[test]
fn a_leaderboard_breaks_after_ten_entries() {
    let data: Vec<(u64, u64)> = (1..=21u64).map(|k| (k, 100 - k)).collect();
    let pages = create_leaderboard_pages(&data);
    assert_eq!(pages.len(), 3);
    assert!(pages[0].starts_with("**#1** <@1> • 99 reactions\n"));
    assert!(pages[0].ends_with("**#10** <@10> • 90 reactions\n\n*Page 1 of 3*"));
    assert!(pages[1].starts_with("**#11** <@11> • 89 reactions\n"));
    assert!(pages[1].ends_with("\n*Page 2 of 3*"));
    assert_eq!(pages[2], "**#21** <@21> • 79 reactions\n\n*Page 3 of 3*");
    assert_eq!(pages[0].lines().count(), 12);

    let ten: Vec<(u64, u64)> = (1..=10u64).map(|k| (k, k)).collect();
    assert_eq!(create_leaderboard_pages(&ten).len(), 1);
    let eleven: Vec<(u64, u64)> = (1..=11u64).map(|k| (k, k)).collect();
    assert_eq!(create_leaderboard_pages(&eleven).len(), 2);
}

#[test]
fn totals_are_ranked_by_count_and_ties_keep_their_order() {
    let data = vec![(1, 5), (2, 9), (3, 5), (4, 9), (5, 1), (6, 9)];
    assert_eq!(
        sort_by_count(&data),
        vec![(2, 9), (4, 9), (6, 9), (1, 5), (3, 5), (5, 1)]
    );
    let mut std_sorted = data.clone();
    std_sorted.sort_by(|a, b| b.1.cmp(&a.1));
    assert_eq!(sort_by_count(&data), std_sorted);
    assert!(sort_by_count(&vec![]).is_empty());
}

#[test]
fn the_leaderboard_says_when_there_is_nothing() {
    match show_leaderboard(&vec![], Some("top")) {
        Reply::Say(text) => assert_eq!(text, "No data found for board 'top'"),
        other => panic!("unexpected {:?}", other),
    }
    match show_leaderboard(&vec![], None) {
        Reply::Say(text) => assert_eq!(text, "No leaderboard data found for this server"),
        other => panic!("unexpected {:?}", other),
    }
}

#[test]
fn the_leaderboard_of_a_board_is_one_page() {
    let db = sample();
    match leaderboard(&db, "g1", Some("top")) {
        Reply::Page { title, description } => {
            assert_eq!(title, "top Leaderboard");
            assert_eq!(
                description,
                "**#1** <@10> • 16 reactions\n**#2** <@11> • 9 reactions\n**#3** <@12> • 2 reactions\n\n*Page 1 of 1*"
            );
        }
        other => panic!("unexpected {:?}", other),
    }
    match leaderboard(&db, "g2", None) {
        Reply::Page { title, description } => {
            assert_eq!(title, "Server Leaderboard");
            assert_eq!(description, "**#1** <@12> • 1 reactions\n\n*Page 1 of 1*");
        }
        other => panic!("unexpected {:?}", other),
    }
    assert!(matches!(leaderboard(&db, "g1", Some("nope")), Reply::Say(_)));
}

#[test]
fn a_long_leaderboard_is_leafed_through() {
    let data: Vec<(u64, u64)> = (1..=12u64).map(|k| (k, k)).collect();
    match show_leaderboard(&data, None) {
        Reply::Pages { title, pages } => {
            assert_eq!(title, "Server Leaderboard");
            assert_eq!(pages.len(), 2);
            assert!(pages[0].starts_with("**#1** <@12> • 12 reactions\n"));
            assert_eq!(pages[1], "**#11** <@2> • 2 reactions\n**#12** <@1> • 1 reactions\n\n*Page 2 of 2*");
        }
        other => panic!("unexpected {:?}", other),
    }
}

#[test]
fn pages_turn_round_at_both_ends() {
    assert_eq!(turn_page(0, 3, Press::Next), 1);
    assert_eq!(turn_page(1, 3, Press::Next), 2);
    assert_eq!(turn_page(2, 3, Press::Next), 0);
    assert_eq!(turn_page(0, 3, Press::Previous), 2);
    assert_eq!(turn_page(2, 3, Press::Previous), 1);
    assert_eq!(turn_page(0, 1, Press::Next), 0);
    assert_eq!(turn_page(0, 1, Press::Previous), 0);
    assert_eq!(turn_page(7, 3, Press::Next), 2);
    assert_eq!(turn_page(7, 3, Press::Previous), 6);
    assert_eq!(turn_page(usize::MAX, 3, Press::Next), ((usize::MAX as u128 + 1) % 3) as usize);
}

#[test]
fn buttons_are_told_apart_by_their_identifier() {
    assert_eq!(button_ids(42), ("42prev".to_string(), "42next".to_string()));
    assert_eq!(press_of("42next", 42), Some(Press::Next));
    assert_eq!(press_of("42prev", 42), Some(Press::Previous));
    assert_eq!(press_of("43next", 42), None);
    assert_eq!(press_of("42", 42), None);
    assert_eq!(press_of("", 42), None);
}

#[test]
fn the_most_starred_is_the_last_of_the_greatest() {
    let db = sample();
    assert_eq!(fetched(moststarred(&db, "g1", Some("top"))), (555, 9102));
    assert_eq!(fetched(moststarred(&db, "g1", Some("hot"))), (556, 9200));
    assert_eq!(fetched(moststarred(&db, "g1", None)), (555, 9102));
    assert_eq!(
        said(moststarred(&db, "g1", Some("nope"))),
        "Error fetching message data: Query returned no rows"
    );
    assert_eq!(said(moststarred(&db, "g3", None)), "No maximum found");
    // The board of guild g2 names no channel.
    assert!(matches!(moststarred(&db, "g2", None), Lookup::Unreadable));
}

#[test]
fn a_random_mirror_is_one_of_the_records() {
    let db = sample();
    for _ in 0..50 {
        let (channel, message) = fetched(random(&db, "g1", Some("top")));
        assert_eq!(channel, 555);
        assert!([9100, 9101, 9102, 9103].contains(&message));
    }
    assert_eq!(fetched(random(&db, "g1", Some("hot"))), (556, 9200));
    assert!(matches!(random(&db, "g3", None), Lookup::Empty));
    assert_eq!(
        said(random(&db, "g1", Some("nope"))),
        "Error fetching message data: Query returned no rows"
    );
}

#[test]
fn a_drawn_index_picks_its_record() {
    let db = sample();
    assert_eq!(fetched(random_at(&db, "g1", Some("top"), 0)), (555, 9100));
    assert_eq!(fetched(random_at(&db, "g1", Some("top"), 3)), (555, 9103));
    assert!(matches!(random_at(&db, "g1", Some("top"), 4), Lookup::Empty));
    assert_eq!(fetched(random_at(&db, "g1", None, 1)), (556, 9200));
}

#[test]
fn showboard_describes_one_board() {
    let db = sample();
    assert_eq!(
        showboard(&db, "g1", Some("top")),
        "**Board: top**\n**Destination:** <#555>\n**Reactions:** ⭐ <a::9>\n**Min Reactions:** 3"
    );
    assert_eq!(showboard(&db, "g1", Some("nope")), "Board 'nope' not found!");
}

#[test]
fn showboard_lists_the_boards_of_a_guild() {
    let db = sample();
    assert_eq!(
        showboard(&db, "g1", None),
        "**Server Boards:**\n\n**top** â†’ <#555> (3+ reactions: ⭐ <a::9>)\n**hot** â†’ <#556> (3+ reactions: ⭐ <a::9>)\n"
    );
    assert_eq!(showboard(&db, "g3", None), "No boards found in this server!");
}

#[test]
fn board_names_are_completed_by_prefix() {
    let db = sample();
    assert_eq!(autocomplete_board_names(&db, "g1", ""), vec!["top", "hot"]);
    assert_eq!(autocomplete_board_names(&db, "g1", "t"), vec!["top"]);
    assert_eq!(autocomplete_board_names(&db, "g1", "ho"), vec!["hot"]);
    assert!(autocomplete_board_names(&db, "g1", "x").is_empty());
    assert!(autocomplete_board_names(&db, "g1", "topp").is_empty());
}

#[test]
fn deleteboard_deletes_and_says_so() {
    let mut db = sample();
    assert_eq!(deleteboard(&mut db, "g1", "top"), "Board 'top' deleted successfully!");
    assert_eq!(board_rows(&db).len(), 2);
    assert_eq!(message_rows(&db).len(), 2);
    assert_eq!(deleteboard(&mut db, "g1", "top"), "Board 'top' deleted successfully!");
    assert_eq!(board_rows(&db).len(), 2);
}

#[test]
fn addboard_adds_and_says_so() {
    let mut db = create_db();
    assert_eq!(
        addboard(&mut db, "g1", "top", 555, "⭐ 🔥".to_string(), Some(4)),
        "Board 'top' created successfully! Messages with 4 or more reactions will be posted to <#555>"
    );
    let b = get_board(&db, "g1", "top").unwrap();
    assert_eq!(b.reactions, "⭐,🔥");
    assert_eq!(b.min_reactions, 4);
    assert_eq!(b.dest_channel, "555");
    assert_eq!(
        addboard(&mut db, "g1", "def", 556, "⭐".to_string(), None),
        "Board 'def' created successfully! Messages with 5 or more reactions will be posted to <#556>"
    );
    assert_eq!(get_board(&db, "g1", "def").unwrap().min_reactions, 5);
}

#[test]
fn addboard_refuses_what_cannot_be() {
    let mut db = create_db();
    assert_eq!(
        addboard(&mut db, "g1", "top", 555, "   ".to_string(), Some(4)),
        "No valid reactions provided. Please provide valid Unicode emojis or custom emojis in the format <:name:id>"
    );
    assert!(board_rows(&db).is_empty());
    addboard(&mut db, "g1", "top", 555, "⭐".to_string(), None);
    assert_eq!(
        addboard(&mut db, "g1", "top", 556, "🔥".to_string(), None),
        "Failed to create board: The server already has a board of this name"
    );
    assert_eq!(
        addboard(&mut db, "g1", "big", 556, "🔥".to_string(), Some(i64::MAX)),
        "Failed to create board: The threshold is out of range"
    );
    assert_eq!(board_rows(&db).len(), 1);
}

#[test]
fn edit_options_are_read_in_order() {
    let edit = options_to_edit(&vec![
        option("name", OptionValue::Text("top".to_string())),
        option("min-reactions", OptionValue::Integer(7)),
        option("dest-channel", OptionValue::Channel(777)),
        option("new-name", OptionValue::Text("best".to_string())),
        option("reactions", OptionValue::Text("🔥".to_string())),
        option("min-reactions", OptionValue::Integer(8)),
    ])
    .unwrap();
    assert_eq!(edit.name, "top");
    assert_eq!(edit.new_name, Some("best".to_string()));
    assert_eq!(edit.reactions, Some("🔥".to_string()));
    assert_eq!(edit.min_reactions, Some(8));
    assert_eq!(edit.dest_channel, Some("777".to_string()));

    let none = options_to_edit(&vec![]).unwrap();
    assert_eq!(none.name, "");
    assert_eq!(none.new_name, None);
}

#[test]
fn an_option_that_cannot_be_read_is_named() {
    let cases = [
        (option("name", OptionValue::Integer(1)), "Invalid value for name"),
        (option("new-name", OptionValue::Other), "Invalid value for new-name"),
        (option("min-reactions", OptionValue::Text("5".into())), "Invalid value for min-reactions"),
        (option("dest-channel", OptionValue::Integer(5)), "Invalid value for dest-channel"),
        (option("reactions", OptionValue::Channel(5)), "Invalid value for reactions"),
        (option("colour", OptionValue::Text("red".into())), "Invalid option"),
    ];
    for (bad, text) in cases {
        let options = vec![option("name", OptionValue::Text("top".into())), bad];
        assert_eq!(options_to_edit(&options).err(), Some(text.to_string()));
        let mut db = sample();
        assert_eq!(run(&mut db, "g1", &options), text);
        assert_eq!(get_board(&db, "g1", "top").unwrap().min_reactions, 3);
    }
    // The first option that cannot be read is the one reported.
    let two = vec![
        option("colour", OptionValue::Other),
        option("name", OptionValue::Integer(1)),
    ];
    assert_eq!(options_to_edit(&two).err(), Some("Invalid option".to_string()));
}

#[test]
fn run_edits_the_board_named() {
    let mut db = sample();
    let options = vec![
        option("name", OptionValue::Text("hot".to_string())),
        option("new-name", OptionValue::Text("warm".to_string())),
        option("reactions", OptionValue::Text("🔥 <:blob:5>".to_string())),
        option("min-reactions", OptionValue::Integer(2)),
        option("dest-channel", OptionValue::Channel(888)),
    ];
    assert_eq!(run(&mut db, "g1", &options), "Board edited successfully");
    let b = get_board(&db, "g1", "warm").unwrap();
    assert_eq!(b.min_reactions, 2);
    assert_eq!(b.dest_channel, "888");
    assert_eq!(b.reactions, "<:blob:5>,🔥,🔥 <:blob:5>");

    let clash = vec![
        option("name", OptionValue::Text("warm".to_string())),
        option("new-name", OptionValue::Text("top".to_string())),
    ];
    assert_eq!(
        run(&mut db, "g1", &clash),
        "Failed to edit board: The server already has a board of this name"
    );
    let absent = vec![option("name", OptionValue::Text("nope".to_string()))];
    assert_eq!(run(&mut db, "g1", &absent), "Board edited successfully");
}
