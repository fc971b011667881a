use serenity::model::channel::ReactionType;
use serenity::model::id::EmojiId;
use starboard::reaction::{
    contains_key, from_csv, join_keys, parse_reaction, parse_reactions, to_csv, ReactionKey,
};

fn forms(keys: &Vec<ReactionKey>) -> Vec<String> {
    keys.iter().map(|k| k.to_string()).collect()
}

fn custom(animated: bool, id: u64, name: Option<&str>) -> ReactionKey {
    ReactionKey::Custom { animated, id, name: name.map(|n| n.to_string()) }
}

#[test]
fn canonical_texts() {
    assert_eq!(ReactionKey::Unicode("⭐".to_string()).to_string(), "⭐");
    assert_eq!(ReactionKey::Unicode("".to_string()).to_string(), "");
    assert_eq!(custom(false, 123, Some("blob")).to_string(), "<:blob:123>");
    assert_eq!(custom(true, 42, Some("party")).to_string(), "<a:party:42>");
    assert_eq!(custom(false, 7, None).to_string(), "<::7>");
    assert_eq!(custom(true, 0, Some("")).to_string(), "<a::0>");
    assert_eq!(
        custom(false, u64::MAX, Some("x")).to_string(),
        "<:x:18446744073709551615>"
    );
}

#[test]
fn canonical_texts_are_those_of_serenity() {
    for (animated, id, name) in [
        (false, 123u64, Some("blob")),
        (true, 600404340292059257, Some("customemoji")),
        (false, 1, None),
        (true, u64::MAX, Some("")),
    ] {
        let theirs = ReactionType::Custom {
            animated,
            id: EmojiId::new(id),
            name: name.map(|n| n.to_string()),
        };
        assert_eq!(custom(animated, id, name).to_string(), theirs.to_string());
    }
    let emoji = ReactionType::Unicode("🍎".to_string());
    assert_eq!(ReactionKey::Unicode("🍎".to_string()).to_string(), emoji.to_string());
}

#[test]
fn keys_are_the_same_when_their_texts_are() {
    let a = custom(false, 5, None);
    let b = custom(false, 5, Some(""));
    let c = ReactionKey::Unicode("<::5>".to_string());
    assert!(a.same_as(&b));
    assert!(a.same_as(&c));
    assert!(!a.same_as(&custom(true, 5, None)));
    assert!(!a.same_as(&custom(false, 6, None)));
    assert!(ReactionKey::Unicode("⭐".into()).same_as(&ReactionKey::Unicode("⭐".into())));
    assert!(!ReactionKey::Unicode("⭐".into()).same_as(&ReactionKey::Unicode("🔥".into())));
}

#[test]
fn a_text_is_read_as_a_key() {
    assert!(parse_reaction("").is_none());
    match parse_reaction("⭐") {
        Some(ReactionKey::Unicode(emoji)) => assert_eq!(emoji, "⭐"),
        other => panic!("unexpected {:?}", other),
    }
    match parse_reaction("plain words") {
        Some(ReactionKey::Unicode(emoji)) => assert_eq!(emoji, "plain words"),
        other => panic!("unexpected {:?}", other),
    }
    match parse_reaction("<:blob:123>") {
        Some(ReactionKey::Custom { animated, id, name }) => {
            assert!(!animated);
            assert_eq!(id, 123);
            assert_eq!(name, Some("blob".to_string()));
        }
        other => panic!("unexpected {:?}", other),
    }
    match parse_reaction("<a:party:600404340292059257>") {
        Some(ReactionKey::Custom { animated, id, name }) => {
            assert!(animated);
            assert_eq!(id, 600404340292059257);
            assert_eq!(name, Some("party".to_string()));
        }
        other => panic!("unexpected {:?}", other),
    }
    for bad in ["<", "<>", "<:blob:123", "<:blob:>", "<:blob:abc>", "<:blob:0>", "<blob>"] {
        assert!(parse_reaction(bad).is_none(), "for {:?}", bad);
    }
}

#[test]
fn a_text_is_read_as_serenity_reads_it() {
    for text in [
        "", "⭐", "a", "<:blob:123>", "<a:party:42>", "<:x:1", "<<:x:1>>", "<:x:0>", "<b:x:7>",
        "<:only>", "< :x:1>", "<:x:+5>",
    ] {
        let ours = parse_reaction(text).map(|k| k.to_string());
        let theirs = ReactionType::try_from(text).ok().map(|r| r.to_string());
        assert_eq!(ours, theirs, "for {:?}", text);
    }
}

#[test]
fn parses_single_words() {
    let keys = parse_reactions("🔥 ⭐ 🔥".to_string());
    assert_eq!(forms(&keys), vec!["⭐".to_string(), "🔥".to_string()]);
    assert!(parse_reactions("".to_string()).is_empty());
    assert!(parse_reactions(" \t\n".to_string()).is_empty());
}

#[test]
fn parses_custom_emoji_wherever_they_stand() {
    let keys = parse_reactions("<:blob:123>".to_string());
    assert_eq!(forms(&keys), vec!["<:blob:123>".to_string()]);
    let glued = parse_reactions("<:a:1><:b:2>".to_string());
    assert_eq!(forms(&glued), vec!["<:a:1>", "<:b:2>"]);
    let spaced = parse_reactions("<:a:1>   <a:b:2>  ".to_string());
    assert_eq!(forms(&spaced), vec!["<:a:1>", "<a:b:2>"]);
}

#[test]
fn what_stands_before_a_bracket_is_taken_along() {
    // The words are looked for first, then everything up to each `>`.
    let keys = parse_reactions("⭐ <:blob:123>".to_string());
    assert_eq!(forms(&keys), vec!["<:blob:123>", "⭐", "⭐ <:blob:123>"]);
}

#[test]
fn the_catalog_is_sorted_and_without_duplicates() {
    let keys = parse_reactions("z b a b z a m".to_string());
    assert_eq!(forms(&keys), vec!["a", "b", "m", "z"]);
}

#[test]
fn csv_round_trip() {
    let keys = vec![custom(true, 42, Some("party")), ReactionKey::Unicode("⭐".to_string())];
    let csv = to_csv(keys);
    assert_eq!(csv, "<a:party:42>,⭐");
    let back = from_csv(csv);
    assert_eq!(forms(&back), vec!["<a:party:42>".to_string(), "⭐".to_string()]);
    assert_eq!(to_csv(vec![]), "");
    assert!(from_csv("".to_string()).is_empty());
    assert_eq!(forms(&from_csv(",⭐,,<:x:1,🔥,".to_string())), vec!["⭐", "🔥"]);
}

#[test]
fn keys_are_joined_by_their_texts() {
    let keys = vec![ReactionKey::Unicode("⭐".to_string()), custom(false, 1, Some("x"))];
    assert_eq!(join_keys(&keys, " "), "⭐ <:x:1>");
    assert_eq!(join_keys(&keys, ""), "⭐<:x:1>");
    assert_eq!(join_keys(&vec![], " "), "");
}

#[test]
fn a_key_is_found_by_its_text() {
    let among = from_csv("⭐,<:blob:123>".to_string());
    assert!(contains_key(&among, &ReactionKey::Unicode("⭐".to_string())));
    assert!(contains_key(&among, &custom(false, 123, Some("blob"))));
    assert!(!contains_key(&among, &custom(true, 123, Some("blob"))));
    assert!(!contains_key(&among, &ReactionKey::Unicode("blob".to_string())));
    assert!(!contains_key(&vec![], &ReactionKey::Unicode("⭐".to_string())));
}
