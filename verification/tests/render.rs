use starboard::render::{
    create_board_message, header, Author, Block, MirrorMessage, Post, Snapshot, ATTACHMENT_ACCENT,
    EMBED_ACCENT, PRIMARY_ACCENT,
};

fn post(name: &str, attachments: Vec<&str>, embeds: usize) -> Post {
    Post {
        author: Author {
            id: 77,
            name: name.to_string(),
            avatar_url: Some(format!("https://cdn.example/{}.webp", name)),
        },
        content: format!("text of {}", name),
        link: format!("https://discord.com/channels/1/2/{}", name.len()),
        timestamp: "2024-05-01T10:00:00Z".to_string(),
        attachments: attachments.into_iter().map(|a| a.to_string()).collect(),
        embeds,
    }
}

fn shape(mirror: &MirrorMessage) -> Vec<String> {
    mirror.embeds.iter().map(|b| format!("{:?}", b)).collect()
}

#[test]
fn header_holds_name_count_channel_and_author() {
    assert_eq!(header("top", 5, 31, 77), "top **| 5 Reactions |** <#31> **(<@77>)**");
    assert_eq!(header("", 0, 0, 0), " **| 0 Reactions |** <#0> **(<@0>)**");
    assert_eq!(
        header("hall of fame", 1234567, 18446744073709551615, 10),
        "hall of fame **| 1234567 Reactions |** <#18446744073709551615> **(<@10>)**"
    );
}

#[test]
fn a_plain_message_renders_as_one_block() {
    let snap = Snapshot { id: 1, channel_id: 31, post: post("ada", vec![], 0), referenced: None };
    let mirror = create_board_message(&snap, "top", 5);
    assert_eq!(mirror.content, "top **| 5 Reactions |** <#31> **(<@77>)**");
    assert_eq!(mirror.embeds.len(), 1);
    match &mirror.embeds[0] {
        Block::Post {
            author_name,
            author_url,
            author_icon,
            description,
            timestamp,
            image,
            highlight,
        } => {
            assert_eq!(author_name, "ada");
            assert_eq!(author_url, "https://discord.com/channels/1/2/3");
            assert_eq!(author_icon, "https://cdn.example/ada.webp");
            assert_eq!(description, "text of ada");
            assert_eq!(timestamp, "2024-05-01T10:00:00Z");
            assert_eq!(*image, None);
            assert_eq!(*highlight, Some(PRIMARY_ACCENT));
        }
        other => panic!("unexpected {:?}", other),
    }
}

#[test]
fn an_author_without_avatar_gets_an_empty_icon() {
    let mut p = post("ada", vec![], 0);
    p.author.avatar_url = None;
    let snap = Snapshot { id: 1, channel_id: 31, post: p, referenced: None };
    let mirror = create_board_message(&snap, "top", 5);
    match &mirror.embeds[0] {
        Block::Post { author_icon, .. } => assert_eq!(author_icon, ""),
        other => panic!("unexpected {:?}", other),
    }
}

#[test]
fn attachments_and_embeds_follow_the_message() {
    let snap = Snapshot {
        id: 1,
        channel_id: 31,
        post: post("ada", vec!["a.png", "b.png", "c.png"], 2),
        referenced: None,
    };
    let mirror = create_board_message(&snap, "top", 9);
    assert_eq!(mirror.embeds.len(), 5);
    match &mirror.embeds[0] {
        Block::Post { image, .. } => assert_eq!(*image, Some("a.png".to_string())),
        other => panic!("unexpected {:?}", other),
    }
    match &mirror.embeds[1] {
        Block::Attachment { url, accent } => {
            assert_eq!(url, "b.png");
            assert_eq!(*accent, ATTACHMENT_ACCENT);
        }
        other => panic!("unexpected {:?}", other),
    }
    match &mirror.embeds[2] {
        Block::Attachment { url, .. } => assert_eq!(url, "c.png"),
        other => panic!("unexpected {:?}", other),
    }
    match &mirror.embeds[3] {
        Block::Embed { of_reply, index, accent } => {
            assert!(!*of_reply);
            assert_eq!(*index, 0);
            assert_eq!(*accent, EMBED_ACCENT);
        }
        other => panic!("unexpected {:?}", other),
    }
    match &mirror.embeds[4] {
        Block::Embed { of_reply, index, .. } => {
            assert!(!*of_reply);
            assert_eq!(*index, 1);
        }
        other => panic!("unexpected {:?}", other),
    }
}

#[test]
fn the_message_replied_to_comes_first() {
    let snap = Snapshot {
        id: 1,
        channel_id: 31,
        post: post("ada", vec!["a.png"], 1),
        referenced: Some(post("bob", vec!["x.png", "y.png"], 1)),
    };
    let mirror = create_board_message(&snap, "top", 6);
    assert_eq!(mirror.embeds.len(), 5);
    match &mirror.embeds[0] {
        Block::Post { author_name, description, image, highlight, .. } => {
            assert_eq!(author_name, "Replying to bob");
            assert_eq!(description, "text of bob");
            assert_eq!(*image, Some("x.png".to_string()));
            assert_eq!(*highlight, None);
        }
        other => panic!("unexpected {:?}", other),
    }
    assert!(matches!(&mirror.embeds[1], Block::Attachment { url, .. } if url == "y.png"));
    assert!(matches!(&mirror.embeds[2], Block::Embed { of_reply: true, index: 0, .. }));
    match &mirror.embeds[3] {
        Block::Post { author_name, highlight, .. } => {
            assert_eq!(author_name, "ada");
            assert_eq!(*highlight, Some(PRIMARY_ACCENT));
        }
        other => panic!("unexpected {:?}", other),
    }
    assert!(matches!(&mirror.embeds[4], Block::Embed { of_reply: false, index: 0, .. }));
}

#[test]
fn the_accents_are_the_fixed_colours() {
    assert_eq!(PRIMARY_ACCENT, 0xffe19c);
    assert_eq!(ATTACHMENT_ACCENT, 0x1da0f2);
    assert_eq!(EMBED_ACCENT, 0x6363ff);
}

#[test]
fn rendering_twice_gives_the_same_mirror() {
    let snap = Snapshot {
        id: 1,
        channel_id: 31,
        post: post("ada", vec!["a.png", "b.png"], 3),
        referenced: Some(post("bob", vec![], 2)),
    };
    let one = create_board_message(&snap, "top", 6);
    let two = create_board_message(&snap, "top", 6);
    assert_eq!(one.content.as_bytes(), two.content.as_bytes());
    assert_eq!(shape(&one), shape(&two));
}

#[test]
fn the_count_shown_is_the_count_given() {
    let snap = Snapshot { id: 1, channel_id: 31, post: post("ada", vec![], 0), referenced: None };
    for count in [0usize, 1, 9, 10, 99, 100, 4096] {
        let mirror = create_board_message(&snap, "b", count);
        assert_eq!(mirror.content, format!("b **| {} Reactions |** <#31> **(<@77>)**", count));
    }
}
