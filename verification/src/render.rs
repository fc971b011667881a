//! The mirror of a message: a header line and a list of blocks, built from a
//! snapshot of the message alone.

use crate::seqs::views;
use crate::text::{decimal, push_decimal, texts};
use vstd::prelude::*;
use vstd::string::StringExecFns;

verus! {

/// The accent of the block that shows the mirrored message.
pub const PRIMARY_ACCENT: u32 = 0xffe19c;

/// The accent of a block that shows one more attachment.
pub const ATTACHMENT_ACCENT: u32 = 0x1da0f2;

/// The accent of a block that carries an embed of the source through.
pub const EMBED_ACCENT: u32 = 0x6363ff;

/// Who wrote a message.
#[derive(Debug)]
pub struct Author {
    pub id: u64,
    pub name: String,
    /// Where the author's avatar is, if they have one.
    pub avatar_url: Option<String>,
}

/// An author as a mathematical value.
pub struct AuthorView {
    pub id: u64,
    pub name: Seq<char>,
    pub avatar_url: Option<Seq<char>>,
}

impl View for Author {
    type V = AuthorView;

    open spec fn view(&self) -> AuthorView {
        AuthorView {
            id: self.id,
            name: self.name@,
            avatar_url: match self.avatar_url {
                Some(u) => Some(u@),
                None => None,
            },
        }
    }
}

/// What a message shows: the shape shared by a mirrored message and the message
/// it replies to.
#[derive(Debug)]
pub struct Post {
    pub author: Author,
    /// The text of the message.
    pub content: String,
    /// The link back to the message.
    pub link: String,
    /// When the message was sent.
    pub timestamp: String,
    /// Where each attachment is, in the message's order.
    pub attachments: Vec<String>,
    /// How many embeds the message carries.
    pub embeds: usize,
}

/// A post as a mathematical value.
pub struct PostView {
    pub author: AuthorView,
    pub content: Seq<char>,
    pub link: Seq<char>,
    pub timestamp: Seq<char>,
    pub attachments: Seq<Seq<char>>,
    pub embeds: nat,
}

impl View for Post {
    type V = PostView;

    open spec fn view(&self) -> PostView {
        PostView {
            author: self.author@,
            content: self.content@,
            link: self.link@,
            timestamp: self.timestamp@,
            attachments: texts(self.attachments@),
            embeds: self.embeds as nat,
        }
    }
}

/// A message as it was when a reaction to it was processed. The message it
/// replies to, if any, is held one level deep: a reply's own reply is not.
#[derive(Debug)]
pub struct Snapshot {
    pub id: u64,
    pub channel_id: u64,
    pub post: Post,
    pub referenced: Option<Post>,
}

/// A snapshot as a mathematical value.
pub struct SnapshotView {
    pub id: u64,
    pub channel_id: u64,
    pub post: PostView,
    pub referenced: Option<PostView>,
}

impl View for Snapshot {
    type V = SnapshotView;

    open spec fn view(&self) -> SnapshotView {
        SnapshotView {
            id: self.id,
            channel_id: self.channel_id,
            post: self.post@,
            referenced: match self.referenced {
                Some(p) => Some(p@),
                None => None,
            },
        }
    }
}

/// One block of a mirror.
#[derive(Debug)]
pub enum Block {
    /// A message: its author, its text, and its first attachment shown inline.
    Post {
        author_name: String,
        author_url: String,
        author_icon: String,
        description: String,
        timestamp: String,
        image: Option<String>,
        highlight: Option<u32>,
    },
    /// One more attachment of a message.
    Attachment { url: String, accent: u32 },
    /// An embed of the source carried through: embed `index` of the mirrored
    /// message, or of the message it replies to.
    Embed { of_reply: bool, index: usize, accent: u32 },
}

/// A block as a mathematical value.
pub enum BlockView {
    Post {
        author_name: Seq<char>,
        author_url: Seq<char>,
        author_icon: Seq<char>,
        description: Seq<char>,
        timestamp: Seq<char>,
        image: Option<Seq<char>>,
        highlight: Option<u32>,
    },
    Attachment { url: Seq<char>, accent: u32 },
    Embed { of_reply: bool, index: nat, accent: u32 },
}

impl View for Block {
    type V = BlockView;

    open spec fn view(&self) -> BlockView {
        match self {
            Block::Post {
                author_name,
                author_url,
                author_icon,
                description,
                timestamp,
                image,
                highlight,
            } => BlockView::Post {
                author_name: author_name@,
                author_url: author_url@,
                author_icon: author_icon@,
                description: description@,
                timestamp: timestamp@,
                image: match image {
                    Some(u) => Some(u@),
                    None => None,
                },
                highlight: *highlight,
            },
            Block::Attachment { url, accent } => BlockView::Attachment {
                url: url@,
                accent: *accent,
            },
            Block::Embed { of_reply, index, accent } => BlockView::Embed {
                of_reply: *of_reply,
                index: *index as nat,
                accent: *accent,
            },
        }
    }
}

/// A mirror: the message that a board posts for a mirrored message.
#[derive(Debug)]
pub struct MirrorMessage {
    /// The header line.
    pub content: String,
    /// The blocks, in the order they are shown.
    pub embeds: Vec<Block>,
}

/// A mirror as a mathematical value.
pub struct MirrorView {
    pub content: Seq<char>,
    pub embeds: Seq<BlockView>,
}

impl View for MirrorMessage {
    type V = MirrorView;

    open spec fn view(&self) -> MirrorView {
        MirrorView { content: self.content@, embeds: views(self.embeds@) }
    }
}

/// The header line of a mirror: the board's name, the count, the channel of the
/// mirrored message and its author.
pub open spec fn header_of(board_name: Seq<char>, count: nat, channel_id: u64, author_id: u64) -> Seq<
    char,
> {
    board_name + " **| "@ + decimal(count) + " Reactions |** <#"@ + decimal(channel_id as nat)
        + "> **(<@"@ + decimal(author_id as nat) + ">)**"@
}

/// The block that shows a post: the mirrored message under its author's name and
/// the primary accent, the message it replies to under "Replying to" and no
/// accent.
pub open spec fn lead_block(post: PostView, of_reply: bool) -> BlockView {
    BlockView::Post {
        author_name: if of_reply {
            "Replying to "@ + post.author.name
        } else {
            post.author.name
        },
        author_url: post.link,
        author_icon: match post.author.avatar_url {
            Some(u) => u,
            None => Seq::<char>::empty(),
        },
        description: post.content,
        timestamp: post.timestamp,
        image: if post.attachments.len() > 0 {
            Some(post.attachments[0])
        } else {
            None
        },
        highlight: if of_reply {
            None
        } else {
            Some(PRIMARY_ACCENT)
        },
    }
}

/// The blocks of a post: the post itself, then each attachment after the first,
/// then each embed it carries.
pub open spec fn post_blocks(post: PostView, of_reply: bool) -> Seq<BlockView> {
    seq![lead_block(post, of_reply)] + Seq::new(
        if post.attachments.len() > 0 {
            (post.attachments.len() - 1) as nat
        } else {
            0
        },
        |i: int| BlockView::Attachment { url: post.attachments[i + 1], accent: ATTACHMENT_ACCENT },
    ) + Seq::new(
        post.embeds,
        |i: int| BlockView::Embed { of_reply, index: i as nat, accent: EMBED_ACCENT },
    )
}

/// The mirror of `snapshot` on a board named `board_name` at `count` reactions:
/// the header, then the blocks of the message replied to, if any, then those of
/// the message itself.
pub open spec fn mirror_of_snapshot(snapshot: SnapshotView, board_name: Seq<char>, count: nat) -> MirrorView {
    MirrorView {
        content: header_of(board_name, count, snapshot.channel_id, snapshot.post.author.id),
        embeds: (match snapshot.referenced {
            Some(reply) => post_blocks(reply, true),
            None => Seq::<BlockView>::empty(),
        }) + post_blocks(snapshot.post, false),
    }
}

/// The header line of a mirror.
pub fn header(board_name: &str, count: usize, channel_id: u64, author_id: u64) -> (s: String)
    ensures
        s@ == header_of(board_name@, count as nat, channel_id, author_id),
{
    let mut s = String::new();
    s.append(board_name);
    assert(s@ =~= board_name@);
    s.append(" **| ");
    push_decimal(&mut s, count as u64);
    s.append(" Reactions |** <#");
    push_decimal(&mut s, channel_id);
    s.append("> **(<@");
    push_decimal(&mut s, author_id);
    s.append(">)**");
    s
}

/// Appends the blocks of `post` to `out`.
fn push_post_blocks(out: &mut Vec<Block>, post: &Post, of_reply: bool)
    ensures
        views(final(out)@) == views(old(out)@) + post_blocks(post@, of_reply),
{
    let ghost had = views(out@);
    let author_name: String = if of_reply {
        let mut label = String::new();
        label.append("Replying to ");
        assert(label@ =~= "Replying to "@);
        label.append(post.author.name.as_str());
        label
    } else {
        post.author.name.clone()
    };
    let author_icon: String = match &post.author.avatar_url {
        Some(u) => u.clone(),
        None => String::new(),
    };
    let image: Option<String> = if post.attachments.len() > 0 {
        Some(post.attachments[0].clone())
    } else {
        None
    };
    let highlight: Option<u32> = if of_reply {
        None
    } else {
        Some(PRIMARY_ACCENT)
    };
    let lead = Block::Post {
        author_name,
        author_url: post.link.clone(),
        author_icon,
        description: post.content.clone(),
        timestamp: post.timestamp.clone(),
        image,
        highlight,
    };
    assert(post.attachments.len() > 0 ==> post@.attachments[0] == post.attachments@[0]@);
    assert(lead@ == lead_block(post@, of_reply));
    out.push(lead);
    assert(views(out@) =~= had + seq![lead_block(post@, of_reply)]);

    let ghost extra = Seq::new(
        if post@.attachments.len() > 0 {
            (post@.attachments.len() - 1) as nat
        } else {
            0
        },
        |i: int| BlockView::Attachment { url: post@.attachments[i + 1], accent: ATTACHMENT_ACCENT },
    );
    let mut i: usize = 1;
    while i < post.attachments.len()
        invariant
            1 <= i,
            post.attachments.len() > 0 ==> i <= post.attachments.len(),
            post.attachments.len() == 0 ==> i == 1,
            post@.attachments.len() == post.attachments.len(),
            extra == Seq::new(
                if post@.attachments.len() > 0 {
                    (post@.attachments.len() - 1) as nat
                } else {
                    0
                },
                |i: int|
                    BlockView::Attachment {
                        url: post@.attachments[i + 1],
                        accent: ATTACHMENT_ACCENT,
                    },
            ),
            views(out@) == had + seq![lead_block(post@, of_reply)] + extra.take(i - 1),
        decreases post.attachments.len() - i,
    {
        let ghost before = views(out@);
        let block = Block::Attachment {
            url: post.attachments[i].clone(),
            accent: ATTACHMENT_ACCENT,
        };
        assert(post@.attachments[i as int] == post.attachments@[i as int]@);
        assert(block@ == extra[i - 1]);
        out.push(block);
        assert(views(out@) =~= before.push(block@));
        assert(extra.take(i as int) =~= extra.take(i - 1).push(extra[i - 1]));
        i = i + 1;
    }
    assert(extra.take(i - 1) =~= extra);

    let ghost carried = Seq::new(
        post@.embeds,
        |i: int| BlockView::Embed { of_reply, index: i as nat, accent: EMBED_ACCENT },
    );
    let mut k: usize = 0;
    while k < post.embeds
        invariant
            k <= post.embeds,
            carried == Seq::new(
                post@.embeds,
                |i: int| BlockView::Embed { of_reply, index: i as nat, accent: EMBED_ACCENT },
            ),
            views(out@) == had + seq![lead_block(post@, of_reply)] + extra + carried.take(
                k as int,
            ),
        decreases post.embeds - k,
    {
        let ghost before = views(out@);
        let block = Block::Embed { of_reply, index: k, accent: EMBED_ACCENT };
        assert(block@ == carried[k as int]);
        out.push(block);
        assert(views(out@) =~= before.push(block@));
        assert(carried.take(k + 1) =~= carried.take(k as int).push(carried[k as int]));
        k = k + 1;
    }
    assert(carried.take(k as int) =~= carried);
    assert(had + seq![lead_block(post@, of_reply)] + extra + carried =~= had + post_blocks(
        post@,
        of_reply,
    ));
}

/// Builds the mirror of `message` for a board named `board_name`, displaying
/// `count`. The count shown is the one given, and the mirror depends on nothing
/// but the three arguments.
pub fn create_board_message(message: &Snapshot, board_name: &str, count: usize) -> (mirror:
    MirrorMessage)
    ensures
        mirror@ == mirror_of_snapshot(message@, board_name@, count as nat),
{
    let content: String = header(board_name, count, message.channel_id, message.post.author.id);
    let mut embeds: Vec<Block> = Vec::new();
    assert(views(embeds@) =~= Seq::<BlockView>::empty());
    match &message.referenced {
        Some(reply) => {
            push_post_blocks(&mut embeds, reply, true);
            assert(views(embeds@) =~= post_blocks(reply@, true));
        },
        None => {},
    }
    push_post_blocks(&mut embeds, &message.post, false);
    MirrorMessage { content, embeds }
}

/// The mirror of a message is a function of the snapshot, the board's name and
/// the count: equal inputs give the same header and the same blocks.
pub proof fn lemma_rendering_is_deterministic(
    a: SnapshotView,
    a_name: Seq<char>,
    a_count: nat,
    b: SnapshotView,
    b_name: Seq<char>,
    b_count: nat,
)
    requires
        a == b,
        a_name == b_name,
        a_count == b_count,
    ensures
        mirror_of_snapshot(a, a_name, a_count) == mirror_of_snapshot(b, b_name, b_count),
        mirror_of_snapshot(a, a_name, a_count).content == mirror_of_snapshot(
            b,
            b_name,
            b_count,
        ).content,
        mirror_of_snapshot(a, a_name, a_count).embeds == mirror_of_snapshot(
            b,
            b_name,
            b_count,
        ).embeds,
{
}

} // verus!
