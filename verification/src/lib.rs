//! A starboard engine: when a message gathers enough reactions of a configured
//! kind it is mirrored into a board's channel, and the mirror's displayed count
//! is kept in step with later reactions.
//!
//! The crate holds the decisions and the data they are taken on; fetching
//! messages, posting mirrors and persisting tables are left to the caller.

pub mod commands;
pub mod db;
pub mod event;
pub mod reaction;
pub mod render;
pub mod seqs;
pub mod sync;
pub mod text;

pub use render::create_board_message;

use vstd::prelude::*;

verus! {

/// The state shared by every handler of the bot: the tables.
pub struct Data {
    pub db: db::Database,
}

} // verus!
