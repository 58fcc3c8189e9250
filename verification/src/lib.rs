//! Activity ledger and moderation audit store of a chat-platform bot.
//!
//! Three independent repositories over in-memory tables:
//! [`messages::MsgRepo`] records per-message activity events idempotently and
//! answers windowed, scoped aggregate queries; [`flush::FlushRepo`] keeps an
//! auditable ledger of moderation "flush" actions with age-based retention;
//! [`children`] expands a channel into itself plus all of its descendants
//! from a flat snapshot of a guild's channels.

use vstd::prelude::*;

pub mod children;
pub mod error;
pub mod flush;
pub mod messages;
mod seq_facts;

verus! {

/// Process start-up options: where the configuration and the database live.
pub struct Args {
    /// Path to the configuration file.
    pub config: String,
    /// Path to the database file.
    pub db: String,
}

impl Default for Args {
    /// The conventional file names used when no option is given.
    fn default() -> (r: Self)
        ensures
            r.config@ == "config.json"@,
            r.db@ == "sqlite.db"@,
    {
        Args { config: "config.json".to_owned(), db: "sqlite.db".to_owned() }
    }
}

} // verus!
