//! What the bot knows of itself, and the errors of its start-up.

use vstd::prelude::*;

verus! {

/// The bot's own user id and user name.
#[derive(Clone, Debug)]
pub struct BotInfo {
    pub id: i64,
    pub username: String,
}

impl BotInfo {
    pub fn from(id: i64, username: String) -> (r: Self)
        ensures
            r.id == id,
            r.username == username,
    {
        BotInfo { id, username }
    }
}

/// Why the command line was not accepted.
#[derive(Clone, Debug)]
pub enum ConfigError {
    /// The arguments could not be parsed; holds the parser's message.
    ParseError(String),
    /// An argument that no option takes; holds the usage text.
    UnexpectedFragment(String),
    /// Help was asked for; holds the usage text.
    Help(String),
}

/// Why the bot could not start serving.
#[derive(Clone, Copy, Debug, PartialEq, Eq, Structural)]
pub enum ServerError {
    ApiError,
    ProxyError,
    TmpdirError,
    WebhookServerError,
}

} // verus!
