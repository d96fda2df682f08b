//! The records the store holds and the answers it gives.

use vstd::prelude::*;

verus! {

/// One record of the history file.
#[derive(Debug, PartialEq, Eq)]
pub struct Message {
    /// The text the user typed.
    pub display: String,
    /// The record's `pastedContents` object, kept as JSON text.
    pub pasted_contents: String,
    /// Milliseconds since the Unix epoch.
    pub timestamp: i64,
    /// Path of the project the message was sent in.
    pub project: String,
    /// Identifier of the session the message belongs to.
    pub session_id: String,
}

impl Message {
    /// A field-by-field copy.
    pub fn duplicate(&self) -> (r: Message)
        ensures
            r == *self,
    {
        Message {
            display: self.display.clone(),
            pasted_contents: self.pasted_contents.clone(),
            timestamp: self.timestamp,
            project: self.project.clone(),
            session_id: self.session_id.clone(),
        }
    }
}

/// One page of the messages that pass a query, with how many pass in all.
#[derive(Debug)]
pub struct MessagesResponse {
    pub total: usize,
    pub messages: Vec<Message>,
}

/// A project and how many messages it holds.
#[derive(Debug, PartialEq, Eq)]
pub struct ProjectInfo {
    pub path: String,
    pub count: usize,
}

/// A session: its project, its earliest timestamp and its message count.
#[derive(Debug, PartialEq, Eq)]
pub struct SessionInfo {
    pub session_id: String,
    pub project: String,
    pub first_ts: i64,
    pub count: usize,
}

/// Summary figures over the whole store.
#[derive(Debug, PartialEq, Eq)]
pub struct Stats {
    pub total_messages: usize,
    pub total_projects: usize,
    pub total_sessions: usize,
    pub earliest_ts: Option<i64>,
    pub latest_ts: Option<i64>,
    /// Message counts per calendar day (`YYYY-MM-DD`), in ascending order of the day's text.
    pub daily_counts: Vec<DailyCount>,
}

/// How many messages fall on one calendar day.
#[derive(Debug, PartialEq, Eq)]
pub struct DailyCount {
    pub date: String,
    pub count: usize,
}

} // verus!
