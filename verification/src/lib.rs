//! A message-history store: loading, filtering, paging and summarising
//! chat-history records, with every operation verified against its contract.

pub mod text;
pub mod order;
pub mod calendar;
pub mod models;
pub mod store;
pub mod tally;
pub mod daily;
pub mod handlers;
pub mod laws;

pub use models::{DailyCount, Message, MessagesResponse, ProjectInfo, SessionInfo, Stats};
pub use store::MessageStore;
