//! The answers of the viewer's four API endpoints, given the parsed query
//! parameters.

use vstd::prelude::*;
use crate::models::{MessagesResponse, ProjectInfo, SessionInfo, Stats};
use crate::store::{MessageStore, is_project_listing, is_session_listing, is_stats_of, page, query_matches, scoped};
use crate::text::{as_text, string_opt};

verus! {

/// The largest page the messages endpoint hands out.
pub const MAX_LIMIT: usize = 500;

/// Parameters of the messages endpoint.
pub struct MessagesQuery {
    pub project: Option<String>,
    pub session: Option<String>,
    pub q: Option<String>,
    pub from: Option<i64>,
    pub to: Option<i64>,
    pub offset: usize,
    pub limit: usize,
}

/// Parameters of the sessions endpoint.
pub struct SessionsQuery {
    pub project: Option<String>,
}

/// The offset used when none is given.
pub fn default_offset() -> (r: usize)
    ensures
        r == 0,
{
    0
}

/// The page size used when none is given.
pub fn default_limit() -> (r: usize)
    ensures
        r == 100,
{
    100
}

/// The page size actually served: the requested one, capped at
/// `MAX_LIMIT`.
pub open spec fn served_limit(limit: usize) -> usize {
    if limit <= MAX_LIMIT {
        limit
    } else {
        MAX_LIMIT
    }
}

/// The messages endpoint: the store's answer to the query, with the page
/// size capped at `MAX_LIMIT`.
pub fn get_messages(store: &MessageStore, q: &MessagesQuery) -> (resp: MessagesResponse)
    ensures
        resp.total == query_matches(store@, string_opt(q.project), string_opt(q.session), string_opt(q.q), q.from, q.to).len(),
        resp.messages@ == page(
            query_matches(store@, string_opt(q.project), string_opt(q.session), string_opt(q.q), q.from, q.to),
            q.offset as int,
            served_limit(q.limit) as int,
        ),
        resp.messages.len() <= MAX_LIMIT,
        q.limit <= MAX_LIMIT ==> resp.messages@ == page(
            query_matches(store@, string_opt(q.project), string_opt(q.session), string_opt(q.q), q.from, q.to),
            q.offset as int,
            q.limit as int,
        ),
        q.limit > MAX_LIMIT ==> resp.messages@ == page(
            query_matches(store@, string_opt(q.project), string_opt(q.session), string_opt(q.q), q.from, q.to),
            q.offset as int,
            MAX_LIMIT as int,
        ),
{
    proof {
        crate::laws::law_page_length(
            query_matches(store@, string_opt(q.project), string_opt(q.session), string_opt(q.q), q.from, q.to),
            q.offset as int,
            served_limit(q.limit) as int,
        );
    }
    let limit = if q.limit <= MAX_LIMIT { q.limit } else { MAX_LIMIT };
    store.query_messages(
        as_text(&q.project),
        as_text(&q.session),
        as_text(&q.q),
        q.from,
        q.to,
        q.offset,
        limit,
    )
}

/// The projects endpoint.
pub fn get_projects(store: &MessageStore) -> (r: Vec<ProjectInfo>)
    ensures
        is_project_listing(store@, r@),
{
    store.projects()
}

/// The sessions endpoint.
pub fn get_sessions(store: &MessageStore, q: &SessionsQuery) -> (r: Vec<SessionInfo>)
    ensures
        is_session_listing(scoped(store@, string_opt(q.project)), r@),
{
    store.sessions(as_text(&q.project))
}

/// The stats endpoint.
pub fn get_stats(store: &MessageStore) -> (st: Stats)
    ensures
        is_stats_of(store@, st),
{
    store.stats()
}

} // verus!
