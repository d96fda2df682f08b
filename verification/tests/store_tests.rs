use cc_msg_viewer::models::Message;
use cc_msg_viewer::store::MessageStore;

fn msg(display: &str, ts: i64, project: &str, session: &str) -> Message {
    Message {
        display: display.to_string(),
        pasted_contents: "{}".to_string(),
        timestamp: ts,
        project: project.to_string(),
        session_id: session.to_string(),
    }
}

fn make_store(entries: Vec<Option<Message>>) -> MessageStore {
    MessageStore::from_parsed(entries)
}

#[test]
fn test_load_skips_bad_lines() {
    // The middle line of the history file ("not valid json") did not parse.
    let store = make_store(vec![
        Some(msg("hello", 1000, "/p/a", "s1")),
        None,
        Some(msg("world", 2000, "/p/b", "s2")),
    ]);
    let resp = store.query_messages(None, None, None, None, None, 0, 100);
    assert_eq!(resp.messages.len(), 2);
}

#[test]
fn test_query_all() {
    let store = make_store(vec![
        Some(msg("hello", 1000, "/p/a", "s1")),
        Some(msg("world", 2000, "/p/b", "s2")),
    ]);
    let resp = store.query_messages(None, None, None, None, None, 0, 100);
    assert_eq!(resp.total, 2);
    assert_eq!(resp.messages.len(), 2);
}

#[test]
fn test_query_filter_project() {
    let store = make_store(vec![
        Some(msg("hello", 1000, "/p/a", "s1")),
        Some(msg("world", 2000, "/p/b", "s2")),
    ]);
    let resp = store.query_messages(Some("/p/a"), None, None, None, None, 0, 100);
    assert_eq!(resp.total, 1);
    assert_eq!(resp.messages[0].project, "/p/a");
}

#[test]
fn test_query_search() {
    let store = make_store(vec![
        Some(msg("hello world", 1000, "/p/a", "s1")),
        Some(msg("goodbye", 2000, "/p/a", "s1")),
    ]);
    let resp = store.query_messages(None, None, Some("hello"), None, None, 0, 100);
    assert_eq!(resp.total, 1);
}

#[test]
fn test_query_time_range() {
    let store = make_store(vec![
        Some(msg("a", 1000, "/p", "s1")),
        Some(msg("b", 2000, "/p", "s1")),
        Some(msg("c", 3000, "/p", "s1")),
    ]);
    let resp = store.query_messages(None, None, None, Some(1500), Some(2500), 0, 100);
    assert_eq!(resp.total, 1);
    assert_eq!(resp.messages[0].display, "b");
}

#[test]
fn test_query_pagination() {
    let store = make_store(vec![
        Some(msg("a", 3000, "/p", "s1")),
        Some(msg("b", 2000, "/p", "s1")),
        Some(msg("c", 1000, "/p", "s1")),
    ]);
    let resp = store.query_messages(None, None, None, None, None, 1, 1);
    assert_eq!(resp.total, 3);
    assert_eq!(resp.messages.len(), 1);
    assert_eq!(resp.messages[0].display, "b");
}

#[test]
fn test_projects() {
    let store = make_store(vec![
        Some(msg("a", 1000, "/p/a", "s1")),
        Some(msg("b", 2000, "/p/a", "s1")),
        Some(msg("c", 3000, "/p/b", "s2")),
    ]);
    let projects = store.projects();
    assert_eq!(projects.len(), 2);
    assert_eq!(projects[0].path, "/p/a");
    assert_eq!(projects[0].count, 2);
}

#[test]
fn test_sessions() {
    let store = make_store(vec![
        Some(msg("a", 1000, "/p/a", "s1")),
        Some(msg("b", 2000, "/p/a", "s1")),
        Some(msg("c", 3000, "/p/b", "s2")),
    ]);
    let sessions = store.sessions(None);
    assert_eq!(sessions.len(), 2);
    let s2 = sessions.iter().find(|s| s.session_id == "s2").unwrap();
    assert_eq!(s2.count, 1);
}

#[test]
fn test_sessions_filter_project() {
    let store = make_store(vec![
        Some(msg("a", 1000, "/p/a", "s1")),
        Some(msg("c", 3000, "/p/b", "s2")),
    ]);
    let sessions = store.sessions(Some("/p/a"));
    assert_eq!(sessions.len(), 1);
    assert_eq!(sessions[0].session_id, "s1");
}

#[test]
fn test_stats() {
    let store = make_store(vec![
        Some(msg("a", 1000, "/p/a", "s1")),
        Some(msg("b", 2000, "/p/b", "s2")),
    ]);
    let stats = store.stats();
    assert_eq!(stats.total_messages, 2);
    assert_eq!(stats.total_projects, 2);
    assert_eq!(stats.total_sessions, 2);
    assert_eq!(stats.earliest_ts, Some(1000));
    assert_eq!(stats.latest_ts, Some(2000));
}

#[test]
fn test_empty_store() {
    let store = make_store(vec![]);
    let stats = store.stats();
    assert_eq!(stats.total_messages, 0);
    assert!(stats.earliest_ts.is_none());
}
