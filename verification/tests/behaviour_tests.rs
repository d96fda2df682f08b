use cc_msg_viewer::calendar::day_label_of;
use cc_msg_viewer::daily::{string_less, tally_days};
use cc_msg_viewer::handlers::{
    default_limit, default_offset, get_messages, get_projects, get_sessions, get_stats,
    MessagesQuery, SessionsQuery, MAX_LIMIT,
};
use cc_msg_viewer::models::Message;
use cc_msg_viewer::order::descending_order;
use cc_msg_viewer::store::{MessageStore, MAX_MESSAGES};
use cc_msg_viewer::text::{chars_of, contains_substring};

fn msg(display: &str, ts: i64, project: &str, session: &str) -> Message {
    Message {
        display: display.to_string(),
        pasted_contents: "{}".to_string(),
        timestamp: ts,
        project: project.to_string(),
        session_id: session.to_string(),
    }
}

fn store_of(msgs: Vec<Message>) -> MessageStore {
    MessageStore::from_parsed(msgs.into_iter().map(Some).collect())
}

fn all(store: &MessageStore) -> Vec<Message> {
    store.query_messages(None, None, None, None, None, 0, usize::MAX).messages
}

#[test]
fn load_orders_newest_first_and_keeps_ties_in_file_order() {
    let store = store_of(vec![
        msg("a", 1000, "/p", "s"),
        msg("b", 3000, "/p", "s"),
        msg("c", 2000, "/p", "s"),
        msg("d", 3000, "/p", "s"),
    ]);
    let shown: Vec<String> = all(&store).into_iter().map(|m| m.display).collect();
    assert_eq!(shown, vec!["b", "d", "c", "a"]);
}

#[test]
fn load_keeps_only_the_newest_messages() {
    let n = MAX_MESSAGES as i64 + 1;
    let msgs: Vec<Message> = (0..n).map(|i| msg("x", i, "/p", "s")).collect();
    let store = store_of(msgs);
    let kept = all(&store);
    assert_eq!(kept.len(), MAX_MESSAGES);
    assert_eq!(kept[0].timestamp, n - 1);
    assert_eq!(kept[kept.len() - 1].timestamp, 1);
    assert!(kept.iter().all(|m| m.timestamp != 0));
}

#[test]
fn search_ignores_case_on_both_sides() {
    let store = store_of(vec![msg("Hello World", 1000, "/p", "s"), msg("bye", 2000, "/p", "s")]);
    assert_eq!(store.query_messages(None, None, Some("WORLD"), None, None, 0, 10).total, 1);
    assert_eq!(store.query_messages(None, None, Some("o w"), None, None, 0, 10).total, 1);
    assert_eq!(store.query_messages(None, None, Some("planet"), None, None, 0, 10).total, 0);
    assert_eq!(store.query_messages(None, None, Some(""), None, None, 0, 10).total, 2);
}

#[test]
fn time_range_bounds_are_inclusive() {
    let store = store_of(vec![msg("a", 1000, "/p", "s"), msg("b", 2000, "/p", "s"), msg("c", 3000, "/p", "s")]);
    let resp = store.query_messages(None, None, None, Some(1000), Some(2000), 0, 10);
    assert_eq!(resp.total, 2);
    assert_eq!(resp.messages[0].display, "b");
    assert_eq!(resp.messages[1].display, "a");
}

#[test]
fn filters_combine() {
    let store = store_of(vec![
        msg("fix bug", 1000, "/p/a", "s1"),
        msg("fix docs", 2000, "/p/a", "s2"),
        msg("fix bug", 3000, "/p/b", "s3"),
    ]);
    let resp = store.query_messages(Some("/p/a"), Some("s1"), Some("BUG"), None, None, 0, 10);
    assert_eq!(resp.total, 1);
    assert_eq!(resp.messages[0].session_id, "s1");
    let none = store.query_messages(Some("/p/c"), None, None, None, None, 0, 10);
    assert_eq!(none.total, 0);
    assert!(none.messages.is_empty());
}

#[test]
fn pages_past_the_end_are_empty() {
    let store = store_of(vec![msg("a", 1, "/p", "s"), msg("b", 2, "/p", "s"), msg("c", 3, "/p", "s")]);
    let resp = store.query_messages(None, None, None, None, None, 5, 10);
    assert_eq!(resp.total, 3);
    assert!(resp.messages.is_empty());
    let zero = store.query_messages(None, None, None, None, None, 0, 0);
    assert_eq!(zero.total, 3);
    assert!(zero.messages.is_empty());
    let tail = store.query_messages(None, None, None, None, None, 2, 10);
    assert_eq!(tail.messages.len(), 1);
    assert_eq!(tail.messages[0].display, "a");
}

#[test]
fn consecutive_pages_join_up() {
    let store = store_of((0..7).map(|i| msg(&format!("m{}", i), i, "/p", "s")).collect());
    let first = store.query_messages(None, None, None, None, None, 1, 2).messages;
    let second = store.query_messages(None, None, None, None, None, 3, 3).messages;
    let whole = store.query_messages(None, None, None, None, None, 1, 5).messages;
    let joined: Vec<i64> = first.iter().chain(second.iter()).map(|m| m.timestamp).collect();
    let expected: Vec<i64> = whole.iter().map(|m| m.timestamp).collect();
    assert_eq!(joined, expected);
    assert_eq!(expected, vec![5, 4, 3, 2, 1]);
}

#[test]
fn project_counts_add_up_and_busiest_comes_first() {
    let store = store_of(vec![
        msg("a", 1, "/p/a", "s1"),
        msg("b", 2, "/p/b", "s2"),
        msg("c", 3, "/p/b", "s2"),
        msg("d", 4, "/p/c", "s3"),
        msg("e", 5, "/p/b", "s4"),
    ]);
    let projects = store.projects();
    assert_eq!(projects.len(), 3);
    assert_eq!(projects[0].path, "/p/b");
    assert_eq!(projects[0].count, 3);
    assert!(projects.windows(2).all(|w| w[0].count >= w[1].count));
    assert_eq!(projects.iter().map(|p| p.count).sum::<usize>(), 5);
}

#[test]
fn sessions_report_earliest_timestamp_and_first_project() {
    let store = store_of(vec![
        msg("a", 1000, "/p/a", "s1"),
        msg("b", 5000, "/p/b", "s1"),
        msg("c", 3000, "/p/b", "s2"),
    ]);
    let sessions = store.sessions(None);
    assert_eq!(sessions.len(), 2);
    // s2 starts later (3000) than s1 (1000), so it comes first.
    assert_eq!(sessions[0].session_id, "s2");
    assert_eq!(sessions[0].first_ts, 3000);
    assert_eq!(sessions[1].session_id, "s1");
    assert_eq!(sessions[1].first_ts, 1000);
    assert_eq!(sessions[1].count, 2);
    // The store holds s1's 5000 message before its 1000 one.
    assert_eq!(sessions[1].project, "/p/b");
    assert_eq!(sessions.iter().map(|s| s.count).sum::<usize>(), 3);
}

#[test]
fn sessions_of_a_project_belong_to_it() {
    let store = store_of(vec![
        msg("a", 1000, "/p/a", "s1"),
        msg("b", 2000, "/p/b", "s1"),
        msg("c", 3000, "/p/a", "s2"),
    ]);
    let sessions = store.sessions(Some("/p/a"));
    assert_eq!(sessions.len(), 2);
    assert!(sessions.iter().all(|s| s.project == "/p/a"));
    let s1 = sessions.iter().find(|s| s.session_id == "s1").unwrap();
    assert_eq!(s1.count, 1);
    assert_eq!(s1.first_ts, 1000);
}

#[test]
fn stats_count_days_in_order() {
    let day = 86_400_000i64;
    let store = store_of(vec![
        msg("a", 1000, "/p/a", "s1"),
        msg("b", 2000, "/p/a", "s1"),
        msg("c", day + 5, "/p/b", "s2"),
        msg("d", 1_700_000_000_000, "/p/b", "s3"),
    ]);
    let stats = store.stats();
    let days: Vec<(String, usize)> = stats.daily_counts.iter().map(|d| (d.date.clone(), d.count)).collect();
    assert_eq!(
        days,
        vec![
            ("1970-01-01".to_string(), 2),
            ("1970-01-02".to_string(), 1),
            ("2023-11-14".to_string(), 1),
        ]
    );
    assert_eq!(stats.daily_counts.iter().map(|d| d.count).sum::<usize>(), stats.total_messages);
    assert_eq!(stats.total_projects, store.projects().len());
    assert_eq!(stats.total_sessions, store.sessions(None).len());
    assert_eq!(stats.earliest_ts, Some(1000));
    assert_eq!(stats.latest_ts, Some(1_700_000_000_000));
}

#[test]
fn timestamps_without_a_date_count_under_the_empty_label() {
    assert_eq!(day_label_of(i64::MAX), "");
    assert_eq!(day_label_of(0), "1970-01-01");
    assert_eq!(day_label_of(-1), "1969-12-31");
    let store = store_of(vec![msg("a", i64::MAX, "/p", "s"), msg("b", 0, "/p", "s")]);
    let stats = store.stats();
    assert_eq!(stats.daily_counts.len(), 2);
    assert_eq!(stats.daily_counts[0].date, "");
    assert_eq!(stats.daily_counts[1].date, "1970-01-01");
}

#[test]
fn tally_days_sorts_and_counts_labels() {
    let labels: Vec<String> = vec!["b", "a", "b", "", "ab"].into_iter().map(String::from).collect();
    let r = tally_days(&labels);
    let got: Vec<(String, usize)> = r.into_iter().map(|d| (d.date, d.count)).collect();
    assert_eq!(
        got,
        vec![("".to_string(), 1), ("a".to_string(), 1), ("ab".to_string(), 1), ("b".to_string(), 2)]
    );
}

#[test]
fn string_order_is_lexicographic() {
    let s = |x: &str| x.to_string();
    assert!(string_less(&s("2023-01-09"), &s("2023-01-10")));
    assert!(!string_less(&s("b"), &s("a")));
    assert!(string_less(&s("a"), &s("ab")));
    assert!(!string_less(&s("a"), &s("a")));
}

#[test]
fn substring_search_edges() {
    assert!(contains_substring("hello", ""));
    assert!(contains_substring("hello", "llo"));
    assert!(!contains_substring("he", "hello"));
    assert!(!contains_substring("hello", "lol"));
    assert_eq!(chars_of("héllo"), vec!['h', 'é', 'l', 'l', 'o']);
}

#[test]
fn descending_order_is_stable() {
    let keys: Vec<i128> = vec![5, 9, 5, -1, 9];
    assert_eq!(descending_order(&keys), vec![1, 4, 0, 2, 3]);
}

#[test]
fn endpoint_defaults_and_page_cap() {
    assert_eq!(default_offset(), 0);
    assert_eq!(default_limit(), 100);
    let store = store_of((0..600).map(|i| msg("x", i, "/p", "s")).collect());
    let q = MessagesQuery {
        project: None,
        session: None,
        q: None,
        from: None,
        to: None,
        offset: 0,
        limit: 1000,
    };
    let resp = get_messages(&store, &q);
    assert_eq!(resp.total, 600);
    assert_eq!(resp.messages.len(), MAX_LIMIT);
    let q2 = MessagesQuery { project: Some("/p".to_string()), session: Some("s".to_string()), q: Some("X".to_string()), from: Some(10), to: Some(19), offset: 0, limit: 100 };
    assert_eq!(get_messages(&store, &q2).total, 10);
}

#[test]
fn endpoints_answer_like_the_store() {
    let store = store_of(vec![msg("a", 1000, "/p/a", "s1"), msg("b", 2000, "/p/b", "s2")]);
    assert_eq!(get_projects(&store).len(), 2);
    let q = SessionsQuery { project: Some("/p/b".to_string()) };
    let sessions = get_sessions(&store, &q);
    assert_eq!(sessions.len(), 1);
    assert_eq!(sessions[0].session_id, "s2");
    let stats = get_stats(&store);
    assert_eq!(stats.total_messages, 2);
}

#[test]
fn unparsed_records_leave_the_store_unchanged() {
    let plain = MessageStore::from_parsed(vec![
        Some(msg("a", 1000, "/p/a", "s1")),
        Some(msg("b", 2000, "/p/b", "s2")),
        Some(msg("c", 2000, "/p/b", "s2")),
    ]);
    let noisy = MessageStore::from_parsed(vec![
        None,
        Some(msg("a", 1000, "/p/a", "s1")),
        None,
        None,
        Some(msg("b", 2000, "/p/b", "s2")),
        Some(msg("c", 2000, "/p/b", "s2")),
        None,
    ]);
    assert_eq!(all(&plain), all(&noisy));
}

#[test]
fn adding_a_filter_never_adds_matches() {
    let store = store_of(vec![
        msg("fix bug", 1000, "/p/a", "s1"),
        msg("fix docs", 2000, "/p/a", "s2"),
        msg("write bug report", 3000, "/p/b", "s3"),
    ]);
    let none = store.query_messages(None, None, None, None, None, 0, 10).total;
    assert_eq!(none, 3);
    let q = store.query_messages(None, None, Some("bug"), None, None, 0, 10).total;
    let q_project = store.query_messages(Some("/p/a"), None, Some("bug"), None, None, 0, 10).total;
    let q_project_from = store.query_messages(Some("/p/a"), None, Some("bug"), Some(1500), None, 0, 10).total;
    assert_eq!((q, q_project, q_project_from), (2, 1, 0));
}
