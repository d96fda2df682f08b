//! Properties of the store that relate several of its answers, or hold of
//! every input.

use vstd::prelude::*;
use crate::daily::info_dates;
use crate::handlers::{MAX_LIMIT, served_limit};
use crate::models::{DailyCount, Message, ProjectInfo, SessionInfo, Stats};
use crate::order::{lemma_descending_order_unique, occurs, precedes};
use crate::store::{
    MAX_MESSAGES, day_labels, parsed_messages, earliest_of, info_paths, info_session_ids, is_newest_first_of,
    is_project_listing, is_session_listing, is_stats_of, latest_of, newest_first_by, page,
    passes_query, project_paths, query_filter, query_matches, scope_filter, scoped, session_first_ts,
    session_ids, session_project, timestamp_keys,
};
use crate::text::{ascii_lowercase, is_substring, lowercase};
use crate::tally::{count_of, lemma_count_of_absent, lemma_count_of_push};

verus! {

/// The total of the counts of `items` over the texts `keys`.
pub open spec fn sum_counts_of(keys: Seq<Seq<char>>, items: Seq<Seq<char>>) -> int
    decreases keys.len(),
{
    if keys.len() == 0 {
        0
    } else {
        sum_counts_of(keys.drop_last(), items) + count_of(items, keys.last())
    }
}

/// The total of the message counts of a project listing.
pub open spec fn project_count_sum(r: Seq<ProjectInfo>) -> int
    decreases r.len(),
{
    if r.len() == 0 {
        0
    } else {
        project_count_sum(r.drop_last()) + r.last().count
    }
}

/// The total of the message counts of a session listing.
pub open spec fn session_count_sum(r: Seq<SessionInfo>) -> int
    decreases r.len(),
{
    if r.len() == 0 {
        0
    } else {
        session_count_sum(r.drop_last()) + r.last().count
    }
}

/// The total of the message counts of a daily listing.
pub open spec fn daily_count_sum(r: Seq<DailyCount>) -> int
    decreases r.len(),
{
    if r.len() == 0 {
        0
    } else {
        daily_count_sum(r.drop_last()) + r.last().count
    }
}

proof fn lemma_sum_counts_empty(keys: Seq<Seq<char>>)
    ensures
        sum_counts_of(keys, Seq::empty()) == 0,
    decreases keys.len(),
{
    if keys.len() > 0 {
        lemma_sum_counts_empty(keys.drop_last());
    }
}

proof fn lemma_sum_counts_push(keys: Seq<Seq<char>>, items: Seq<Seq<char>>, y: Seq<char>)
    ensures
        sum_counts_of(keys, items.push(y)) == sum_counts_of(keys, items) + count_of(keys, y),
    decreases keys.len(),
{
    if keys.len() > 0 {
        lemma_sum_counts_push(keys.drop_last(), items, y);
        lemma_count_of_push(items, y, keys.last());
    }
}

proof fn lemma_count_of_unique(keys: Seq<Seq<char>>, y: Seq<char>)
    requires
        keys.no_duplicates(),
        keys.contains(y),
    ensures
        count_of(keys, y) == 1,
    decreases keys.len(),
{
    let rest = keys.drop_last();
    if keys.last() == y {
        assert(!rest.contains(y)) by {
            if rest.contains(y) {
                let k = choose|k: int| 0 <= k < rest.len() && rest[k] == y;
                assert(keys[k] == keys[keys.len() - 1]);
            }
        }
        lemma_count_of_absent(rest, y);
    } else {
        let k = choose|k: int| 0 <= k < keys.len() && keys[k] == y;
        assert(k < keys.len() - 1);
        assert(rest[k] == y);
        assert(rest.no_duplicates()) by {
            assert forall|i: int, j: int| 0 <= i < rest.len() && 0 <= j < rest.len() && i != j implies rest[i] != rest[j] by {
                assert(rest[i] == keys[i] && rest[j] == keys[j]);
            }
        }
        lemma_count_of_unique(rest, y);
    }
}

/// Counting every item under distinct keys that cover all items counts
/// each item once.
proof fn lemma_sum_counts(keys: Seq<Seq<char>>, items: Seq<Seq<char>>)
    requires
        keys.no_duplicates(),
        forall|k: int| 0 <= k < items.len() ==> keys.contains(#[trigger] items[k]),
    ensures
        sum_counts_of(keys, items) == items.len(),
    decreases items.len(),
{
    if items.len() == 0 {
        assert(items =~= Seq::empty());
        lemma_sum_counts_empty(keys);
    } else {
        let rest = items.drop_last();
        assert forall|k: int| 0 <= k < rest.len() implies keys.contains(#[trigger] rest[k]) by {
            assert(rest[k] == items[k]);
        }
        lemma_sum_counts(keys, rest);
        assert(rest.push(items.last()) =~= items);
        lemma_sum_counts_push(keys, rest, items.last());
        assert(keys.contains(items[items.len() - 1]));
        lemma_count_of_unique(keys, items.last());
    }
}

/// Items all lie among keys whose set is the items' set.
proof fn lemma_covered(keys: Seq<Seq<char>>, items: Seq<Seq<char>>)
    requires
        keys.to_set() == items.to_set(),
    ensures
        forall|k: int| 0 <= k < items.len() ==> keys.contains(#[trigger] items[k]),
{
    assert forall|k: int| 0 <= k < items.len() implies keys.contains(#[trigger] items[k]) by {
        assert(items.to_set().contains(items[k]));
        assert(keys.to_set().contains(items[k]));
    }
}

/// The counts of a project listing add up to the number of messages:
/// every message is counted under exactly one project.
pub proof fn law_project_counts_sum(msgs: Seq<Message>, r: Seq<ProjectInfo>)
    requires
        is_project_listing(msgs, r),
    ensures
        project_count_sum(r) == msgs.len(),
    decreases r.len(),
{
    lemma_covered(info_paths(r), project_paths(msgs));
    lemma_sum_counts(info_paths(r), project_paths(msgs));
    lemma_project_sum_matches(msgs, r);
}

proof fn lemma_project_sum_matches(msgs: Seq<Message>, r: Seq<ProjectInfo>)
    requires
        forall|i: int| 0 <= i < r.len() ==> #[trigger] r[i].count == count_of(project_paths(msgs), r[i].path@),
    ensures
        project_count_sum(r) == sum_counts_of(info_paths(r), project_paths(msgs)),
    decreases r.len(),
{
    if r.len() > 0 {
        let rest = r.drop_last();
        assert forall|i: int| 0 <= i < rest.len() implies #[trigger] rest[i].count == count_of(project_paths(msgs), rest[i].path@) by {
            assert(rest[i] == r[i]);
        }
        lemma_project_sum_matches(msgs, rest);
        assert(info_paths(r).drop_last() =~= info_paths(rest));
        assert(r.last() == r[r.len() - 1]);
    }
}

proof fn lemma_session_sum_matches(msgs: Seq<Message>, r: Seq<SessionInfo>)
    requires
        forall|i: int| 0 <= i < r.len() ==> #[trigger] r[i].count == count_of(session_ids(msgs), r[i].session_id@),
    ensures
        session_count_sum(r) == sum_counts_of(info_session_ids(r), session_ids(msgs)),
    decreases r.len(),
{
    if r.len() > 0 {
        let rest = r.drop_last();
        assert forall|i: int| 0 <= i < rest.len() implies #[trigger] rest[i].count == count_of(session_ids(msgs), rest[i].session_id@) by {
            assert(rest[i] == r[i]);
        }
        lemma_session_sum_matches(msgs, rest);
        assert(info_session_ids(r).drop_last() =~= info_session_ids(rest));
        assert(r.last() == r[r.len() - 1]);
    }
}

proof fn lemma_daily_sum_matches(msgs: Seq<Message>, r: Seq<DailyCount>)
    requires
        forall|i: int| 0 <= i < r.len() ==> #[trigger] r[i].count == count_of(day_labels(msgs), r[i].date@),
    ensures
        daily_count_sum(r) == sum_counts_of(info_dates(r), day_labels(msgs)),
    decreases r.len(),
{
    if r.len() > 0 {
        let rest = r.drop_last();
        assert forall|i: int| 0 <= i < rest.len() implies #[trigger] rest[i].count == count_of(day_labels(msgs), rest[i].date@) by {
            assert(rest[i] == r[i]);
        }
        lemma_daily_sum_matches(msgs, rest);
        assert(info_dates(r).drop_last() =~= info_dates(rest));
        assert(r.last() == r[r.len() - 1]);
    }
}

/// The counts of a session listing add up to the number of messages it
/// was made from: every message is counted under exactly one session.
pub proof fn law_session_counts_sum(msgs: Seq<Message>, r: Seq<SessionInfo>)
    requires
        is_session_listing(msgs, r),
    ensures
        session_count_sum(r) == msgs.len(),
{
    lemma_covered(info_session_ids(r), session_ids(msgs));
    lemma_sum_counts(info_session_ids(r), session_ids(msgs));
    lemma_session_sum_matches(msgs, r);
}

/// The daily counts of the statistics add up to the total number of
/// messages.
pub proof fn law_daily_counts_sum(msgs: Seq<Message>, st: Stats)
    requires
        is_stats_of(msgs, st),
    ensures
        daily_count_sum(st.daily_counts@) == st.total_messages,
{
    crate::daily::lemma_ascending_no_duplicates(info_dates(st.daily_counts@));
    lemma_covered(info_dates(st.daily_counts@), day_labels(msgs));
    lemma_sum_counts(info_dates(st.daily_counts@), day_labels(msgs));
    lemma_daily_sum_matches(msgs, st.daily_counts@);
}

/// Keeping the messages that all pass keeps everything.
proof fn lemma_filter_all(s: Seq<Message>, f: spec_fn(Message) -> bool)
    requires
        forall|m: Message| #[trigger] f(m),
    ensures
        s.filter(f) == s,
    decreases s.len(),
{
    reveal(Seq::filter);
    if s.len() > 0 {
        lemma_filter_all(s.drop_last(), f);
        assert(s.drop_last().push(s.last()) =~= s);
    }
}

/// Without a project the sessions are drawn from every message.
pub proof fn law_unscoped_is_everything(msgs: Seq<Message>)
    ensures
        scoped(msgs, None) == msgs,
{
    lemma_filter_all(msgs, scope_filter(None));
}

/// A query without any filter matches every message, in store order.
pub proof fn law_unfiltered_query(msgs: Seq<Message>)
    ensures
        query_matches(msgs, None, None, None, None, None) == msgs,
{
    lemma_filter_all(msgs, query_filter(None, None, None, None, None));
}

/// The statistics agree with the listings: as many projects as the
/// project listing holds, as many sessions as the unscoped session listing
/// holds.
pub proof fn law_stats_agree_with_listings(
    msgs: Seq<Message>,
    st: Stats,
    projects: Seq<ProjectInfo>,
    sessions: Seq<SessionInfo>,
)
    requires
        is_stats_of(msgs, st),
        is_project_listing(msgs, projects),
        is_session_listing(scoped(msgs, None), sessions),
    ensures
        st.total_projects == projects.len(),
        st.total_sessions == sessions.len(),
{
    law_unscoped_is_everything(msgs);
}

/// The smallest timestamp is at most every timestamp and, for at least one
/// message, equal to it.
proof fn lemma_earliest(msgs: Seq<Message>)
    requires
        msgs.len() > 0,
    ensures
        forall|k: int| 0 <= k < msgs.len() ==> earliest_of(msgs) <= #[trigger] msgs[k].timestamp,
        exists|k: int| 0 <= k < msgs.len() && earliest_of(msgs) == #[trigger] msgs[k].timestamp,
    decreases msgs.len(),
{
    let rest = msgs.drop_last();
    let n = msgs.len() - 1;
    if rest.len() > 0 {
        lemma_earliest(rest);
        assert forall|k: int| 0 <= k < msgs.len() implies earliest_of(msgs) <= #[trigger] msgs[k].timestamp by {
            if k < n {
                assert(rest[k] == msgs[k]);
            }
        }
        let w = choose|w: int| 0 <= w < rest.len() && earliest_of(rest) == #[trigger] rest[w].timestamp;
        assert(rest[w] == msgs[w]);
        if earliest_of(msgs) == earliest_of(rest) {
            assert(earliest_of(msgs) == msgs[w].timestamp);
        } else {
            assert(earliest_of(msgs) == msgs[n].timestamp);
        }
    } else {
        assert(earliest_of(rest) == i64::MAX as int);
        assert(msgs.last() == msgs[n]);
        assert(earliest_of(msgs) == msgs[n].timestamp);
    }
}

/// The largest timestamp is at least every timestamp and, for at least one
/// message, equal to it.
proof fn lemma_latest(msgs: Seq<Message>)
    requires
        msgs.len() > 0,
    ensures
        forall|k: int| 0 <= k < msgs.len() ==> latest_of(msgs) >= #[trigger] msgs[k].timestamp,
        exists|k: int| 0 <= k < msgs.len() && latest_of(msgs) == #[trigger] msgs[k].timestamp,
    decreases msgs.len(),
{
    let rest = msgs.drop_last();
    let n = msgs.len() - 1;
    if rest.len() > 0 {
        lemma_latest(rest);
        assert forall|k: int| 0 <= k < msgs.len() implies latest_of(msgs) >= #[trigger] msgs[k].timestamp by {
            if k < n {
                assert(rest[k] == msgs[k]);
            }
        }
        let w = choose|w: int| 0 <= w < rest.len() && latest_of(rest) == #[trigger] rest[w].timestamp;
        assert(rest[w] == msgs[w]);
        if latest_of(msgs) == latest_of(rest) {
            assert(latest_of(msgs) == msgs[w].timestamp);
        } else {
            assert(latest_of(msgs) == msgs[n].timestamp);
        }
    } else {
        assert(latest_of(rest) == i64::MIN as int);
        assert(msgs.last() == msgs[n]);
        assert(latest_of(msgs) == msgs[n].timestamp);
    }
}

/// For a non-empty store the statistics' earliest and latest timestamps
/// are the smallest and the largest timestamp of its messages.
pub proof fn law_stats_time_range(msgs: Seq<Message>, st: Stats)
    requires
        is_stats_of(msgs, st),
        msgs.len() > 0,
    ensures
        st.earliest_ts is Some && st.latest_ts is Some,
        st.earliest_ts->0 <= st.latest_ts->0,
        forall|k: int| 0 <= k < msgs.len() ==> st.earliest_ts->0 <= #[trigger] msgs[k].timestamp <= st.latest_ts->0,
        exists|k: int| 0 <= k < msgs.len() && #[trigger] msgs[k].timestamp == st.earliest_ts->0,
        exists|k: int| 0 <= k < msgs.len() && #[trigger] msgs[k].timestamp == st.latest_ts->0,
{
    lemma_earliest(msgs);
    lemma_latest(msgs);
    assert(earliest_of(msgs) <= msgs[0].timestamp);
    assert(latest_of(msgs) >= msgs[0].timestamp);
}

/// A query answers exactly the messages that pass it: each message it
/// returns passes, and each message of the store that passes is among
/// them.
pub proof fn law_query_is_exact(
    msgs: Seq<Message>,
    project: Option<Seq<char>>,
    session: Option<Seq<char>>,
    q: Option<Seq<char>>,
    from: Option<i64>,
    to: Option<i64>,
)
    ensures
        forall|i: int| 0 <= i < query_matches(msgs, project, session, q, from, to).len()
            ==> passes_query(#[trigger] query_matches(msgs, project, session, q, from, to)[i], project, session, q, from, to),
        forall|k: int| 0 <= k < msgs.len() && passes_query(#[trigger] msgs[k], project, session, q, from, to)
            ==> query_matches(msgs, project, session, q, from, to).contains(msgs[k]),
{
    let f = query_filter(project, session, q, from, to);
    assert forall|i: int| 0 <= i < msgs.filter(f).len() implies passes_query(#[trigger] msgs.filter(f)[i], project, session, q, from, to) by {
        msgs.lemma_filter_pred(f, i);
    }
    assert forall|k: int| 0 <= k < msgs.len() && passes_query(#[trigger] msgs[k], project, session, q, from, to)
        implies msgs.filter(f).contains(msgs[k]) by {
        msgs.lemma_filter_contains(f, k);
    }
}

/// A page holds `limit` items, or fewer where the sequence runs out after
/// `offset`: none at all when `offset` is past the end.
pub proof fn law_page_length<A>(s: Seq<A>, offset: int, limit: int)
    requires
        offset >= 0,
        limit >= 0,
    ensures
        page(s, offset, limit).len() == if offset >= s.len() {
            0
        } else if limit < s.len() - offset {
            limit
        } else {
            s.len() - offset
        },
{
}

/// Consecutive pages join up: the page of `a` items at `offset` followed
/// by the page of `b` items right after it is the page of `a + b` items at
/// `offset`.
pub proof fn law_pages_compose<A>(s: Seq<A>, offset: int, a: int, b: int)
    requires
        offset >= 0,
        a >= 0,
        b >= 0,
    ensures
        page(s, offset, a) + page(s, offset + a, b) == page(s, offset, a + b),
{
    assert(page(s, offset, a) + page(s, offset + a, b) =~= page(s, offset, a + b));
}

/// Loading keeps the newest messages: every parsed message is in the
/// store when no more than `MAX_MESSAGES` were parsed, and otherwise
/// every parsed message newer than the store's oldest one is.
pub proof fn law_load_keeps_newest(msgs: Seq<Message>, kept: Seq<Message>, x: int)
    requires
        is_newest_first_of(msgs, kept),
        0 <= x < msgs.len(),
        msgs.len() <= MAX_MESSAGES || msgs[x].timestamp > kept.last().timestamp,
    ensures
        kept.contains(msgs[x]),
{
    let p = choose|p: Seq<usize>| #[trigger] newest_first_by(msgs, p, kept);
    assert(occurs(p, x));
    let t = choose|t: int| 0 <= t < p.len() && p[t] == x;
    if t < kept.len() {
        assert(kept[t] == msgs[p[t] as int]);
    } else {
        let last = kept.len() - 1;
        assert(kept[last] == msgs[p[last] as int]);
        assert(precedes(timestamp_keys(msgs), p[last] as int, p[t] as int));
        assert(false);
    }
}

/// A session's earliest timestamp is at most the timestamp of each of its
/// messages and, where it has messages, equal to one of them.
pub proof fn law_session_first_ts_is_earliest(msgs: Seq<Message>, sid: Seq<char>)
    ensures
        forall|k: int| 0 <= k < msgs.len() && (#[trigger] msgs[k]).session_id@ == sid ==> session_first_ts(msgs, sid) <= msgs[k].timestamp,
        count_of(session_ids(msgs), sid) > 0 ==> exists|k: int| 0 <= k < msgs.len() && (#[trigger] msgs[k]).session_id@ == sid && session_first_ts(msgs, sid) == msgs[k].timestamp,
    decreases msgs.len(),
{
    if msgs.len() > 0 {
        let rest = msgs.drop_last();
        let n = msgs.len() - 1;
        law_session_first_ts_is_earliest(rest, sid);
        assert(session_ids(msgs).drop_last() =~= session_ids(rest));
        assert(msgs.last() == msgs[n]);
        assert forall|k: int| 0 <= k < msgs.len() && (#[trigger] msgs[k]).session_id@ == sid implies session_first_ts(msgs, sid) <= msgs[k].timestamp by {
            if k < n {
                assert(rest[k] == msgs[k]);
            }
        }
        if count_of(session_ids(msgs), sid) > 0 {
            if session_first_ts(msgs, sid) == msgs[n].timestamp && msgs[n].session_id@ == sid {
            } else {
                assert(count_of(session_ids(rest), sid) > 0) by {
                    assert(session_ids(msgs).last() == msgs[n].session_id@);
                    if msgs[n].session_id@ == sid {
                        if count_of(session_ids(rest), sid) == 0 {
                            lemma_first_ts_no_session(rest, sid);
                        }
                    }
                }
                let w = choose|w: int| 0 <= w < rest.len() && (#[trigger] rest[w]).session_id@ == sid && session_first_ts(rest, sid) == rest[w].timestamp;
                assert(rest[w] == msgs[w]);
                assert(session_first_ts(msgs, sid) == msgs[w].timestamp);
            }
        }
    }
}

/// Without messages of the session its earliest timestamp is `i64::MAX`.
proof fn lemma_first_ts_no_session(msgs: Seq<Message>, sid: Seq<char>)
    requires
        count_of(session_ids(msgs), sid) == 0,
    ensures
        session_first_ts(msgs, sid) == i64::MAX as int,
    decreases msgs.len(),
{
    if msgs.len() > 0 {
        assert(session_ids(msgs).drop_last() =~= session_ids(msgs.drop_last()));
        assert(session_ids(msgs).last() == msgs.last().session_id@);
        lemma_first_ts_no_session(msgs.drop_last(), sid);
    }
}

/// The project recorded for a session is the project of one of its
/// messages.
proof fn lemma_session_project_of_message(msgs: Seq<Message>, sid: Seq<char>)
    requires
        count_of(session_ids(msgs), sid) > 0,
    ensures
        exists|k: int| 0 <= k < msgs.len() && (#[trigger] msgs[k]).project@ == session_project(msgs, sid),
    decreases msgs.len(),
{
    let rest = msgs.drop_last();
    let n = msgs.len() - 1;
    assert(session_ids(msgs).drop_last() =~= session_ids(rest));
    assert(session_ids(msgs).last() == msgs.last().session_id@);
    assert(msgs.last() == msgs[n]);
    if count_of(session_ids(rest), sid) > 0 {
        lemma_session_project_of_message(rest, sid);
        let w = choose|w: int| 0 <= w < rest.len() && (#[trigger] rest[w]).project@ == session_project(rest, sid);
        assert(rest[w] == msgs[w]);
    } else {
        assert(msgs[n].project@ == session_project(msgs, sid));
    }
}

/// Listing the sessions of one project gives every session that project
/// as its project.
pub proof fn law_scoped_sessions_in_project(msgs: Seq<Message>, project: Seq<char>, r: Seq<SessionInfo>)
    requires
        is_session_listing(scoped(msgs, Some(project)), r),
    ensures
        forall|i: int| 0 <= i < r.len() ==> (#[trigger] r[i]).project@ == project,
{
    let s = scoped(msgs, Some(project));
    let f = scope_filter(Some(project));
    assert forall|i: int| 0 <= i < r.len() implies (#[trigger] r[i]).project@ == project by {
        assert(info_session_ids(r).to_set().contains(info_session_ids(r)[i]));
        assert(session_ids(s).to_set().contains(r[i].session_id@));
        let k = choose|k: int| 0 <= k < session_ids(s).len() && session_ids(s)[k] == r[i].session_id@;
        crate::tally::lemma_count_of_present(session_ids(s), k);
        lemma_session_project_of_message(s, r[i].session_id@);
        let w = choose|w: int| 0 <= w < s.len() && (#[trigger] s[w]).project@ == session_project(s, r[i].session_id@);
        msgs.lemma_filter_pred(f, w);
    }
}

/// A message list has one newest-first selection: the store loaded from
/// given messages is determined by them.
pub proof fn law_newest_first_unique(msgs: Seq<Message>, kept1: Seq<Message>, kept2: Seq<Message>)
    requires
        is_newest_first_of(msgs, kept1),
        is_newest_first_of(msgs, kept2),
    ensures
        kept1 == kept2,
{
    let p = choose|p: Seq<usize>| #[trigger] newest_first_by(msgs, p, kept1);
    let q = choose|q: Seq<usize>| #[trigger] newest_first_by(msgs, q, kept2);
    lemma_descending_order_unique(timestamp_keys(msgs), p, q);
    assert forall|k: int| 0 <= k < kept1.len() implies kept1[k] == kept2[k] by {
        assert(kept1[k] == msgs[p[k] as int]);
        assert(kept2[k] == msgs[q[k] as int]);
    }
    assert(kept1 =~= kept2);
}

/// A line that did not parse, wherever it stands among the records,
/// contributes no message.
pub proof fn law_unparsed_record_adds_nothing(entries: Seq<Option<Message>>, i: int)
    requires
        0 <= i <= entries.len(),
    ensures
        parsed_messages(entries.insert(i, None)) == parsed_messages(entries),
    decreases entries.len(),
{
    let e = entries.insert(i, None);
    if i == entries.len() {
        assert(e.drop_last() =~= entries);
    } else {
        let rest = entries.drop_last();
        law_unparsed_record_adds_nothing(rest, i);
        assert(e.drop_last() =~= rest.insert(i, None));
        assert(e.last() == entries.last());
    }
}

/// Records that did not parse leave the store unchanged: two record lists
/// with the same parsed messages load into the same store.
pub proof fn law_skipped_records_leave_store_unchanged(
    entries1: Seq<Option<Message>>,
    entries2: Seq<Option<Message>>,
    store1: Seq<Message>,
    store2: Seq<Message>,
)
    requires
        parsed_messages(entries1) == parsed_messages(entries2),
        is_newest_first_of(parsed_messages(entries1), store1),
        is_newest_first_of(parsed_messages(entries2), store2),
    ensures
        store1 == store2,
{
    law_newest_first_unique(parsed_messages(entries1), store1, store2);
}

/// The filter `weak` is absent or the same as `strong`.
pub open spec fn loosens<T>(weak: Option<T>, strong: Option<T>) -> bool {
    weak is None || weak == strong
}

proof fn lemma_filter_len_monotone(s: Seq<Message>, weak: spec_fn(Message) -> bool, strong: spec_fn(Message) -> bool)
    requires
        forall|m: Message| #[trigger] strong(m) ==> weak(m),
    ensures
        s.filter(strong).len() <= s.filter(weak).len(),
    decreases s.len(),
{
    reveal(Seq::filter);
    if s.len() > 0 {
        lemma_filter_len_monotone(s.drop_last(), weak, strong);
    }
}

/// Adding filters to a query never adds matches: a query whose filters
/// each are absent or the same as another query's matches at least as
/// many messages.
pub proof fn law_more_filters_fewer_matches(
    msgs: Seq<Message>,
    project1: Option<Seq<char>>,
    session1: Option<Seq<char>>,
    q1: Option<Seq<char>>,
    from1: Option<i64>,
    to1: Option<i64>,
    project2: Option<Seq<char>>,
    session2: Option<Seq<char>>,
    q2: Option<Seq<char>>,
    from2: Option<i64>,
    to2: Option<i64>,
)
    requires
        loosens(project1, project2),
        loosens(session1, session2),
        loosens(q1, q2),
        loosens(from1, from2),
        loosens(to1, to2),
    ensures
        query_matches(msgs, project2, session2, q2, from2, to2).len()
            <= query_matches(msgs, project1, session1, q1, from1, to1).len(),
{
    let weak = query_filter(project1, session1, q1, from1, to1);
    let strong = query_filter(project2, session2, q2, from2, to2);
    assert forall|m: Message| #[trigger] strong(m) implies weak(m) by {}
    lemma_filter_len_monotone(msgs, weak, strong);
}

/// The messages endpoint serves the requested page size up to
/// `MAX_LIMIT` and `MAX_LIMIT` beyond it: a page of at most `MAX_LIMIT`
/// items is served as asked, holding `min(limit, len - offset)` items.
pub proof fn law_served_page<A>(s: Seq<A>, offset: int, limit: usize)
    requires
        offset >= 0,
    ensures
        limit <= MAX_LIMIT ==> page(s, offset, served_limit(limit) as int) == page(s, offset, limit as int),
        limit > MAX_LIMIT ==> page(s, offset, served_limit(limit) as int) == page(s, offset, MAX_LIMIT as int),
        limit <= MAX_LIMIT ==> page(s, offset, served_limit(limit) as int).len() == if offset >= s.len() {
            0
        } else if limit < s.len() - offset {
            limit as int
        } else {
            s.len() - offset
        },
{
    law_page_length(s, offset, limit as int);
}

/// The records that parsed.
pub open spec fn parsed_filter() -> spec_fn(Option<Message>) -> bool {
    |e: Option<Message>| e is Some
}

proof fn lemma_parsed_len(entries: Seq<Option<Message>>)
    ensures
        parsed_messages(entries).len() == entries.filter(parsed_filter()).len(),
    decreases entries.len(),
{
    reveal(Seq::filter);
    if entries.len() > 0 {
        lemma_parsed_len(entries.drop_last());
    }
}

proof fn lemma_parsed_contains(entries: Seq<Option<Message>>, i: int)
    requires
        0 <= i < entries.len(),
        entries[i] is Some,
    ensures
        parsed_messages(entries).contains(entries[i]->0),
    decreases entries.len(),
{
    let rest = entries.drop_last();
    let pr = parsed_messages(rest);
    if i == entries.len() - 1 {
        assert(parsed_messages(entries)[pr.len() as int] == entries[i]->0);
    } else {
        assert(rest[i] == entries[i]);
        lemma_parsed_contains(rest, i);
        let k = choose|k: int| 0 <= k < pr.len() && pr[k] == entries[i]->0;
        assert(parsed_messages(entries)[k] == entries[i]->0);
    }
}

/// Loading keeps every record that parsed, whatever it holds: the store
/// holds as many messages as records parsed, up to `MAX_MESSAGES`, and
/// when no more than `MAX_MESSAGES` parsed, every parsed record's message
/// is in the store.
pub proof fn law_load_keeps_every_parsed_record(entries: Seq<Option<Message>>, kept: Seq<Message>)
    requires
        is_newest_first_of(parsed_messages(entries), kept),
    ensures
        kept.len() == if entries.filter(parsed_filter()).len() <= MAX_MESSAGES {
            entries.filter(parsed_filter()).len()
        } else {
            MAX_MESSAGES as nat
        },
        entries.filter(parsed_filter()).len() <= MAX_MESSAGES ==> forall|i: int|
            0 <= i < entries.len() && (#[trigger] entries[i]) is Some ==> kept.contains(entries[i]->0),
{
    let msgs = parsed_messages(entries);
    lemma_parsed_len(entries);
    let p = choose|p: Seq<usize>| #[trigger] newest_first_by(msgs, p, kept);
    if entries.filter(parsed_filter()).len() <= MAX_MESSAGES {
        assert forall|i: int| 0 <= i < entries.len() && (#[trigger] entries[i]) is Some implies kept.contains(entries[i]->0) by {
            lemma_parsed_contains(entries, i);
            let x = choose|x: int| 0 <= x < msgs.len() && msgs[x] == entries[i]->0;
            assert(occurs(p, x));
            let t = choose|t: int| 0 <= t < p.len() && p[t] == x;
            assert(kept[t] == msgs[p[t] as int]);
        }
    }
}

/// Each filter of a query does its part: every message a query returns
/// lies in the asked project and session, inside the asked time range,
/// and holds the search text ignoring case; and every message of the
/// store that meets all of these is returned.
pub proof fn law_query_respects_filters(
    msgs: Seq<Message>,
    project: Option<Seq<char>>,
    session: Option<Seq<char>>,
    q: Option<Seq<char>>,
    from: Option<i64>,
    to: Option<i64>,
)
    ensures
        forall|i: int| 0 <= i < query_matches(msgs, project, session, q, from, to).len() ==> {
            let m = #[trigger] query_matches(msgs, project, session, q, from, to)[i];
            &&& (project is Some ==> m.project@ == project->0)
            &&& (session is Some ==> m.session_id@ == session->0)
            &&& (q is Some ==> is_substring(lowercase(q->0), lowercase(m.display@)))
            &&& (from is Some ==> m.timestamp >= from->0)
            &&& (to is Some ==> m.timestamp <= to->0)
        },
        forall|k: int| 0 <= k < msgs.len() ==> {
            let m = #[trigger] msgs[k];
            (project is Some ==> m.project@ == project->0)
            && (session is Some ==> m.session_id@ == session->0)
            && (q is Some ==> is_substring(lowercase(q->0), lowercase(m.display@)))
            && (from is Some ==> m.timestamp >= from->0)
            && (to is Some ==> m.timestamp <= to->0)
            ==> query_matches(msgs, project, session, q, from, to).contains(m)
        },
{
    law_query_is_exact(msgs, project, session, q, from, to);
}

/// Lower-casing both sides keeps every occurrence: text that occurs in a
/// message still occurs in it once both are in ASCII lower case.  With
/// `query_messages`, which matches every ASCII message whose lower-cased
/// text holds the lower-cased ASCII search text, a search finds every
/// ASCII message that holds the search text, however either is cased.
pub proof fn law_search_keeps_occurrences(t: Seq<char>, d: Seq<char>)
    requires
        is_substring(t, d),
    ensures
        is_substring(ascii_lowercase(t), ascii_lowercase(d)),
{
    let i = choose|i: int| 0 <= i && i + t.len() <= d.len() && #[trigger] d.subrange(i, i + t.len()) == t;
    assert(ascii_lowercase(d).subrange(i, i + ascii_lowercase(t).len()) =~= ascii_lowercase(t)) by {
        assert forall|j: int| 0 <= j < t.len() implies ascii_lowercase(d).subrange(i, i + t.len())[j] == ascii_lowercase(t)[j] by {
            assert(d.subrange(i, i + t.len())[j] == d[i + j]);
        }
    }
}

} // verus!
