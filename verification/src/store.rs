//! The message store: records held newest first, with the queries and
//! summaries the viewer serves.

use vstd::prelude::*;
use crate::models::{DailyCount, Message, MessagesResponse, ProjectInfo, SessionInfo, Stats};
use crate::text::{ascii_lowercase, str_opt, contains_substring, is_substring, lowercase, to_lowercase};
use crate::order::{descending_order, is_descending_order, occurs, precedes};
use crate::calendar::{day_label, day_label_of};
use crate::daily::{info_dates, strictly_ascending, tally_days};
use crate::tally::{count_of, find_text, lemma_count_of_absent, lemma_count_of_push, tally, views};

verus! {

/// At most this many messages are kept; the newest win.
pub const MAX_MESSAGES: usize = 50000;

/// The messages among parsed records, in file order; `None` stands for a
/// line that did not parse and is skipped.
pub open spec fn parsed_messages(entries: Seq<Option<Message>>) -> Seq<Message>
    decreases entries.len(),
{
    if entries.len() == 0 {
        Seq::empty()
    } else {
        let rest = parsed_messages(entries.drop_last());
        match entries.last() {
            Some(m) => rest.push(m),
            None => rest,
        }
    }
}

/// The timestamps of `msgs`, widened, as sort keys.
pub open spec fn timestamp_keys(msgs: Seq<Message>) -> Seq<i128> {
    Seq::new(msgs.len(), |i: int| msgs[i].timestamp as i128)
}

/// How many of `n` messages are kept.
pub open spec fn retained_count(n: nat) -> nat {
    if n <= MAX_MESSAGES {
        n
    } else {
        MAX_MESSAGES as nat
    }
}

/// `kept` is `msgs` ordered newest first (equal timestamps in their
/// original order) and cut to the first `retained_count` of them, as the
/// stable order `p` arranges it.
pub open spec fn newest_first_by(msgs: Seq<Message>, p: Seq<usize>, kept: Seq<Message>) -> bool {
    &&& is_descending_order(timestamp_keys(msgs), p)
    &&& kept.len() == retained_count(msgs.len())
    &&& forall|k: int| 0 <= k < kept.len() ==> kept[k] == msgs[#[trigger] p[k] as int]
}

/// `kept` is the newest-first selection of `msgs`.
pub open spec fn is_newest_first_of(msgs: Seq<Message>, kept: Seq<Message>) -> bool {
    exists|p: Seq<usize>| #[trigger] newest_first_by(msgs, p, kept)
}

/// Timestamps never increase along `msgs`.
pub open spec fn is_newest_first(msgs: Seq<Message>) -> bool {
    forall|i: int, j: int| 0 <= i < j < msgs.len() ==> #[trigger] msgs[i].timestamp >= #[trigger] msgs[j].timestamp
}

/// `m` passes a query: it is in the given project and session, its text
/// contains the search text ignoring case (both sides lower-cased), and
/// its timestamp lies in the given closed range.  An absent filter
/// passes everything.
pub open spec fn passes_query(
    m: Message,
    project: Option<Seq<char>>,
    session: Option<Seq<char>>,
    q: Option<Seq<char>>,
    from: Option<i64>,
    to: Option<i64>,
) -> bool {
    &&& (project matches Some(p) ==> m.project@ == p)
    &&& (session matches Some(s) ==> m.session_id@ == s)
    &&& (q matches Some(t) ==> is_substring(lowercase(t), lowercase(m.display@)))
    &&& (from matches Some(f) ==> m.timestamp >= f)
    &&& (to matches Some(t) ==> m.timestamp <= t)
}

/// The query's filters as a predicate.
pub open spec fn query_filter(
    project: Option<Seq<char>>,
    session: Option<Seq<char>>,
    q: Option<Seq<char>>,
    from: Option<i64>,
    to: Option<i64>,
) -> spec_fn(Message) -> bool {
    |m: Message| passes_query(m, project, session, q, from, to)
}

/// The messages of `msgs` that pass the query, in store order.
pub open spec fn query_matches(
    msgs: Seq<Message>,
    project: Option<Seq<char>>,
    session: Option<Seq<char>>,
    q: Option<Seq<char>>,
    from: Option<i64>,
    to: Option<i64>,
) -> Seq<Message> {
    msgs.filter(query_filter(project, session, q, from, to))
}

/// The part of `s` that skipping `offset` items and then taking at most
/// `limit` leaves.
pub open spec fn page<A>(s: Seq<A>, offset: int, limit: int) -> Seq<A> {
    let start = if offset < s.len() { offset } else { s.len() as int };
    let end = if start + limit < s.len() { start + limit } else { s.len() as int };
    s.subrange(start, end)
}

/// Keeping only some messages keeps them newest first.
pub proof fn lemma_filter_keeps_newest_first(s: Seq<Message>, f: spec_fn(Message) -> bool)
    requires
        is_newest_first(s),
    ensures
        is_newest_first(s.filter(f)),
    decreases s.len(),
{
    reveal(Seq::filter);
    if s.len() > 0 {
        let r = s.drop_last();
        assert forall|i: int, j: int| 0 <= i < j < r.len() implies #[trigger] r[i].timestamp >= #[trigger] r[j].timestamp by {
            assert(r[i] == s[i] && r[j] == s[j]);
        }
        lemma_filter_keeps_newest_first(r, f);
        let fr = r.filter(f);
        if f(s.last()) {
            let fs = s.filter(f);
            assert(fs == fr.push(s.last()));
            assert forall|i: int, j: int| 0 <= i < j < fs.len() implies #[trigger] fs[i].timestamp >= #[trigger] fs[j].timestamp by {
                if j < fr.len() {
                    assert(fs[i] == fr[i] && fs[j] == fr[j]);
                } else {
                    assert(fs[i] == fr[i]);
                    assert(fr.contains(fr[i]));
                    r.lemma_filter_contains_rev(f, fr[i]);
                    let k = choose|k: int| 0 <= k < r.len() && r[k] == fr[i];
                    assert(s[k] == r[k]);
                    assert(s[k].timestamp >= s[s.len() - 1].timestamp);
                }
            }
        }
    }
}

/// A page of a newest-first sequence is newest first.
pub proof fn lemma_page_keeps_newest_first(s: Seq<Message>, offset: int, limit: int)
    requires
        is_newest_first(s),
        offset >= 0,
        limit >= 0,
    ensures
        is_newest_first(page(s, offset, limit)),
{
    let pg = page(s, offset, limit);
    let start = if offset < s.len() { offset } else { s.len() as int };
    assert forall|i: int, j: int| 0 <= i < j < pg.len() implies #[trigger] pg[i].timestamp >= #[trigger] pg[j].timestamp by {
        assert(pg[i] == s[start + i] && pg[j] == s[start + j]);
    }
}

/// Whether `field` equals the wanted text, if one is wanted.
fn text_filter_passes(field: &String, want: &Option<String>) -> (r: bool)
    ensures
        r == (want matches Some(w) ==> field@ == w@),
{
    match want {
        Some(w) => *field == *w,
        None => true,
    }
}

/// Owned copy of an optional text.
fn owned_text(t: Option<&str>) -> (r: Option<String>)
    ensures
        r is Some <==> t is Some,
        r matches Some(s) ==> s@ == t->0@,
{
    match t {
        Some(s) => Some(s.to_owned()),
        None => None,
    }
}

/// The lower-cased search text, if any.
fn lowered_text(t: Option<&str>) -> (r: Option<String>)
    ensures
        r is Some <==> t is Some,
        r matches Some(s) ==> s@ == lowercase(t->0@),
        r matches Some(s) ==> (vstd::utf8::is_ascii_chars(t->0@) ==> s@ == ascii_lowercase(t->0@)),
{
    match t {
        Some(s) => Some(to_lowercase(s)),
        None => None,
    }
}

/// The message passes the query, given the filters' texts already owned
/// and the search text already lower-cased.
fn message_passes(
    m: &Message,
    project: Option<&str>,
    session: Option<&str>,
    q: Option<&str>,
    from: Option<i64>,
    to: Option<i64>,
    project_text: &Option<String>,
    session_text: &Option<String>,
    q_lower: &Option<String>,
) -> (r: bool)
    requires
        project_text is Some <==> project is Some,
        project_text matches Some(s) ==> s@ == project->0@,
        session_text is Some <==> session is Some,
        session_text matches Some(s) ==> s@ == session->0@,
        q_lower is Some <==> q is Some,
        q_lower matches Some(s) ==> s@ == lowercase(q->0@),
    ensures
        r == passes_query(*m, str_opt(project), str_opt(session), str_opt(q), from, to),
        q is Some && (project is Some ==> m.project@ == project->0@) && (session is Some ==> m.session_id@ == session->0@)
            && vstd::utf8::is_ascii_chars(m.display@) ==> lowercase(m.display@) == ascii_lowercase(m.display@),
{
    if !text_filter_passes(&m.project, project_text) {
        return false;
    }
    if !text_filter_passes(&m.session_id, session_text) {
        return false;
    }
    match q_lower {
        Some(ql) => {
            let d = to_lowercase(m.display.as_str());
            if !contains_substring(d.as_str(), ql.as_str()) {
                return false;
            }
        },
        None => {},
    }
    match from {
        Some(f) => {
            if m.timestamp < f {
                return false;
            }
        },
        None => {},
    }
    match to {
        Some(t) => {
            if m.timestamp > t {
                return false;
            }
        },
        None => {},
    }
    true
}

/// The project path of each message, in order.
pub open spec fn project_paths(msgs: Seq<Message>) -> Seq<Seq<char>> {
    Seq::new(msgs.len(), |i: int| msgs[i].project@)
}

/// The paths of a project listing, in order.
pub open spec fn info_paths(r: Seq<ProjectInfo>) -> Seq<Seq<char>> {
    Seq::new(r.len(), |i: int| r[i].path@)
}

/// The widened counts, as sort keys.
pub open spec fn count_keys(counts: Seq<usize>) -> Seq<i128> {
    Seq::new(counts.len(), |i: int| counts[i] as i128)
}

/// Sort keys for a list of counts.
fn keys_of_counts(counts: &Vec<usize>) -> (ks: Vec<i128>)
    ensures
        ks@ == count_keys(counts@),
{
    let mut ks: Vec<i128> = Vec::new();
    let mut k: usize = 0;
    while k < counts.len()
        invariant
            k <= counts.len(),
            ks@ == count_keys(counts@).take(k as int),
        decreases counts.len() - k,
    {
        ks.push(counts[k] as i128);
        proof {
            assert(ks@ =~= count_keys(counts@).take(k + 1));
        }
        k = k + 1;
    }
    proof {
        assert(ks@ =~= count_keys(counts@));
    }
    ks
}

/// `m` lies in the given project, or no project is given.
pub open spec fn in_scope(m: Message, project: Option<Seq<char>>) -> bool {
    project matches Some(p) ==> m.project@ == p
}

/// The project scope as a predicate.
pub open spec fn scope_filter(project: Option<Seq<char>>) -> spec_fn(Message) -> bool {
    |m: Message| in_scope(m, project)
}

/// The messages of `msgs` in the given project scope, in order.
pub open spec fn scoped(msgs: Seq<Message>, project: Option<Seq<char>>) -> Seq<Message> {
    msgs.filter(scope_filter(project))
}

/// The session id of each message, in order.
pub open spec fn session_ids(msgs: Seq<Message>) -> Seq<Seq<char>> {
    Seq::new(msgs.len(), |i: int| msgs[i].session_id@)
}

/// The ids of a session listing, in order.
pub open spec fn info_session_ids(r: Seq<SessionInfo>) -> Seq<Seq<char>> {
    Seq::new(r.len(), |i: int| r[i].session_id@)
}

/// The smallest timestamp of the session's messages in `msgs`
/// (`i64::MAX` where the session has none).
pub open spec fn session_first_ts(msgs: Seq<Message>, sid: Seq<char>) -> int
    decreases msgs.len(),
{
    if msgs.len() == 0 {
        i64::MAX as int
    } else {
        let rest = session_first_ts(msgs.drop_last(), sid);
        if msgs.last().session_id@ == sid && (msgs.last().timestamp as int) < rest {
            msgs.last().timestamp as int
        } else {
            rest
        }
    }
}

/// The project of the session's first message in `msgs`.
pub open spec fn session_project(msgs: Seq<Message>, sid: Seq<char>) -> Seq<char>
    decreases msgs.len(),
{
    if msgs.len() == 0 {
        Seq::empty()
    } else {
        let rest = msgs.drop_last();
        if count_of(session_ids(rest), sid) > 0 {
            session_project(rest, sid)
        } else if msgs.last().session_id@ == sid {
            msgs.last().project@
        } else {
            Seq::empty()
        }
    }
}

/// The widened earliest timestamps, as sort keys.
pub open spec fn ts_keys(ts: Seq<i64>) -> Seq<i128> {
    Seq::new(ts.len(), |i: int| ts[i] as i128)
}

/// A session that does not occur has no earliest timestamp.
proof fn lemma_session_first_ts_absent(msgs: Seq<Message>, sid: Seq<char>)
    requires
        !session_ids(msgs).contains(sid),
    ensures
        session_first_ts(msgs, sid) == i64::MAX as int,
    decreases msgs.len(),
{
    if msgs.len() > 0 {
        assert(session_ids(msgs)[msgs.len() - 1] == msgs.last().session_id@);
        assert forall|k: int| 0 <= k < session_ids(msgs.drop_last()).len() implies session_ids(msgs.drop_last())[k] != sid by {
            assert(session_ids(msgs.drop_last())[k] == session_ids(msgs)[k]);
        }
        lemma_session_first_ts_absent(msgs.drop_last(), sid);
    }
}

/// The sessions of `msgs` in order of first occurrence, each with the
/// project of its first message, its earliest timestamp and its message
/// count.
fn group_sessions(msgs: &Vec<Message>) -> (r: (Vec<String>, Vec<String>, Vec<i64>, Vec<usize>))
    ensures
        r.0.len() == r.1.len() && r.1.len() == r.2.len() && r.2.len() == r.3.len(),
        views(r.0@).no_duplicates(),
        views(r.0@).to_set() == session_ids(msgs@).to_set(),
        forall|a: int| 0 <= a < r.0.len() ==> #[trigger] r.3@[a] == count_of(session_ids(msgs@), r.0@[a]@),
        forall|a: int| 0 <= a < r.0.len() ==> #[trigger] r.2@[a] == session_first_ts(msgs@, r.0@[a]@),
        forall|a: int| 0 <= a < r.0.len() ==> #[trigger] r.1@[a]@ == session_project(msgs@, r.0@[a]@),
{
    let ghost s = msgs@;
    let mut keys: Vec<String> = Vec::new();
    let mut projects: Vec<String> = Vec::new();
    let mut firsts: Vec<i64> = Vec::new();
    let mut counts: Vec<usize> = Vec::new();
    let mut j: usize = 0;
    while j < msgs.len()
        invariant
            s == msgs@,
            j <= msgs.len(),
            keys.len() == projects.len(),
            keys.len() == firsts.len(),
            keys.len() == counts.len(),
            views(keys@).no_duplicates(),
            forall|a: int| 0 <= a < keys.len() ==> #[trigger] counts@[a] == count_of(session_ids(s.take(j as int)), keys@[a]@),
            forall|a: int| 0 <= a < keys.len() ==> #[trigger] counts@[a] > 0,
            forall|a: int| 0 <= a < keys.len() ==> #[trigger] counts@[a] <= j,
            forall|a: int| 0 <= a < keys.len() ==> #[trigger] firsts@[a] == session_first_ts(s.take(j as int), keys@[a]@),
            forall|a: int| 0 <= a < keys.len() ==> #[trigger] projects@[a]@ == session_project(s.take(j as int), keys@[a]@),
            forall|a: int| 0 <= a < keys.len() ==> session_ids(s.take(j as int)).contains(#[trigger] keys@[a]@),
            forall|k: int| 0 <= k < j ==> views(keys@).contains(#[trigger] s[k].session_id@),
        decreases msgs.len() - j,
    {
        let m = &msgs[j];
        let ghost pre = s.take(j as int);
        let ghost post = s.take(j + 1);
        proof {
            assert(post.drop_last() =~= pre);
            assert(post.last() == *m);
            assert(session_ids(post) =~= session_ids(pre).push(m.session_id@));
            assert(session_ids(post).drop_last() =~= session_ids(pre));
        }
        let ghost old_keys = keys@;
        let ghost old_counts = counts@;
        let ghost old_firsts = firsts@;
        let ghost old_projects = projects@;
        match find_text(&keys, &m.session_id) {
            Some(a) => {
                let c = counts[a];
                counts.set(a, c + 1);
                if m.timestamp < firsts[a] {
                    firsts.set(a, m.timestamp);
                }
                proof {
                    assert forall|b: int| 0 <= b < keys.len() implies #[trigger] counts@[b] == count_of(session_ids(post), keys@[b]@) by {
                        lemma_count_of_push(session_ids(pre), m.session_id@, keys@[b]@);
                        if b != a {
                            assert(views(keys@)[b] != views(keys@)[a as int]);
                        }
                    }
                    assert forall|b: int| 0 <= b < keys.len() implies #[trigger] counts@[b] <= j + 1 by {
                        if b != a {
                            assert(counts@[b] == old_counts[b]);
                        }
                    }
                    assert forall|b: int| 0 <= b < keys.len() implies #[trigger] firsts@[b] == session_first_ts(post, keys@[b]@) by {
                        assert(old_firsts[b] == session_first_ts(pre, keys@[b]@));
                        if b != a {
                            assert(views(keys@)[b] != views(keys@)[a as int]);
                            assert(firsts@[b] == old_firsts[b]);
                        }
                    }
                    assert forall|b: int| 0 <= b < keys.len() implies #[trigger] projects@[b]@ == session_project(post, keys@[b]@) by {
                        assert(old_counts[b] > 0);
                        assert(old_counts[b] == count_of(session_ids(pre), keys@[b]@));
                    }
                    assert forall|b: int| 0 <= b < keys.len() implies session_ids(post).contains(#[trigger] keys@[b]@) by {
                        let w = choose|w: int| 0 <= w < session_ids(pre).len() && session_ids(pre)[w] == keys@[b]@;
                        assert(session_ids(post)[w] == keys@[b]@);
                    }
                    assert forall|k: int| 0 <= k < j + 1 implies views(keys@).contains(#[trigger] s[k].session_id@) by {
                        if k == j {
                            assert(views(keys@)[a as int] == s[k].session_id@);
                        }
                    }
                }
            },
            None => {
                keys.push(m.session_id.clone());
                projects.push(m.project.clone());
                firsts.push(m.timestamp);
                counts.push(1);
                proof {
                    assert(!session_ids(pre).contains(m.session_id@)) by {
                        if session_ids(pre).contains(m.session_id@) {
                            let w = choose|w: int| 0 <= w < session_ids(pre).len() && session_ids(pre)[w] == m.session_id@;
                            assert(s[w].session_id@ == m.session_id@);
                            assert(views(old_keys).contains(s[w].session_id@));
                        }
                    }
                    lemma_count_of_absent(session_ids(pre), m.session_id@);
                    lemma_session_first_ts_absent(pre, m.session_id@);
                    assert forall|u: int, t: int|
                        0 <= u < views(keys@).len() && 0 <= t < views(keys@).len() && u != t
                        implies views(keys@)[u] != views(keys@)[t] by {
                        if u < old_keys.len() && t < old_keys.len() {
                            assert(views(old_keys)[u] == views(keys@)[u]);
                            assert(views(old_keys)[t] == views(keys@)[t]);
                        } else if u < old_keys.len() {
                            assert(views(old_keys)[u] == views(keys@)[u]);
                        } else if t < old_keys.len() {
                            assert(views(old_keys)[t] == views(keys@)[t]);
                        }
                    }
                    assert forall|b: int| 0 <= b < keys.len() implies #[trigger] counts@[b] == count_of(session_ids(post), keys@[b]@) by {
                        lemma_count_of_push(session_ids(pre), m.session_id@, keys@[b]@);
                        if b < old_keys.len() {
                            assert(keys@[b] == old_keys[b]);
                            assert(views(old_keys)[b] == old_keys[b]@);
                            assert(counts@[b] == old_counts[b]);
                        }
                    }
                    assert forall|b: int| 0 <= b < keys.len() implies #[trigger] counts@[b] <= j + 1 && counts@[b] > 0 by {
                        if b < old_keys.len() {
                            assert(counts@[b] == old_counts[b]);
                        }
                    }
                    assert forall|b: int| 0 <= b < keys.len() implies #[trigger] firsts@[b] == session_first_ts(post, keys@[b]@) by {
                        if b < old_keys.len() {
                            assert(keys@[b] == old_keys[b]);
                            assert(views(old_keys)[b] == old_keys[b]@);
                            assert(firsts@[b] == old_firsts[b]);
                            assert(old_firsts[b] == session_first_ts(pre, keys@[b]@));
                        }
                    }
                    assert forall|b: int| 0 <= b < keys.len() implies #[trigger] projects@[b]@ == session_project(post, keys@[b]@) by {
                        if b < old_keys.len() {
                            assert(keys@[b] == old_keys[b]);
                            assert(projects@[b] == old_projects[b]);
                            assert(old_counts[b] > 0);
                            assert(old_counts[b] == count_of(session_ids(pre), keys@[b]@));
                        }
                    }
                    assert forall|b: int| 0 <= b < keys.len() implies session_ids(post).contains(#[trigger] keys@[b]@) by {
                        if b < old_keys.len() {
                            assert(keys@[b] == old_keys[b]);
                            let w = choose|w: int| 0 <= w < session_ids(pre).len() && session_ids(pre)[w] == keys@[b]@;
                            assert(session_ids(post)[w] == keys@[b]@);
                        } else {
                            assert(session_ids(post)[j as int] == keys@[b]@);
                        }
                    }
                    assert forall|k: int| 0 <= k < j + 1 implies views(keys@).contains(#[trigger] s[k].session_id@) by {
                        if k == j {
                            assert(views(keys@)[old_keys.len() as int] == s[k].session_id@);
                        } else {
                            let w = choose|w: int| 0 <= w < views(old_keys).len() && views(old_keys)[w] == s[k].session_id@;
                            assert(views(keys@)[w] == s[k].session_id@);
                        }
                    }
                }
            },
        }
        j = j + 1;
    }
    proof {
        assert(s.take(msgs.len() as int) =~= s);
        assert forall|x: Seq<char>| views(keys@).contains(x) <==> session_ids(s).contains(x) by {
            if views(keys@).contains(x) {
                let a = choose|a: int| 0 <= a < views(keys@).len() && views(keys@)[a] == x;
                assert(keys@[a]@ == x);
                assert(session_ids(s.take(j as int)).contains(keys@[a]@));
            }
            if session_ids(s).contains(x) {
                let k = choose|k: int| 0 <= k < session_ids(s).len() && session_ids(s)[k] == x;
                assert(views(keys@).contains(s[k].session_id@));
            }
        }
        assert(views(keys@).to_set() =~= session_ids(s).to_set());
    }
    (keys, projects, firsts, counts)
}

/// The daily-statistics label of each message, in order.
pub open spec fn day_labels(msgs: Seq<Message>) -> Seq<Seq<char>> {
    Seq::new(msgs.len(), |i: int| day_label(msgs[i].timestamp))
}

/// The smallest timestamp in `msgs` (`i64::MAX` for no messages).
pub open spec fn earliest_of(msgs: Seq<Message>) -> int
    decreases msgs.len(),
{
    if msgs.len() == 0 {
        i64::MAX as int
    } else {
        let rest = earliest_of(msgs.drop_last());
        if (msgs.last().timestamp as int) < rest {
            msgs.last().timestamp as int
        } else {
            rest
        }
    }
}

/// The largest timestamp in `msgs` (`i64::MIN` for no messages).
pub open spec fn latest_of(msgs: Seq<Message>) -> int
    decreases msgs.len(),
{
    if msgs.len() == 0 {
        i64::MIN as int
    } else {
        let rest = latest_of(msgs.drop_last());
        if (msgs.last().timestamp as int) > rest {
            msgs.last().timestamp as int
        } else {
            rest
        }
    }
}

/// `r` lists every project of `msgs` once with its message count, counts
/// never increasing along the list.
pub open spec fn is_project_listing(msgs: Seq<Message>, r: Seq<ProjectInfo>) -> bool {
    &&& info_paths(r).no_duplicates()
    &&& info_paths(r).to_set() == project_paths(msgs).to_set()
    &&& r.len() == project_paths(msgs).to_set().len()
    &&& forall|i: int| 0 <= i < r.len() ==> #[trigger] r[i].count == count_of(project_paths(msgs), r[i].path@)
    &&& forall|i: int, j: int| 0 <= i < j < r.len() ==> #[trigger] r[i].count >= #[trigger] r[j].count
}

/// `r` lists every session of `msgs` once with the project of its first
/// message, its earliest timestamp and its message count, earliest
/// timestamps never increasing along the list.
pub open spec fn is_session_listing(msgs: Seq<Message>, r: Seq<SessionInfo>) -> bool {
    &&& info_session_ids(r).no_duplicates()
    &&& info_session_ids(r).to_set() == session_ids(msgs).to_set()
    &&& r.len() == session_ids(msgs).to_set().len()
    &&& forall|i: int| 0 <= i < r.len() ==> #[trigger] r[i].count == count_of(session_ids(msgs), r[i].session_id@)
    &&& forall|i: int| 0 <= i < r.len() ==> #[trigger] r[i].first_ts == session_first_ts(msgs, r[i].session_id@)
    &&& forall|i: int| 0 <= i < r.len() ==> #[trigger] r[i].project@ == session_project(msgs, r[i].session_id@)
    &&& forall|i: int, j: int| 0 <= i < j < r.len() ==> #[trigger] r[i].first_ts >= #[trigger] r[j].first_ts
}

/// `st` summarises `msgs`: the number of messages, distinct projects and
/// distinct sessions, the earliest and latest timestamps (none without
/// messages), and every calendar-day label once in ascending order with
/// its message count.
pub open spec fn is_stats_of(msgs: Seq<Message>, st: Stats) -> bool {
    &&& st.total_messages == msgs.len()
    &&& st.total_projects == project_paths(msgs).to_set().len()
    &&& st.total_sessions == session_ids(msgs).to_set().len()
    &&& st.earliest_ts == (if msgs.len() == 0 { None } else { Some(earliest_of(msgs) as i64) })
    &&& st.latest_ts == (if msgs.len() == 0 { None } else { Some(latest_of(msgs) as i64) })
    &&& strictly_ascending(info_dates(st.daily_counts@))
    &&& info_dates(st.daily_counts@).to_set() == day_labels(msgs).to_set()
    &&& st.daily_counts.len() == day_labels(msgs).to_set().len()
    &&& forall|a: int| 0 <= a < st.daily_counts.len() ==> #[trigger] st.daily_counts@[a].count == count_of(day_labels(msgs), st.daily_counts@[a].date@)
}

/// The loaded messages, newest first.
pub struct MessageStore {
    messages: Vec<Message>,
}

impl View for MessageStore {
    type V = Seq<Message>;

    closed spec fn view(&self) -> Seq<Message> {
        self.messages@
    }
}

impl MessageStore {
    #[verifier::type_invariant]
    spec fn well_formed(self) -> bool {
        &&& self.messages.len() <= MAX_MESSAGES
        &&& is_newest_first(self.messages@)
    }

    /// How many messages the store holds.
    pub fn len(&self) -> (n: usize)
        ensures
            n == self@.len(),
    {
        self.messages.len()
    }

    /// Builds the store from the records of a history file: lines that did
    /// not parse are skipped, the messages are ordered newest first (equal
    /// timestamps keep their file order), and only the newest
    /// `MAX_MESSAGES` are kept.
    pub fn from_parsed(entries: Vec<Option<Message>>) -> (store: MessageStore)
        ensures
            is_newest_first_of(parsed_messages(entries@), store@),
            store@.len() <= MAX_MESSAGES,
            is_newest_first(store@),
            store@.len() == if entries@.filter(crate::laws::parsed_filter()).len() <= MAX_MESSAGES {
                entries@.filter(crate::laws::parsed_filter()).len()
            } else {
                MAX_MESSAGES as nat
            },
            entries@.filter(crate::laws::parsed_filter()).len() <= MAX_MESSAGES ==> forall|i: int|
                0 <= i < entries.len() && (#[trigger] entries@[i]) is Some ==> store@.contains(entries@[i]->0),
    {
        let mut msgs: Vec<Message> = Vec::new();
        let mut i: usize = 0;
        while i < entries.len()
            invariant
                i <= entries.len(),
                msgs@ == parsed_messages(entries@.take(i as int)),
            decreases entries.len() - i,
        {
            proof {
                assert(entries@.take(i + 1).drop_last() =~= entries@.take(i as int));
            }
            match &entries[i] {
                Some(m) => msgs.push(m.duplicate()),
                None => {},
            }
            i = i + 1;
        }
        proof {
            assert(entries@.take(entries.len() as int) =~= entries@);
        }
        let ghost all = msgs@;
        let n = msgs.len();
        let mut keys: Vec<i128> = Vec::new();
        let mut k: usize = 0;
        while k < n
            invariant
                n == msgs.len(),
                k <= n,
                keys@ == timestamp_keys(msgs@).take(k as int),
            decreases n - k,
        {
            keys.push(msgs[k].timestamp as i128);
            proof {
                assert(keys@ =~= timestamp_keys(msgs@).take(k + 1));
            }
            k = k + 1;
        }
        proof {
            assert(keys@ =~= timestamp_keys(msgs@));
        }
        let order = descending_order(&keys);
        let keep = if n <= MAX_MESSAGES { n } else { MAX_MESSAGES };
        let mut kept: Vec<Message> = Vec::new();
        let mut j: usize = 0;
        while j < keep
            invariant
                keep <= n,
                n == msgs.len(),
                is_descending_order(timestamp_keys(msgs@), order@),
                j <= keep,
                kept.len() == j,
                forall|t: int| 0 <= t < j ==> kept@[t] == msgs@[#[trigger] order@[t] as int],
            decreases keep - j,
        {
            let m = msgs[order[j]].duplicate();
            kept.push(m);
            j = j + 1;
        }
        proof {
            assert(newest_first_by(msgs@, order@, kept@));
            assert forall|a: int, b: int| 0 <= a < b < kept@.len() implies #[trigger] kept@[a].timestamp >= #[trigger] kept@[b].timestamp by {
                assert(precedes(timestamp_keys(msgs@), order@[a] as int, order@[b] as int));
            }
        }
        proof {
            crate::laws::law_load_keeps_every_parsed_record(entries@, kept@);
        }
        MessageStore { messages: kept }
    }

    /// The messages in the given project scope, in store order.
    fn scoped_messages(&self, project: Option<&str>) -> (v: Vec<Message>)
        ensures
            v@ == scoped(self@, str_opt(project)),
    {
        let project_text = owned_text(project);
        let ghost f = scope_filter(str_opt(project));
        let mut v: Vec<Message> = Vec::new();
        let mut i: usize = 0;
        while i < self.messages.len()
            invariant
                i <= self.messages.len(),
                f == scope_filter(str_opt(project)),
                project_text is Some <==> project is Some,
                project_text matches Some(s) ==> s@ == project->0@,
                v@ == self.messages@.take(i as int).filter(f),
            decreases self.messages.len() - i,
        {
            let m = &self.messages[i];
            proof {
                assert(self.messages@.take(i + 1) =~= self.messages@.take(i as int).push(*m));
                self.messages@.take(i as int).lemma_filter_push(*m, f);
            }
            if text_filter_passes(&m.project, &project_text) {
                v.push(m.duplicate());
            }
            i = i + 1;
        }
        proof {
            assert(self.messages@.take(self.messages.len() as int) =~= self.messages@);
        }
        v
    }

    /// Every session in the given project scope once (all sessions when no
    /// project is given), with the project of its first message in store
    /// order, its earliest timestamp and its message count; the session
    /// with the latest earliest timestamp first.
    pub fn sessions(&self, project: Option<&str>) -> (r: Vec<SessionInfo>)
        ensures
            is_session_listing(scoped(self@, str_opt(project)), r@),
    {
        let msgs = self.scoped_messages(project);
        let (keys, projects, firsts, counts) = group_sessions(&msgs);
        let mut ks: Vec<i128> = Vec::new();
        let mut k: usize = 0;
        while k < firsts.len()
            invariant
                k <= firsts.len(),
                ks@ == ts_keys(firsts@).take(k as int),
            decreases firsts.len() - k,
        {
            ks.push(firsts[k] as i128);
            proof {
                assert(ks@ =~= ts_keys(firsts@).take(k + 1));
            }
            k = k + 1;
        }
        proof {
            assert(ks@ =~= ts_keys(firsts@));
        }
        let order = descending_order(&ks);
        let mut r: Vec<SessionInfo> = Vec::new();
        let mut k: usize = 0;
        while k < order.len()
            invariant
                k <= order.len(),
                keys.len() == projects.len() && keys.len() == firsts.len() && keys.len() == counts.len(),
                ks@ == ts_keys(firsts@),
                is_descending_order(ks@, order@),
                r.len() == k,
                forall|t: int| 0 <= t < k ==> #[trigger] r@[t].session_id@ == keys@[order@[t] as int]@
                    && r@[t].project@ == projects@[order@[t] as int]@
                    && r@[t].first_ts == firsts@[order@[t] as int]
                    && r@[t].count == counts@[order@[t] as int],
            decreases order.len() - k,
        {
            let a = order[k];
            let ghost old_r = r@;
            r.push(SessionInfo {
                session_id: keys[a].clone(),
                project: projects[a].clone(),
                first_ts: firsts[a],
                count: counts[a],
            });
            proof {
                assert forall|t: int| 0 <= t < k + 1 implies #[trigger] r@[t].session_id@ == keys@[order@[t] as int]@
                    && r@[t].project@ == projects@[order@[t] as int]@
                    && r@[t].first_ts == firsts@[order@[t] as int]
                    && r@[t].count == counts@[order@[t] as int] by {
                    if t < k {
                        assert(r@[t] == old_r[t]);
                    }
                }
            }
            k = k + 1;
        }
        proof {
            assert forall|s: int, t: int| 0 <= s < t < r.len() implies #[trigger] r@[s].first_ts >= #[trigger] r@[t].first_ts by {
                assert(precedes(ks@, order@[s] as int, order@[t] as int));
                assert(r@[s].session_id@ == keys@[order@[s] as int]@);
                assert(r@[t].session_id@ == keys@[order@[t] as int]@);
            }
            assert forall|s: int, t: int|
                0 <= s < info_session_ids(r@).len() && 0 <= t < info_session_ids(r@).len() && s != t
                implies info_session_ids(r@)[s] != info_session_ids(r@)[t] by {
                let (lo, hi) = if s < t { (s, t) } else { (t, s) };
                assert(precedes(ks@, order@[lo] as int, order@[hi] as int));
                assert(views(keys@)[order@[s] as int] == info_session_ids(r@)[s]);
                assert(views(keys@)[order@[t] as int] == info_session_ids(r@)[t]);
            }
            assert forall|x: Seq<char>| info_session_ids(r@).contains(x) <==> views(keys@).contains(x) by {
                if info_session_ids(r@).contains(x) {
                    let t = choose|t: int| 0 <= t < info_session_ids(r@).len() && info_session_ids(r@)[t] == x;
                    assert(views(keys@)[order@[t] as int] == x);
                }
                if views(keys@).contains(x) {
                    let a = choose|a: int| 0 <= a < views(keys@).len() && views(keys@)[a] == x;
                    assert(occurs(order@, a));
                    let t = choose|t: int| 0 <= t < order@.len() && order@[t] == a;
                    assert(info_session_ids(r@)[t] == x);
                }
            }
            assert(info_session_ids(r@).to_set() =~= views(keys@).to_set());
            info_session_ids(r@).unique_seq_to_set();
        }
        r
    }

    /// The session id of every message, in store order.
    fn session_texts(&self) -> (v: Vec<String>)
        ensures
            views(v@) == session_ids(self@),
    {
        let mut v: Vec<String> = Vec::new();
        let mut i: usize = 0;
        while i < self.messages.len()
            invariant
                i <= self.messages.len(),
                v.len() == i,
                forall|k: int| 0 <= k < i ==> #[trigger] v@[k]@ == self.messages@[k].session_id@,
            decreases self.messages.len() - i,
        {
            v.push(self.messages[i].session_id.clone());
            i = i + 1;
        }
        proof {
            assert(views(v@) =~= session_ids(self.messages@));
        }
        v
    }

    /// The number of distinct texts in a list.
    fn distinct_count(items: &Vec<String>) -> (n: usize)
        ensures
            n == views(items@).to_set().len(),
    {
        let (keys, _counts) = tally(items);
        proof {
            views(keys@).unique_seq_to_set();
        }
        keys.len()
    }

    /// Summary figures: how many messages, projects and sessions there
    /// are, the earliest and latest timestamps (none for an empty store),
    /// and the message count of each calendar day in ascending order of
    /// the day's text.
    pub fn stats(&self) -> (st: Stats)
        ensures
            is_stats_of(self@, st),
    {
        let n = self.messages.len();
        if n == 0 {
            proof {
                assert(project_paths(self@).to_set() =~= Set::empty());
                assert(session_ids(self@).to_set() =~= Set::empty());
                assert(day_labels(self@).to_set() =~= Set::empty());
                assert(info_dates(Seq::<DailyCount>::empty()).to_set() =~= Set::empty());
            }
            return Stats {
                total_messages: 0,
                total_projects: 0,
                total_sessions: 0,
                earliest_ts: None,
                latest_ts: None,
                daily_counts: Vec::new(),
            };
        }
        let total_projects = Self::distinct_count(&self.project_texts());
        let total_sessions = Self::distinct_count(&self.session_texts());
        let mut earliest: i64 = i64::MAX;
        let mut latest: i64 = i64::MIN;
        let mut labels: Vec<String> = Vec::new();
        let mut i: usize = 0;
        while i < n
            invariant
                n == self.messages.len(),
                i <= n,
                earliest == earliest_of(self.messages@.take(i as int)),
                latest == latest_of(self.messages@.take(i as int)),
                labels.len() == i,
                forall|k: int| 0 <= k < i ==> #[trigger] labels@[k]@ == day_label(self.messages@[k].timestamp),
            decreases n - i,
        {
            let m = &self.messages[i];
            proof {
                assert(self.messages@.take(i + 1).drop_last() =~= self.messages@.take(i as int));
            }
            if m.timestamp < earliest {
                earliest = m.timestamp;
            }
            if m.timestamp > latest {
                latest = m.timestamp;
            }
            labels.push(day_label_of(m.timestamp));
            i = i + 1;
        }
        proof {
            assert(self.messages@.take(n as int) =~= self.messages@);
            assert(views(labels@) =~= day_labels(self.messages@));
        }
        let daily_counts = tally_days(&labels);
        Stats {
            total_messages: n,
            total_projects,
            total_sessions,
            earliest_ts: Some(earliest),
            latest_ts: Some(latest),
            daily_counts,
        }
    }

    /// The project path of every message, in store order.
    fn project_texts(&self) -> (v: Vec<String>)
        ensures
            views(v@) == project_paths(self@),
    {
        let mut v: Vec<String> = Vec::new();
        let mut i: usize = 0;
        while i < self.messages.len()
            invariant
                i <= self.messages.len(),
                v.len() == i,
                forall|k: int| 0 <= k < i ==> #[trigger] v@[k]@ == self.messages@[k].project@,
            decreases self.messages.len() - i,
        {
            v.push(self.messages[i].project.clone());
            i = i + 1;
        }
        proof {
            assert(views(v@) =~= project_paths(self.messages@));
        }
        v
    }

    /// Every project once, with how many messages it holds, the busiest
    /// first.
    pub fn projects(&self) -> (r: Vec<ProjectInfo>)
        ensures
            is_project_listing(self@, r@),
    {
        let items = self.project_texts();
        let (keys, counts) = tally(&items);
        let ks = keys_of_counts(&counts);
        let order = descending_order(&ks);
        let mut r: Vec<ProjectInfo> = Vec::new();
        let mut k: usize = 0;
        while k < order.len()
            invariant
                k <= order.len(),
                keys.len() == counts.len(),
                ks@ == count_keys(counts@),
                is_descending_order(ks@, order@),
                r.len() == k,
                forall|t: int| 0 <= t < k ==> #[trigger] r@[t].path@ == keys@[order@[t] as int]@,
                forall|t: int| 0 <= t < k ==> #[trigger] r@[t].count == counts@[order@[t] as int],
            decreases order.len() - k,
        {
            let a = order[k];
            let ghost old_r = r@;
            r.push(ProjectInfo { path: keys[a].clone(), count: counts[a] });
            proof {
                assert forall|t: int| 0 <= t < k + 1 implies #[trigger] r@[t].path@ == keys@[order@[t] as int]@ && r@[t].count == counts@[order@[t] as int] by {
                    if t < k {
                        assert(r@[t] == old_r[t]);
                    }
                }
            }
            k = k + 1;
        }
        proof {
            let pv = project_paths(self@);
            assert(views(items@) == pv);
            assert forall|s: int, t: int| 0 <= s < t < r.len() implies #[trigger] r@[s].count >= #[trigger] r@[t].count by {
                assert(precedes(ks@, order@[s] as int, order@[t] as int));
            }
            assert forall|s: int, t: int|
                0 <= s < info_paths(r@).len() && 0 <= t < info_paths(r@).len() && s != t
                implies info_paths(r@)[s] != info_paths(r@)[t] by {
                let (lo, hi) = if s < t { (s, t) } else { (t, s) };
                assert(precedes(ks@, order@[lo] as int, order@[hi] as int));
                assert(views(keys@)[order@[s] as int] == info_paths(r@)[s]);
                assert(views(keys@)[order@[t] as int] == info_paths(r@)[t]);
            }
            assert forall|x: Seq<char>| info_paths(r@).contains(x) <==> views(keys@).contains(x) by {
                if info_paths(r@).contains(x) {
                    let t = choose|t: int| 0 <= t < info_paths(r@).len() && info_paths(r@)[t] == x;
                    assert(views(keys@)[order@[t] as int] == x);
                }
                if views(keys@).contains(x) {
                    let a = choose|a: int| 0 <= a < views(keys@).len() && views(keys@)[a] == x;
                    assert(occurs(order@, a));
                    let t = choose|t: int| 0 <= t < order@.len() && order@[t] == a;
                    assert(info_paths(r@)[t] == x);
                }
            }
            assert(info_paths(r@).to_set() =~= views(keys@).to_set());
            info_paths(r@).unique_seq_to_set();
        }
        r
    }

    /// The messages that pass the query, newest first: `total` counts them
    /// all, `messages` holds those left after skipping `offset` and taking
    /// at most `limit`.
    pub fn query_messages(
        &self,
        project: Option<&str>,
        session: Option<&str>,
        q: Option<&str>,
        from: Option<i64>,
        to: Option<i64>,
        offset: usize,
        limit: usize,
    ) -> (resp: MessagesResponse)
        ensures
            resp.total == query_matches(self@, str_opt(project), str_opt(session), str_opt(q), from, to).len(),
            resp.messages@ == page(
                query_matches(self@, str_opt(project), str_opt(session), str_opt(q), from, to),
                offset as int,
                limit as int,
            ),
            is_newest_first(resp.messages@),
            q is Some && vstd::utf8::is_ascii_chars(q->0@) ==> forall|k: int|
                0 <= k < self@.len() && vstd::utf8::is_ascii_chars((#[trigger] self@[k]).display@)
                && (project is Some ==> self@[k].project@ == project->0@)
                && (session is Some ==> self@[k].session_id@ == session->0@)
                && (from is Some ==> self@[k].timestamp >= from->0)
                && (to is Some ==> self@[k].timestamp <= to->0)
                && is_substring(ascii_lowercase(q->0@), ascii_lowercase(self@[k].display@))
                ==> query_matches(self@, str_opt(project), str_opt(session), str_opt(q), from, to).contains(self@[k]),
    {
        proof {
            use_type_invariant(self);
            lemma_filter_keeps_newest_first(self@, query_filter(str_opt(project), str_opt(session), str_opt(q), from, to));
            lemma_page_keeps_newest_first(query_matches(self@, str_opt(project), str_opt(session), str_opt(q), from, to), offset as int, limit as int);
        }
        let project_text = owned_text(project);
        let session_text = owned_text(session);
        let q_lower = lowered_text(q);
        let ghost f = query_filter(str_opt(project), str_opt(session), str_opt(q), from, to);
        let n = self.messages.len();
        let mut total: usize = 0;
        let mut out: Vec<Message> = Vec::new();
        let mut i: usize = 0;
        while i < n
            invariant
                n == self.messages.len(),
                i <= n,
                f == query_filter(str_opt(project), str_opt(session), str_opt(q), from, to),
                project_text is Some <==> project is Some,
                project_text matches Some(s) ==> s@ == project->0@,
                session_text is Some <==> session is Some,
                session_text matches Some(s) ==> s@ == session->0@,
                q_lower is Some <==> q is Some,
                q_lower matches Some(s) ==> s@ == lowercase(q->0@),
                total == self.messages@.take(i as int).filter(f).len(),
                out@ == page(self.messages@.take(i as int).filter(f), offset as int, limit as int),
                forall|k: int| 0 <= k < i && q is Some
                    && (project is Some ==> (#[trigger] self.messages@[k]).project@ == project->0@)
                    && (session is Some ==> self.messages@[k].session_id@ == session->0@)
                    && vstd::utf8::is_ascii_chars(self.messages@[k].display@)
                    ==> lowercase(self.messages@[k].display@) == ascii_lowercase(self.messages@[k].display@),
            decreases n - i,
        {
            let m = &self.messages[i];
            let ghost g = self.messages@.take(i as int).filter(f);
            proof {
                assert(self.messages@.take(i + 1) =~= self.messages@.take(i as int).push(*m));
                self.messages@.take(i as int).lemma_filter_push(*m, f);
            }
            if message_passes(m, project, session, q, from, to, &project_text, &session_text, &q_lower) {
                proof {
                    assert(f(*m));
                }
                if total >= offset && total - offset < limit {
                    out.push(m.duplicate());
                    proof {
                        assert(out@ =~= page(g.push(*m), offset as int, limit as int));
                    }
                } else {
                    proof {
                        assert(out@ =~= page(g.push(*m), offset as int, limit as int));
                    }
                }
                total = total + 1;
            }
            i = i + 1;
        }
        proof {
            assert(self.messages@.take(n as int) =~= self.messages@);
            if q is Some && vstd::utf8::is_ascii_chars(q->0@) {
                assert forall|k: int|
                    0 <= k < self@.len() && vstd::utf8::is_ascii_chars((#[trigger] self@[k]).display@)
                    && (project is Some ==> self@[k].project@ == project->0@)
                    && (session is Some ==> self@[k].session_id@ == session->0@)
                    && (from is Some ==> self@[k].timestamp >= from->0)
                    && (to is Some ==> self@[k].timestamp <= to->0)
                    && is_substring(ascii_lowercase(q->0@), ascii_lowercase(self@[k].display@))
                    implies query_matches(self@, str_opt(project), str_opt(session), str_opt(q), from, to).contains(self@[k]) by {
                    assert(lowercase(self.messages@[k].display@) == ascii_lowercase(self.messages@[k].display@));
                    assert(f(self@[k]));
                    self@.lemma_filter_contains(f, k);
                }
            }
        }
        MessagesResponse { total, messages: out }
    }
}

} // verus!
