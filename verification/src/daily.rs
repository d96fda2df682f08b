//! Message counts per calendar day, ordered by the day's text.

use vstd::prelude::*;
use crate::models::DailyCount;
use crate::tally::{count_of, lemma_count_of_absent, lemma_count_of_bound, lemma_count_of_push, views};
use crate::text::{chars_less, chars_less_exec, chars_of, lemma_chars_less_asymmetric, lemma_chars_less_total, lemma_chars_less_transitive};

verus! {

/// The dates of a daily listing, in order.
pub open spec fn info_dates(r: Seq<DailyCount>) -> Seq<Seq<char>> {
    Seq::new(r.len(), |i: int| r[i].date@)
}

/// The texts of `v` are in strictly ascending lexicographic order.
pub open spec fn strictly_ascending(v: Seq<Seq<char>>) -> bool {
    forall|s: int, t: int| 0 <= s < t < v.len() ==> #[trigger] chars_less(v[s], v[t])
}

/// Exact lexicographic comparison of two strings.
pub fn string_less(a: &String, b: &String) -> (r: bool)
    ensures
        r == chars_less(a@, b@),
{
    let x = chars_of(a.as_str());
    let y = chars_of(b.as_str());
    chars_less_exec(&x, &y)
}

/// Strictly ascending texts hold no text twice.
pub proof fn lemma_ascending_no_duplicates(v: Seq<Seq<char>>)
    requires
        strictly_ascending(v),
    ensures
        v.no_duplicates(),
{
    assert forall|s: int, t: int| 0 <= s < v.len() && 0 <= t < v.len() && s != t implies v[s] != v[t] by {
        lemma_chars_less_asymmetric(v[s], v[t]);
        if s < t {
            assert(chars_less(v[s], v[t]));
        } else {
            assert(chars_less(v[t], v[s]));
        }
    }
}

/// Each distinct label once, in ascending order of its text, with how
/// many times it occurs.
pub fn tally_days(labels: &Vec<String>) -> (r: Vec<DailyCount>)
    ensures
        strictly_ascending(info_dates(r@)),
        info_dates(r@).to_set() == views(labels@).to_set(),
        r.len() == views(labels@).to_set().len(),
        forall|a: int| 0 <= a < r.len() ==> #[trigger] r@[a].count == count_of(views(labels@), r@[a].date@),
{
    let ghost lv = views(labels@);
    let mut days: Vec<String> = Vec::new();
    let mut counts: Vec<usize> = Vec::new();
    let mut i: usize = 0;
    while i < labels.len()
        invariant
            lv == views(labels@),
            i <= labels.len(),
            days.len() == counts.len(),
            strictly_ascending(views(days@)),
            forall|a: int| 0 <= a < days.len() ==> #[trigger] counts@[a] == count_of(lv.take(i as int), days@[a]@),
            forall|a: int| 0 <= a < days.len() ==> #[trigger] counts@[a] > 0,
            forall|a: int| 0 <= a < days.len() ==> lv.take(i as int).contains(#[trigger] days@[a]@),
            forall|k: int| 0 <= k < i ==> views(days@).contains(#[trigger] lv[k]),
        decreases labels.len() - i,
    {
        let x = &labels[i];
        let ghost pre = lv.take(i as int);
        let ghost post = lv.take(i + 1);
        proof {
            assert(post =~= pre.push(x@));
            assert(lv[i as int] == x@);
            lemma_count_of_bound(pre, x@);
        }
        let mut p: usize = 0;
        while p < days.len() && string_less(&days[p], x)
            invariant
                p <= days.len(),
                forall|q: int| 0 <= q < p ==> chars_less(#[trigger] days@[q]@, x@),
            decreases days.len() - p,
        {
            p = p + 1;
        }
        let ghost old_days = days@;
        let ghost old_counts = counts@;
        if p < days.len() && days[p] == *x {
            let c = counts[p];
            proof {
                lemma_count_of_bound(pre, days@[p as int]@);
            }
            counts.set(p, c + 1);
            proof {
                assert forall|b: int| 0 <= b < days.len() implies #[trigger] counts@[b] == count_of(post, days@[b]@) by {
                    lemma_count_of_push(pre, x@, days@[b]@);
                    if b != p {
                        assert(views(days@)[b] != views(days@)[p as int]) by {
                            lemma_ascending_no_duplicates(views(days@));
                        }
                    }
                }
                assert forall|b: int| 0 <= b < days.len() implies #[trigger] counts@[b] > 0 by {
                    if b != p {
                        assert(counts@[b] == old_counts[b]);
                    }
                }
                assert forall|b: int| 0 <= b < days.len() implies post.contains(#[trigger] days@[b]@) by {
                    let w = choose|w: int| 0 <= w < pre.len() && pre[w] == days@[b]@;
                    assert(post[w] == days@[b]@);
                }
                assert forall|k: int| 0 <= k < i + 1 implies views(days@).contains(#[trigger] lv[k]) by {
                    if k == i {
                        assert(views(days@)[p as int] == lv[k]);
                    }
                }
            }
        } else {
            proof {
                assert(!pre.contains(x@)) by {
                    if pre.contains(x@) {
                        let w = choose|w: int| 0 <= w < pre.len() && pre[w] == x@;
                        assert(lv[w] == x@);
                        assert(views(old_days).contains(lv[w]));
                        let a = choose|a: int| 0 <= a < views(old_days).len() && views(old_days)[a] == x@;
                        if a < p {
                            assert(chars_less(old_days[a]@, x@));
                            lemma_chars_less_asymmetric(x@, x@);
                        } else if a == p {
                        } else {
                            assert(chars_less(views(old_days)[p as int], views(old_days)[a]));
                            if old_days[p as int]@ != x@ {
                                lemma_chars_less_total(old_days[p as int]@, x@);
                            }
                            lemma_chars_less_asymmetric(x@, old_days[p as int]@);
                        }
                    }
                }
                if p < days.len() {
                    lemma_chars_less_total(days@[p as int]@, x@);
                    assert(chars_less(x@, days@[p as int]@));
                }
                lemma_count_of_absent(pre, x@);
            }
            days.insert(p, x.clone());
            counts.insert(p, 1);
            proof {
                assert forall|s: int, t: int| 0 <= s < t < views(days@).len() implies #[trigger] chars_less(views(days@)[s], views(days@)[t]) by {
                    if t < p {
                        assert(views(old_days)[s] == views(days@)[s]);
                        assert(views(old_days)[t] == views(days@)[t]);
                    } else if t == p {
                        assert(views(days@)[s] == old_days[s]@);
                    } else if s > p {
                        assert(views(old_days)[s - 1] == views(days@)[s]);
                        assert(views(old_days)[t - 1] == views(days@)[t]);
                    } else if s == p {
                        assert(views(days@)[t] == old_days[t - 1]@);
                        if t - 1 > p {
                            assert(chars_less(views(old_days)[p as int], views(old_days)[t - 1]));
                            lemma_chars_less_transitive(x@, old_days[p as int]@, old_days[t - 1]@);
                        }
                    } else {
                        assert(views(days@)[s] == old_days[s]@);
                        assert(views(days@)[t] == old_days[t - 1]@);
                        assert(chars_less(views(old_days)[s], views(old_days)[t - 1]));
                    }
                }
                assert forall|b: int| 0 <= b < days.len() implies #[trigger] counts@[b] == count_of(post, days@[b]@) && counts@[b] > 0 by {
                    lemma_count_of_push(pre, x@, days@[b]@);
                    if b < p {
                        assert(days@[b] == old_days[b]);
                        assert(counts@[b] == old_counts[b]);
                        assert(views(old_days).contains(old_days[b]@)) by {
                            assert(views(old_days)[b] == old_days[b]@);
                        }
                    } else if b > p {
                        assert(days@[b] == old_days[b - 1]);
                        assert(counts@[b] == old_counts[b - 1]);
                        assert(views(old_days).contains(old_days[b - 1]@)) by {
                            assert(views(old_days)[b - 1] == old_days[b - 1]@);
                        }
                    }
                }
                assert forall|b: int| 0 <= b < days.len() implies post.contains(#[trigger] days@[b]@) by {
                    if b == p {
                        assert(post[i as int] == days@[b]@);
                    } else {
                        let ob = if b < p { b } else { b - 1 };
                        assert(days@[b] == old_days[ob]);
                        let w = choose|w: int| 0 <= w < pre.len() && pre[w] == old_days[ob]@;
                        assert(post[w] == days@[b]@);
                    }
                }
                assert forall|k: int| 0 <= k < i + 1 implies views(days@).contains(#[trigger] lv[k]) by {
                    if k == i {
                        assert(views(days@)[p as int] == lv[k]);
                    } else {
                        let w = choose|w: int| 0 <= w < views(old_days).len() && views(old_days)[w] == lv[k];
                        if w < p {
                            assert(views(days@)[w] == lv[k]);
                        } else {
                            assert(views(days@)[w + 1] == lv[k]);
                        }
                    }
                }
            }
        }
        i = i + 1;
    }
    let mut r: Vec<DailyCount> = Vec::new();
    let mut k: usize = 0;
    while k < days.len()
        invariant
            k <= days.len(),
            days.len() == counts.len(),
            r.len() == k,
            forall|t: int| 0 <= t < k ==> #[trigger] r@[t].date@ == days@[t]@ && r@[t].count == counts@[t],
        decreases days.len() - k,
    {
        let ghost old_r = r@;
        r.push(DailyCount { date: days[k].clone(), count: counts[k] });
        proof {
            assert forall|t: int| 0 <= t < k + 1 implies #[trigger] r@[t].date@ == days@[t]@ && r@[t].count == counts@[t] by {
                if t < k {
                    assert(r@[t] == old_r[t]);
                }
            }
        }
        k = k + 1;
    }
    proof {
        assert(lv.take(labels.len() as int) =~= lv);
        assert(info_dates(r@) =~= views(days@));
        assert forall|x: Seq<char>| views(days@).contains(x) <==> lv.contains(x) by {
            if views(days@).contains(x) {
                let a = choose|a: int| 0 <= a < views(days@).len() && views(days@)[a] == x;
                assert(days@[a]@ == x);
                assert(lv.take(i as int).contains(days@[a]@));
            }
            if lv.contains(x) {
                let k = choose|k: int| 0 <= k < lv.len() && lv[k] == x;
                assert(views(days@).contains(lv[k]));
            }
        }
        assert(views(days@).to_set() =~= lv.to_set());
        lemma_ascending_no_duplicates(views(days@));
        views(days@).unique_seq_to_set();
    }
    r
}

} // verus!
