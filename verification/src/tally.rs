//! Counting how often each text occurs in a list of texts.

use vstd::prelude::*;

verus! {

/// The character sequences of a list of strings.
pub open spec fn views(v: Seq<String>) -> Seq<Seq<char>> {
    Seq::new(v.len(), |i: int| v[i]@)
}

/// How many items of `items` equal `x`.
pub open spec fn count_of(items: Seq<Seq<char>>, x: Seq<char>) -> nat
    decreases items.len(),
{
    if items.len() == 0 {
        0
    } else {
        count_of(items.drop_last(), x) + if items.last() == x {
            1nat
        } else {
            0nat
        }
    }
}

/// An item that does not occur is counted zero times.
pub proof fn lemma_count_of_absent(items: Seq<Seq<char>>, x: Seq<char>)
    requires
        !items.contains(x),
    ensures
        count_of(items, x) == 0,
    decreases items.len(),
{
    if items.len() > 0 {
        assert(items.last() == items[items.len() - 1]);
        assert forall|k: int| 0 <= k < items.drop_last().len() implies items.drop_last()[k] != x by {
            assert(items.drop_last()[k] == items[k]);
        }
        lemma_count_of_absent(items.drop_last(), x);
    }
}

/// An item that occurs is counted at least once.
pub proof fn lemma_count_of_present(items: Seq<Seq<char>>, k: int)
    requires
        0 <= k < items.len(),
    ensures
        count_of(items, items[k]) > 0,
    decreases items.len(),
{
    if k < items.len() - 1 {
        assert(items.drop_last()[k] == items[k]);
        lemma_count_of_present(items.drop_last(), k);
    }
}

/// A count never exceeds the number of items.
pub proof fn lemma_count_of_bound(items: Seq<Seq<char>>, x: Seq<char>)
    ensures
        count_of(items, x) <= items.len(),
    decreases items.len(),
{
    if items.len() > 0 {
        lemma_count_of_bound(items.drop_last(), x);
    }
}

/// Counting over one more item.
pub proof fn lemma_count_of_push(items: Seq<Seq<char>>, y: Seq<char>, x: Seq<char>)
    ensures
        count_of(items.push(y), x) == count_of(items, x) + if y == x {
            1nat
        } else {
            0nat
        },
{
    assert(items.push(y).drop_last() =~= items);
}

/// Position of `x` among `keys`, if it is there.
pub(crate) fn find_text(keys: &Vec<String>, x: &String) -> (r: Option<usize>)
    ensures
        r matches Some(a) ==> a < keys.len() && keys@[a as int]@ == x@,
        r is None ==> !views(keys@).contains(x@),
{
    let mut a: usize = 0;
    while a < keys.len()
        invariant
            a <= keys.len(),
            forall|b: int| 0 <= b < a ==> keys@[b]@ != x@,
        decreases keys.len() - a,
    {
        if keys[a] == *x {
            return Some(a);
        }
        a = a + 1;
    }
    proof {
        assert forall|b: int| 0 <= b < views(keys@).len() implies views(keys@)[b] != x@ by {
            assert(views(keys@)[b] == keys@[b]@);
        }
    }
    None
}

/// The distinct texts of `items` in order of first occurrence, each with
/// how often it occurs.
pub(crate) fn tally(items: &Vec<String>) -> (r: (Vec<String>, Vec<usize>))
    ensures
        r.0.len() == r.1.len(),
        views(r.0@).no_duplicates(),
        forall|a: int| 0 <= a < r.1.len() ==> #[trigger] r.1@[a] == count_of(views(items@), r.0@[a]@),
        forall|a: int| 0 <= a < r.1.len() ==> #[trigger] r.1@[a] > 0,
        views(r.0@).to_set() == views(items@).to_set(),
{
    let ghost iv = views(items@);
    let mut keys: Vec<String> = Vec::new();
    let mut counts: Vec<usize> = Vec::new();
    let mut i: usize = 0;
    while i < items.len()
        invariant
            iv == views(items@),
            i <= items.len(),
            keys.len() == counts.len(),
            views(keys@).no_duplicates(),
            forall|a: int| 0 <= a < counts.len() ==> #[trigger] counts@[a] == count_of(iv.take(i as int), keys@[a]@),
            forall|a: int| 0 <= a < counts.len() ==> #[trigger] counts@[a] > 0,
            forall|a: int| 0 <= a < keys.len() ==> iv.take(i as int).contains(#[trigger] keys@[a]@),
            forall|k: int| 0 <= k < i ==> views(keys@).contains(#[trigger] iv[k]),
        decreases items.len() - i,
    {
        let x = &items[i];
        proof {
            assert(iv.take(i + 1) =~= iv.take(i as int).push(x@));
            assert(iv[i as int] == x@);
        }
        let ghost old_keys = keys@;
        let ghost old_counts = counts@;
        match find_text(&keys, x) {
            Some(a) => {
                proof {
                    lemma_count_of_bound(iv.take(i as int), x@);
                }
                let c = counts[a];
                counts.set(a, c + 1);
                proof {
                    assert forall|b: int| 0 <= b < counts.len() implies #[trigger] counts@[b] == count_of(iv.take(i + 1), keys@[b]@) by {
                        lemma_count_of_push(iv.take(i as int), x@, keys@[b]@);
                        if b != a {
                            assert(views(keys@)[b] != views(keys@)[a as int]);
                        }
                    }
                    assert forall|b: int| 0 <= b < keys.len() implies iv.take(i + 1).contains(#[trigger] keys@[b]@) by {
                        let w = choose|w: int| 0 <= w < iv.take(i as int).len() && iv.take(i as int)[w] == keys@[b]@;
                        assert(iv.take(i + 1)[w] == keys@[b]@);
                    }
                    assert forall|k: int| 0 <= k < i + 1 implies views(keys@).contains(#[trigger] iv[k]) by {
                        if k == i {
                            assert(views(keys@)[a as int] == iv[k]);
                        }
                    }
                }
            },
            None => {
                keys.push(x.clone());
                counts.push(1);
                proof {
                    assert(!iv.take(i as int).contains(x@)) by {
                        if iv.take(i as int).contains(x@) {
                            let w = choose|w: int| 0 <= w < iv.take(i as int).len() && iv.take(i as int)[w] == x@;
                            assert(iv[w] == x@);
                            assert(views(old_keys).contains(iv[w]));
                        }
                    }
                    lemma_count_of_absent(iv.take(i as int), x@);
                    assert forall|s: int, t: int|
                        0 <= s < views(keys@).len() && 0 <= t < views(keys@).len() && s != t
                        implies views(keys@)[s] != views(keys@)[t] by {
                        if s < old_keys.len() && t < old_keys.len() {
                            assert(views(old_keys)[s] == views(keys@)[s]);
                            assert(views(old_keys)[t] == views(keys@)[t]);
                        } else if s < old_keys.len() {
                            assert(views(old_keys)[s] == views(keys@)[s]);
                        } else if t < old_keys.len() {
                            assert(views(old_keys)[t] == views(keys@)[t]);
                        }
                    }
                    assert forall|b: int| 0 <= b < counts.len() implies #[trigger] counts@[b] == count_of(iv.take(i + 1), keys@[b]@) by {
                        lemma_count_of_push(iv.take(i as int), x@, keys@[b]@);
                        if b < old_keys.len() {
                            assert(keys@[b] == old_keys[b]);
                            assert(views(old_keys).contains(old_keys[b]@)) by {
                                assert(views(old_keys)[b] == old_keys[b]@);
                            }
                        }
                    }
                    assert forall|b: int| 0 <= b < keys.len() implies iv.take(i + 1).contains(#[trigger] keys@[b]@) by {
                        if b < old_keys.len() {
                            assert(keys@[b] == old_keys[b]);
                            let w = choose|w: int| 0 <= w < iv.take(i as int).len() && iv.take(i as int)[w] == keys@[b]@;
                            assert(iv.take(i + 1)[w] == keys@[b]@);
                        } else {
                            assert(iv.take(i + 1)[i as int] == keys@[b]@);
                        }
                    }
                    assert forall|k: int| 0 <= k < i + 1 implies views(keys@).contains(#[trigger] iv[k]) by {
                        if k == i {
                            assert(views(keys@)[old_keys.len() as int] == iv[k]);
                        } else {
                            let w = choose|w: int| 0 <= w < views(old_keys).len() && views(old_keys)[w] == iv[k];
                            assert(views(keys@)[w] == iv[k]);
                        }
                    }
                }
            },
        }
        i = i + 1;
    }
    proof {
        assert(iv.take(items.len() as int) =~= iv);
        assert forall|x: Seq<char>| views(keys@).contains(x) <==> iv.contains(x) by {
            if views(keys@).contains(x) {
                let a = choose|a: int| 0 <= a < views(keys@).len() && views(keys@)[a] == x;
                assert(keys@[a]@ == x);
                assert(iv.take(i as int).contains(keys@[a]@));
            }
            if iv.contains(x) {
                let k = choose|k: int| 0 <= k < iv.len() && iv[k] == x;
                assert(views(keys@).contains(iv[k]));
            }
        }
        assert(views(keys@).to_set() =~= iv.to_set());
    }
    (keys, counts)
}

} // verus!
