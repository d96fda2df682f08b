//! A stable ordering of positions by descending integer key, computed by a
//! verified merge sort.  Ties between equal keys keep their original order.

use vstd::prelude::*;

verus! {

/// Position `a` comes before position `b`: its key is larger, or the keys
/// are equal and `a` is the earlier position.
pub open spec fn precedes(keys: Seq<i128>, a: int, b: int) -> bool {
    keys[a] > keys[b] || (keys[a] == keys[b] && a < b)
}

/// `p` lists positions of `keys` from `lo` (inclusive) to `hi` (exclusive),
/// each in range and in strictly `precedes` order.
pub open spec fn is_sorted_run(keys: Seq<i128>, p: Seq<usize>, lo: int, hi: int) -> bool {
    &&& forall|i: int| 0 <= i < p.len() ==> lo <= #[trigger] p[i] < hi
    &&& forall|i: int, j: int|
        0 <= i < j < p.len() ==> #[trigger] precedes(keys, p[i] as int, p[j] as int)
}

/// Position `x` occurs in `p`.
pub open spec fn occurs(p: Seq<usize>, x: int) -> bool {
    exists|k: int| 0 <= k < p.len() && p[k] == x
}

/// Every position from `lo` to `hi` occurs in `p`.
pub open spec fn covers(p: Seq<usize>, lo: int, hi: int) -> bool {
    forall|x: int| lo <= x < hi ==> #[trigger] occurs(p, x)
}

/// `p` is the stable descending order of `keys`: every position exactly
/// once, larger keys first, equal keys in their original order.
pub open spec fn is_descending_order(keys: Seq<i128>, p: Seq<usize>) -> bool {
    &&& p.len() == keys.len()
    &&& is_sorted_run(keys, p, 0, keys.len() as int)
    &&& covers(p, 0, keys.len() as int)
}

fn merge(keys: &Vec<i128>, a: Vec<usize>, b: Vec<usize>, lo: Ghost<int>, mid: Ghost<int>, hi: Ghost<int>) -> (r: Vec<usize>)
    requires
        0 <= lo@ <= mid@ <= hi@ <= keys.len(),
        is_sorted_run(keys@, a@, lo@, mid@),
        is_sorted_run(keys@, b@, mid@, hi@),
        covers(a@, lo@, mid@),
        covers(b@, mid@, hi@),
    ensures
        r.len() == a.len() + b.len(),
        is_sorted_run(keys@, r@, lo@, hi@),
        covers(r@, lo@, hi@),
{
    let mut r: Vec<usize> = Vec::new();
    let mut i: usize = 0;
    let mut j: usize = 0;
    while i < a.len() || j < b.len()
        invariant
            0 <= lo@ <= mid@ <= hi@ <= keys.len(),
            is_sorted_run(keys@, a@, lo@, mid@),
            is_sorted_run(keys@, b@, mid@, hi@),
            i <= a.len(),
            j <= b.len(),
            r.len() == i + j,
            is_sorted_run(keys@, r@, lo@, hi@),
            forall|s: int| 0 <= s < i ==> occurs(r@, #[trigger] a@[s] as int),
            forall|s: int| 0 <= s < j ==> occurs(r@, #[trigger] b@[s] as int),
            i < a.len() ==> forall|x: int| 0 <= x < r.len() ==> precedes(keys@, #[trigger] r@[x] as int, a@[i as int] as int),
            j < b.len() ==> forall|x: int| 0 <= x < r.len() ==> precedes(keys@, #[trigger] r@[x] as int, b@[j as int] as int),
        decreases a.len() + b.len() - i - j,
    {
        let take_a = if i < a.len() && j < b.len() {
            let x = a[i];
            let y = b[j];
            keys[x] > keys[y] || (keys[x] == keys[y] && x < y)
        } else {
            i < a.len()
        };
        let ghost old_r = r@;
        if take_a {
            let x = a[i];
            r.push(x);
            proof {
                assert(r@[old_r.len() as int] == a@[i as int]);
                assert forall|s: int| 0 <= s < i + 1 implies occurs(r@, #[trigger] a@[s] as int) by {
                    if s < i {
                        assert(occurs(old_r, a@[s] as int));
                        let k = choose|k: int| 0 <= k < old_r.len() && old_r[k] == a@[s];
                        assert(r@[k] == a@[s]);
                    }
                }
                assert forall|s: int| 0 <= s < j implies occurs(r@, #[trigger] b@[s] as int) by {
                    assert(occurs(old_r, b@[s] as int));
                    let k = choose|k: int| 0 <= k < old_r.len() && old_r[k] == b@[s];
                    assert(r@[k] == b@[s]);
                }
                assert forall|s: int, t: int| 0 <= s < t < r@.len() implies #[trigger] precedes(keys@, r@[s] as int, r@[t] as int) by {
                    if t < old_r.len() {
                        assert(old_r[s] == r@[s] && old_r[t] == r@[t]);
                    } else {
                        assert(old_r[s] == r@[s]);
                    }
                }
                if i + 1 < a.len() {
                    assert(precedes(keys@, a@[i as int] as int, a@[i + 1] as int));
                    assert forall|s: int| 0 <= s < r@.len() implies precedes(keys@, #[trigger] r@[s] as int, a@[i + 1] as int) by {
                        if s < old_r.len() {
                            assert(old_r[s] == r@[s]);
                        }
                    }
                }
                if j < b.len() {
                    assert forall|s: int| 0 <= s < r@.len() implies precedes(keys@, #[trigger] r@[s] as int, b@[j as int] as int) by {
                        if s < old_r.len() {
                            assert(old_r[s] == r@[s]);
                        }
                    }
                }
            }
            i = i + 1;
        } else {
            let y = b[j];
            r.push(y);
            proof {
                assert(r@[old_r.len() as int] == b@[j as int]);
                assert forall|s: int| 0 <= s < j + 1 implies occurs(r@, #[trigger] b@[s] as int) by {
                    if s < j {
                        assert(occurs(old_r, b@[s] as int));
                        let k = choose|k: int| 0 <= k < old_r.len() && old_r[k] == b@[s];
                        assert(r@[k] == b@[s]);
                    }
                }
                assert forall|s: int| 0 <= s < i implies occurs(r@, #[trigger] a@[s] as int) by {
                    assert(occurs(old_r, a@[s] as int));
                    let k = choose|k: int| 0 <= k < old_r.len() && old_r[k] == a@[s];
                    assert(r@[k] == a@[s]);
                }
                if i < a.len() {
                    assert(a@[i as int] < mid@ <= b@[j as int]);
                    assert(precedes(keys@, b@[j as int] as int, a@[i as int] as int));
                }
                assert forall|s: int, t: int| 0 <= s < t < r@.len() implies #[trigger] precedes(keys@, r@[s] as int, r@[t] as int) by {
                    if t < old_r.len() {
                        assert(old_r[s] == r@[s] && old_r[t] == r@[t]);
                    } else {
                        assert(old_r[s] == r@[s]);
                    }
                }
                if j + 1 < b.len() {
                    assert(precedes(keys@, b@[j as int] as int, b@[j + 1] as int));
                    assert forall|s: int| 0 <= s < r@.len() implies precedes(keys@, #[trigger] r@[s] as int, b@[j + 1] as int) by {
                        if s < old_r.len() {
                            assert(old_r[s] == r@[s]);
                        }
                    }
                }
                if i < a.len() {
                    assert forall|s: int| 0 <= s < r@.len() implies precedes(keys@, #[trigger] r@[s] as int, a@[i as int] as int) by {
                        if s < old_r.len() {
                            assert(old_r[s] == r@[s]);
                        }
                    }
                }
            }
            j = j + 1;
        }
    }
    proof {
        assert forall|x: int| lo@ <= x < hi@ implies #[trigger] occurs(r@, x) by {
            if x < mid@ {
                assert(occurs(a@, x));
                let s = choose|s: int| 0 <= s < a@.len() && a@[s] == x;
                assert(occurs(r@, a@[s] as int));
            } else {
                assert(occurs(b@, x));
                let s = choose|s: int| 0 <= s < b@.len() && b@[s] == x;
                assert(occurs(r@, b@[s] as int));
            }
        }
    }
    r
}

fn sort_range(keys: &Vec<i128>, lo: usize, hi: usize) -> (r: Vec<usize>)
    requires
        lo <= hi <= keys.len(),
    ensures
        r.len() == hi - lo,
        is_sorted_run(keys@, r@, lo as int, hi as int),
        covers(r@, lo as int, hi as int),
    decreases hi - lo,
{
    if hi - lo == 0 {
        Vec::new()
    } else if hi - lo == 1 {
        let mut r: Vec<usize> = Vec::new();
        r.push(lo);
        assert(r@[0] == lo);
        assert(occurs(r@, lo as int));
        r
    } else {
        let mid = lo + (hi - lo) / 2;
        let a = sort_range(keys, lo, mid);
        let b = sort_range(keys, mid, hi);
        merge(keys, a, b, Ghost(lo as int), Ghost(mid as int), Ghost(hi as int))
    }
}

/// The stable descending order of `keys`.
pub fn descending_order(keys: &Vec<i128>) -> (p: Vec<usize>)
    ensures
        is_descending_order(keys@, p@),
{
    sort_range(keys, 0, keys.len())
}

/// Two stable descending orders of the same keys agree on their first `n`
/// positions.
proof fn lemma_orders_agree_upto(keys: Seq<i128>, p: Seq<usize>, q: Seq<usize>, n: int)
    requires
        is_descending_order(keys, p),
        is_descending_order(keys, q),
        0 <= n <= p.len(),
    ensures
        forall|j: int| 0 <= j < n ==> #[trigger] p[j] == q[j],
    decreases n,
{
    if n > 0 {
        let i = n - 1;
        lemma_orders_agree_upto(keys, p, q, i);
        let x = p[i];
        let y = q[i];
        assert(occurs(q, x as int));
        let j = choose|j: int| 0 <= j < q.len() && q[j] == x;
        assert(occurs(p, y as int));
        let k = choose|k: int| 0 <= k < p.len() && p[k] == y;
        if x != y {
            if j < i {
                assert(p[j] == q[j]);
                assert(precedes(keys, p[j] as int, p[i] as int));
            }
            if k < i {
                assert(p[k] == q[k]);
                assert(precedes(keys, q[k] as int, q[i] as int));
            }
            assert(j != i);
            assert(k != i);
            assert(precedes(keys, q[i] as int, q[j] as int));
            assert(precedes(keys, p[i] as int, p[k] as int));
            assert(false);
        }
    }
}

/// Keys have only one stable descending order.
pub proof fn lemma_descending_order_unique(keys: Seq<i128>, p: Seq<usize>, q: Seq<usize>)
    requires
        is_descending_order(keys, p),
        is_descending_order(keys, q),
    ensures
        p == q,
{
    lemma_orders_agree_upto(keys, p, q, p.len() as int);
    assert(p =~= q);
}

} // verus!
