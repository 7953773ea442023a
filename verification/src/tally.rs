//! Counting rows, and choosing the one that ranks first.

use vstd::prelude::*;

verus! {

/// How many items of `s` satisfy `p`.
pub open spec fn count<T>(s: Seq<T>, p: spec_fn(T) -> bool) -> nat
    decreases s.len(),
{
    if s.len() == 0 {
        0
    } else {
        count(s.drop_last(), p) + if p(s.last()) {
            1nat
        } else {
            0nat
        }
    }
}

/// What an item is ranked by: first by one number, then by another. An item
/// without a rank is never chosen.
pub type Rank = Option<(int, int)>;

/// `a` ranks above `b`.
pub open spec fn above(a: (int, int), b: (int, int)) -> bool {
    a.0 > b.0 || (a.0 == b.0 && a.1 > b.1)
}

/// Item `i` of `s` ranks first: every item after it ranks below it, and none
/// before it ranks above it.
pub open spec fn is_top<T>(s: Seq<T>, rank: spec_fn(T) -> Rank, i: int) -> bool {
    &&& 0 <= i < s.len()
    &&& rank(s[i]) is Some
    &&& forall|j: int|
        0 <= j < s.len() && rank(#[trigger] s[j]) is Some && j != i ==> if j < i {
            !above(rank(s[j])->0, rank(s[i])->0)
        } else {
            above(rank(s[i])->0, rank(s[j])->0)
        }
}

/// The item of `s` that ranks first, if any has a rank.
pub open spec fn top<T>(s: Seq<T>, rank: spec_fn(T) -> Rank) -> Option<int> {
    if exists|i: int| is_top(s, rank, i) {
        Some(choose|i: int| is_top(s, rank, i))
    } else {
        None
    }
}

/// The views of a sequence of values.
pub open spec fn views<T: View>(s: Seq<T>) -> Seq<T::V> {
    s.map_values(|t: T| t@)
}

/// Only one item ranks first.
pub proof fn lemma_top_unique<T>(s: Seq<T>, rank: spec_fn(T) -> Rank, i: int)
    requires
        is_top(s, rank, i),
    ensures
        top(s, rank) == Some(i),
{
    let k = choose|k: int| is_top(s, rank, k);
    assert(is_top(s, rank, k));
    if k != i {
        assert(rank(s[k]) is Some);
        assert(rank(s[i]) is Some);
    }
}

/// Some item ranks first exactly if one has a rank.
pub proof fn lemma_top<T>(s: Seq<T>, rank: spec_fn(T) -> Rank)
    ensures
        top(s, rank) matches Some(i) ==> is_top(s, rank, i),
        top(s, rank) is None <==> forall|j: int|
            0 <= j < s.len() ==> rank(#[trigger] s[j]) is None,
    decreases s.len(),
{
    if s.len() > 0 {
        let p = s.drop_last();
        lemma_top(p, rank);
        assert(forall|j: int| 0 <= j < p.len() ==> p[j] == s[j]);
        let n = s.len() - 1;
        assert(s[n] == s.last());
        if rank(s[n]) is Some {
            match top(p, rank) {
                None => {
                    assert(is_top(s, rank, n));
                },
                Some(i) => {
                    assert(is_top(p, rank, i));
                    if above(rank(s[i])->0, rank(s[n])->0) {
                        assert(is_top(s, rank, i));
                    } else {
                        assert forall|j: int|
                            0 <= j < s.len() && rank(#[trigger] s[j]) is Some && j
                                != n implies !above(rank(s[j])->0, rank(s[n])->0) by {
                            assert(p[j] == s[j]);
                        }
                        assert(is_top(s, rank, n));
                    }
                },
            }
        } else {
            match top(p, rank) {
                None => {
                    assert forall|j: int| 0 <= j < s.len() implies rank(#[trigger] s[j]) is None by {
                        if j < n {
                            assert(p[j] == s[j]);
                        }
                    }
                },
                Some(i) => {
                    assert(is_top(p, rank, i));
                    assert(is_top(s, rank, i));
                },
            }
        }
    }
}

/// Items that rank the same in the same places have the same first one.
pub proof fn lemma_top_same<T>(a: Seq<T>, b: Seq<T>, rank: spec_fn(T) -> Rank)
    requires
        a.len() == b.len(),
        forall|i: int| #![trigger a[i]] #![trigger b[i]]
            0 <= i < a.len() ==> rank(a[i]) == rank(b[i]),
    ensures
        top(a, rank) == top(b, rank),
{
    lemma_top(a, rank);
    lemma_top(b, rank);
    match top(a, rank) {
        Some(i) => {
            assert(is_top(b, rank, i)) by {
                assert(rank(b[i]) == rank(a[i]));
                assert forall|j: int|
                    0 <= j < b.len() && rank(#[trigger] b[j]) is Some && j != i implies if j < i {
                    !above(rank(b[j])->0, rank(b[i])->0)
                } else {
                    above(rank(b[i])->0, rank(b[j])->0)
                } by {
                    assert(rank(a[j]) == rank(b[j]));
                }
            }
            lemma_top_unique(b, rank, i);
        },
        None => {
            if let Some(i) = top(b, rank) {
                assert(rank(a[i]) == rank(b[i]));
            }
        },
    }
}

/// One more item.
pub proof fn lemma_count_step<T>(s: Seq<T>, p: spec_fn(T) -> bool, i: int)
    requires
        0 <= i < s.len(),
    ensures
        count(s.take(i + 1), p) == count(s.take(i), p) + if p(s[i]) {
            1nat
        } else {
            0nat
        },
{
    assert(s.take(i + 1).drop_last() =~= s.take(i));
    assert(s.take(i + 1).last() == s[i]);
}

/// No more items are counted than there are.
pub proof fn lemma_count_bound<T>(s: Seq<T>, p: spec_fn(T) -> bool)
    ensures
        count(s, p) <= s.len(),
    decreases s.len(),
{
    if s.len() > 0 {
        lemma_count_bound(s.drop_last(), p);
    }
}

/// Nothing is counted exactly if nothing satisfies the condition.
pub proof fn lemma_count_zero<T>(s: Seq<T>, p: spec_fn(T) -> bool)
    ensures
        count(s, p) == 0 <==> forall|i: int| 0 <= i < s.len() ==> !p(#[trigger] s[i]),
    decreases s.len(),
{
    if s.len() > 0 {
        let t = s.drop_last();
        lemma_count_zero(t, p);
        assert(forall|i: int| 0 <= i < t.len() ==> t[i] == s[i]);
        assert(s[s.len() - 1] == s.last());
        if count(s, p) == 0 {
            assert forall|i: int| 0 <= i < s.len() implies !p(#[trigger] s[i]) by {
                if i < t.len() {
                    assert(t[i] == s[i]);
                }
            }
        } else if count(t, p) != 0 {
            let i = choose|i: int| 0 <= i < t.len() && p(#[trigger] t[i]);
            assert(p(s[i]));
        }
    }
}

/// Where `n` holds of an item of `b` exactly if `p` or `q` holds of the item of
/// `a` in the same place, and `p` and `q` exclude each other, the counts add up.
pub proof fn lemma_count_split<T, U>(
    a: Seq<T>,
    p: spec_fn(T) -> bool,
    q: spec_fn(T) -> bool,
    b: Seq<U>,
    n: spec_fn(U) -> bool,
)
    requires
        a.len() == b.len(),
        forall|i: int|
            #![trigger a[i]]
            #![trigger b[i]]
            0 <= i < a.len() ==> !(p(a[i]) && q(a[i])) && (n(b[i]) <==> p(a[i]) || q(a[i])),
    ensures
        count(b, n) == count(a, p) + count(a, q),
    decreases a.len(),
{
    if a.len() > 0 {
        let a1 = a.drop_last();
        let b1 = b.drop_last();
        assert forall|i: int|
            #![trigger a1[i]]
            #![trigger b1[i]]
            0 <= i < a1.len() implies !(p(a1[i]) && q(a1[i])) && (n(b1[i]) <==> p(a1[i]) || q(
            a1[i],
        )) by {
            assert(a1[i] == a[i]);
            assert(b1[i] == b[i]);
        }
        lemma_count_split(a1, p, q, b1, n);
        assert(a.last() == a[a.len() - 1]);
        assert(b.last() == b[b.len() - 1]);
    }
}

/// Conditions that agree place by place give the same count.
pub proof fn lemma_count_same<T, U>(
    a: Seq<T>,
    p: spec_fn(T) -> bool,
    b: Seq<U>,
    q: spec_fn(U) -> bool,
)
    requires
        a.len() == b.len(),
        forall|i: int|
            #![trigger a[i]]
            #![trigger b[i]]
            0 <= i < a.len() ==> p(a[i]) == q(b[i]),
    ensures
        count(a, p) == count(b, q),
{
    let none = |t: T| false;
    lemma_count_split(a, p, none, b, q);
    lemma_count_zero(a, none);
}

/// One item is replaced.
pub proof fn lemma_count_update<T>(s: Seq<T>, p: spec_fn(T) -> bool, i: int, x: T)
    requires
        0 <= i < s.len(),
    ensures
        count(s.update(i, x), p) == count(s, p) - (if p(s[i]) {
            1int
        } else {
            0int
        }) + (if p(x) {
            1int
        } else {
            0int
        }),
    decreases s.len(),
{
    let n = s.len() - 1;
    if i == n {
        assert(s.update(i, x).drop_last() =~= s.drop_last());
    } else {
        lemma_count_update(s.drop_last(), p, i, x);
        assert(s.update(i, x).drop_last() =~= s.drop_last().update(i, x));
        assert(s.update(i, x).last() == s.last());
    }
}

/// Two sequences one after the other.
pub proof fn lemma_count_join<T>(a: Seq<T>, b: Seq<T>, p: spec_fn(T) -> bool)
    ensures
        count(a + b, p) == count(a, p) + count(b, p),
    decreases b.len(),
{
    if b.len() == 0 {
        assert(a + b =~= a);
    } else {
        lemma_count_join(a, b.drop_last(), p);
        assert((a + b).drop_last() =~= a + b.drop_last());
        assert((a + b).last() == b.last());
    }
}

/// Every item is counted.
pub proof fn lemma_count_all<T>(s: Seq<T>, p: spec_fn(T) -> bool)
    requires
        forall|i: int| 0 <= i < s.len() ==> p(#[trigger] s[i]),
    ensures
        count(s, p) == s.len(),
    decreases s.len(),
{
    if s.len() > 0 {
        let t = s.drop_last();
        assert forall|i: int| 0 <= i < t.len() implies p(#[trigger] t[i]) by {
            assert(t[i] == s[i]);
        }
        lemma_count_all(t, p);
        assert(s.last() == s[s.len() - 1]);
    }
}

/// What is kept of a sequence comes from it and satisfies the condition.
pub proof fn lemma_kept<T>(s: Seq<T>, keep: spec_fn(T) -> bool)
    ensures
        s.filter(keep).len() <= s.len(),
        forall|i: int|
            0 <= i < s.filter(keep).len() ==> keep(#[trigger] s.filter(keep)[i]) && s.contains(
                s.filter(keep)[i],
            ),
        forall|j: int|
            0 <= j < s.len() && keep(#[trigger] s[j]) ==> s.filter(keep).contains(s[j]),
{
    broadcast use vstd::seq_lib::group_filter_ensures;

    assert forall|i: int| 0 <= i < s.filter(keep).len() implies keep(#[trigger] s.filter(keep)[i])
        && s.contains(s.filter(keep)[i]) by {
        assert(s.filter(keep).contains(s.filter(keep)[i]));
        s.lemma_filter_contains_rev(keep, s.filter(keep)[i]);
    }
}

/// What holds of every two items in order holds of every two that are kept.
pub proof fn lemma_kept_pairs<T>(s: Seq<T>, keep: spec_fn(T) -> bool, r: spec_fn(T, T) -> bool)
    requires
        forall|i: int, j: int|
            #![trigger s[i], s[j]]
            0 <= i < j < s.len() ==> r(s[i], s[j]),
    ensures
        forall|i: int, j: int|
            #![trigger s.filter(keep)[i], s.filter(keep)[j]]
            0 <= i < j < s.filter(keep).len() ==> r(s.filter(keep)[i], s.filter(keep)[j]),
    decreases s.len(),
{
    reveal(Seq::filter);
    if s.len() > 0 {
        let t = s.drop_last();
        assert forall|i: int, j: int|
            #![trigger t[i], t[j]]
            0 <= i < j < t.len() implies r(t[i], t[j]) by {
            assert(t[i] == s[i] && t[j] == s[j]);
        }
        lemma_kept_pairs(t, keep, r);
        lemma_kept(t, keep);
        let f = s.filter(keep);
        let g = t.filter(keep);
        assert forall|i: int, j: int|
            #![trigger f[i], f[j]]
            0 <= i < j < f.len() implies r(f[i], f[j]) by {
            if j < g.len() {
                assert(f[i] == g[i] && f[j] == g[j]);
            } else {
                assert(f[i] == g[i] && f[j] == s.last());
                assert(t.contains(g[i]));
                let m = choose|m: int| 0 <= m < t.len() && t[m] == g[i];
                assert(s[m] == g[i] && s[s.len() - 1] == s.last());
            }
        }
    }
}

/// Dropping items that do not count changes no count.
pub proof fn lemma_kept_count<T>(s: Seq<T>, keep: spec_fn(T) -> bool, p: spec_fn(T) -> bool)
    requires
        forall|t: T| #[trigger] p(t) ==> keep(t),
    ensures
        count(s.filter(keep), p) == count(s, p),
    decreases s.len(),
{
    reveal(Seq::filter);
    if s.len() > 0 {
        lemma_kept_count(s.drop_last(), keep, p);
        let g = s.drop_last().filter(keep);
        if keep(s.last()) {
            assert(g.push(s.last()).drop_last() =~= g);
        }
    }
}

// --- on vectors ----------------------------------------------------------------------

/// The rank that a pair of machine integers stands for.
pub open spec fn lifted(r: Option<(i64, i64)>) -> Rank {
    match r {
        Some((a, b)) => Some((a as int, b as int)),
        None => None,
    }
}

/// Place of the row that ranks first by `f`, which computes `rank`.
pub(crate) fn first<T: View, F: Fn(&T) -> Option<(i64, i64)>>(
    rows: &Vec<T>,
    f: F,
    Ghost(rank): Ghost<spec_fn(T::V) -> Rank>,
) -> (r: Option<usize>)
    requires
        forall|t: &T| call_requires(f, (t,)),
        forall|t: &T, r: Option<(i64, i64)>| #[trigger]
            call_ensures(f, (t,), r) ==> rank(t@) == lifted(r),
    ensures
        r matches Some(i) ==> i < rows@.len(),
        top(views(rows@), rank) == match r {
            Some(i) => Some(i as int),
            None => None,
        },
{
    let ghost vs = views(rows@);
    let mut best: Option<usize> = None;
    let mut best_rank: (i64, i64) = (0, 0);
    let mut i: usize = 0;
    while i < rows.len()
        invariant
            i <= rows@.len(),
            vs == views(rows@),
            forall|t: &T| call_requires(f, (t,)),
            forall|t: &T, r: Option<(i64, i64)>| #[trigger]
                call_ensures(f, (t,), r) ==> rank(t@) == lifted(r),
            match best {
                Some(b) => b < i && is_top(vs.take(i as int), rank, b as int)
                    && rank(vs[b as int]) == lifted(Some(best_rank)),
                None => forall|j: int| 0 <= j < i ==> rank(#[trigger] vs[j]) is None,
            },
        decreases rows@.len() - i,
    {
        let r = f(&rows[i]);
        let ghost now = vs.take(i + 1);
        let ghost was = vs.take(i as int);
        assert(vs[i as int] == rows@[i as int]@);
        assert(forall|j: int| 0 <= j < i ==> now[j] == was[j]);
        assert(now[i as int] == vs[i as int]);
        match r {
            Some(new) => {
                let take = match best {
                    None => true,
                    Some(_) => !(best_rank.0 > new.0 || (best_rank.0 == new.0 && best_rank.1
                        > new.1)),
                };
                if take {
                    proof {
                        if let Some(b) = best {
                            assert(was[b as int] == vs[b as int]);
                            assert forall|j: int|
                                0 <= j < now.len() && rank(#[trigger] now[j]) is Some && j
                                    != i implies !above(rank(now[j])->0, rank(now[i as int])->0) by {
                                assert(now[j] == was[j]);
                            }
                        }
                        assert(is_top(now, rank, i as int));
                    }
                    best = Some(i);
                    best_rank = new;
                } else {
                    proof {
                        let b = best->0 as int;
                        assert(was[b] == vs[b]);
                        assert(now[b] == was[b]);
                        assert(is_top(now, rank, b));
                    }
                }
            },
            None => {
                proof {
                    if let Some(b) = best {
                        assert(now[b as int] == was[b as int]);
                        assert(is_top(now, rank, b as int));
                    }
                }
            },
        }
        i = i + 1;
    }
    proof {
        assert(vs.take(rows@.len() as int) =~= vs);
        match best {
            Some(b) => lemma_top_unique(vs, rank, b as int),
            None => lemma_top(vs, rank),
        }
    }
    best
}

/// How many rows `f` holds of, which computes `p`.
pub(crate) fn number<T: View, F: Fn(&T) -> bool>(
    rows: &Vec<T>,
    f: F,
    Ghost(p): Ghost<spec_fn(T::V) -> bool>,
) -> (r: usize)
    requires
        forall|t: &T| call_requires(f, (t,)),
        forall|t: &T, r: bool| #[trigger] call_ensures(f, (t,), r) ==> p(t@) == r,
    ensures
        r == count(views(rows@), p),
        r <= rows@.len(),
{
    let ghost vs = views(rows@);
    let mut n: usize = 0;
    let mut i: usize = 0;
    while i < rows.len()
        invariant
            i <= rows@.len(),
            n <= i,
            vs == views(rows@),
            forall|t: &T| call_requires(f, (t,)),
            forall|t: &T, r: bool| #[trigger] call_ensures(f, (t,), r) ==> p(t@) == r,
            n == count(vs.take(i as int), p),
        decreases rows@.len() - i,
    {
        proof {
            lemma_count_step(vs, p, i as int);
            assert(vs[i as int] == rows@[i as int]@);
        }
        if f(&rows[i]) {
            n = n + 1;
        }
        i = i + 1;
    }
    assert(vs.take(rows@.len() as int) =~= vs);
    n
}

/// The rows that `f` holds of, which computes `p`, in the same order.
pub(crate) fn kept<T: View, F: Fn(&T) -> bool>(
    rows: Vec<T>,
    f: F,
    Ghost(p): Ghost<spec_fn(T::V) -> bool>,
) -> (r: Vec<T>)
    requires
        forall|t: &T| call_requires(f, (t,)),
        forall|t: &T, r: bool| #[trigger] call_ensures(f, (t,), r) ==> p(t@) == r,
    ensures
        views(r@) == views(rows@).filter(p),
{
    let ghost vs = views(rows@);
    let mut r: Vec<T> = Vec::new();
    proof {
        reveal(Seq::filter);
        assert(views(r@) =~= vs.take(0).filter(p));
    }
    for row in it: rows
        invariant
            it.seq() == rows@,
            vs == views(rows@),
            forall|t: &T| call_requires(f, (t,)),
            forall|t: &T, r: bool| #[trigger] call_ensures(f, (t,), r) ==> p(t@) == r,
            views(r@) == vs.take(it.index() as int).filter(p),
    {
        let ghost i = it.index() as int;
        let ghost was = views(r@);
        proof {
            reveal(Seq::filter);
            assert(vs.take(i + 1).drop_last() =~= vs.take(i));
            assert(vs.take(i + 1).last() == row@);
        }
        if f(&row) {
            r.push(row);
            assert(views(r@) =~= was.push(rows@[i]@));
        }
    }
    assert(vs.take(rows@.len() as int) =~= vs);
    r
}

/// What is kept is as much as is counted.
pub proof fn lemma_filter_counts<T>(s: Seq<T>, p: spec_fn(T) -> bool)
    ensures
        s.filter(p).len() == count(s, p),
    decreases s.len(),
{
    reveal(Seq::filter);
    if s.len() > 0 {
        lemma_filter_counts(s.drop_last(), p);
    }
}

}
