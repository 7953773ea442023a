//! The order in which `list` shows the folders of a sweep: the highest score
//! first, and by path where scores are equal.

use vstd::prelude::*;
use crate::model::{ListRow, ListView};
use crate::tally;
use crate::text;

verus! {

/// `a` is shown before `b`.
pub open spec fn shown_before(a: ListView, b: ListView) -> bool {
    a.score.key > b.score.key || (a.score.key == b.score.key && text::text_before(a.path, b.path))
}

/// No row stands before one that is to be shown before it.
pub open spec fn in_order(rows: Seq<ListView>) -> bool {
    forall|i: int, j: int|
        #![trigger rows[i], rows[j]]
        0 <= i < j < rows.len() ==> !shown_before(rows[j], rows[i])
}

/// What is not before one that is not before another is not before the other.
proof fn lemma_order(a: ListView, b: ListView, c: ListView)
    ensures
        !shown_before(a, a),
        shown_before(a, b) ==> !shown_before(b, a),
        !shown_before(b, a) && !shown_before(c, b) ==> !shown_before(c, a),
{
    text::lemma_text_order(a.path, b.path, c.path);
    text::lemma_text_order(c.path, a.path, b.path);
    text::lemma_text_order(b.path, c.path, a.path);
    if a.path != b.path {
        text::lemma_text_order(b.path, a.path, a.path);
    }
    if b.path != c.path {
        text::lemma_text_order(c.path, b.path, b.path);
    }
}

fn goes_before(a: &ListRow, b: &ListRow) -> (r: bool)
    ensures
        r == shown_before(a@, b@),
{
    a.score.key > b.score.key || (a.score.key == b.score.key && text::before(
        a.path.as_str(),
        b.path.as_str(),
    ))
}

/// The items of a vector in reverse.
fn reversed(rows: Vec<ListRow>) -> (r: Vec<ListRow>)
    ensures
        tally::views(r@) == tally::views(rows@).reverse(),
{
    let ghost all = tally::views(rows@);
    let mut rows = rows;
    let mut r: Vec<ListRow> = Vec::new();
    assert(tally::views(r@) =~= all.reverse().take(0));
    while rows.len() > 0
        invariant
            rows@.len() + r@.len() == all.len(),
            tally::views(rows@) == all.take(rows@.len() as int),
            tally::views(r@) == all.reverse().take(r@.len() as int),
        decreases rows@.len(),
    {
        let ghost m = rows@.len() - 1;
        let ghost before = tally::views(rows@);
        let ghost done = tally::views(r@);
        assert(before[m] == rows@[m]@);
        let row = rows.pop().unwrap();
        assert(tally::views(rows@) =~= all.take(m));
        r.push(row);
        proof {
            assert(tally::views(r@) =~= done.push(all[m]));
            assert(tally::views(r@) =~= all.reverse().take(r@.len() as int));
        }
    }
    assert(all.reverse().take(all.len() as int) =~= all.reverse());
    r
}

/// `out` holds, last first, rows that go after all of `left`.
spec fn ends(out: Seq<ListView>, left: Seq<ListView>) -> bool {
    forall|i: int, j: int|
        #![trigger out[i], left[j]]
        0 <= i < out.len() && 0 <= j < left.len() ==> !shown_before(out[i], left[j])
}

/// Taking the last row `x` of `a`, before which nothing of `a` and `b` is to go
/// after.
proof fn lemma_take_last(
    a: Seq<ListView>,
    b: Seq<ListView>,
    out: Seq<ListView>,
)
    requires
        a.len() > 0,
        in_order(a),
        in_order(b),
        in_order(out.reverse()),
        ends(out, a),
        ends(out, b),
        b.len() > 0 ==> !shown_before(a.last(), b.last()),
    ensures
        in_order(a.drop_last()),
        in_order(out.push(a.last()).reverse()),
        ends(out.push(a.last()), a.drop_last()),
        ends(out.push(a.last()), b),
        a.drop_last().to_multiset().add(b.to_multiset()).add(out.push(a.last()).to_multiset())
            == a.to_multiset().add(b.to_multiset()).add(out.to_multiset()),
{
    let x = a.last();
    let a1 = a.drop_last();
    let out1 = out.push(x);
    let n = a.len() - 1;
    assert(in_order(a1)) by {
        assert forall|i: int, j: int|
            #![trigger a1[i], a1[j]]
            0 <= i < j < a1.len() implies !shown_before(a1[j], a1[i]) by {
            assert(a1[i] == a[i] && a1[j] == a[j]);
        }
    }
    assert(in_order(out1.reverse())) by {
        let r = out.reverse();
        let r1 = out1.reverse();
        assert forall|i: int, j: int|
            #![trigger r1[i], r1[j]]
            0 <= i < j < r1.len() implies !shown_before(r1[j], r1[i]) by {
            assert(r1[j] == r[j - 1]);
            if i == 0 {
                assert(r1[i] == x && x == a[n]);
                assert(r[j - 1] == out[out.len() - j]);
            } else {
                assert(r1[i] == r[i - 1]);
            }
        }
    }
    assert(ends(out1, a1)) by {
        assert forall|i: int, j: int|
            #![trigger out1[i], a1[j]]
            0 <= i < out1.len() && 0 <= j < a1.len() implies !shown_before(out1[i], a1[j]) by {
            assert(a1[j] == a[j]);
            if i < out.len() {
                assert(out1[i] == out[i]);
            } else {
                assert(out1[i] == a[n]);
            }
        }
    }
    assert(ends(out1, b)) by {
        assert forall|i: int, j: int|
            #![trigger out1[i], b[j]]
            0 <= i < out1.len() && 0 <= j < b.len() implies !shown_before(out1[i], b[j]) by {
            if i < out.len() {
                assert(out1[i] == out[i]);
            } else {
                let m = b.len() - 1;
                assert(b.last() == b[m]);
                lemma_order(b[j], b[m], x);
            }
        }
    }
    broadcast use vstd::seq_lib::group_to_multiset_ensures;
    assert(a =~= a1.push(x));
    assert(a1.to_multiset().add(b.to_multiset()).add(out1.to_multiset()) =~= a.to_multiset().add(
        b.to_multiset(),
    ).add(out.to_multiset()));
}

/// Two lists in order, as one.
fn merged(a: Vec<ListRow>, b: Vec<ListRow>) -> (r: Vec<ListRow>)
    requires
        in_order(tally::views(a@)),
        in_order(tally::views(b@)),
    ensures
        in_order(tally::views(r@)),
        tally::views(r@).to_multiset() == tally::views(a@).to_multiset().add(
            tally::views(b@).to_multiset(),
        ),
{
    let ghost all = tally::views(a@).to_multiset().add(tally::views(b@).to_multiset());
    let mut a = a;
    let mut b = b;
    let mut out: Vec<ListRow> = Vec::new();
    proof {
        broadcast use vstd::seq_lib::group_to_multiset_ensures;

        assert(tally::views(out@) =~= Seq::<ListView>::empty());
        assert(all.add(tally::views(out@).to_multiset()) =~= all);
    }
    while a.len() > 0 || b.len() > 0
        invariant
            in_order(tally::views(a@)),
            in_order(tally::views(b@)),
            in_order(tally::views(out@).reverse()),
            ends(tally::views(out@), tally::views(a@)),
            ends(tally::views(out@), tally::views(b@)),
            tally::views(a@).to_multiset().add(tally::views(b@).to_multiset()).add(
                tally::views(out@).to_multiset(),
            ) == all,
        decreases a@.len() + b@.len(),
    {
        let ghost av = tally::views(a@);
        let ghost bv = tally::views(b@);
        let ghost ov = tally::views(out@);
        let from_a = if a.len() == 0 {
            false
        } else if b.len() == 0 {
            true
        } else {
            assert(av.last() == a@.last()@);
            assert(bv.last() == b@.last()@);
            !goes_before(&a[a.len() - 1], &b[b.len() - 1])
        };
        if from_a {
            proof {
                lemma_take_last(av, bv, ov);
            }
            let row = a.pop().unwrap();
            assert(tally::views(a@) =~= av.drop_last());
            out.push(row);
            assert(tally::views(out@) =~= ov.push(av.last()));
        } else {
            proof {
                if a@.len() > 0 {
                    lemma_order(av.last(), bv.last(), bv.last());
                }
                lemma_take_last(bv, av, ov);
                assert(bv.to_multiset().add(av.to_multiset()) =~= av.to_multiset().add(
                    bv.to_multiset(),
                ));
                assert(bv.drop_last().to_multiset().add(av.to_multiset())
                    =~= av.to_multiset().add(bv.drop_last().to_multiset()));
            }
            let row = b.pop().unwrap();
            assert(tally::views(b@) =~= bv.drop_last());
            out.push(row);
            assert(tally::views(out@) =~= ov.push(bv.last()));
        }
    }
    proof {
        broadcast use vstd::seq_lib::group_to_multiset_ensures;

        let ov = tally::views(out@);
        ov.lemma_reverse_to_multiset();
        assert(tally::views(a@) =~= Seq::<ListView>::empty());
        assert(tally::views(b@) =~= Seq::<ListView>::empty());
        assert(ov.to_multiset() =~= all);
    }
    reversed(out)
}

/// The rows, in order.
pub(crate) fn arranged(rows: Vec<ListRow>) -> (r: Vec<ListRow>)
    ensures
        in_order(tally::views(r@)),
        tally::views(r@).to_multiset() == tally::views(rows@).to_multiset(),
    decreases rows@.len(),
{
    if rows.len() < 2 {
        return rows;
    }
    let ghost all = tally::views(rows@);
    let mut left = rows;
    let mid: usize = left.len() / 2;
    let right = left.split_off(mid);
    proof {
        assert(tally::views(left@) =~= all.take(mid as int));
        assert(tally::views(right@) =~= all.skip(mid as int));
        assert(all.take(mid as int) + all.skip(mid as int) =~= all);
        vstd::seq_lib::lemma_multiset_commutative(all.take(mid as int), all.skip(mid as int));
    }
    let l = arranged(left);
    let r = arranged(right);
    merged(l, r)
}

}
