//! The order of traversals: the pairs of all buckets as one sequence, and
//! why that sequence lists the map.

use crate::key::Key;
use crate::model::at_home;
use crate::model::content;
use crate::model::distinct;
use crate::model::find;
use crate::model::holds;
use crate::model::home;
use crate::model::lemma_find_at;
use crate::model::lookup;
use crate::model::slot;
use crate::model::sound;
use vstd::prelude::*;

verus! {

/// `pairs` lists the map `m`: each key of `m` once, with its value.
pub open spec fn lists<K: Key, V>(pairs: Seq<(K, V)>, m: Map<K::V, V>) -> bool {
    &&& distinct(pairs)
    &&& forall|p: int|
        0 <= p < pairs.len() ==> m.contains_key((#[trigger] pairs[p]).0@) && m[pairs[p].0@]
            == pairs[p].1
    &&& forall|a: K::V| m.contains_key(a) ==> holds(pairs, a)
}

/// The pairs of the buckets in the order in which they leave when each
/// bucket in turn is emptied from its back.
pub open spec fn drained<T>(rows: Seq<Seq<T>>) -> Seq<T> {
    rows.map_values(|row: Seq<T>| row.reverse()).flatten()
}

/// What a traversal that stands at position `j` of bucket `b` has yet to
/// visit: the rest of that bucket, if any, then the buckets after it.
pub open spec fn rest<T>(rows: Seq<Seq<T>>, b: int, j: int) -> Seq<T> {
    if 0 <= b < rows.len() {
        if 0 <= j < rows[b].len() {
            rows[b].skip(j) + rows.skip(b + 1).flatten()
        } else {
            rows.skip(b + 1).flatten()
        }
    } else {
        Seq::empty()
    }
}

/// What is yet to leave when the buckets from `b` on are emptied from their
/// backs.
pub open spec fn drained_rest<T>(rows: Seq<Seq<T>>, b: int) -> Seq<T> {
    if 0 <= b <= rows.len() {
        drained(rows.skip(b))
    } else {
        Seq::empty()
    }
}

/// `pair` stands in one of the first `t` buckets.
pub open spec fn within<T>(rows: Seq<Seq<T>>, t: int, pair: T) -> bool {
    exists|i: int, j: int| 0 <= i < t && 0 <= j < rows[i].len() && (#[trigger] rows[i][j]) == pair
}

/// The pairs of the first `t` buckets, in a row: none has the key of
/// another, each comes from one of those buckets, and none is left out.
pub proof fn lemma_flatten_take<K: Key, V>(rows: Seq<Seq<(K, V)>>, t: int)
    requires
        sound(rows),
        0 <= t <= rows.len(),
    ensures
        distinct(rows.take(t).flatten()),
        forall|p: int|
            0 <= p < rows.take(t).flatten().len() ==> within(
                rows,
                t,
                #[trigger] rows.take(t).flatten()[p],
            ),
        forall|i: int, j: int|
            0 <= i < t && 0 <= j < rows[i].len() ==> rows.take(t).flatten().contains(
                #[trigger] rows[i][j],
            ),
    decreases t,
{
    let n = rows.len() as int;
    let all = rows.take(t).flatten();
    if t == 0 {
        assert(rows.take(0) =~= Seq::empty());
    } else {
        let before = rows.take(t - 1).flatten();
        let row = rows[t - 1];
        lemma_flatten_take(rows, t - 1);
        assert(rows.take(t - 1).push(row) =~= rows.take(t));
        rows.take(t - 1).lemma_flatten_push(row);
        assert(all =~= before + row);
        assert(distinct(row) && at_home(row, t - 1, n));
        assert forall|p: int| 0 <= p < all.len() implies within(rows, t, #[trigger] all[p]) by {
            if p < before.len() {
                assert(all[p] == before[p]);
                assert(within(rows, t - 1, before[p]));
                let (i, j) = choose|i: int, j: int|
                    0 <= i < t - 1 && 0 <= j < rows[i].len() && (#[trigger] rows[i][j])
                        == before[p];
                assert(rows[i][j] == all[p]);
            } else {
                assert(all[p] == rows[t - 1][p - before.len()]);
            }
        }
        assert forall|i: int, j: int| 0 <= i < t && 0 <= j < rows[i].len() implies all.contains(
            #[trigger] rows[i][j],
        ) by {
            if i < t - 1 {
                assert(before.contains(rows[i][j]));
                let p = choose|p: int| 0 <= p < before.len() && before[p] == rows[i][j];
                assert(all[p] == rows[i][j]);
            } else {
                assert(all[before.len() + j] == rows[i][j]);
            }
        }
        assert forall|p: int, q: int| 0 <= p < q < all.len() implies (#[trigger] all[p]).0@ != (
        #[trigger] all[q]).0@ by {
            if q < before.len() {
                assert(all[p] == before[p]);
                assert(all[q] == before[q]);
            } else if p >= before.len() {
                assert(all[p] == row[p - before.len()]);
                assert(all[q] == row[q - before.len()]);
            } else {
                assert(all[p] == before[p]);
                assert(all[q] == row[q - before.len()]);
                assert(within(rows, t - 1, before[p]));
                let (i, j) = choose|i: int, j: int|
                    0 <= i < t - 1 && 0 <= j < rows[i].len() && (#[trigger] rows[i][j])
                        == before[p];
                assert(distinct(rows[i]) && at_home(rows[i], i, n));
                assert(home::<K>(rows[i][j].0@, n) == i);
                assert(home::<K>(row[q - before.len()].0@, n) == t - 1);
            }
        }
    }
}

/// The pairs of all buckets, in a row, list the map of the table.
pub proof fn lemma_flatten_lists<K: Key, V>(rows: Seq<Seq<(K, V)>>)
    requires
        sound(rows),
    ensures
        lists(rows.flatten(), content(rows)),
{
    let n = rows.len() as int;
    let all = rows.flatten();
    let m = content(rows);
    lemma_flatten_take(rows, n);
    assert(rows.take(n) =~= rows);
    assert forall|p: int| 0 <= p < all.len() implies m.contains_key((#[trigger] all[p]).0@)
        && m[all[p].0@] == all[p].1 by {
        assert(within(rows, n, all[p]));
        let (i, j) = choose|i: int, j: int|
            0 <= i < n && 0 <= j < rows[i].len() && (#[trigger] rows[i][j]) == all[p];
        assert(distinct(rows[i]) && at_home(rows[i], i, n));
        assert(home::<K>(rows[i][j].0@, n) == i);
        lemma_find_at(rows[i], j);
    }
    assert forall|a: K::V| m.contains_key(a) implies holds(all, a) by {
        let h = home::<K>(a, n);
        assert(holds(rows[h], a));
        let j = slot(rows[h], a);
        assert(all.contains(rows[h][j]));
        let p = choose|p: int| 0 <= p < all.len() && all[p] == rows[h][j];
        assert(all[p].0@ == a);
    }
}

/// Buckets of the same lengths hold the same number of pairs.
pub proof fn lemma_flatten_same_lengths<T>(left: Seq<Seq<T>>, right: Seq<Seq<T>>)
    requires
        left.len() == right.len(),
        forall|i: int| 0 <= i < left.len() ==> (#[trigger] left[i]).len() == right[i].len(),
    ensures
        left.flatten().len() == right.flatten().len(),
    decreases left.len(),
{
    if left.len() > 0 {
        assert(left.first().len() == left[0].len());
        assert forall|i: int| 0 <= i < left.drop_first().len() implies (
        #[trigger] left.drop_first()[i]).len() == right.drop_first()[i].len() by {
            assert(left.drop_first()[i] == left[i + 1]);
        }
        lemma_flatten_same_lengths(left.drop_first(), right.drop_first());
    }
}

/// A bucket read backwards finds what it finds read forwards.
pub proof fn lemma_find_reverse<K: Key, V>(row: Seq<(K, V)>)
    requires
        distinct(row),
    ensures
        distinct(row.reverse()),
        forall|x: K::V| #[trigger] find(row.reverse(), x) == find(row, x),
{
    let back = row.reverse();
    let len = row.len() as int;
    assert forall|i: int, j: int| 0 <= i < j < back.len() implies (#[trigger] back[i]).0@ != (
    #[trigger] back[j]).0@ by {
        assert(back[i] == row[len - 1 - i]);
        assert(back[j] == row[len - 1 - j]);
    }
    assert forall|x: K::V| #[trigger] find(back, x) == find(row, x) by {
        if holds(row, x) {
            let s = slot(row, x);
            assert(back[len - 1 - s] == row[s]);
            lemma_find_at(back, len - 1 - s);
            lemma_find_at(row, s);
        } else if holds(back, x) {
            let s = slot(back, x);
            assert(back[s] == row[len - 1 - s]);
            assert(holds(row, x));
        }
    }
}

/// The pairs of all buckets, each bucket read backwards, list the map of the
/// table, and they are as many as the pairs read forwards.
pub proof fn lemma_drained_lists<K: Key, V>(rows: Seq<Seq<(K, V)>>)
    requires
        sound(rows),
    ensures
        lists(drained(rows), content(rows)),
        drained(rows).len() == rows.flatten().len(),
{
    let n = rows.len() as int;
    let back = rows.map_values(|row: Seq<(K, V)>| row.reverse());
    assert forall|i: int| 0 <= i < back.len() implies distinct(#[trigger] back[i]) && at_home(
        back[i],
        i,
        n,
    ) by {
        assert(distinct(rows[i]) && at_home(rows[i], i, n));
        lemma_find_reverse(rows[i]);
        assert forall|j: int| 0 <= j < back[i].len() implies home::<K>(
            (#[trigger] back[i][j]).0@,
            n,
        ) == i by {
            assert(back[i][j] == rows[i][rows[i].len() - 1 - j]);
        }
    }
    assert(content(back) =~= content(rows)) by {
        assert forall|a: K::V| lookup(back, a) == lookup(rows, a) by {
            if n > 0 {
                let h = home::<K>(a, n);
                assert(distinct(rows[h]));
                lemma_find_reverse(rows[h]);
            }
        }
    }
    lemma_flatten_lists(back);
    lemma_flatten_same_lengths(back, rows);
}

/// A traversal that has not begun has every pair yet to visit.
pub proof fn lemma_rest_start<T>(rows: Seq<Seq<T>>)
    ensures
        rest(rows, 0, 0) == rows.flatten(),
{
    if rows.len() > 0 {
        assert(rows[0].skip(0) =~= rows.first());
        assert(rows.skip(1) =~= rows.drop_first());
    } else {
        assert(rows.flatten() =~= Seq::empty());
    }
}

/// A traversal that stands on a pair visits that pair next.
pub proof fn lemma_rest_step<T>(rows: Seq<Seq<T>>, b: int, j: int)
    requires
        0 <= b < rows.len(),
        0 <= j < rows[b].len(),
    ensures
        rest(rows, b, j).len() > 0,
        rest(rows, b, j)[0] == rows[b][j],
        rest(rows, b, j + 1) == rest(rows, b, j).drop_first(),
{
    assert(rows[b].skip(j)[0] == rows[b][j]);
    if j + 1 < rows[b].len() {
        assert(rows[b].skip(j + 1) =~= rows[b].skip(j).drop_first());
    } else {
        assert(rows[b].skip(j).drop_first() =~= Seq::empty());
    }
    assert(rest(rows, b, j + 1) =~= rest(rows, b, j).drop_first());
}

/// A traversal past the end of a bucket stands at the start of the next.
pub proof fn lemma_rest_skip<T>(rows: Seq<Seq<T>>, b: int, j: int)
    requires
        0 <= b < rows.len(),
        j >= rows[b].len(),
    ensures
        rest(rows, b, j) == rest(rows, b + 1, 0),
{
    let tail = rows.skip(b + 1);
    if b + 1 < rows.len() {
        assert(tail.first() =~= rows[b + 1]);
        assert(rows[b + 1].skip(0) =~= rows[b + 1]);
        assert(tail.drop_first() =~= rows.skip(b + 2));
        assert(rest(rows, b, j) =~= rest(rows, b + 1, 0));
    } else {
        assert(tail.flatten() =~= Seq::empty());
    }
}

/// Before anything has left, everything is yet to leave.
pub proof fn lemma_drained_start<T>(rows: Seq<Seq<T>>)
    ensures
        drained_rest(rows, 0) == drained(rows),
{
    assert(rows.skip(0) =~= rows);
}

/// The last pair of the bucket that is being emptied leaves next.
pub proof fn lemma_drained_step<T>(rows: Seq<Seq<T>>, b: int)
    requires
        0 <= b < rows.len(),
        rows[b].len() > 0,
    ensures
        drained_rest(rows, b).len() > 0,
        drained_rest(rows, b)[0] == rows[b].last(),
        drained_rest(rows.update(b, rows[b].drop_last()), b) == drained_rest(
            rows,
            b,
        ).drop_first(),
{
    let back = |row: Seq<T>| row.reverse();
    let next = rows.update(b, rows[b].drop_last());
    let from = rows.skip(b).map_values(back);
    let from_next = next.skip(b).map_values(back);
    assert(from.first() == rows[b].reverse());
    assert(from_next.first() == rows[b].drop_last().reverse());
    assert(from_next.drop_first() =~= from.drop_first());
    assert(rows[b].reverse()[0] == rows[b].last());
    assert(rows[b].drop_last().reverse() =~= rows[b].reverse().drop_first());
    assert(from_next.flatten() =~= from.flatten().drop_first());
}

/// An empty bucket is passed over.
pub proof fn lemma_drained_skip<T>(rows: Seq<Seq<T>>, b: int)
    requires
        0 <= b < rows.len(),
        rows[b].len() == 0,
    ensures
        drained_rest(rows, b) == drained_rest(rows, b + 1),
{
    let back = |row: Seq<T>| row.reverse();
    let from = rows.skip(b).map_values(back);
    assert(from.first() =~= Seq::empty());
    assert(from.drop_first() =~= rows.skip(b + 1).map_values(back));
    assert(from.flatten() =~= from.drop_first().flatten());
}

} // verus!
