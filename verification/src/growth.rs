//! How the table grows: when, to what size, and where a rehash puts the
//! pairs.

use crate::key::Key;
use crate::model::at_home;
use crate::model::content;
use crate::model::distinct;
use crate::model::find;
use crate::model::holds;
use crate::model::home;
use crate::model::lemma_find_at;
use crate::model::lookup;
use crate::model::slot;
use crate::model::sound;
use crate::model::stored;
use crate::order::drained;
use vstd::prelude::*;

verus! {

/// Three quarters of `n`, rounded down: the number of pairs above which a
/// table of `n` buckets grows.
pub open spec fn load_limit(n: int) -> int {
    3 * n / 4
}

/// The bucket count after the growth step at the start of an insertion into
/// a table of `n` buckets and `items` pairs.
pub open spec fn grown(n: int, items: int) -> int {
    if n == 0 {
        1
    } else if items > load_limit(n) {
        2 * n
    } else {
        n
    }
}

/// Those of `pairs`, in order, whose keys belong in bucket `b` out of `n`.
pub open spec fn chosen<K: Key, V>(pairs: Seq<(K, V)>, b: int, n: int) -> Seq<(K, V)>
    decreases pairs.len(),
{
    if pairs.len() == 0 {
        pairs
    } else if home::<K>(pairs.last().0@, n) == b {
        chosen(pairs.drop_last(), b, n).push(pairs.last())
    } else {
        chosen(pairs.drop_last(), b, n)
    }
}

/// The buckets after a rehash into `n` buckets: the pairs are taken bucket
/// after bucket, each bucket from its back, and each pair goes to the end of
/// the bucket where its key belongs.
pub open spec fn rehashed<K: Key, V>(rows: Seq<Seq<(K, V)>>, n: int) -> Seq<Seq<(K, V)>> {
    Seq::new(n as nat, |b: int| chosen(drained(rows), b, n))
}

/// The buckets after the growth step at the start of an insertion into a
/// table of `items` pairs.
pub open spec fn regrown<K: Key, V>(rows: Seq<Seq<(K, V)>>, items: int) -> Seq<Seq<(K, V)>> {
    if grown(rows.len() as int, items) == rows.len() {
        rows
    } else {
        rehashed(rows, grown(rows.len() as int, items))
    }
}

/// The pairs that a rehash has taken when it has emptied the buckets before
/// `m` and taken all but the first `l` pairs of bucket `m`, in the order in
/// which it took them.
pub open spec fn taken<T>(rows: Seq<Seq<T>>, m: int, l: int) -> Seq<T> {
    drained(rows.take(m)) + rows[m].skip(l).reverse()
}

/// Turning to bucket `m` takes nothing yet.
pub proof fn lemma_enter_bucket<T>(rows: Seq<Seq<T>>, m: int)
    requires
        0 <= m < rows.len(),
    ensures
        taken(rows, m, rows[m].len() as int) == drained(rows.take(m)),
{
    assert(rows[m].skip(rows[m].len() as int).reverse() =~= Seq::empty());
    assert(taken(rows, m, rows[m].len() as int) =~= drained(rows.take(m)));
}

/// Taking the pair before position `l` of bucket `m` puts it at the end of
/// what was taken.
pub proof fn lemma_take_pair<T>(rows: Seq<Seq<T>>, m: int, l: int)
    requires
        0 <= m < rows.len(),
        0 < l <= rows[m].len(),
    ensures
        taken(rows, m, l - 1) == taken(rows, m, l).push(rows[m][l - 1]),
{
    assert(rows[m].skip(l - 1).reverse() =~= rows[m].skip(l).reverse().push(rows[m][l - 1]));
    assert(taken(rows, m, l - 1) =~= taken(rows, m, l).push(rows[m][l - 1]));
}

/// When bucket `m` is empty, the buckets before `m + 1` are.
pub proof fn lemma_leave_bucket<T>(rows: Seq<Seq<T>>, m: int)
    requires
        0 <= m < rows.len(),
    ensures
        taken(rows, m, 0) == drained(rows.take(m + 1)),
{
    let back = |row: Seq<T>| row.reverse();
    assert(rows[m].skip(0) =~= rows[m]);
    assert(rows.take(m + 1).map_values(back) =~= rows.take(m).map_values(back).push(
        rows[m].reverse(),
    ));
    rows.take(m).map_values(back).lemma_flatten_push(rows[m].reverse());
}

/// The pairs chosen for a bucket belong there, none has the key of another,
/// and a key that belongs there finds among them what it finds among all.
pub proof fn lemma_chosen<K: Key, V>(pairs: Seq<(K, V)>, b: int, n: int)
    requires
        distinct(pairs),
    ensures
        distinct(chosen(pairs, b, n)),
        at_home(chosen(pairs, b, n), b, n),
        forall|x: K::V|
            #[trigger] find(chosen(pairs, b, n), x) == if home::<K>(x, n) == b {
                find(pairs, x)
            } else {
                None
            },
    decreases pairs.len(),
{
    if pairs.len() > 0 {
        let init = pairs.drop_last();
        let last = pairs.last();
        let some = chosen(init, b, n);
        assert(distinct(init)) by {
            assert forall|i: int, j: int| 0 <= i < j < init.len() implies (#[trigger] init[i]).0@
                != (#[trigger] init[j]).0@ by {
                assert(init[i] == pairs[i]);
                assert(init[j] == pairs[j]);
            }
        }
        assert(!holds(init, last.0@)) by {
            if holds(init, last.0@) {
                let j = slot(init, last.0@);
                assert(init[j] == pairs[j]);
                assert(pairs[j].0@ != pairs[pairs.len() - 1].0@);
            }
        }
        assert(init.push(last) =~= pairs);
        lemma_chosen(init, b, n);
        crate::model::lemma_find_push(init, last);
        if home::<K>(last.0@, n) == b {
            assert(find(some, last.0@) == find(init, last.0@));
            crate::model::lemma_find_push(some, last);
            assert forall|j: int| 0 <= j < some.push(last).len() implies home::<K>(
                (#[trigger] some.push(last)[j]).0@,
                n,
            ) == b by {
                if j < some.len() {
                    assert(some.push(last)[j] == some[j]);
                }
            }
        }
    }
}

/// Every pair is chosen for one bucket.
pub proof fn lemma_chosen_len<K: Key, V>(pairs: Seq<(K, V)>, n: int)
    requires
        n > 0,
    ensures
        Seq::new(n as nat, |b: int| chosen(pairs, b, n)).flatten().len() == pairs.len(),
    decreases pairs.len(),
{
    let rows = Seq::new(n as nat, |b: int| chosen(pairs, b, n));
    if pairs.len() == 0 {
        assert forall|i: int| 0 <= i < rows.len() implies (#[trigger] rows[i]).len() == 0 by {}
        crate::model::lemma_flatten_empty(rows);
    } else {
        let init = pairs.drop_last();
        let last = pairs.last();
        let before = Seq::new(n as nat, |b: int| chosen(init, b, n));
        let h = home::<K>(last.0@, n);
        lemma_chosen_len(init, n);
        assert(rows =~= before.update(h, before[h].push(last)));
        crate::model::lemma_flatten_update(before, h, before[h].push(last));
    }
}

/// A rehash keeps the map and the number of pairs, and leaves the table in
/// order.
pub proof fn lemma_rehashed<K: Key, V>(rows: Seq<Seq<(K, V)>>, n: int)
    requires
        sound(rows),
        n > 0,
    ensures
        sound(rehashed(rows, n)),
        rehashed(rows, n).len() == n,
        content(rehashed(rows, n)) == content(rows),
        rehashed(rows, n).flatten().len() == rows.flatten().len(),
{
    let pairs = drained(rows);
    let next = rehashed(rows, n);
    crate::order::lemma_drained_lists(rows);
    lemma_chosen_len(pairs, n);
    assert forall|b: int| 0 <= b < next.len() implies distinct(#[trigger] next[b]) && at_home(
        next[b],
        b,
        next.len() as int,
    ) by {
        lemma_chosen(pairs, b, n);
    }
    assert forall|a: K::V| lookup(next, a) == stored(content(rows), a) by {
        let h = home::<K>(a, n);
        lemma_chosen(pairs, h, n);
        assert(next[h] == chosen(pairs, h, n));
        assert(find(next[h], a) == find(pairs, a));
        if holds(pairs, a) {
            lemma_find_at(pairs, slot(pairs, a));
        }
    }
    assert(content(next) =~= content(rows));
}

/// The growth step keeps the map and the number of pairs, leaves the table
/// in order, and makes room for one more pair.
pub proof fn lemma_regrown<K: Key, V>(rows: Seq<Seq<(K, V)>>, items: int)
    requires
        sound(rows),
        rows.flatten().len() == items,
        items <= load_limit(rows.len() as int) + 1,
    ensures
        sound(regrown(rows, items)),
        regrown(rows, items).len() == grown(rows.len() as int, items),
        regrown(rows, items).len() > 0,
        content(regrown(rows, items)) == content(rows),
        regrown(rows, items).flatten().len() == items,
        items <= load_limit(regrown(rows, items).len() as int),
{
    if rows.len() == 0 {
        assert(rows.flatten() =~= Seq::empty());
    }
    if grown(rows.len() as int, items) != rows.len() {
        lemma_rehashed(rows, grown(rows.len() as int, items));
    }
}

} // verus!
