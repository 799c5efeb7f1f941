//! The mathematics of the table: buckets as sequences of pairs, where a key
//! belongs, what a bucket holds, and what map the buckets stand for.

use crate::key::Key;
use vstd::prelude::*;

verus! {

/// The bucket, out of `n`, in which a key whose view is `a` belongs.
pub open spec fn home<K: Key>(a: K::V, n: int) -> int {
    (K::hash_of(a) as int) % n
}

/// Whether `row` holds a pair whose key has the view `a`.
pub open spec fn holds<K: Key, V>(row: Seq<(K, V)>, a: K::V) -> bool {
    exists|j: int| 0 <= j < row.len() && (#[trigger] row[j]).0@ == a
}

/// A position in `row` of a key with the view `a`, where `row` holds one.
pub open spec fn slot<K: Key, V>(row: Seq<(K, V)>, a: K::V) -> int {
    choose|j: int| 0 <= j < row.len() && (#[trigger] row[j]).0@ == a
}

/// The value that `row` pairs with the view `a`, if it holds such a key.
pub open spec fn find<K: Key, V>(row: Seq<(K, V)>, a: K::V) -> Option<V> {
    if holds(row, a) {
        Some(row[slot(row, a)].1)
    } else {
        None
    }
}

/// No two pairs of `row` have keys with the same view.
pub open spec fn distinct<K: Key, V>(row: Seq<(K, V)>) -> bool {
    forall|i: int, j: int|
        0 <= i < j < row.len() ==> (#[trigger] row[i]).0@ != (#[trigger] row[j]).0@
}

/// Every key of `row` belongs in bucket `i` out of `n`.
pub open spec fn at_home<K: Key, V>(row: Seq<(K, V)>, i: int, n: int) -> bool {
    forall|j: int| 0 <= j < row.len() ==> home::<K>((#[trigger] row[j]).0@, n) == i
}

/// Every pair sits in the bucket where its key belongs, and no bucket holds
/// a key twice: so no key occurs twice in the whole table.
pub open spec fn sound<K: Key, V>(rows: Seq<Seq<(K, V)>>) -> bool {
    forall|i: int|
        0 <= i < rows.len() ==> distinct(#[trigger] rows[i]) && at_home(
            rows[i],
            i,
            rows.len() as int,
        )
}

/// The value that the table pairs with the view `a`: it is sought in the one
/// bucket where such a key belongs.
pub open spec fn lookup<K: Key, V>(rows: Seq<Seq<(K, V)>>, a: K::V) -> Option<V> {
    if rows.len() > 0 {
        find(rows[home::<K>(a, rows.len() as int)], a)
    } else {
        None
    }
}

/// The map that the buckets stand for.
pub open spec fn content<K: Key, V>(rows: Seq<Seq<(K, V)>>) -> Map<K::V, V> {
    Map::new(|a: K::V| lookup(rows, a) is Some, |a: K::V| lookup(rows, a).unwrap())
}

/// What is stored in the map `m` under `a`, if anything.
pub open spec fn stored<A, V>(m: Map<A, V>, a: A) -> Option<V> {
    if m.contains_key(a) {
        Some(m[a])
    } else {
        None
    }
}

/// The buckets after `pair` is stored in a table with at least one bucket: a
/// key that is present keeps its place and gets the value, a new key goes
/// with its value to the end of the bucket where it belongs.
pub open spec fn inserted<K: Key, V>(rows: Seq<Seq<(K, V)>>, pair: (K, V)) -> Seq<Seq<(K, V)>> {
    let b = home::<K>(pair.0@, rows.len() as int);
    let row = rows[b];
    if holds(row, pair.0@) {
        let j = slot(row, pair.0@);
        rows.update(b, row.update(j, (row[j].0, pair.1)))
    } else {
        rows.update(b, row.push(pair))
    }
}

/// The buckets after the key with the view `a` is removed: the last pair of
/// its bucket takes its place.
pub open spec fn without<K: Key, V>(rows: Seq<Seq<(K, V)>>, a: K::V) -> Seq<Seq<(K, V)>> {
    if lookup(rows, a) is Some {
        let b = home::<K>(a, rows.len() as int);
        let row = rows[b];
        rows.update(b, row.update(slot(row, a), row.last()).drop_last())
    } else {
        rows
    }
}

/// The position of a key in a row without repeated keys is the one position
/// where it stands.
pub proof fn lemma_find_at<K: Key, V>(row: Seq<(K, V)>, j: int)
    requires
        distinct(row),
        0 <= j < row.len(),
    ensures
        holds(row, row[j].0@),
        slot(row, row[j].0@) == j,
        find(row, row[j].0@) == Some(row[j].1),
{
    let a = row[j].0@;
    assert(holds(row, a));
    let s = slot(row, a);
    assert(0 <= s < row.len() && row[s].0@ == a);
    if s < j {
        assert(row[s].0@ != row[j].0@);
    } else if j < s {
        assert(row[j].0@ != row[s].0@);
    }
}

/// Appending a pair with a new key adds that key and changes nothing else.
pub proof fn lemma_find_push<K: Key, V>(row: Seq<(K, V)>, pair: (K, V))
    requires
        distinct(row),
        !holds(row, pair.0@),
    ensures
        distinct(row.push(pair)),
        forall|x: K::V|
            #[trigger] find(row.push(pair), x) == if x == pair.0@ {
                Some(pair.1)
            } else {
                find(row, x)
            },
{
    let next = row.push(pair);
    assert forall|i: int, j: int| 0 <= i < j < next.len() implies (#[trigger] next[i]).0@ != (
    #[trigger] next[j]).0@ by {
        if j == row.len() {
            assert(next[i] == row[i]);
            if row[i].0@ == pair.0@ {
                assert(holds(row, pair.0@));
            }
        } else {
            assert(next[i] == row[i]);
            assert(next[j] == row[j]);
        }
    }
    assert forall|x: K::V|
        #[trigger] find(next, x) == if x == pair.0@ {
            Some(pair.1)
        } else {
            find(row, x)
        } by {
        if x == pair.0@ {
            assert(next[row.len() as int] == pair);
            lemma_find_at(next, row.len() as int);
        } else if holds(row, x) {
            let s = slot(row, x);
            assert(next[s] == row[s]);
            lemma_find_at(next, s);
        } else if holds(next, x) {
            let s = slot(next, x);
            assert(s < row.len());
            assert(next[s] == row[s]);
            assert(holds(row, x));
        }
    }
}

/// Replacing the value of a pair, under a key with the same view, changes
/// what that key finds and nothing else.
pub proof fn lemma_find_update<K: Key, V>(row: Seq<(K, V)>, j: int, pair: (K, V))
    requires
        distinct(row),
        0 <= j < row.len(),
        pair.0@ == row[j].0@,
    ensures
        distinct(row.update(j, pair)),
        forall|x: K::V|
            #[trigger] find(row.update(j, pair), x) == if x == pair.0@ {
                Some(pair.1)
            } else {
                find(row, x)
            },
{
    let next = row.update(j, pair);
    assert forall|i: int, k: int| 0 <= i < k < next.len() implies (#[trigger] next[i]).0@ != (
    #[trigger] next[k]).0@ by {
        assert(next[i].0@ == row[i].0@);
        assert(next[k].0@ == row[k].0@);
    }
    assert forall|x: K::V|
        #[trigger] find(next, x) == if x == pair.0@ {
            Some(pair.1)
        } else {
            find(row, x)
        } by {
        if x == pair.0@ {
            assert(next[j] == pair);
            lemma_find_at(next, j);
        } else if holds(row, x) {
            let s = slot(row, x);
            assert(next[s] == row[s]);
            lemma_find_at(next, s);
        } else if holds(next, x) {
            let s = slot(next, x);
            assert(next[s] == row[s]);
            assert(holds(row, x));
        }
    }
}

/// Removing the pair at `j` by moving the last pair into its place removes
/// that key and changes nothing else.
pub proof fn lemma_find_swap_remove<K: Key, V>(row: Seq<(K, V)>, j: int)
    requires
        distinct(row),
        0 <= j < row.len(),
    ensures
        distinct(row.update(j, row.last()).drop_last()),
        forall|x: K::V|
            #[trigger] find(row.update(j, row.last()).drop_last(), x) == if x == row[j].0@ {
                None
            } else {
                find(row, x)
            },
{
    let last = row.len() - 1;
    let next = row.update(j, row.last()).drop_last();
    assert forall|p: int| 0 <= p < next.len() implies #[trigger] next[p] == if p == j {
        row[last]
    } else {
        row[p]
    } by {}
    assert forall|i: int, k: int| 0 <= i < k < next.len() implies (#[trigger] next[i]).0@ != (
    #[trigger] next[k]).0@ by {
        let oi = if i == j {
            last
        } else {
            i
        };
        let ok = if k == j {
            last
        } else {
            k
        };
        assert(next[i] == row[oi]);
        assert(next[k] == row[ok]);
        if oi < ok {
            assert(row[oi].0@ != row[ok].0@);
        } else {
            assert(row[ok].0@ != row[oi].0@);
        }
    }
    assert forall|x: K::V|
        #[trigger] find(next, x) == if x == row[j].0@ {
            None
        } else {
            find(row, x)
        } by {
        if holds(next, x) {
            let s = slot(next, x);
            let os = if s == j {
                last
            } else {
                s
            };
            assert(next[s] == row[os]);
            lemma_find_at(row, os);
            lemma_find_at(next, s);
            if x == row[j].0@ {
                lemma_find_at(row, j);
            }
        } else if x != row[j].0@ && holds(row, x) {
            let s = slot(row, x);
            if s == last {
                assert(next[j] == row[last]);
                assert(holds(next, x));
            } else {
                assert(next[s] == row[s]);
                assert(holds(next, x));
            }
        }
    }
}

/// Changing one bucket so that only the key `a`, which belongs there, finds
/// something else changes the map at `a` and nowhere else.
pub proof fn lemma_content_update<K: Key, V>(
    rows: Seq<Seq<(K, V)>>,
    i: int,
    row: Seq<(K, V)>,
    a: K::V,
    r: Option<V>,
)
    requires
        0 <= i < rows.len(),
        home::<K>(a, rows.len() as int) == i,
        forall|x: K::V|
            #[trigger] find(row, x) == if x == a {
                r
            } else {
                find(rows[i], x)
            },
    ensures
        content(rows.update(i, row)) == match r {
            Some(v) => content(rows).insert(a, v),
            None => content(rows).remove(a),
        },
{
    let next = rows.update(i, row);
    let expected = match r {
        Some(v) => content(rows).insert(a, v),
        None => content(rows).remove(a),
    };
    assert forall|x: K::V| #[trigger] lookup(next, x) == if x == a {
        r
    } else {
        lookup(rows, x)
    } by {
        let h = home::<K>(x, rows.len() as int);
        if h == i {
            assert(next[h] == row);
            assert(find(row, x) == if x == a {
                r
            } else {
                find(rows[i], x)
            });
        } else {
            assert(next[h] == rows[h]);
        }
    }
    assert(content(next) =~= expected);
}

/// Changing one bucket into one that is in order keeps the table in order.
pub proof fn lemma_sound_update<K: Key, V>(rows: Seq<Seq<(K, V)>>, i: int, row: Seq<(K, V)>)
    requires
        sound(rows),
        0 <= i < rows.len(),
        distinct(row),
        at_home(row, i, rows.len() as int),
    ensures
        sound(rows.update(i, row)),
{
    let next = rows.update(i, row);
    assert forall|k: int| 0 <= k < next.len() implies distinct(#[trigger] next[k]) && at_home(
        next[k],
        k,
        next.len() as int,
    ) by {
        if k != i {
            assert(next[k] == rows[k]);
        }
    }
}

/// Changing one bucket changes the number of pairs by the change of that
/// bucket's length.
pub proof fn lemma_flatten_update<T>(rows: Seq<Seq<T>>, i: int, row: Seq<T>)
    requires
        0 <= i < rows.len(),
    ensures
        rows.update(i, row).flatten().len() == rows.flatten().len() - rows[i].len() + row.len(),
    decreases rows.len(),
{
    let next = rows.update(i, row);
    if i == 0 {
        assert(next.drop_first() =~= rows.drop_first());
    } else {
        assert(next.drop_first() =~= rows.drop_first().update(i - 1, row));
        lemma_flatten_update(rows.drop_first(), i - 1, row);
    }
}

/// Buckets that are all empty hold no pairs.
pub proof fn lemma_flatten_empty<T>(rows: Seq<Seq<T>>)
    requires
        forall|i: int| 0 <= i < rows.len() ==> (#[trigger] rows[i]).len() == 0,
    ensures
        rows.flatten() == Seq::<T>::empty(),
    decreases rows.len(),
{
    if rows.len() > 0 {
        lemma_flatten_empty(rows.drop_first());
        assert(rows.flatten() =~= Seq::<T>::empty());
    }
}

/// Storing a pair keeps the table in order, changes the map at the key of
/// the pair and nowhere else, and adds a pair exactly when the key is new.
pub proof fn lemma_inserted<K: Key, V>(rows: Seq<Seq<(K, V)>>, pair: (K, V))
    requires
        sound(rows),
        rows.len() > 0,
    ensures
        sound(inserted(rows, pair)),
        inserted(rows, pair).len() == rows.len(),
        content(inserted(rows, pair)) == content(rows).insert(pair.0@, pair.1),
        inserted(rows, pair).flatten().len() == rows.flatten().len() + if content(
            rows,
        ).contains_key(pair.0@) {
            0int
        } else {
            1int
        },
{
    let n = rows.len() as int;
    let b = home::<K>(pair.0@, n);
    let row = rows[b];
    assert(distinct(row) && at_home(row, b, n));
    if holds(row, pair.0@) {
        let j = slot(row, pair.0@);
        let next = row.update(j, (row[j].0, pair.1));
        lemma_find_update(row, j, (row[j].0, pair.1));
        assert forall|p: int| 0 <= p < next.len() implies home::<K>((#[trigger] next[p]).0@, n)
            == b by {
            assert(next[p].0@ == row[p].0@);
        }
        lemma_sound_update(rows, b, next);
        lemma_content_update(rows, b, next, pair.0@, Some(pair.1));
        lemma_flatten_update(rows, b, next);
    } else {
        let next = row.push(pair);
        lemma_find_push(row, pair);
        assert forall|p: int| 0 <= p < next.len() implies home::<K>((#[trigger] next[p]).0@, n)
            == b by {
            if p < row.len() {
                assert(next[p] == row[p]);
            }
        }
        lemma_sound_update(rows, b, next);
        lemma_content_update(rows, b, next, pair.0@, Some(pair.1));
        lemma_flatten_update(rows, b, next);
    }
}

/// Removing a key keeps the table in order, takes that key from the map and
/// changes nothing else, and takes a pair away exactly when the key was
/// there.
pub proof fn lemma_without<K: Key, V>(rows: Seq<Seq<(K, V)>>, a: K::V)
    requires
        sound(rows),
    ensures
        sound(without(rows, a)),
        without(rows, a).len() == rows.len(),
        content(without(rows, a)) == content(rows).remove(a),
        without(rows, a).flatten().len() == rows.flatten().len() - if content(rows).contains_key(
            a,
        ) {
            1int
        } else {
            0int
        },
{
    if lookup(rows, a) is Some {
        let n = rows.len() as int;
        let b = home::<K>(a, n);
        let row = rows[b];
        let j = slot(row, a);
        let next = row.update(j, row.last()).drop_last();
        assert(distinct(row) && at_home(row, b, n));
        lemma_find_swap_remove(row, j);
        assert forall|p: int| 0 <= p < next.len() implies home::<K>((#[trigger] next[p]).0@, n)
            == b by {
            if p == j {
                assert(next[p] == row[row.len() - 1]);
            } else {
                assert(next[p] == row[p]);
            }
        }
        lemma_sound_update(rows, b, next);
        lemma_content_update(rows, b, next, a, None);
        lemma_flatten_update(rows, b, next);
    } else {
        assert(content(rows).remove(a) =~= content(rows));
    }
}

/// In a table that is in order, the pair at position `j` of bucket `b` is
/// where its key is sought and found.
pub proof fn lemma_found_at<K: Key, V>(rows: Seq<Seq<(K, V)>>, b: int, j: int)
    requires
        sound(rows),
        0 <= b < rows.len(),
        0 <= j < rows[b].len(),
    ensures
        home::<K>(rows[b][j].0@, rows.len() as int) == b,
        holds(rows[b], rows[b][j].0@),
        slot(rows[b], rows[b][j].0@) == j,
        lookup(rows, rows[b][j].0@) == Some(rows[b][j].1),
        content(rows).contains_key(rows[b][j].0@),
        content(rows)[rows[b][j].0@] == rows[b][j].1,
{
    assert(distinct(rows[b]) && at_home(rows[b], b, rows.len() as int));
    lemma_find_at(rows[b], j);
}

} // verus!
