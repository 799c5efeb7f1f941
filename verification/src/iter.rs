//! Traversals of a table: one that borrows it and one that takes it apart.

use crate::growth::regrown;
use crate::key::Key;
use crate::model::content;
use crate::model::inserted;
use crate::order::drained;
use crate::order::drained_rest;
use crate::order::lists;
use crate::order::rest;
use crate::table::rows_of;
use crate::table::HashMap;
use vstd::prelude::*;
use vstd::std_specs::iter::IteratorSpec;

verus! {

/// The map that results from inserting `pairs` in order into an empty table:
/// of two pairs with the same key the later one stays.
pub open spec fn collected<K: Key, V>(pairs: Seq<(K, V)>) -> Map<K::V, V>
    decreases pairs.len(),
{
    if pairs.len() == 0 {
        Map::empty()
    } else {
        collected(pairs.drop_last()).insert(pairs.last().0@, pairs.last().1)
    }
}

/// The buckets that result from inserting `pairs` in order into an empty
/// table.
pub open spec fn built<K: Key, V>(pairs: Seq<(K, V)>) -> Seq<Seq<(K, V)>>
    decreases pairs.len(),
{
    if pairs.len() == 0 {
        Seq::empty()
    } else {
        let before = built(pairs.drop_last());
        inserted(regrown(before, content(before).len() as int), pairs.last())
    }
}

/// A traversal of a borrowed table: bucket after bucket, each in the order
/// in which it stores its pairs.
pub struct Iter<'a, K: Key, V> {
    map: &'a HashMap<K, V>,
    bucket: usize,
    at: usize,
}

/// A traversal that owns the pairs of a table and hands them out: bucket
/// after bucket, each from its back.
pub struct IntoIter<K: Key, V> {
    buckets: Vec<Vec<(K, V)>>,
    bucket: usize,
}

impl<'a, K: Key, V> Iter<'a, K, V> {
    /// The pairs that are yet to be visited, in order.
    pub closed spec fn remaining(&self) -> Seq<(K, V)> {
        rest(self.map.rows(), self.bucket as int, self.at as int)
    }

    /// Visits the next pair, or returns `None` when every pair was visited.
    pub fn next(&mut self) -> (r: Option<(&'a K, &'a V)>)
        ensures
            match r {
                Some((key, value)) => {
                    &&& old(self).remaining().len() > 0
                    &&& (*key, *value) == old(self).remaining()[0]
                    &&& final(self).remaining() == old(self).remaining().drop_first()
                },
                None => old(self).remaining().len() == 0 && final(self).remaining().len() == 0,
            },
    {
        let map: &'a HashMap<K, V> = self.map;
        loop
            invariant
                self.map == map,
                self.remaining() == old(self).remaining(),
            decreases map.buckets@.len() - self.bucket,
        {
            if self.bucket >= map.buckets.len() {
                return None;
            }
            let row = &map.buckets[self.bucket];
            if self.at < row.len() {
                let pair = &row[self.at];
                proof {
                    crate::order::lemma_rest_step(
                        map.rows(),
                        self.bucket as int,
                        self.at as int,
                    );
                }
                self.at += 1;
                return Some((&pair.0, &pair.1));
            }
            proof {
                crate::order::lemma_rest_skip(map.rows(), self.bucket as int, self.at as int);
            }
            self.bucket += 1;
            self.at = 0;
        }
    }
}

impl<K: Key, V> IntoIter<K, V> {
    /// The pairs that are yet to be handed out, in order.
    pub closed spec fn remaining(&self) -> Seq<(K, V)> {
        drained_rest(rows_of(self.buckets@), self.bucket as int)
    }

    /// Hands out the next pair, or returns `None` when no pair is left.
    pub fn next(&mut self) -> (r: Option<(K, V)>)
        ensures
            match r {
                Some(pair) => {
                    &&& old(self).remaining().len() > 0
                    &&& pair == old(self).remaining()[0]
                    &&& final(self).remaining() == old(self).remaining().drop_first()
                },
                None => old(self).remaining().len() == 0 && final(self).remaining().len() == 0,
            },
    {
        loop
            invariant
                self.remaining() == old(self).remaining(),
            decreases self.buckets@.len() - self.bucket,
        {
            if self.bucket >= self.buckets.len() {
                proof {
                    if self.bucket == self.buckets@.len() {
                    }
                }
                return None;
            }
            let ghost rows = rows_of(self.buckets@);
            match self.buckets[self.bucket].pop() {
                Some(pair) => {
                    proof {
                        crate::order::lemma_drained_step(rows, self.bucket as int);
                        assert(rows_of(self.buckets@) =~= rows.update(
                            self.bucket as int,
                            rows[self.bucket as int].drop_last(),
                        ));
                    }
                    return Some(pair);
                },
                None => {
                    proof {
                        assert(rows_of(self.buckets@) =~= rows);
                        crate::order::lemma_drained_skip(rows, self.bucket as int);
                    }
                    self.bucket += 1;
                },
            }
        }
    }
}

impl<K: Key, V> HashMap<K, V> {
    /// A traversal of the table. It visits `entries()`: each key once, with
    /// its value.
    pub fn iter(&self) -> (it: Iter<'_, K, V>)
        ensures
            it.remaining() == self.entries(),
            lists(self.entries(), self@),
            self.entries().len() == self@.len(),
            self@.dom().finite(),
    {
        proof {
            use_type_invariant(self);
            crate::order::lemma_rest_start(self.rows());
            crate::order::lemma_flatten_lists(self.rows());
        }
        Iter { map: self, bucket: 0, at: 0 }
    }

    /// The pairs that `into_iter` hands out: bucket after bucket, each from
    /// its back.
    pub open spec fn drained_entries(&self) -> Seq<(K, V)> {
        drained(self.rows())
    }

    /// Takes the table apart. The traversal hands out `drained_entries()`:
    /// each key once, with its value.
    pub fn into_iter(self) -> (it: IntoIter<K, V>)
        ensures
            it.remaining() == self.drained_entries(),
            lists(self.drained_entries(), self@),
            self.drained_entries().len() == self@.len(),
            self@.dom().finite(),
    {
        proof {
            use_type_invariant(&self);
            crate::order::lemma_drained_start(self.rows());
            crate::order::lemma_drained_lists(self.rows());
        }
        IntoIter { buckets: self.buckets, bucket: 0 }
    }

    /// Builds a table from the pairs that `iter` yields, inserted in order.
    pub fn from_iter<I: Iterator<Item = (K, V)>>(iter: I) -> (map: Self)
        requires
            iter.obeys_prophetic_iter_laws(),
            iter.decrease() is Some,
        ensures
            map@ == collected(iter.remaining()),
            map.rows() == built(iter.remaining()),
            map@.dom().finite(),
    {
        let mut iter = iter;
        let mut map = HashMap::new();
        let ghost all = iter.remaining();
        let ghost mut done: Seq<(K, V)> = Seq::empty();
        loop
            invariant
                iter.obeys_prophetic_iter_laws(),
                iter.decrease() is Some,
                done + iter.remaining() == all,
                map@ == collected(done),
                map.rows() == built(done),
                map@.dom().finite(),
            ensures
                done == all,
                map@ == collected(done),
                map.rows() == built(done),
                map@.dom().finite(),
            decreases iter.decrease()->0,
        {
            match iter.next() {
                Some((key, value)) => {
                    map.insert(key, value);
                    proof {
                        assert(done.push((key, value)).drop_last() =~= done);
                        done = done.push((key, value));
                    }
                },
                None => {
                    break ;
                },
            }
        }
        map
    }
}

} // verus!
