//! The table itself: construction, lookup, insertion, removal and growth.

use crate::key::Equivalent;
use crate::key::Key;
use crate::growth::chosen;
use crate::growth::grown;
use crate::growth::load_limit;
use crate::growth::regrown;
use crate::growth::rehashed;
use crate::growth::taken;
use crate::model::content;
use crate::model::holds;
use crate::model::home;
use crate::model::inserted;
use crate::model::lookup;
use crate::model::sound;
use crate::model::stored;
use crate::model::without;
use crate::order::drained;
use vstd::prelude::*;

verus! {

/// A hash table from keys of type `K` to values of type `V`.
///
/// Its view is the map from the views of its keys to its values. A new table
/// has no buckets; the bucket array appears with the first insertion and
/// doubles whenever an insertion finds more than three quarters of it in use.
pub struct HashMap<K: Key, V> {
    pub(crate) buckets: Vec<Vec<(K, V)>>,
    pub(crate) items: usize,
}

impl<K: Key, V> View for HashMap<K, V> {
    type V = Map<K::V, V>;

    /// The map that the buckets stand for.
    open spec fn view(&self) -> Map<K::V, V> {
        content(self.rows())
    }
}

/// The buckets of a bucket array, each as the sequence of its pairs.
pub open spec fn rows_of<K: Key, V>(buckets: Seq<Vec<(K, V)>>) -> Seq<Seq<(K, V)>> {
    buckets.map_values(|bucket: Vec<(K, V)>| bucket@)
}

/// What holds of the buckets and the pair count of every table: each pair
/// sits where its key belongs, no key occurs twice, the count is the number
/// of pairs, and it is at most one above three quarters of the bucket count.
pub open spec fn valid<K: Key, V>(rows: Seq<Seq<(K, V)>>, items: int) -> bool {
    &&& sound(rows)
    &&& rows.flatten().len() == items
    &&& content(rows).dom().finite()
    &&& content(rows).dom().len() == items
    &&& items <= load_limit(rows.len() as int) + 1
}

/// Three quarters of `n`, rounded down, computed without overflow.
pub(crate) fn load_limit_of(n: usize) -> (limit: usize)
    ensures
        limit == load_limit(n as int),
{
    n / 4 * 3 + n % 4 * 3 / 4
}

/// The bucket, out of `buckets`, for a key with the hash code `hash`.
pub fn bucket_index(hash: u64, buckets: usize) -> (index: usize)
    requires
        buckets > 0,
    ensures
        index == hash as int % buckets as int,
        index < buckets,
{
    (hash % buckets as u64) as usize
}

/// The position in `row` of the key that `key` stands for, if there is one.
pub(crate) fn position<K: Key, V, Q: Equivalent<K> + ?Sized>(row: &Vec<(K, V)>, key: &Q) -> (r:
    Option<usize>)
    ensures
        match r {
            Some(j) => j < row@.len() && row@[j as int].0@ == key@,
            None => !holds(row@, key@),
        },
{
    let mut j: usize = 0;
    while j < row.len()
        invariant
            j <= row@.len(),
            forall|p: int| 0 <= p < j ==> (#[trigger] row@[p]).0@ != key@,
        decreases row@.len() - j,
    {
        if key.equivalent(&row[j].0) {
            return Some(j);
        }
        j += 1;
    }
    None
}

/// Replaces the bucket array by one of twice the size, or of one bucket where
/// there was none, and moves every pair to the bucket where its key now
/// belongs. The pairs are taken bucket after bucket, each bucket from its
/// back.
fn rehash<K: Key, V>(buckets: Vec<Vec<(K, V)>>) -> (fresh: Vec<Vec<(K, V)>>)
    ensures
        fresh@.len() == if buckets@.len() == 0 {
            1
        } else {
            2 * buckets@.len()
        },
        rows_of(fresh@) == rehashed(rows_of(buckets@), fresh@.len() as int),
{
    let ghost orig = rows_of(buckets@);
    let mut emptied = buckets;
    let mut fresh: Vec<Vec<(K, V)>> = Vec::new();
    if emptied.len() == 0 {
        fresh.push(Vec::new());
    }
    let mut i: usize = 0;
    while i < emptied.len()
        invariant
            i <= emptied@.len(),
            fresh@.len() == if emptied@.len() == 0 {
                1
            } else {
                2 * i
            },
            forall|k: int| 0 <= k < fresh@.len() ==> (#[trigger] fresh@[k])@.len() == 0,
        decreases emptied@.len() - i,
    {
        fresh.push(Vec::new());
        fresh.push(Vec::new());
        i += 1;
    }
    let n: usize = fresh.len();
    let mut m: usize = 0;
    while m < emptied.len()
        invariant
            emptied@.len() == orig.len(),
            m <= orig.len(),
            n == fresh@.len(),
            n > 0,
            forall|k: int| m <= k < orig.len() ==> (#[trigger] emptied@[k])@ == orig[k],
            forall|b: int|
                0 <= b < n ==> #[trigger] fresh@[b]@ == chosen(
                    drained(orig.take(m as int)),
                    b,
                    n as int,
                ),
        decreases orig.len() - m,
    {
        proof {
            crate::growth::lemma_enter_bucket(orig, m as int);
        }
        loop
            invariant
                emptied@.len() == orig.len(),
                m < orig.len(),
                n == fresh@.len(),
                n > 0,
                forall|k: int| m < k < orig.len() ==> (#[trigger] emptied@[k])@ == orig[k],
                emptied@[m as int]@.len() <= orig[m as int].len(),
                emptied@[m as int]@ == orig[m as int].take(emptied@[m as int]@.len() as int),
                forall|b: int|
                    0 <= b < n ==> #[trigger] fresh@[b]@ == chosen(
                        taken(orig, m as int, emptied@[m as int]@.len() as int),
                        b,
                        n as int,
                    ),
            ensures
                emptied@[m as int]@.len() == 0,
            decreases emptied@[m as int]@.len(),
        {
            let ghost l = emptied@[m as int]@.len() as int;
            let (key, value) = match emptied[m].pop() {
                Some(pair) => pair,
                None => {
                    break ;
                },
            };
            let b = bucket_index(key.hash_code(), n);
            proof {
                crate::growth::lemma_take_pair(orig, m as int, l);
                assert(taken(orig, m as int, l - 1).drop_last() =~= taken(orig, m as int, l));
            }
            fresh[b].push((key, value));
        }
        proof {
            crate::growth::lemma_leave_bucket(orig, m as int);
        }
        m += 1;
    }
    proof {
        assert(orig.take(orig.len() as int) =~= orig);
    }
    fresh
}

/// The key at position `j` of bucket `b`, and its value for writing.
pub(crate) fn pair_mut<'a, K: Key, V>(
    buckets: &'a mut Vec<Vec<(K, V)>>,
    b: usize,
    j: usize,
    Ghost(items): Ghost<int>,
) -> (r: (&'a K, &'a mut V))
    requires
        valid(rows_of(old(buckets)@), items),
        b < old(buckets)@.len(),
        j < old(buckets)@[b as int]@.len(),
    ensures
        *r.0 == old(buckets)@[b as int]@[j as int].0,
        *r.1 == old(buckets)@[b as int]@[j as int].1,
        rows_of(final(buckets)@) =~~= inserted(rows_of(old(buckets)@), (*r.0, *final(r.1))),
        valid(rows_of(final(buckets)@), items),
        content(rows_of(final(buckets)@)) == content(rows_of(old(buckets)@)).insert(
            r.0@,
            *final(r.1),
        ),
    no_unwind
{
    let ghost rows = rows_of(buckets@);
    let pair = &mut buckets[b][j];
    let r = (&pair.0, &mut pair.1);
    proof {
        crate::model::lemma_found_at(rows, b as int, j as int);
        crate::model::lemma_inserted(rows, (*r.0, *final(r.1)));
    }
    r
}

impl<K: Key, V> HashMap<K, V> {
    /// The buckets, each as the sequence of its pairs.
    pub open(crate) spec fn rows(&self) -> Seq<Seq<(K, V)>> {
        rows_of(self.buckets@)
    }

    /// The number of buckets.
    pub open spec fn bucket_count(&self) -> nat {
        self.rows().len()
    }

    /// The pairs in the order of a traversal: bucket after bucket, each in
    /// the order in which it stores its pairs.
    pub open spec fn entries(&self) -> Seq<(K, V)> {
        self.rows().flatten()
    }

    /// Whether a key with the view `a`, which the table does not hold, can be
    /// put into bucket `b` at once: `b` is where it belongs, and the table is
    /// at most three quarters full.
    pub open spec fn vacancy(&self, a: K::V, b: int) -> bool {
        &&& self.bucket_count() > 0
        &&& b == home::<K>(a, self.bucket_count() as int)
        &&& !self@.contains_key(a)
        &&& self@.len() <= load_limit(self.bucket_count() as int)
    }

    #[verifier::type_invariant]
    pub(crate) open spec fn inv(&self) -> bool {
        valid(self.rows(), self.items as int)
    }

    /// Takes the buckets and the pair count out of the table, which is left
    /// empty, so that both can be changed before they are put back.
    pub(crate) fn take_apart(&mut self) -> (parts: (Vec<Vec<(K, V)>>, usize))
        ensures
            parts.0 == old(self).buckets,
            parts.1 == old(self).items,
            valid(rows_of(parts.0@), parts.1 as int),
            parts.0@.len() <= usize::MAX,
    {
        proof {
            use_type_invariant(&*self);
        }
        let mut taken = HashMap::new();
        std::mem::swap(self, &mut taken);
        let HashMap { buckets, items } = taken;
        assert(buckets.len() == buckets@.len());
        (buckets, items)
    }

    /// Creates an empty table, without any bucket.
    pub fn new() -> (map: Self)
        ensures
            map@ == Map::<K::V, V>::empty(),
            map.bucket_count() == 0,
            map@.dom().finite(),
    {
        let buckets: Vec<Vec<(K, V)>> = Vec::new();
        proof {
            let rows = rows_of(buckets@);
            assert(content(rows) =~= Map::<K::V, V>::empty());
        }
        HashMap { buckets, items: 0 }
    }

    /// The number of keys in the table. It is the number of pairs in the
    /// buckets, which are in order, and is never more than one above three
    /// quarters of the number of buckets.
    pub fn len(&self) -> (n: usize)
        ensures
            n == self@.len(),
            valid(self.rows(), n as int),
            self@.dom().finite(),
    {
        proof {
            use_type_invariant(self);
        }
        self.items
    }

    /// The number of buckets.
    pub fn num_buckets(&self) -> (n: usize)
        ensures
            n == self.bucket_count(),
    {
        self.buckets.len()
    }

    /// Whether the table holds no key.
    pub fn is_empty(&self) -> (b: bool)
        ensures
            b == (self@.len() == 0),
            self@.dom().finite(),
    {
        proof {
            use_type_invariant(self);
        }
        self.items == 0
    }

    /// The bucket in which the key that `key` stands for belongs, or `None`
    /// while the table has no buckets.
    pub(crate) fn bucket<Q: Equivalent<K> + ?Sized>(&self, key: &Q) -> (r: Option<usize>)
        ensures
            match r {
                Some(b) => b < self.bucket_count() && b == home::<K>(
                    key@,
                    self.bucket_count() as int,
                ),
                None => self.bucket_count() == 0,
            },
    {
        if self.buckets.is_empty() {
            return None;
        }
        proof {
            Q::hashes_alike(key@);
        }
        Some(bucket_index(key.hash_code(), self.buckets.len()))
    }

    /// Grows the table: one bucket where there was none, else twice as many.
    /// The map stays what it was.
    pub(crate) fn resize(&mut self)
        ensures
            final(self)@ == old(self)@,
            final(self).bucket_count() == if old(self).bucket_count() == 0 {
                1
            } else {
                2 * old(self).bucket_count()
            },
            final(self).rows() == rehashed(old(self).rows(), final(self).bucket_count() as int),
            final(self).items == old(self).items,
    {
        let (buckets, items) = self.take_apart();
        let ghost rows = rows_of(buckets@);
        let buckets = rehash(buckets);
        proof {
            crate::growth::lemma_rehashed(rows, buckets@.len() as int);
        }
        *self = HashMap { buckets, items };
    }

    /// Stores `value` under `key` and returns the value that was stored under
    /// it before, if any. A key that is present keeps its place and is not
    /// replaced by `key`; a new key goes to the end of its bucket. Before
    /// that, the table grows if it has no bucket or is more than three
    /// quarters full.
    pub fn insert(&mut self, key: K, value: V) -> (previous: Option<V>)
        ensures
            final(self)@ == old(self)@.insert(key@, value),
            previous == stored(old(self)@, key@),
            final(self).rows() == inserted(
                regrown(old(self).rows(), old(self)@.len() as int),
                (key, value),
            ),
            final(self).bucket_count() == grown(
                old(self).bucket_count() as int,
                old(self)@.len() as int,
            ),
            final(self)@.len() <= load_limit(final(self).bucket_count() as int) + 1,
            old(self)@.dom().finite(),
    {
        proof {
            use_type_invariant(&*self);
        }
        if self.buckets.is_empty() || self.items > load_limit_of(self.buckets.len()) {
            self.resize();
        }
        let b = self.bucket(&key).unwrap();
        let found = position(&self.buckets[b], &key);
        let (mut buckets, items) = self.take_apart();
        let ghost rows = rows_of(buckets@);
        proof {
            crate::model::lemma_inserted(rows, (key, value));
        }
        match found {
            Some(j) => {
                let mut value = value;
                std::mem::swap(&mut buckets[b][j].1, &mut value);
                proof {
                    crate::model::lemma_found_at(rows, b as int, j as int);
                    assert(rows_of(buckets@) =~= inserted(
                        rows,
                        (key, buckets@[b as int]@[j as int].1),
                    ));
                    assert(content(rows).insert(key@, buckets@[b as int]@[j as int].1).dom()
                        =~= content(rows).dom());
                }
                *self = HashMap { buckets, items };
                Some(value)
            },
            None => {
                buckets[b].push((key, value));
                proof {
                    assert(rows_of(buckets@) =~= inserted(rows, (key, value)));
                }
                *self = HashMap { buckets, items: items + 1 };
                None
            },
        }
    }

    /// Removes the key that `key` stands for and returns its value, if the
    /// table holds it. The last pair of the bucket takes the place of the
    /// removed one.
    pub fn remove<Q: Equivalent<K> + ?Sized>(&mut self, key: &Q) -> (removed: Option<V>)
        ensures
            final(self)@ == old(self)@.remove(key@),
            removed == stored(old(self)@, key@),
            final(self).rows() == without(old(self).rows(), key@),
            final(self).bucket_count() == old(self).bucket_count(),
            old(self)@.dom().finite(),
    {
        proof {
            use_type_invariant(&*self);
        }
        let b = match self.bucket(key) {
            Some(b) => b,
            None => {
                return None;
            },
        };
        let j = match position(&self.buckets[b], key) {
            Some(j) => j,
            None => {
                return None;
            },
        };
        let (mut buckets, items) = self.take_apart();
        let ghost rows = rows_of(buckets@);
        let pair = buckets[b].swap_remove(j);
        proof {
            crate::model::lemma_found_at(rows, b as int, j as int);
            crate::model::lemma_without(rows, key@);
            assert(rows_of(buckets@) =~= without(rows, key@));
        }
        *self = HashMap { buckets, items: items - 1 };
        Some(pair.1)
    }

    /// The value stored under the key that `key` stands for.
    pub fn get<Q: Equivalent<K> + ?Sized>(&self, key: &Q) -> (r: Option<&V>)
        ensures
            r == match stored(self@, key@) {
                Some(value) => Some(&value),
                None => None,
            },
    {
        proof {
            use_type_invariant(self);
        }
        let b = match self.bucket(key) {
            Some(b) => b,
            None => {
                return None;
            },
        };
        let row = &self.buckets[b];
        match position(row, key) {
            Some(j) => {
                proof {
                    crate::model::lemma_found_at(self.rows(), b as int, j as int);
                }
                Some(&row[j].1)
            },
            None => None,
        }
    }

    /// Whether the table holds the key that `key` stands for.
    pub fn contains_key<Q: Equivalent<K> + ?Sized>(&self, key: &Q) -> (b: bool)
        ensures
            b == self@.contains_key(key@),
    {
        self.get(key).is_some()
    }
}

} // verus!
