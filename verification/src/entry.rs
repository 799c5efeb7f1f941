//! Access to the place of one key, found with a single hash and a single
//! search of its bucket, for reading, changing or filling it.

use crate::growth::grown;
use crate::growth::load_limit;
use crate::growth::regrown;
use crate::key::Key;
use crate::model::inserted;
use crate::table::pair_mut;
use crate::table::position;
use crate::table::rows_of;
use crate::table::HashMap;
use vstd::prelude::*;

verus! {

/// The place of a key that the table holds: the stored key and its value,
/// which can be written. Writing the value changes the table; the contracts
/// speak of the fields, so they are public.
pub struct OccupiedEntry<'a, K: Key, V> {
    pub key: &'a K,
    pub value: &'a mut V,
}

/// The place of a key that the table does not hold: the key, the table, and
/// the bucket where the key belongs. Nothing is stored until `insert`.
///
/// The contracts speak of the fields, so they are public; an entry is made
/// by `HashMap::entry` and is to be used as it was made (see `wf`): it holds
/// the table for as long as it lives, so nothing else can change the table
/// meanwhile.
pub struct VacantEntry<'a, K: Key, V> {
    pub key: K,
    pub map: &'a mut HashMap<K, V>,
    pub bucket: usize,
}

/// The place of a key in a table, occupied or vacant.
pub enum Entry<'a, K: Key, V> {
    Occupied(OccupiedEntry<'a, K, V>),
    Vacant(VacantEntry<'a, K, V>),
}

/// What filling a vacant entry does to its table: `after` is `before` with
/// `value` stored under `key`, at the end of the bucket where `key` belongs.
/// The table does not grow, and stays within one pair of three quarters full.
pub open spec fn filled<K: Key, V>(
    before: HashMap<K, V>,
    after: HashMap<K, V>,
    key: K,
    value: V,
) -> bool {
    &&& after@ =~= before@.insert(key@, value)
    &&& after.rows() =~~= inserted(before.rows(), (key, value))
    &&& after.bucket_count() == before.bucket_count()
    &&& after@.len() == before@.len() + 1
    &&& after@.len() <= load_limit(after.bucket_count() as int) + 1
}

impl<'a, K: Key, V> VacantEntry<'a, K, V> {
    /// Whether the entry is as `entry` makes it: the table does not hold the
    /// key, the bucket is where the key belongs, and the table is at most
    /// three quarters full.
    pub open spec fn wf(self) -> bool {
        self.map.vacancy(self.key@, self.bucket as int)
    }

    /// Stores `value` under the key at the end of its bucket and returns a
    /// reference to the stored value.
    pub fn insert(self, value: V) -> (r: &'a mut V)
        requires
            self.wf(),
        ensures
            *r == value,
            filled(*old(self.map), *final(self.map), self.key, *final(r)),
    {
        let VacantEntry { key, map, bucket } = self;
        let (mut buckets, items) = map.take_apart();
        let ghost rows = rows_of(buckets@);
        let n: usize = buckets[bucket].len();
        proof {
            crate::model::lemma_inserted(rows, (key, value));
        }
        buckets[bucket].push((key, value));
        proof {
            assert(rows_of(buckets@) =~= inserted(rows, (key, value)));
            crate::model::lemma_found_at(rows_of(buckets@), bucket as int, n as int);
        }
        *map = HashMap { buckets, items: items + 1 };
        pair_mut(&mut map.buckets, bucket, n, Ghost(items + 1)).1
    }
}

impl<'a, K: Key, V> Entry<'a, K, V> {
    /// Whether the entry is as `entry` makes it.
    pub open spec fn wf(self) -> bool {
        self matches Entry::Vacant(vacant) ==> vacant.wf()
    }

    /// The value of the entry, after storing `value` if the entry is vacant.
    pub fn or_insert(self, value: V) -> (r: &'a mut V)
        requires
            self.wf(),
        ensures
            self is Occupied ==> {
                &&& *r == *old(self->Occupied_0.value)
                &&& *final(self->Occupied_0.value) == *final(r)
            },
            self is Vacant ==> {
                &&& *r == value
                &&& filled(
                    *old(self->Vacant_0.map),
                    *final(self->Vacant_0.map),
                    self->Vacant_0.key,
                    *final(r),
                )
            },
    {
        match self {
            Entry::Occupied(e) => e.value,
            Entry::Vacant(e) => e.insert(value),
        }
    }

    /// The value of the entry, after storing what `maker` returns if the
    /// entry is vacant. Of an occupied entry `maker` is not called: nothing
    /// is asked of it then, so it may be a function that cannot be called.
    pub fn or_insert_with<F: FnOnce() -> V>(self, maker: F) -> (r: &'a mut V)
        requires
            self.wf(),
            self is Vacant ==> maker.requires(()),
        ensures
            self is Occupied ==> {
                &&& *r == *old(self->Occupied_0.value)
                &&& *final(self->Occupied_0.value) == *final(r)
            },
            self is Vacant ==> {
                &&& maker.ensures((), *r)
                &&& filled(
                    *old(self->Vacant_0.map),
                    *final(self->Vacant_0.map),
                    self->Vacant_0.key,
                    *final(r),
                )
            },
    {
        match self {
            Entry::Occupied(e) => e.value,
            Entry::Vacant(e) => e.insert(maker()),
        }
    }

    /// The value of the entry, after storing the default value of `V` if the
    /// entry is vacant.
    pub fn or_default(self) -> (r: &'a mut V) where V: Default
        requires
            self.wf(),
        ensures
            self is Occupied ==> {
                &&& *r == *old(self->Occupied_0.value)
                &&& *final(self->Occupied_0.value) == *final(r)
            },
            self is Vacant ==> {
                &&& call_ensures(V::default, (), *r)
                &&& filled(
                    *old(self->Vacant_0.map),
                    *final(self->Vacant_0.map),
                    self->Vacant_0.key,
                    *final(r),
                )
            },
    {
        self.or_insert_with(V::default)
    }
}

impl<K: Key, V> HashMap<K, V> {
    /// The place of `key` in the table. Before it is sought, the table grows
    /// if it has no bucket or is more than three quarters full.
    pub fn entry<'a>(&'a mut self, key: K) -> (e: Entry<'a, K, V>)
        ensures
            match e {
                Entry::Occupied(o) => {
                    &&& old(self)@.contains_key(key@)
                    &&& o.key@ == key@
                    &&& *o.value == old(self)@[key@]
                    &&& final(self)@ == old(self)@.insert(key@, *final(o.value))
                    &&& final(self).rows() == inserted(
                        regrown(old(self).rows(), old(self)@.len() as int),
                        (key, *final(o.value)),
                    )
                    &&& final(self).bucket_count() == grown(
                        old(self).bucket_count() as int,
                        old(self)@.len() as int,
                    )
                    &&& final(self)@.len() <= load_limit(final(self).bucket_count() as int) + 1
                },
                Entry::Vacant(v) => {
                    &&& !old(self)@.contains_key(key@)
                    &&& v.key == key
                    &&& v.map@ == old(self)@
                    &&& v.map.rows() == regrown(old(self).rows(), old(self)@.len() as int)
                    &&& v.map.bucket_count() == grown(
                        old(self).bucket_count() as int,
                        old(self)@.len() as int,
                    )
                    &&& v.wf()
                    &&& *final(self) == *final(v.map)
                },
            },
            old(self)@.dom().finite(),
    {
        proof {
            use_type_invariant(&*self);
        }
        if self.buckets.is_empty() || self.items > crate::table::load_limit_of(
            self.buckets.len(),
        ) {
            self.resize();
        }
        proof {
            use_type_invariant(&*self);
        }
        let bucket = self.bucket(&key).unwrap();
        match position(&self.buckets[bucket], &key) {
            Some(index) => {
                proof {
                    crate::model::lemma_found_at(self.rows(), bucket as int, index as int);
                }
                let items = Ghost(self.items as int);
                let (key, value) = pair_mut(&mut self.buckets, bucket, index, items);
                Entry::Occupied(OccupiedEntry { key, value })
            },
            None => Entry::Vacant(VacantEntry { map: self, key, bucket }),
        }
    }
}

} // verus!
