//! Laws of the table, stated over the maps and sequences in which the
//! contracts of its operations speak.

use crate::growth::grown;
use crate::growth::load_limit;
use crate::growth::regrown;
use crate::key::Key;
use crate::model::content;
use crate::model::distinct;
use crate::model::holds;
use crate::model::inserted;
use crate::model::stored;
use crate::model::without;
use crate::order::drained;
use crate::order::lists;
use crate::table::valid;
use vstd::prelude::*;

verus! {

/// In every state of a table, with buckets `rows` and a pair count `items`:
/// a traversal of either kind visits each key of the map once, with its
/// value; it visits `items` pairs; the map has `items` keys; and `items` is
/// at most one above three quarters of the bucket count, taken as one where
/// there is no bucket.
pub proof fn law_every_state<K: Key, V>(rows: Seq<Seq<(K, V)>>, items: int)
    requires
        valid(rows, items),
    ensures
        lists(rows.flatten(), content(rows)),
        lists(drained(rows), content(rows)),
        rows.flatten().len() == items,
        drained(rows).len() == items,
        content(rows).len() == items,
        items <= load_limit(
            if rows.len() >= 1 {
                rows.len() as int
            } else {
                1
            },
        ) + 1,
{
    crate::order::lemma_flatten_lists(rows);
    crate::order::lemma_drained_lists(rows);
}

/// An insertion takes a state of the table to a state of the table: the
/// buckets are regrown and the pair is stored, the map gets the pair, and the
/// pair count goes up by one exactly when the key is new.
pub proof fn law_insert_keeps_state<K: Key, V>(rows: Seq<Seq<(K, V)>>, items: int, pair: (K, V))
    requires
        valid(rows, items),
    ensures
        valid(
            inserted(regrown(rows, items), pair),
            if content(rows).contains_key(pair.0@) {
                items
            } else {
                items + 1
            },
        ),
        content(inserted(regrown(rows, items), pair)) == content(rows).insert(pair.0@, pair.1),
        inserted(regrown(rows, items), pair).len() == grown(rows.len() as int, items),
{
    crate::growth::lemma_regrown(rows, items);
    crate::model::lemma_inserted(regrown(rows, items), pair);
    law_len_after_insert(content(rows), pair.0@, pair.1);
}

/// A removal takes a state of the table to a state of the table: the map
/// loses the key, the bucket count stays, and the pair count goes down by one
/// exactly when the key was there.
pub proof fn law_remove_keeps_state<K: Key, V>(rows: Seq<Seq<(K, V)>>, items: int, a: K::V)
    requires
        valid(rows, items),
    ensures
        valid(
            without(rows, a),
            if content(rows).contains_key(a) {
                items - 1
            } else {
                items
            },
        ),
        content(without(rows, a)) == content(rows).remove(a),
        without(rows, a).len() == rows.len(),
{
    crate::model::lemma_without(rows, a);
    law_len_after_remove(content(rows), a);
}

/// Growth takes a state of the table to a state of the table with the same
/// map.
pub proof fn law_growth_keeps_map<K: Key, V>(rows: Seq<Seq<(K, V)>>, items: int)
    requires
        valid(rows, items),
    ensures
        valid(regrown(rows, items), items),
        content(regrown(rows, items)) == content(rows),
        regrown(rows, items).len() == grown(rows.len() as int, items),
{
    crate::growth::lemma_regrown(rows, items);
}

/// The table without buckets is a state of the table, and its map is empty.
pub proof fn law_new_is_empty<K: Key, V>()
    ensures
        valid(Seq::<Seq<(K, V)>>::empty(), 0),
        content(Seq::<Seq<(K, V)>>::empty()) == Map::<K::V, V>::empty(),
{
    let none = Seq::<Seq<(K, V)>>::empty();
    assert(none.flatten() =~= Seq::empty());
    assert(content(none) =~= Map::<K::V, V>::empty());
}

/// Inserting a key that is absent adds one to the number of keys, inserting
/// one that is present leaves the number as it is: `len` counts the distinct
/// keys that were inserted.
pub proof fn law_len_after_insert<A, V>(m: Map<A, V>, a: A, v: V)
    requires
        m.dom().finite(),
    ensures
        m.insert(a, v).dom().finite(),
        m.insert(a, v).len() == if m.contains_key(a) {
            m.len()
        } else {
            m.len() + 1
        },
{
    if m.contains_key(a) {
        assert(m.insert(a, v).dom() =~= m.dom());
    }
}

/// Removing a key that is present takes one from the number of keys,
/// removing one that is absent leaves the number as it is.
pub proof fn law_len_after_remove<A, V>(m: Map<A, V>, a: A)
    requires
        m.dom().finite(),
    ensures
        m.remove(a).dom().finite(),
        m.remove(a).len() == if m.contains_key(a) {
            m.len() - 1
        } else {
            m.len() as int
        },
{
    if !m.contains_key(a) {
        assert(m.remove(a).dom() =~= m.dom());
    }
}

/// A traversal visits as many pairs as the table has keys: a sequence that
/// lists a map is as long as the map is large.
pub proof fn law_traversal_counts_keys<K: Key, V>(pairs: Seq<(K, V)>, m: Map<K::V, V>)
    requires
        lists(pairs, m),
        m.dom().finite(),
    ensures
        pairs.len() == m.len(),
{
    let keys = pairs.map_values(|pair: (K, V)| pair.0@);
    assert(keys.no_duplicates()) by {
        assert forall|i: int, j: int| 0 <= i < keys.len() && 0 <= j < keys.len() && i
            != j implies keys[i] != keys[j] by {
            if i < j {
                assert(pairs[i].0@ != pairs[j].0@);
            } else {
                assert(pairs[j].0@ != pairs[i].0@);
            }
        }
    }
    assert(keys.to_set() =~= m.dom()) by {
        assert forall|a: K::V| keys.to_set().contains(a) <==> m.dom().contains(a) by {
            if keys.to_set().contains(a) {
                let p = choose|p: int| 0 <= p < keys.len() && keys[p] == a;
                assert(m.contains_key(pairs[p].0@));
            }
            if m.dom().contains(a) {
                assert(holds(pairs, a));
                let p = choose|p: int| 0 <= p < pairs.len() && (#[trigger] pairs[p]).0@ == a;
                assert(keys[p] == a);
            }
        }
    }
    keys.unique_seq_to_set();
}

/// A traversal visits every key of the table, with the value stored under
/// it, and visits no key twice.
pub proof fn law_traversal_complete<K: Key, V>(pairs: Seq<(K, V)>, m: Map<K::V, V>, a: K::V)
    requires
        lists(pairs, m),
        m.contains_key(a),
    ensures
        exists|p: int| 0 <= p < pairs.len() && (#[trigger] pairs[p]).0@ == a && pairs[p].1 == m[a],
        forall|p: int, q: int|
            0 <= p < pairs.len() && 0 <= q < pairs.len() && (#[trigger] pairs[p]).0@ == a && (
            #[trigger] pairs[q]).0@ == a ==> p == q,
{
    assert(holds(pairs, a));
    let p = choose|p: int| 0 <= p < pairs.len() && (#[trigger] pairs[p]).0@ == a;
    assert(pairs[p].0@ == a && pairs[p].1 == m[a]);
    assert(distinct(pairs));
    assert forall|p: int, q: int|
        0 <= p < pairs.len() && 0 <= q < pairs.len() && (#[trigger] pairs[p]).0@ == a && (
        #[trigger] pairs[q]).0@ == a implies p == q by {
        if p < q {
            assert(pairs[p].0@ != pairs[q].0@);
        } else if q < p {
            assert(pairs[q].0@ != pairs[p].0@);
        }
    }
}

/// After `insert(k, v)`, `get(k)` finds `v`; a `remove(k)` that follows
/// returns `v`, and after it `get(k)` finds nothing.
pub proof fn law_round_trip<A, V>(m: Map<A, V>, a: A, v: V)
    ensures
        stored(m.insert(a, v), a) == Some(v),
        stored(m.insert(a, v).remove(a), a) == None::<V>,
{
}

/// `remove` of a key that the table does not hold returns nothing and
/// leaves the table, and so its length, as it is.
pub proof fn law_remove_absent<A, V>(m: Map<A, V>, a: A)
    requires
        !m.contains_key(a),
    ensures
        stored(m, a) == None::<V>,
        m.remove(a) == m,
        m.remove(a).len() == m.len(),
{
    assert(m.remove(a) =~= m);
}

/// `insert` under a key that the table holds returns the value that was
/// stored, stores the new one, and leaves the other keys and the length as
/// they are.
pub proof fn law_update<A, V>(m: Map<A, V>, a: A, v: V)
    requires
        m.contains_key(a),
    ensures
        stored(m, a) == Some(m[a]),
        stored(m.insert(a, v), a) == Some(v),
        m.insert(a, v).dom() == m.dom(),
        m.insert(a, v).len() == m.len(),
        forall|b: A| b != a ==> stored(m.insert(a, v), b) == stored(m, b),
{
    assert(m.insert(a, v).dom() =~= m.dom());
}

/// The growth step makes room: a table that is at most one pair above three
/// quarters of its bucket count is, after that step, at most three quarters
/// full, so that one more pair keeps it within one of three quarters.
pub proof fn law_growth_makes_room(n: int, items: int)
    requires
        0 <= n,
        0 <= items <= load_limit(n) + 1,
        n == 0 ==> items == 0,
    ensures
        grown(n, items) >= 1,
        items <= load_limit(grown(n, items)),
        items + 1 <= load_limit(if grown(n, items) >= 1 {
            grown(n, items)
        } else {
            1
        }) + 1,
{
}

} // verus!
