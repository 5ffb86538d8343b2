//! What the hash map is when its hasher computes a function of the key.
//!
//! The map's operations promise what holds for any bucket that the hasher
//! may select. Here the hasher is taken to be a function `h` of the key.
//! Buckets filled through it hold every key in one place only, and then
//! they are a finite map on which storing, looking up and removing a key
//! are `Map::insert`, a lookup and `Map::remove`.

use crate::collec::{
    bucket_index, chain_get, chain_put, chain_remove, contents_of, found_in, lemma_found_contents,
    lemma_position_from, position, position_from, removed_from, stored_in,
};
use vstd::prelude::*;

verus! {

/// Whether every entry lies in the bucket that `h` selects for its key.
pub open spec fn placed_by<K, V>(buckets: Seq<Seq<(K, V)>>, h: spec_fn(K) -> u64) -> bool {
    forall|i: int, j: int|
        0 <= i < buckets.len() && 0 <= j < buckets[i].len() ==> bucket_index(
            h((#[trigger] buckets[i][j]).0),
            buckets.len(),
        ) == i
}

/// Whether no chain holds a key twice.
pub open spec fn distinct_in_chain<K, V>(chain: Seq<(K, V)>) -> bool {
    forall|j: int, k: int|
        0 <= j < k < chain.len() ==> (#[trigger] chain[j]).0 != (#[trigger] chain[k]).0
}

/// Whether no bucket holds a key twice.
pub open spec fn distinct_keys<K, V>(buckets: Seq<Seq<(K, V)>>) -> bool {
    forall|i: int| 0 <= i < buckets.len() ==> distinct_in_chain(#[trigger] buckets[i])
}

/// The bucket that `h` selects for `key`.
pub open spec fn home<K, V>(buckets: Seq<Seq<(K, V)>>, h: spec_fn(K) -> u64, key: K) -> int {
    bucket_index(h(key), buckets.len()) as int
}

/// The value found for `key` in the bucket that `h` selects for it.
pub open spec fn lookup<K, V>(buckets: Seq<Seq<(K, V)>>, h: spec_fn(K) -> u64, key: K) -> Option<
    V,
> {
    chain_get(buckets[home(buckets, h, key)], key)
}

/// The map that the buckets are under `h`: each key with the value found
/// for it.
pub open spec fn as_map<K, V>(buckets: Seq<Seq<(K, V)>>, h: spec_fn(K) -> u64) -> Map<K, V> {
    Map::new(|k: K| lookup(buckets, h, k) is Some, |k: K| lookup(buckets, h, k)->Some_0)
}

/// The value of a map at a key, if it has one.
pub open spec fn map_get<K, V>(m: Map<K, V>, key: K) -> Option<V> {
    if m.dom().contains(key) {
        Some(m[key])
    } else {
        None
    }
}

/// Chains with the same keys in the same order hold each key at the same
/// position.
proof fn lemma_same_keys_same_position<K, V>(a: Seq<(K, V)>, b: Seq<(K, V)>, key: K, from: nat)
    requires
        a.len() == b.len(),
        forall|j: int| 0 <= j < a.len() ==> (#[trigger] a[j]).0 == b[j].0,
    ensures
        position_from(a, key, from) == position_from(b, key, from),
    decreases a.len() - from,
{
    if from < a.len() {
        assert(a[from as int].0 == b[from as int].0);
        if a[from as int].0 != key {
            lemma_same_keys_same_position(a, b, key, from + 1);
        }
    }
}

/// After a value is stored for a key in a chain, the chain holds that
/// value for the key and, for every other key, what it held before. No key
/// comes to be held twice.
pub proof fn lemma_chain_put<K, V>(chain: Seq<(K, V)>, key: K, value: V, other: K)
    ensures
        chain_get(chain_put(chain, key, value), other) == (if other == key {
            Some(value)
        } else {
            chain_get(chain, other)
        }),
        distinct_in_chain(chain) ==> distinct_in_chain(chain_put(chain, key, value)),
        forall|j: int|
            0 <= j < chain_put(chain, key, value).len() ==> {
                ||| (#[trigger] chain_put(chain, key, value)[j]).0 == key
                ||| (j < chain.len() && chain_put(chain, key, value)[j].0 == chain[j].0)
            },
{
    let after = chain_put(chain, key, value);
    lemma_position_from(chain, key, 0);
    lemma_position_from(chain, other, 0);
    lemma_position_from(after, other, 0);
    match position(chain, key) {
        Some(i) => {
            lemma_same_keys_same_position(chain, after, other, 0);
        },
        None => {
            if other != key {
                match position(chain, other) {
                    Some(p) => {
                        assert(after[p as int] == chain[p as int]);
                        match position(after, other) {
                            Some(q) => {
                                if q < p {
                                    assert(after[q as int] == chain[q as int]);
                                }
                            },
                            None => {},
                        }
                    },
                    None => {
                        match position(after, other) {
                            Some(q) => {
                                if q < chain.len() {
                                    assert(after[q as int] == chain[q as int]);
                                }
                            },
                            None => {},
                        }
                    },
                }
            } else {
                match position(after, other) {
                    Some(q) => {
                        if q < chain.len() {
                            assert(after[q as int] == chain[q as int]);
                        }
                    },
                    None => {
                        assert(after[chain.len() as int].0 == key);
                    },
                }
            }
            if distinct_in_chain(chain) {
                assert forall|j: int, k: int| 0 <= j < k < after.len() implies (#[trigger] after[
                    j
                ]).0 != (#[trigger] after[k]).0 by {
                    if k < chain.len() {
                        assert(after[j] == chain[j] && after[k] == chain[k]);
                    } else {
                        assert(after[j] == chain[j]);
                    }
                }
            }
        },
    }
}

/// After a key is removed from a chain that holds no key twice, the chain
/// holds nothing for the key and, for every other key, what it held before.
/// Every entry left was an entry of the chain, and still no key is held
/// twice.
pub proof fn lemma_chain_remove<K, V>(chain: Seq<(K, V)>, key: K, other: K)
    requires
        distinct_in_chain(chain),
    ensures
        chain_get(chain_remove(chain, key), other) == (if other == key {
            None
        } else {
            chain_get(chain, other)
        }),
        distinct_in_chain(chain_remove(chain, key)),
        forall|j: int|
            0 <= j < chain_remove(chain, key).len() ==> exists|k: int|
                0 <= k < chain.len() && chain[k] == #[trigger] chain_remove(chain, key)[j],
{
    let after = chain_remove(chain, key);
    lemma_position_from(chain, key, 0);
    lemma_position_from(chain, other, 0);
    lemma_position_from(after, other, 0);
    match position(chain, key) {
        Some(gap) => {
            // Where the entry at `j` of `after` stood in `chain`.
            let origin = |j: int|
                if j < gap {
                    j
                } else {
                    j + 1
                };
            assert forall|j: int| 0 <= j < after.len() implies #[trigger] after[j] == chain[origin(
                j,
            )] by {}
            assert forall|j: int| 0 <= j < after.len() implies exists|k: int|
                0 <= k < chain.len() && chain[k] == #[trigger] after[j] by {
                assert(chain[origin(j)] == after[j]);
            }
            assert forall|j: int, k: int| 0 <= j < k < after.len() implies (#[trigger] after[j]).0
                != (#[trigger] after[k]).0 by {
                assert(chain[origin(j)].0 != chain[origin(k)].0);
            }
            if let Some(q) = position(after, other) {
                // An entry for `other` is left: it stood in `chain`, apart
                // from the entry removed and from any other entry for
                // `other`.
                let b = origin(q as int);
                assert(chain[b].0 == other);
                if b < gap {
                    assert(chain[b].0 != chain[gap as int].0);
                } else {
                    assert(chain[gap as int].0 != chain[b].0);
                }
                if let Some(p) = position(chain, other) {
                    if b < p {
                        assert(chain[b].0 != chain[p as int].0);
                    }
                    if p < b {
                        assert(chain[p as int].0 != chain[b].0);
                    }
                }
            } else if other != key {
                if let Some(p) = position(chain, other) {
                    let a = if p < gap {
                        p as int
                    } else {
                        p - 1
                    };
                    assert(after[a] == chain[p as int]);
                }
            }
        },
        None => {
            assert forall|j: int| 0 <= j < after.len() implies exists|k: int|
                0 <= k < chain.len() && chain[k] == #[trigger] after[j] by {
                assert(chain[j] == after[j]);
            }
        },
    }
}

/// Storing a value through `h` is `Map::insert`: the buckets stay placed by
/// `h` and without repeated keys, the map gains the key with the value, and
/// what is returned is the value that the map had for the key.
pub proof fn lemma_insert_is_map_insert<K, V>(
    before: Seq<Seq<(K, V)>>,
    h: spec_fn(K) -> u64,
    key: K,
    value: V,
    after: Seq<Seq<(K, V)>>,
    res: Option<V>,
)
    requires
        before.len() > 0,
        placed_by(before, h),
        distinct_keys(before),
        stored_in(before, home(before, h, key), key, value, after, res),
    ensures
        placed_by(after, h),
        distinct_keys(after),
        as_map(after, h) == as_map(before, h).insert(key, value),
        res == map_get(as_map(before, h), key),
{
    let idx = home(before, h, key);
    let chain = before[idx];
    assert forall|i: int, j: int|
        0 <= i < after.len() && 0 <= j < after[i].len() implies bucket_index(
        h((#[trigger] after[i][j]).0),
        after.len(),
    ) == i by {
        if i == idx {
            lemma_chain_put(chain, key, value, key);
            if after[i][j].0 != key {
                assert(after[i][j].0 == before[i][j].0);
            }
        } else {
            assert(after[i][j] == before[i][j]);
        }
    }
    assert forall|i: int| 0 <= i < after.len() implies distinct_in_chain(#[trigger] after[i]) by {
        if i == idx {
            lemma_chain_put(chain, key, value, key);
        } else {
            assert(after[i] == before[i]);
        }
    }
    assert forall|k: K| lookup(after, h, k) == (if k == key {
        Some(value)
    } else {
        lookup(before, h, k)
    }) by {
        if home(before, h, k) == idx {
            lemma_chain_put(chain, key, value, k);
        }
    }
    assert(as_map(after, h) =~= as_map(before, h).insert(key, value));
}

/// Looking a key up through `h` gives the value that the map has for the
/// key.
pub proof fn lemma_get_is_map_get<K, V>(
    buckets: Seq<Seq<(K, V)>>,
    h: spec_fn(K) -> u64,
    key: K,
    res: Option<V>,
)
    requires
        buckets.len() > 0,
        found_in(buckets, home(buckets, h, key), key, res),
    ensures
        res == map_get(as_map(buckets, h), key),
{
}

/// Removing a key through `h` is `Map::remove`: the buckets stay placed by
/// `h` and without repeated keys, the map loses the key, and what is
/// returned is the value that the map had for the key.
pub proof fn lemma_remove_is_map_remove<K, V>(
    before: Seq<Seq<(K, V)>>,
    h: spec_fn(K) -> u64,
    key: K,
    after: Seq<Seq<(K, V)>>,
    res: Option<V>,
)
    requires
        before.len() > 0,
        placed_by(before, h),
        distinct_keys(before),
        removed_from(before, home(before, h, key), key, after, res),
    ensures
        placed_by(after, h),
        distinct_keys(after),
        as_map(after, h) == as_map(before, h).remove(key),
        res == map_get(as_map(before, h), key),
{
    let idx = home(before, h, key);
    let chain = before[idx];
    assert(distinct_in_chain(chain));
    lemma_chain_remove(chain, key, key);
    assert forall|i: int, j: int|
        0 <= i < after.len() && 0 <= j < after[i].len() implies bucket_index(
        h((#[trigger] after[i][j]).0),
        after.len(),
    ) == i by {
        if i == idx {
            let k = choose|k: int| 0 <= k < chain.len() && chain[k] == after[i][j];
            assert(before[i][k] == after[i][j]);
        } else {
            assert(after[i][j] == before[i][j]);
        }
    }
    assert forall|i: int| 0 <= i < after.len() implies distinct_in_chain(#[trigger] after[i]) by {
        if i != idx {
            assert(after[i] == before[i]);
        }
    }
    assert forall|k: K| lookup(after, h, k) == (if k == key {
        None
    } else {
        lookup(before, h, k)
    }) by {
        if home(before, h, k) == idx {
            lemma_chain_remove(chain, key, k);
        }
    }
    assert(as_map(after, h) =~= as_map(before, h).remove(key));
}

/// An entry among the entries of all buckets lies in one of the buckets.
proof fn lemma_entry_has_a_bucket<A>(buckets: Seq<Seq<A>>, entry: A)
    requires
        buckets.flatten().contains(entry),
    ensures
        exists|i: int, j: int|
            0 <= i < buckets.len() && 0 <= j < buckets[i].len() && #[trigger] buckets[i][j]
                == entry,
    decreases buckets.len(),
{
    if buckets.len() > 0 {
        let first = buckets.first();
        let rest = buckets.drop_first();
        let p = choose|p: int| 0 <= p < buckets.flatten().len() && buckets.flatten()[p] == entry;
        if p < first.len() {
            assert(buckets[0][p] == entry);
        } else {
            assert(rest.flatten()[p - first.len()] == entry);
            lemma_entry_has_a_bucket(rest, entry);
            let (i, j) = choose|i: int, j: int|
                0 <= i < rest.len() && 0 <= j < rest[i].len() && #[trigger] rest[i][j] == entry;
            assert(buckets[i + 1][j] == entry);
        }
    }
}

/// In buckets placed by `h` and without repeated keys, a value is found
/// for a key exactly if the two are an entry of the map.
pub proof fn lemma_lookup_is_membership<K, V>(
    buckets: Seq<Seq<(K, V)>>,
    h: spec_fn(K) -> u64,
    key: K,
    value: V,
)
    requires
        buckets.len() > 0,
        placed_by(buckets, h),
        distinct_keys(buckets),
    ensures
        lookup(buckets, h, key) == Some(value) <==> contents_of(buckets).count((key, value)) > 0,
{
    let idx = home(buckets, h, key);
    let chain = buckets[idx];
    if lookup(buckets, h, key) == Some(value) {
        lemma_found_contents(buckets, idx, key, Some(value));
    }
    if contents_of(buckets).count((key, value)) > 0 {
        vstd::seq_lib::to_multiset_contains(buckets.flatten(), (key, value));
        lemma_entry_has_a_bucket(buckets, (key, value));
        let (i, j) = choose|i: int, j: int|
            0 <= i < buckets.len() && 0 <= j < buckets[i].len() && #[trigger] buckets[i][j] == (
                key,
                value,
            );
        assert(i == idx);
        assert(distinct_in_chain(chain));
        lemma_position_from(chain, key, 0);
        match position(chain, key) {
            Some(p) => {
                if p < j {
                    assert(chain[p as int].0 != chain[j].0);
                }
            },
            None => {
                assert(chain[j].0 == key);
            },
        }
    }
}

/// Buckets with the same entries, each placed by `h` and without repeated
/// keys, are the same map, however many buckets each has.
pub proof fn lemma_same_entries_same_map<K, V>(
    a: Seq<Seq<(K, V)>>,
    b: Seq<Seq<(K, V)>>,
    h: spec_fn(K) -> u64,
)
    requires
        a.len() > 0,
        b.len() > 0,
        placed_by(a, h),
        placed_by(b, h),
        distinct_keys(a),
        distinct_keys(b),
        contents_of(a) == contents_of(b),
    ensures
        as_map(a, h) == as_map(b, h),
{
    assert forall|k: K| lookup(a, h, k) == lookup(b, h, k) by {
        match lookup(a, h, k) {
            Some(v) => {
                lemma_lookup_is_membership(a, h, k, v);
                lemma_lookup_is_membership(b, h, k, v);
            },
            None => {
                match lookup(b, h, k) {
                    Some(v) => {
                        lemma_lookup_is_membership(a, h, k, v);
                        lemma_lookup_is_membership(b, h, k, v);
                    },
                    None => {},
                }
            },
        }
    }
    assert(as_map(a, h) =~= as_map(b, h));
}

/// Storing a value through `h` after the buckets were regrouped under `h`
/// is still `Map::insert` on the map that the buckets were before.
pub proof fn lemma_insert_after_growth<K, V>(
    before: Seq<Seq<(K, V)>>,
    mid: Seq<Seq<(K, V)>>,
    h: spec_fn(K) -> u64,
    key: K,
    value: V,
    after: Seq<Seq<(K, V)>>,
    res: Option<V>,
)
    requires
        before.len() > 0,
        mid.len() > 0,
        placed_by(before, h),
        placed_by(mid, h),
        distinct_keys(before),
        distinct_keys(mid),
        contents_of(mid) == contents_of(before),
        stored_in(mid, home(mid, h, key), key, value, after, res),
    ensures
        placed_by(after, h),
        distinct_keys(after),
        as_map(after, h) == as_map(before, h).insert(key, value),
        res == map_get(as_map(before, h), key),
{
    lemma_same_entries_same_map(before, mid, h);
    lemma_insert_is_map_insert(mid, h, key, value, after, res);
}

} // verus!
