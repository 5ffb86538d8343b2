//! A hash map with chained buckets that doubles its bucket array when the
//! entries outnumber the buckets.
//!
//! The bucket of a key is chosen by a hasher whose output is not specified.
//! Each operation therefore comes twice: a form that takes the bucket index
//! and says exactly what happens in that bucket, and the usual form, which
//! hashes the key, calls the first, and promises what holds for whichever
//! bucket the hasher chose.

use ahash::AHasher;
use core::hash::{BuildHasher, BuildHasherDefault, Hash, Hasher};
use vstd::laws_eq::obeys_concrete_eq;
use vstd::multiset::Multiset;
use vstd::prelude::*;
use vstd::seq_lib::{lemma_flatten_concat, lemma_multiset_commutative, to_multiset_len};

verus! {

broadcast use vstd::multiset::group_multiset_axioms;

/// The position at or after `from` of the first entry of `chain` whose key
/// is `key`.
pub open spec fn position_from<K, V>(chain: Seq<(K, V)>, key: K, from: nat) -> Option<nat>
    decreases chain.len() - from,
{
    if from >= chain.len() {
        None
    } else if chain[from as int].0 == key {
        Some(from)
    } else {
        position_from(chain, key, from + 1)
    }
}

/// The position of the first entry of `chain` whose key is `key`.
pub open spec fn position<K, V>(chain: Seq<(K, V)>, key: K) -> Option<nat> {
    position_from(chain, key, 0)
}

/// The value that `chain` holds for `key`: that of the first entry with
/// this key.
pub open spec fn chain_get<K, V>(chain: Seq<(K, V)>, key: K) -> Option<V> {
    match position(chain, key) {
        Some(i) => Some(chain[i as int].1),
        None => None,
    }
}

/// The chain after `value` is stored for `key`: in the first entry with
/// this key where there is one, else in a new entry at the end.
pub open spec fn chain_put<K, V>(chain: Seq<(K, V)>, key: K, value: V) -> Seq<(K, V)> {
    match position(chain, key) {
        Some(i) => chain.update(i as int, (chain[i as int].0, value)),
        None => chain.push((key, value)),
    }
}

/// The chain without its first entry for `key`.
pub open spec fn chain_remove<K, V>(chain: Seq<(K, V)>, key: K) -> Seq<(K, V)> {
    match position(chain, key) {
        Some(i) => chain.remove(i as int),
        None => chain,
    }
}

/// `position_from` finds an entry with the key that no entry with the key
/// precedes; it finds none only if there is none.
pub proof fn lemma_position_from<K, V>(chain: Seq<(K, V)>, key: K, from: nat)
    ensures
        match position_from(chain, key, from) {
            Some(i) => {
                &&& from <= i < chain.len()
                &&& chain[i as int].0 == key
                &&& forall|j: int| from <= j < i ==> (#[trigger] chain[j]).0 != key
            },
            None => forall|j: int| from <= j < chain.len() ==> (#[trigger] chain[j]).0 != key,
        },
    decreases chain.len() - from,
{
    if from < chain.len() && chain[from as int].0 != key {
        lemma_position_from(chain, key, from + 1);
    }
}

/// The entries of all buckets as a multiset.
pub open spec fn contents_of<A>(buckets: Seq<Seq<A>>) -> Multiset<A> {
    buckets.flatten().to_multiset()
}

/// The number of buckets after growing from `n` buckets: twice as many,
/// unless that number does not fit in a word.
pub open spec fn grown(n: nat) -> nat {
    if 2 * n <= usize::MAX {
        2 * n
    } else {
        n
    }
}

/// The bucket that a hash value selects among `buckets` buckets.
pub open spec fn bucket_index(hash: u64, buckets: nat) -> nat {
    ((hash as usize) as nat) % buckets
}

/// The buckets in a row are the buckets before `i`, bucket `i`, and the
/// buckets after it.
pub proof fn lemma_flatten_split<A>(s: Seq<Seq<A>>, i: int)
    requires
        0 <= i < s.len(),
    ensures
        s.flatten() == s.take(i).flatten() + s[i] + s.skip(i + 1).flatten(),
        s.skip(i).flatten() == s[i] + s.skip(i + 1).flatten(),
{
    let a = s.take(i);
    let b = seq![s[i]];
    let c = s.skip(i + 1);
    assert(s =~= a + (b + c));
    assert(s.skip(i) =~= b + c);
    lemma_flatten_concat(a, b + c);
    lemma_flatten_concat(b, c);
    b.lemma_flatten_one_element();
}

/// Replacing bucket `i` exchanges its entries among the entries of all
/// buckets.
pub proof fn lemma_bucket_update<A>(s: Seq<Seq<A>>, i: int, c: Seq<A>)
    requires
        0 <= i < s.len(),
    ensures
        contents_of(s.update(i, c)) =~= contents_of(s).sub(s[i].to_multiset()).add(
            c.to_multiset(),
        ),
        s[i].to_multiset().subset_of(contents_of(s)),
        s.update(i, c).flatten().len() == s.flatten().len() - s[i].len() + c.len(),
{
    let t = s.update(i, c);
    lemma_flatten_split(s, i);
    lemma_flatten_split(t, i);
    assert(t.take(i) =~= s.take(i));
    assert(t.skip(i + 1) =~= s.skip(i + 1));
    let a = s.take(i).flatten();
    let b = s.skip(i + 1).flatten();
    lemma_multiset_commutative(a + s[i], b);
    lemma_multiset_commutative(a, s[i]);
    lemma_multiset_commutative(a + c, b);
    lemma_multiset_commutative(a, c);
}

/// Whether `after` and `res` are what storing `value` for `key` in bucket
/// `idx` of `before` gives.
pub open spec fn stored_in<K, V>(
    before: Seq<Seq<(K, V)>>,
    idx: int,
    key: K,
    value: V,
    after: Seq<Seq<(K, V)>>,
    res: Option<V>,
) -> bool {
    &&& 0 <= idx < before.len()
    &&& after == before.update(idx, chain_put(before[idx], key, value))
    &&& res == chain_get(before[idx], key)
}

/// Whether `res` is what looking `key` up in bucket `idx` of `buckets`
/// gives.
pub open spec fn found_in<K, V>(
    buckets: Seq<Seq<(K, V)>>,
    idx: int,
    key: K,
    res: Option<V>,
) -> bool {
    &&& 0 <= idx < buckets.len()
    &&& res == chain_get(buckets[idx], key)
}

/// Whether `after` and `res` are what removing `key` from bucket `idx` of
/// `before` gives.
pub open spec fn removed_from<K, V>(
    before: Seq<Seq<(K, V)>>,
    idx: int,
    key: K,
    after: Seq<Seq<(K, V)>>,
    res: Option<V>,
) -> bool {
    &&& 0 <= idx < before.len()
    &&& after == before.update(idx, chain_remove(before[idx], key))
    &&& res == chain_get(before[idx], key)
}

/// What storing a value in a bucket does to the entries of all buckets: an
/// entry with the key leaves and one with the new value comes, or, where
/// the bucket had none with the key, the new entry comes.
pub proof fn lemma_stored_contents<K, V>(
    before: Seq<Seq<(K, V)>>,
    idx: int,
    key: K,
    value: V,
    after: Seq<Seq<(K, V)>>,
    res: Option<V>,
)
    requires
        stored_in(before, idx, key, value, after, res),
    ensures
        match res {
            Some(former) => {
                &&& contents_of(before).count((key, former)) > 0
                &&& contents_of(after) =~= contents_of(before).insert((key, value)).remove(
                    (key, former),
                )
                &&& after.flatten().len() == before.flatten().len()
            },
            None => {
                &&& contents_of(after) =~= contents_of(before).insert((key, value))
                &&& after.flatten().len() == before.flatten().len() + 1
            },
        },
{
    let chain = before[idx];
    lemma_bucket_update(before, idx, chain_put(chain, key, value));
    lemma_position_from(chain, key, 0);
    match position(chain, key) {
        Some(i) => {
            vstd::seq_lib::to_multiset_update(chain, i as int, (key, value));
            vstd::seq_lib::to_multiset_contains(chain, chain[i as int]);
            assert(chain.contains(chain[i as int]));
        },
        None => {
            vstd::seq_lib::to_multiset_build(chain, (key, value));
        },
    }
}

/// What removing a key from a bucket does to the entries of all buckets:
/// an entry with the key leaves, or, where the bucket had none with the
/// key, nothing changes.
pub proof fn lemma_removed_contents<K, V>(
    before: Seq<Seq<(K, V)>>,
    idx: int,
    key: K,
    after: Seq<Seq<(K, V)>>,
    res: Option<V>,
)
    requires
        removed_from(before, idx, key, after, res),
    ensures
        match res {
            Some(former) => {
                &&& contents_of(before).count((key, former)) > 0
                &&& contents_of(after) =~= contents_of(before).remove((key, former))
                &&& after.flatten().len() == before.flatten().len() - 1
            },
            None => after == before,
        },
{
    let chain = before[idx];
    lemma_bucket_update(before, idx, chain_remove(chain, key));
    lemma_position_from(chain, key, 0);
    match position(chain, key) {
        Some(i) => {
            vstd::seq_lib::to_multiset_remove(chain, i as int);
            vstd::seq_lib::to_multiset_contains(chain, chain[i as int]);
            assert(chain.contains(chain[i as int]));
        },
        None => {
            assert(before.update(idx, chain) =~= before);
        },
    }
}

/// A value found in a bucket belongs to an entry of the map.
pub proof fn lemma_found_contents<K, V>(buckets: Seq<Seq<(K, V)>>, idx: int, key: K, res: Option<V>)
    requires
        found_in(buckets, idx, key, res),
    ensures
        res matches Some(v) ==> contents_of(buckets).count((key, v)) > 0,
{
    let chain = buckets[idx];
    lemma_bucket_update(buckets, idx, chain);
    lemma_position_from(chain, key, 0);
    if let Some(i) = position(chain, key) {
        vstd::seq_lib::to_multiset_contains(chain, chain[i as int]);
        assert(chain.contains(chain[i as int]));
    }
}

/// The value behind an optional reference.
pub open spec fn referent<V>(res: Option<&V>) -> Option<V> {
    match res {
        Some(v) => Some(*v),
        None => None,
    }
}

/// A link of a bucket's chain.
struct Node<K, V> {
    key: K,
    value: V,
    next: Option<Box<Node<K, V>>>,
}

/// The entries of a chain, first link first.
spec fn links<K, V>(chain: Option<Box<Node<K, V>>>) -> Seq<(K, V)>
    decreases chain,
{
    match chain {
        None => Seq::empty(),
        Some(n) => seq![(n.key, n.value)] + links(n.next),
    }
}

/// Compares two keys. For a key type whose `==` is equality, the result says
/// whether the keys are equal.
fn same_key<K: Eq>(a: &K, b: &K) -> (same: bool)
    requires
        obeys_concrete_eq::<K>(),
    ensures
        same == (*a == *b),
{
    reveal(obeys_concrete_eq);
    *a == *b
}

/// Looks `key` up in a chain.
fn chain_find<'a, K: Eq, V>(chain: &'a Option<Box<Node<K, V>>>, key: &K) -> (res: Option<&'a V>)
    requires
        obeys_concrete_eq::<K>(),
    ensures
        match res {
            Some(v) => chain_get(links(*chain), *key) == Some(*v),
            None => chain_get(links(*chain), *key) is None,
        },
{
    let ghost all = links(*chain);
    let ghost mut seen: nat = 0;
    let mut node = chain;
    loop
        invariant
            obeys_concrete_eq::<K>(),
            all == links(*chain),
            seen <= all.len(),
            links(*node) == all.skip(seen as int),
            position_from(all, *key, seen) == position(all, *key),
        decreases *node,
    {
        match node {
            None => {
                return None;
            },
            Some(n) => {
                assert(seen < all.len() && all[seen as int] == (n.key, n.value)) by {
                    assert(links(*node) == seq![(n.key, n.value)] + links(n.next));
                    assert(links(*node).len() >= 1);
                    assert(all.skip(seen as int).len() == all.len() - seen);
                    assert(all.skip(seen as int)[0] == all[seen as int]);
                }
                if same_key(&n.key, key) {
                    return Some(&n.value);
                }
                proof {
                    assert(links(n.next) =~= all.skip(seen as int + 1)) by {
                        assert(links(n.next) =~= links(*node).skip(1));
                    }
                    seen = seen + 1;
                }
                node = &n.next;
            },
        }
    }
}

/// Stores `value` for `key` in a chain: in the first link with this key,
/// whose former value is returned, or else in a new link at the end.
#[verifier::loop_isolation(false)]
fn chain_insert<K: Eq, V>(chain: &mut Option<Box<Node<K, V>>>, key: K, value: V) -> (res: Option<
    V,
>)
    requires
        obeys_concrete_eq::<K>(),
    ensures
        links(*final(chain)) == chain_put(links(*old(chain)), key, value),
        res == chain_get(links(*old(chain)), key),
{
    let ghost all = links(*chain);
    let ghost result = *final(chain);
    let ghost mut seen: nat = 0;
    let mut node = &mut *chain;
    loop
        invariant
            obeys_concrete_eq::<K>(),
            seen <= all.len(),
            links(*node) == all.skip(seen as int),
            position_from(all, key, seen) == position(all, key),
            all == links(*old(chain)),
            links(result) == all.take(seen as int) + links(*final(node)),
        decreases *node,
    {
        let ghost rest = links(*node);
        match node {
            None => {
                break ;
            },
            Some(n) => {
                assert(seen < all.len() && all[seen as int] == (n.key, n.value)) by {
                    assert(rest == seq![(n.key, n.value)] + links(n.next));
                    assert(rest.len() >= 1);
                    assert(all.skip(seen as int).len() == all.len() - seen);
                    assert(all.skip(seen as int)[0] == all[seen as int]);
                }
                if same_key(&n.key, &key) {
                    let ghost tail = links(n.next);
                    let mut stored: V = value;
                    core::mem::swap(&mut n.value, &mut stored);
                    proof {
                        assert(tail =~= all.skip(seen as int + 1)) by {
                            assert(tail =~= rest.skip(1));
                        }
                        let entry = (all[seen as int].0, value);
                        assert(all.take(seen as int) + (seq![(n.key, n.value)] + tail)
                            =~= all.update(seen as int, entry));
                    }
                    return Some(stored);
                }
                proof {
                    assert(links(n.next) =~= all.skip(seen as int + 1)) by {
                        assert(links(n.next) =~= rest.skip(1));
                    }
                    seen = seen + 1;
                }
                node = &mut n.next;
            },
        }
    }
    *node = Some(Box::new(Node { key, value, next: None }));
    None
}

/// Unlinks the first link of a chain whose key is `key` and returns its
/// value.
#[verifier::loop_isolation(false)]
fn chain_unlink<K: Eq, V>(chain: &mut Option<Box<Node<K, V>>>, key: &K) -> (res: Option<V>)
    requires
        obeys_concrete_eq::<K>(),
    ensures
        links(*final(chain)) == chain_remove(links(*old(chain)), *key),
        res == chain_get(links(*old(chain)), *key),
{
    let ghost all = links(*chain);
    let ghost result = *final(chain);
    let ghost mut seen: nat = 0;
    let mut node = &mut *chain;
    loop
        invariant
            obeys_concrete_eq::<K>(),
            seen <= all.len(),
            links(*node) == all.skip(seen as int),
            position_from(all, *key, seen) == position(all, *key),
            all == links(*old(chain)),
            links(result) == all.take(seen as int) + links(*final(node)),
        decreases *node,
    {
        let ghost rest = links(*node);
        let found: bool = match &*node {
            None => {
                assert(all.take(seen as int) + Seq::<(K, V)>::empty() =~= all);
                return None;
            },
            Some(n) => {
                assert(seen < all.len() && all[seen as int] == (n.key, n.value)) by {
                    assert(rest == seq![(n.key, n.value)] + links(n.next));
                    assert(rest.len() >= 1);
                    assert(all.skip(seen as int).len() == all.len() - seen);
                    assert(all.skip(seen as int)[0] == all[seen as int]);
                }
                assert(links(n.next) =~= all.skip(seen as int + 1)) by {
                    assert(links(n.next) =~= rest.skip(1));
                }
                same_key(&n.key, key)
            },
        };
        if found {
            match node.take() {
                None => {
                    return None;
                },
                Some(link) => {
                    let Node { key: _, value, next } = *link;
                    assert(all.take(seen as int) + links(next) =~= all.remove(seen as int));
                    *node = next;
                    return Some(value);
                },
            }
        }
        match node {
            None => {},
            Some(n) => {
                proof {
                    seen = seen + 1;
                }
                node = &mut n.next;
            },
        }
    }
}

/// The entries of each chain of a bucket array.
spec fn chains<K, V>(buckets: Seq<Option<Box<Node<K, V>>>>) -> Seq<Seq<(K, V)>> {
    Seq::new(buckets.len(), |i: int| links(buckets[i]))
}

/// Feeds `key` to an `ahash::AHasher` made by `BuildHasherDefault` and
/// returns what the hasher's `finish` gives. The value depends on the keys
/// that the hasher was built with, which may differ from one process to the
/// next, so nothing is claimed of it.
#[verifier::external_body]
fn hash_key<K: Hash>(key: &K) -> u64 {
    let mut hasher = BuildHasherDefault::<AHasher>::default().build_hasher();
    key.hash(&mut hasher);
    hasher.finish()
}

/// Reduces a hash value to the index of one of `buckets` buckets.
pub fn bucket_of(hash: u64, buckets: usize) -> (idx: usize)
    requires
        buckets > 0,
    ensures
        idx == bucket_index(hash, buckets as nat),
        idx < buckets,
{
    (#[verifier::truncate] (hash as usize)) % buckets
}

/// A map from keys to values, kept in an array of buckets, each a chain of
/// entries. The view is the sequence of buckets, each the sequence of its
/// entries.
pub struct HashMap<K, V> {
    buckets: Vec<Option<Box<Node<K, V>>>>,
    len: usize,
}

impl<K, V> View for HashMap<K, V> {
    type V = Seq<Seq<(K, V)>>;

    closed spec fn view(&self) -> Seq<Seq<(K, V)>> {
        chains(self.buckets@)
    }
}

impl<K, V> HashMap<K, V> where K: Hash + Eq {
    /// `==` on keys is equality, there is a bucket, and the stored count
    /// is the number of entries.
    pub closed spec fn wf(&self) -> bool {
        &&& obeys_concrete_eq::<K>()
        &&& self.buckets@.len() > 0
        &&& self.len == self@.flatten().len()
    }

    /// The number of entries.
    pub closed spec fn spec_len(&self) -> nat {
        self.len as nat
    }

    /// All entries, bucket by bucket.
    pub open spec fn entries(&self) -> Seq<(K, V)> {
        self@.flatten()
    }

    /// All entries as a multiset.
    pub open spec fn contents(&self) -> Multiset<(K, V)> {
        contents_of(self@)
    }

    /// A well-formed map has a bucket, and its length is the number of its
    /// entries.
    pub proof fn lemma_wf(&self)
        requires
            self.wf(),
        ensures
            obeys_concrete_eq::<K>(),
            self@.len() > 0,
            self.spec_len() == self.entries().len(),
            self.spec_len() == self.contents().len(),
    {
        to_multiset_len(self@.flatten());
    }

    /// Makes an empty map with eight buckets.
    pub fn new() -> (m: Self)
        requires
            obeys_concrete_eq::<K>(),
        ensures
            m.wf(),
            m@ == Seq::new(8, |i: int| Seq::<(K, V)>::empty()),
            m.spec_len() == 0,
    {
        let mut buckets: Vec<Option<Box<Node<K, V>>>> = Vec::new();
        let mut i: usize = 0;
        while i < 8
            invariant
                i <= 8,
                buckets@.len() == i,
                forall|j: int| 0 <= j < i ==> buckets@[j] is None,
            decreases 8 - i,
        {
            buckets.push(None);
            i = i + 1;
        }
        let m = HashMap { buckets, len: 0 };
        proof {
            assert(m@ =~= Seq::new(8, |i: int| Seq::<(K, V)>::empty()));
            lemma_flatten_empty(m@);
        }
        m
    }

    /// The number of entries.
    pub fn len(&self) -> (n: usize)
        ensures
            n == self.spec_len(),
    {
        self.len
    }

    /// The number of buckets.
    pub fn bucket_count(&self) -> (n: usize)
        ensures
            n == self@.len(),
    {
        self.buckets.len()
    }

    /// The bucket that the hasher selects for `key`.
    fn hash(&self, key: &K) -> (idx: usize)
        requires
            self.wf(),
        ensures
            idx < self@.len(),
    {
        bucket_of(hash_key(key), self.buckets.len())
    }

    /// Stores `value` for `key` in bucket `idx`: in the first entry of the
    /// bucket with this key, whose former value is returned, or else in a
    /// new entry at the end of the bucket.
    pub fn insert_at(&mut self, idx: usize, key: K, value: V) -> (res: Option<V>)
        requires
            old(self).wf(),
            idx < old(self)@.len(),
            old(self).spec_len() < usize::MAX,
        ensures
            final(self).wf(),
            final(self)@ == old(self)@.update(
                idx as int,
                chain_put(old(self)@[idx as int], key, value),
            ),
            res == chain_get(old(self)@[idx as int], key),
            final(self).spec_len() == old(self).spec_len() + (if res is None {
                1nat
            } else {
                0nat
            }),
    {
        let ghost before = self@;
        let res = chain_insert(&mut self.buckets[idx], key, value);
        proof {
            let chain = chain_put(before[idx as int], key, value);
            assert(self@ =~= before.update(idx as int, chain));
            lemma_bucket_update(before, idx as int, chain);
            lemma_position_from(before[idx as int], key, 0);
        }
        if res.is_none() {
            self.len = self.len + 1;
        }
        res
    }

    /// Looks `key` up in bucket `idx`.
    pub fn get_at(&self, idx: usize, key: &K) -> (res: Option<&V>)
        requires
            self.wf(),
            idx < self@.len(),
        ensures
            match res {
                Some(v) => chain_get(self@[idx as int], *key) == Some(*v),
                None => chain_get(self@[idx as int], *key) is None,
            },
    {
        chain_find(&self.buckets[idx], key)
    }

    /// Removes from bucket `idx` its first entry for `key` and returns the
    /// value of that entry.
    pub fn remove_at(&mut self, idx: usize, key: &K) -> (res: Option<V>)
        requires
            old(self).wf(),
            idx < old(self)@.len(),
        ensures
            final(self).wf(),
            final(self)@ == old(self)@.update(
                idx as int,
                chain_remove(old(self)@[idx as int], *key),
            ),
            res == chain_get(old(self)@[idx as int], *key),
            final(self).spec_len() == old(self).spec_len() - (if res is Some {
                1nat
            } else {
                0nat
            }),
    {
        let ghost before = self@;
        let res = chain_unlink(&mut self.buckets[idx], key);
        proof {
            let chain = chain_remove(before[idx as int], *key);
            assert(self@ =~= before.update(idx as int, chain));
            lemma_removed_contents(before, idx as int, *key, self@, res);
        }
        if res.is_some() {
            self.len = self.len - 1;
        }
        res
    }

    /// Stores `value` for `key` and returns the value that an entry with
    /// this key held before. The buckets are doubled first when the entries
    /// are no fewer than the buckets.
    ///
    /// The entry goes to the bucket that the hasher selects: some bucket
    /// `idx`, of which `insert_at` says the rest. Whichever bucket it is,
    /// either an entry with the key gets the value, or the map gains the
    /// entry.
    pub fn insert(&mut self, key: K, value: V) -> (res: Option<V>)
        requires
            old(self).wf(),
            old(self).spec_len() < usize::MAX,
        ensures
            final(self).wf(),
            final(self)@.len() == (if old(self).spec_len() >= old(self)@.len() {
                grown(old(self)@.len())
            } else {
                old(self)@.len()
            }),
            exists|mid: Seq<Seq<(K, V)>>, idx: int|
                {
                    &&& contents_of(mid) == old(self).contents()
                    &&& old(self).spec_len() < old(self)@.len() ==> mid == old(self)@
                    &&& #[trigger] stored_in(mid, idx, key, value, final(self)@, res)
                },
            match res {
                Some(former) => {
                    &&& old(self).contents().count((key, former)) > 0
                    &&& final(self).contents() == old(self).contents().insert((key, value)).remove(
                        (key, former),
                    )
                    &&& final(self).spec_len() == old(self).spec_len()
                },
                None => {
                    &&& final(self).contents() == old(self).contents().insert((key, value))
                    &&& final(self).spec_len() == old(self).spec_len() + 1
                },
            },
    {
        if self.len >= self.buckets.len() {
            self.resize();
        }
        let ghost mid = self@;
        let idx: usize = self.hash(&key);
        let res = self.insert_at(idx, key, value);
        proof {
            assert(stored_in(mid, idx as int, key, value, self@, res));
            lemma_stored_contents(mid, idx as int, key, value, self@, res);
        }
        res
    }

    /// Looks `key` up in the bucket that the hasher selects: some bucket
    /// `idx`, of which `get_at` says the rest. A value that is returned
    /// belongs to an entry of the map with this key.
    pub fn get(&self, key: &K) -> (res: Option<&V>)
        requires
            self.wf(),
        ensures
            exists|idx: int| #[trigger] found_in(self@, idx, *key, referent(res)),
            res matches Some(v) ==> self.contents().count((*key, *v)) > 0,
    {
        let idx: usize = self.hash(key);
        let res = self.get_at(idx, key);
        proof {
            let found: Option<V> = referent(res);
            assert(found_in(self@, idx as int, *key, found));
            lemma_found_contents(self@, idx as int, *key, found);
        }
        res
    }

    /// Removes an entry for `key` from the bucket that the hasher selects,
    /// some bucket `idx`, of which `remove_at` says the rest, and returns
    /// the value of that entry. Where no value is returned, the map is
    /// unchanged.
    pub fn remove(&mut self, key: &K) -> (res: Option<V>)
        requires
            old(self).wf(),
        ensures
            final(self).wf(),
            exists|idx: int| #[trigger] removed_from(old(self)@, idx, *key, final(self)@, res),
            match res {
                Some(former) => {
                    &&& old(self).contents().count((*key, former)) > 0
                    &&& final(self).contents() == old(self).contents().remove((*key, former))
                    &&& final(self).spec_len() == old(self).spec_len() - 1
                },
                None => {
                    &&& final(self)@ == old(self)@
                    &&& final(self).spec_len() == old(self).spec_len()
                },
            },
    {
        let ghost before = self@;
        let idx: usize = self.hash(key);
        let res = self.remove_at(idx, key);
        proof {
            assert(removed_from(before, idx as int, *key, self@, res));
            lemma_removed_contents(before, idx as int, *key, self@, res);
        }
        res
    }

    /// An iterator over all entries, bucket by bucket and, within a
    /// bucket, in the order of its chain.
    pub fn iter(&self) -> (it: Iter<'_, K, V>)
        ensures
            it.wf(),
            it.remaining() == self.entries(),
    {
        let it = Iter { map: self, bucket_idx: 0, current_node: None };
        proof {
            assert(self@.skip(0) =~= self@);
        }
        it
    }

    /// Doubles the number of buckets and moves every entry to the bucket
    /// that the hasher selects for its key among the new buckets. The
    /// buckets are left as they are when twice their number does not fit in
    /// a word.
    fn resize(&mut self)
        requires
            old(self).wf(),
        ensures
            final(self).wf(),
            final(self)@.len() == grown(old(self)@.len()),
            final(self).contents() == old(self).contents(),
            final(self).spec_len() == old(self).spec_len(),
    {
        let new_capacity: usize = match self.buckets.len().checked_mul(2) {
            Some(n) => n,
            None => {
                return ;
            },
        };
        let mut new_buckets: Vec<Option<Box<Node<K, V>>>> = Vec::new();
        let mut filled: usize = 0;
        while filled < new_capacity
            invariant
                filled <= new_capacity,
                new_buckets@.len() == filled,
                forall|j: int| 0 <= j < filled ==> new_buckets@[j] is None,
            decreases new_capacity - filled,
        {
            new_buckets.push(None);
            filled = filled + 1;
        }
        let ghost all = self.contents();
        proof {
            lemma_no_contents(chains(new_buckets@));
            assert(contents_of(chains(new_buckets@)).add(self.contents()) =~= all);
        }
        let old_count: usize = self.buckets.len();
        let mut i: usize = 0;
        while i < old_count
            invariant
                i <= old_count,
                old_count == self.buckets@.len(),
                new_capacity == new_buckets@.len(),
                new_capacity > 0,
                forall|j: int| 0 <= j < i ==> self.buckets@[j] is None,
                self.len == old(self).len,
                contents_of(chains(new_buckets@)).add(contents_of(chains(self.buckets@))) == all,
            decreases old_count - i,
        {
            let ghost before = chains(self.buckets@);
            let mut node: Option<Box<Node<K, V>>> = self.buckets[i].take();
            proof {
                assert(chains(self.buckets@) =~= before.update(i as int, Seq::empty()));
                lemma_bucket_update(before, i as int, Seq::empty());
                lemma_no_contents(seq![Seq::<(K, V)>::empty()]);
                assert(seq![Seq::<(K, V)>::empty()].flatten() =~= Seq::empty()) by {
                    lemma_flatten_empty(seq![Seq::<(K, V)>::empty()]);
                }
                assert(contents_of(chains(new_buckets@)).add(links(node).to_multiset()).add(
                    contents_of(chains(self.buckets@)),
                ) =~= all);
            }
            loop
                invariant
                    i < old_count,
                    old_count == self.buckets@.len(),
                    new_capacity == new_buckets@.len(),
                    new_capacity > 0,
                    forall|j: int| 0 <= j <= i ==> self.buckets@[j] is None,
                    self.len == old(self).len,
                    contents_of(chains(new_buckets@)).add(links(node).to_multiset()).add(
                        contents_of(chains(self.buckets@)),
                    ) == all,
                ensures
                    contents_of(chains(new_buckets@)).add(contents_of(chains(self.buckets@)))
                        == all,
                decreases node,
            {
                match node {
                    None => {
                        assert(links(node).to_multiset() =~= Multiset::empty()) by {
                            assert forall|x: (K, V)| links(node).to_multiset().count(x) == 0 by {
                                vstd::seq_lib::to_multiset_contains(links(node), x);
                            }
                        }
                        assert(contents_of(chains(new_buckets@)).add(
                            contents_of(chains(self.buckets@)),
                        ) =~= all);
                        break ;
                    },
                    Some(mut n) => {
                        let ghost moved = (n.key, n.value);
                        let ghost rest = links(n.next);
                        let ghost target = chains(new_buckets@);
                        node = n.next.take();
                        let idx: usize = bucket_of(hash_key(&n.key), new_capacity);
                        n.next = new_buckets[idx].take();
                        new_buckets[idx] = Some(n);
                        proof {
                            let chain = seq![moved] + target[idx as int];
                            assert(chains(new_buckets@) =~= target.update(idx as int, chain));
                            lemma_bucket_update(target, idx as int, chain);
                            lemma_multiset_commutative(seq![moved], target[idx as int]);
                            lemma_multiset_commutative(seq![moved], rest);
                            lemma_small_multisets(moved);
                            assert(contents_of(chains(new_buckets@)).add(
                                links(node).to_multiset(),
                            ).add(contents_of(chains(self.buckets@))) =~= all);
                        }
                    },
                }
            }
            i = i + 1;
        }
        proof {
            lemma_no_contents(chains(self.buckets@));
        }
        self.buckets = new_buckets;
        proof {
            to_multiset_len(self@.flatten());
            to_multiset_len(old(self)@.flatten());
        }
    }
}

/// The entries of a chain from a given link on.
spec fn links_from<K, V>(node: Option<&Node<K, V>>) -> Seq<(K, V)> {
    match node {
        None => Seq::empty(),
        Some(n) => seq![(n.key, n.value)] + links(n.next),
    }
}

/// Walks the entries of a map.
pub struct Iter<'a, K, V> {
    map: &'a HashMap<K, V>,
    bucket_idx: usize,
    current_node: Option<&'a Node<K, V>>,
}

impl<'a, K, V> Iter<'a, K, V> {
    /// The next bucket to visit is a bucket of the map or lies just past
    /// the last one.
    pub closed spec fn wf(&self) -> bool {
        self.bucket_idx <= self.map.buckets@.len()
    }

    /// The entries that the iterator has yet to yield, in order.
    pub closed spec fn remaining(&self) -> Seq<(K, V)> {
        links_from(self.current_node) + self.map@.skip(self.bucket_idx as int).flatten()
    }

    /// Yields the first of the remaining entries, or `None` when none
    /// remains.
    pub fn next(&mut self) -> (res: Option<(&'a K, &'a V)>)
        requires
            old(self).wf(),
        ensures
            final(self).wf(),
            match res {
                Some((k, v)) => {
                    &&& old(self).remaining().len() > 0
                    &&& old(self).remaining()[0] == (*k, *v)
                    &&& final(self).remaining() == old(self).remaining().drop_first()
                },
                None => old(self).remaining().len() == 0 && final(self).remaining().len() == 0,
            },
    {
        loop
            invariant
                self.wf(),
                self.map == old(self).map,
                self.remaining() == old(self).remaining(),
            decreases self.map.buckets@.len() - self.bucket_idx,
        {
            if let Some(node) = self.current_node {
                let ghost rest = self.map@.skip(self.bucket_idx as int).flatten();
                self.current_node = match &node.next {
                    Some(link) => Some(&**link),
                    None => None,
                };
                proof {
                    assert(links_from(self.current_node) == links(node.next));
                    assert((seq![(node.key, node.value)] + links(node.next) + rest).drop_first()
                        =~= links(node.next) + rest);
                }
                return Some((&node.key, &node.value));
            }
            if self.bucket_idx >= self.map.buckets.len() {
                proof {
                    assert(self.map@.skip(self.bucket_idx as int) =~= Seq::empty());
                }
                return None;
            }
            proof {
                lemma_flatten_split(self.map@, self.bucket_idx as int);
            }
            self.current_node = match &self.map.buckets[self.bucket_idx] {
                Some(link) => Some(&**link),
                None => None,
            };
            self.bucket_idx = self.bucket_idx + 1;
        }
    }
}

/// A sequence without elements is the empty multiset, and a sequence of one
/// element is the multiset of that element.
proof fn lemma_small_multisets<A>(a: A)
    ensures
        Seq::<A>::empty().to_multiset() =~= Multiset::empty(),
        seq![a].to_multiset() =~= Multiset::singleton(a),
{
    let none = Seq::<A>::empty();
    assert forall|x: A| none.to_multiset().count(x) == 0 by {
        vstd::seq_lib::to_multiset_contains(none, x);
    }
    assert(none.to_multiset() =~= Multiset::empty());
    vstd::seq_lib::to_multiset_build(none, a);
    assert(none.push(a) =~= seq![a]);
}

/// Buckets that are all empty have the empty multiset for their entries.
proof fn lemma_no_contents<A>(s: Seq<Seq<A>>)
    requires
        forall|i: int| 0 <= i < s.len() ==> (#[trigger] s[i]).len() == 0,
    ensures
        contents_of(s) =~= Multiset::empty(),
{
    lemma_flatten_empty(s);
    assert(s.flatten() =~= Seq::empty());
    assert forall|x: A| contents_of(s).count(x) == 0 by {
        vstd::seq_lib::to_multiset_contains(s.flatten(), x);
    }
}

/// Buckets that are all empty hold no entries.
proof fn lemma_flatten_empty<A>(s: Seq<Seq<A>>)
    requires
        forall|i: int| 0 <= i < s.len() ==> (#[trigger] s[i]).len() == 0,
    ensures
        s.flatten().len() == 0,
    decreases s.len(),
{
    if s.len() > 0 {
        lemma_flatten_empty(s.drop_first());
    }
}

} // verus!
