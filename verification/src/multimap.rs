//! A hash map that associates any number of values with each key.
//!
//! The map is a vector of buckets; a key lives in the bucket whose position is
//! its hash modulo the number of buckets, and each bucket lists its
//! key-value pairs in the order in which they were added. A pair is added at
//! most once.
use vstd::prelude::*;
use vstd::std_specs::cmp::PartialEqSpec;
use vstd::laws_eq::obeys_concrete_eq;
use vstd::std_specs::hash::DefaultHasherAdditionalSpecFns;
use std::collections::hash_map::DefaultHasher;
use std::hash::{Hash, Hasher};

verus! {

/// The bucket that a key with hash `hash` falls into, among `n` buckets.
pub open spec fn bucket_of(hash: u64, n: nat) -> int {
    hash as int % n as int
}

/// The values that `bucket` associates with `key`, in the bucket's order; keys
/// are compared with the key type's `==`.
pub open spec fn values_for<K: PartialEq, V>(bucket: Seq<(K, V)>, key: K) -> Seq<V>
    decreases bucket.len(),
{
    if bucket.len() == 0 {
        Seq::empty()
    } else {
        let init = values_for(bucket.drop_last(), key);
        if bucket.last().0.eq_spec(&key) {
            init.push(bucket.last().1)
        } else {
            init
        }
    }
}

/// Whether `bucket` already holds the pair `(key, value)`, compared with `==`.
pub open spec fn holds_pair<K: PartialEq, V: PartialEq>(bucket: Seq<(K, V)>, key: K, value: V) -> bool {
    exists|j: int| 0 <= j < bucket.len() && #[trigger] bucket[j].0.eq_spec(&key) && bucket[j].1.eq_spec(&value)
}

/// `bucket` after adding `(key, value)`: unchanged if it holds the pair
/// already, else with the pair at its end.
pub open spec fn insert_pair<K: PartialEq, V: PartialEq>(bucket: Seq<(K, V)>, key: K, value: V) -> Seq<(K, V)> {
    if holds_pair(bucket, key, value) {
        bucket
    } else {
        bucket.push((key, value))
    }
}

/// The buckets `t` after adding `(key, value)` for a key whose hash is `hash`.
pub open spec fn table_insert<K: PartialEq, V: PartialEq>(
    t: Seq<Seq<(K, V)>>,
    hash: u64,
    key: K,
    value: V,
) -> Seq<Seq<(K, V)>> {
    let i = bucket_of(hash, t.len());
    t.update(i, insert_pair(t[i], key, value))
}

/// The values that the buckets `t` associate with `key`, whose hash is `hash`.
pub open spec fn table_lookup<K: PartialEq, V>(t: Seq<Seq<(K, V)>>, hash: u64, key: K) -> Seq<V> {
    values_for(t[bucket_of(hash, t.len())], key)
}

/// `new` is what adding `(key, value)` with hash `hash` to `old` can leave:
/// only the key's bucket changes, and at most by the pair at its end; where
/// `==` behaves as its specification says, exactly `table_insert`.
pub open spec fn inserted<K: PartialEq, V: PartialEq>(
    old: Seq<Seq<(K, V)>>,
    new: Seq<Seq<(K, V)>>,
    hash: u64,
    key: K,
    value: V,
) -> bool {
    let i = bucket_of(hash, old.len());
    &&& new.len() == old.len()
    &&& forall|j: int| 0 <= j < old.len() && j != i ==> new[j] == old[j]
    &&& new[i] == old[i] || new[i] == old[i].push((key, value))
    &&& K::obeys_eq_spec() && V::obeys_eq_spec() ==> new == table_insert(old, hash, key, value)
}

/// `found` is what looking up `key` with hash `hash` in `t` can return: clones
/// of values of the key's bucket; where `==` behaves as its specification
/// says, clones of exactly `table_lookup(t, hash, key)`, in order.
pub open spec fn looked_up<K: PartialEq, V: Clone>(
    t: Seq<Seq<(K, V)>>,
    hash: u64,
    key: K,
    found: Seq<V>,
) -> bool {
    let b = t[bucket_of(hash, t.len())];
    &&& forall|j: int|
        0 <= j < found.len() ==> exists|l: int| 0 <= l < b.len() && cloned(b[l].1, #[trigger] found[j])
    &&& K::obeys_eq_spec() ==> {
        let vs = table_lookup(t, hash, key);
        &&& found.len() == vs.len()
        &&& forall|j: int| 0 <= j < vs.len() ==> cloned(vs[j], #[trigger] found[j])
    }
}

/// Whether no bucket of `t` holds the same pair twice.
pub open spec fn pairs_distinct<K, V>(t: Seq<Seq<(K, V)>>) -> bool {
    forall|i: int, a: int, c: int|
        0 <= i < t.len() && 0 <= a < c < t[i].len() ==> #[trigger] t[i][a] != #[trigger] t[i][c]
}

/// With `==` as equality, `bucket` associates `value` with `key` exactly when
/// it holds the pair `(key, value)`.
proof fn lemma_values_for_contains<K: PartialEq, V: PartialEq>(bucket: Seq<(K, V)>, key: K, value: V)
    requires
        obeys_concrete_eq::<K>(),
        obeys_concrete_eq::<V>(),
    ensures
        values_for(bucket, key).contains(value) <==> holds_pair(bucket, key, value),
    decreases bucket.len(),
{
    reveal(obeys_concrete_eq);
    if bucket.len() > 0 {
        let init = bucket.drop_last();
        lemma_values_for_contains(init, key, value);
        let n = bucket.len() - 1;
        let last = bucket[n];
        let vs = values_for(init, key);
        let all = values_for(bucket, key);
        if all.contains(value) {
            let x = choose|x: int| 0 <= x < all.len() && all[x] == value;
            if last.0 == key && x == vs.len() {
                assert(bucket[n].0.eq_spec(&key) && bucket[n].1.eq_spec(&value));
            } else {
                assert(vs[x] == value);
                assert(vs.contains(value));
                let j = choose|j: int|
                    0 <= j < init.len() && #[trigger] init[j].0.eq_spec(&key) && init[j].1.eq_spec(
                        &value,
                    );
                assert(bucket[j] == init[j]);
            }
        }
        if holds_pair(bucket, key, value) {
            let j = choose|j: int|
                0 <= j < bucket.len() && #[trigger] bucket[j].0.eq_spec(&key) && bucket[j].1.eq_spec(
                    &value,
                );
            if j < n {
                assert(init[j] == bucket[j]);
                assert(holds_pair(init, key, value));
                let x = choose|x: int| 0 <= x < vs.len() && vs[x] == value;
                assert(all[x] == value);
            } else {
                assert(all[vs.len() as int] == value);
            }
        }
    }
}

/// A map with no pairs associates nothing with any key.
pub proof fn lemma_lookup_empty<K: PartialEq, V>(n: nat, hash: u64, key: K)
    requires
        n > 0,
    ensures
        table_lookup(Seq::new(n, |i: int| Seq::<(K, V)>::empty()), hash, key) == Seq::<V>::empty(),
{
}

/// After adding `(key, value)`, the values associated with `key` are those
/// before, with `value` at their end unless it was among them already.
pub proof fn lemma_lookup_after_insert<K: PartialEq, V: PartialEq>(
    t: Seq<Seq<(K, V)>>,
    hash: u64,
    key: K,
    value: V,
)
    requires
        t.len() > 0,
        obeys_concrete_eq::<K>(),
        obeys_concrete_eq::<V>(),
    ensures
        table_lookup(table_insert(t, hash, key, value), hash, key) == if table_lookup(
            t,
            hash,
            key,
        ).contains(value) {
            table_lookup(t, hash, key)
        } else {
            table_lookup(t, hash, key).push(value)
        },
        table_lookup(table_insert(t, hash, key, value), hash, key).contains(value),
{
    reveal(obeys_concrete_eq);
    let b = t[bucket_of(hash, t.len())];
    lemma_values_for_contains(b, key, value);
    if !holds_pair(b, key, value) {
        assert(b.push((key, value)).drop_last() =~= b);
        let vs = values_for(b, key);
        assert(vs.push(value)[vs.len() as int] == value);
    }
}

/// Adding a pair for one key leaves the values of every other key unchanged,
/// whatever the hashes.
pub proof fn lemma_lookup_other_key<K: PartialEq, V: PartialEq>(
    t: Seq<Seq<(K, V)>>,
    hash: u64,
    key: K,
    value: V,
    other_hash: u64,
    other: K,
)
    requires
        t.len() > 0,
        obeys_concrete_eq::<K>(),
        other != key,
    ensures
        table_lookup(table_insert(t, hash, key, value), other_hash, other) == table_lookup(
            t,
            other_hash,
            other,
        ),
{
    reveal(obeys_concrete_eq);
    let b = t[bucket_of(hash, t.len())];
    assert(b.push((key, value)).drop_last() =~= b);
}

/// Adding the same pair twice is the same as adding it once.
pub proof fn lemma_insert_idempotent<K: PartialEq, V: PartialEq>(
    t: Seq<Seq<(K, V)>>,
    hash: u64,
    key: K,
    value: V,
)
    requires
        t.len() > 0,
        obeys_concrete_eq::<K>(),
        obeys_concrete_eq::<V>(),
    ensures
        table_insert(table_insert(t, hash, key, value), hash, key, value) == table_insert(
            t,
            hash,
            key,
            value,
        ),
{
    reveal(obeys_concrete_eq);
    let i = bucket_of(hash, t.len());
    let b = t[i];
    let b1 = insert_pair(b, key, value);
    if !holds_pair(b, key, value) {
        let n = b.len() as int;
        assert(b1[n].0.eq_spec(&key) && b1[n].1.eq_spec(&value));
    }
    assert(holds_pair(b1, key, value));
    assert(table_insert(t, hash, key, value).update(i, b1) =~= table_insert(t, hash, key, value));
}

/// Adding a pair never makes a bucket hold the same pair twice.
pub proof fn lemma_insert_keeps_pairs_distinct<K: PartialEq, V: PartialEq>(
    t: Seq<Seq<(K, V)>>,
    hash: u64,
    key: K,
    value: V,
)
    requires
        t.len() > 0,
        obeys_concrete_eq::<K>(),
        obeys_concrete_eq::<V>(),
        pairs_distinct(t),
    ensures
        pairs_distinct(table_insert(t, hash, key, value)),
{
    reveal(obeys_concrete_eq);
    let i = bucket_of(hash, t.len());
    let b = t[i];
    let t1 = table_insert(t, hash, key, value);
    if !holds_pair(b, key, value) {
        assert forall|x: int, a: int, c: int|
            0 <= x < t1.len() && 0 <= a < c < t1[x].len() implies #[trigger] t1[x][a]
            != #[trigger] t1[x][c] by {
            if x == i && c == b.len() {
                if t1[x][a] == t1[x][c] {
                    assert(b[a].0.eq_spec(&key) && b[a].1.eq_spec(&value));
                }
            } else if x == i {
                assert(t1[x][a] == t[x][a] && t1[x][c] == t[x][c]);
            }
        }
    }
}

/// The values that adding the pairs `ops` in order associates with `key`:
/// each value once, in the order in which it was first added with `key`.
pub open spec fn added_values<K, V>(ops: Seq<(K, V)>, key: K) -> Seq<V>
    decreases ops.len(),
{
    if ops.len() == 0 {
        Seq::empty()
    } else {
        let prev = added_values(ops.drop_last(), key);
        let (k, v) = ops.last();
        if k == key && !prev.contains(v) {
            prev.push(v)
        } else {
            prev
        }
    }
}

/// `n` empty buckets after adding the pairs `ops` in order, where each key
/// has the hash `hash` gives it.
pub open spec fn table_after<K: PartialEq, V: PartialEq>(
    n: nat,
    ops: Seq<(K, V)>,
    hash: spec_fn(K) -> u64,
) -> Seq<Seq<(K, V)>>
    decreases ops.len(),
{
    if ops.len() == 0 {
        Seq::new(n, |i: int| Seq::<(K, V)>::empty())
    } else {
        let (k, v) = ops.last();
        table_insert(table_after(n, ops.drop_last(), hash), hash(k), k, v)
    }
}

/// Adding pairs never changes the number of buckets.
proof fn lemma_table_after_len<K: PartialEq, V: PartialEq>(
    n: nat,
    ops: Seq<(K, V)>,
    hash: spec_fn(K) -> u64,
)
    requires
        n > 0,
    ensures
        table_after(n, ops, hash).len() == n,
    decreases ops.len(),
{
    if ops.len() > 0 {
        lemma_table_after_len(n, ops.drop_last(), hash);
    }
}

/// After adding the pairs `ops` in order to empty buckets, looking up a key
/// gives every value added with that key, each once, in the order in which it
/// was first added, provided each key hashes the same way every time.
pub proof fn lemma_lookup_after_pairs<K: PartialEq, V: PartialEq>(
    n: nat,
    ops: Seq<(K, V)>,
    hash: spec_fn(K) -> u64,
    key: K,
)
    requires
        n > 0,
        obeys_concrete_eq::<K>(),
        obeys_concrete_eq::<V>(),
    ensures
        table_lookup(table_after(n, ops, hash), hash(key), key) == added_values(ops, key),
    decreases ops.len(),
{
    if ops.len() == 0 {
        lemma_lookup_empty::<K, V>(n, hash(key), key);
    } else {
        let init = ops.drop_last();
        let (k, v) = ops.last();
        lemma_lookup_after_pairs(n, init, hash, key);
        lemma_table_after_len(n, init, hash);
        let t = table_after(n, init, hash);
        if k == key {
            lemma_lookup_after_insert(t, hash(k), k, v);
        } else {
            lemma_lookup_other_key(t, hash(k), k, v, hash(key), key);
        }
    }
}

/// The number of buckets changes no lookup: maps with any numbers of buckets
/// that are given the same pairs associate the same values with every key.
pub proof fn lemma_bucket_count_irrelevant<K: PartialEq, V: PartialEq>(
    n1: nat,
    n2: nat,
    ops: Seq<(K, V)>,
    hash: spec_fn(K) -> u64,
    key: K,
)
    requires
        n1 > 0,
        n2 > 0,
        obeys_concrete_eq::<K>(),
        obeys_concrete_eq::<V>(),
    ensures
        table_lookup(table_after(n1, ops, hash), hash(key), key) == table_lookup(
            table_after(n2, ops, hash),
            hash(key),
            key,
        ),
{
    lemma_lookup_after_pairs(n1, ops, hash, key);
    lemma_lookup_after_pairs(n2, ops, hash, key);
}

/// Whether the pair `(key, value)` is among `ops`.
pub open spec fn was_added<K, V>(ops: Seq<(K, V)>, key: K, value: V) -> bool {
    exists|i: int| 0 <= i < ops.len() && ops[i] == (key, value)
}

/// The values associated with a key are exactly the values added with it,
/// and none of them is associated twice.
pub proof fn lemma_added_values<K, V>(ops: Seq<(K, V)>, key: K)
    ensures
        forall|v: V| #[trigger] added_values(ops, key).contains(v) <==> was_added(ops, key, v),
        forall|a: int, b: int|
            0 <= a < b < added_values(ops, key).len() ==> added_values(ops, key)[a]
                != added_values(ops, key)[b],
    decreases ops.len(),
{
    if ops.len() > 0 {
        let init = ops.drop_last();
        lemma_added_values(init, key);
        let prev = added_values(init, key);
        let all = added_values(ops, key);
        let (k, w) = ops.last();
        assert forall|v: V| was_added(ops, key, v) <==> was_added(init, key, v) || (k == key && w
            == v) by {
            if was_added(ops, key, v) {
                let i = choose|i: int| 0 <= i < ops.len() && ops[i] == (key, v);
                if i < init.len() {
                    assert(init[i] == ops[i]);
                }
            }
            if was_added(init, key, v) {
                let i = choose|i: int| 0 <= i < init.len() && init[i] == (key, v);
                assert(ops[i] == init[i]);
            }
            if k == key && w == v {
                assert(ops[ops.len() - 1] == (key, v));
            }
        }
        if k == key && !prev.contains(w) {
            assert forall|v: V| #[trigger] all.contains(v) <==> prev.contains(v) || v == w by {
                if all.contains(v) {
                    let x = choose|x: int| 0 <= x < all.len() && all[x] == v;
                    if x < prev.len() {
                        assert(prev[x] == v);
                    }
                }
                if prev.contains(v) {
                    let x = choose|x: int| 0 <= x < prev.len() && prev[x] == v;
                    assert(all[x] == v);
                }
                if v == w {
                    assert(all[prev.len() as int] == v);
                }
            }
            assert forall|a: int, b: int| 0 <= a < b < all.len() implies all[a] != all[b] by {
                if b == prev.len() {
                    assert(prev[a] == all[a]);
                }
            }
        }
    }
}

/// Adding the same pair twice in a row associates the same values as adding
/// it once.
pub proof fn lemma_added_twice<K, V>(ops: Seq<(K, V)>, key: K, k: K, v: V)
    ensures
        added_values(ops.push((k, v)).push((k, v)), key) == added_values(ops.push((k, v)), key),
{
    let once = ops.push((k, v));
    assert(once.push((k, v)).drop_last() =~= once);
    assert(once.drop_last() =~= ops);
    if k == key {
        let prev = added_values(ops, key);
        if !prev.contains(v) {
            assert(prev.push(v)[prev.len() as int] == v);
        }
    }
}

/// Adding pairs for two different keys in either order associates the same
/// values with every key.
pub proof fn lemma_added_commute<K, V>(ops: Seq<(K, V)>, key: K, k1: K, v1: V, k2: K, v2: V)
    requires
        k1 != k2,
    ensures
        added_values(ops.push((k1, v1)).push((k2, v2)), key) == added_values(
            ops.push((k2, v2)).push((k1, v1)),
            key,
        ),
{
    let a = ops.push((k1, v1));
    let b = ops.push((k2, v2));
    assert(a.push((k2, v2)).drop_last() =~= a);
    assert(b.push((k1, v1)).drop_last() =~= b);
    assert(a.drop_last() =~= ops);
    assert(b.drop_last() =~= ops);
    let p = added_values(ops, key);
    let pa = added_values(a, key);
    let pb = added_values(b, key);
    assert(pa == if k1 == key && !p.contains(v1) {
        p.push(v1)
    } else {
        p
    });
    assert(pb == if k2 == key && !p.contains(v2) {
        p.push(v2)
    } else {
        p
    });
    assert(added_values(a.push((k2, v2)), key) == if k2 == key && !pa.contains(v2) {
        pa.push(v2)
    } else {
        pa
    });
    assert(added_values(b.push((k1, v1)), key) == if k1 == key && !pb.contains(v1) {
        pb.push(v1)
    } else {
        pb
    });
}

/// Maps given the same pairs, the last two for different keys in either
/// order, associate the same values with every key.
pub proof fn lemma_lookup_commute<K: PartialEq, V: PartialEq>(
    n: nat,
    ops: Seq<(K, V)>,
    hash: spec_fn(K) -> u64,
    key: K,
    k1: K,
    v1: V,
    k2: K,
    v2: V,
)
    requires
        n > 0,
        obeys_concrete_eq::<K>(),
        obeys_concrete_eq::<V>(),
        k1 != k2,
    ensures
        table_lookup(table_after(n, ops.push((k1, v1)).push((k2, v2)), hash), hash(key), key)
            == table_lookup(table_after(n, ops.push((k2, v2)).push((k1, v1)), hash), hash(key), key),
{
    lemma_lookup_after_pairs(n, ops.push((k1, v1)).push((k2, v2)), hash, key);
    lemma_lookup_after_pairs(n, ops.push((k2, v2)).push((k1, v1)), hash, key);
    lemma_added_commute(ops, key, k1, v1, k2, v2);
}

/// What `set` and `get` promise, taken together: when `get` hashes the key
/// as the `set` before it did (as it does whenever the key's `Hash`
/// implementation writes the same bytes each time), it returns a clone of
/// every value associated with the key before the `set` and of the value the
/// `set` added, and nothing else.
pub proof fn lemma_get_after_set<K: PartialEq, V: PartialEq + Clone>(
    before: Seq<Seq<(K, V)>>,
    after: Seq<Seq<(K, V)>>,
    hash: u64,
    key: K,
    value: V,
    found: Seq<V>,
)
    requires
        before.len() > 0,
        obeys_concrete_eq::<K>(),
        obeys_concrete_eq::<V>(),
        inserted(before, after, hash, key, value),
        looked_up(after, hash, key, found),
    ensures
        exists|j: int| 0 <= j < found.len() && cloned(value, #[trigger] found[j]),
        found.len() == table_lookup(before, hash, key).len() + if table_lookup(
            before,
            hash,
            key,
        ).contains(value) {
            0int
        } else {
            1int
        },
        forall|j: int|
            0 <= j < table_lookup(before, hash, key).len() ==> cloned(
                table_lookup(before, hash, key)[j],
                #[trigger] found[j],
            ),
{
    reveal(obeys_concrete_eq);
    lemma_lookup_after_insert(before, hash, key, value);
    let vs = table_lookup(after, hash, key);
    let x = choose|x: int| 0 <= x < vs.len() && vs[x] == value;
    assert(cloned(vs[x], found[x]));
    let old_vs = table_lookup(before, hash, key);
    assert forall|j: int| 0 <= j < old_vs.len() implies cloned(old_vs[j], #[trigger] found[j]) by {
        assert(vs[j] == old_vs[j]);
    }
}

/// `std::hash::Hash::hash`: feeds `key` to `state` through the key type's
/// `Hash` implementation. What it writes is up to that implementation, so
/// nothing is stated of `state` afterwards.
#[verifier::external_body]
fn hash_into<K: Hash>(key: &K, state: &mut DefaultHasher) {
    key.hash(state);
}

/// The hash of `key` under a fresh `DefaultHasher`: the hasher's digest of
/// the writes that the key's `Hash` implementation makes.
fn key_hash<K: Hash>(key: &K) -> (hash: u64)
    ensures
        exists|writes: Seq<Seq<u8>>| hash == DefaultHasher::spec_finish(writes),
{
    let mut hasher = DefaultHasher::new();
    hash_into(key, &mut hasher);
    let hash = hasher.finish();
    assert(hash == DefaultHasher::spec_finish(hasher@));
    hash
}

/// A hash map that associates any number of values with each key. It is a
/// vector of buckets, each a list of key-value pairs.
pub struct ConcurrentMultiMap<K: Hash + Eq, V> {
    buckets: Vec<Vec<(K, V)>>,
}

impl<K: Hash + Eq, V> View for ConcurrentMultiMap<K, V> {
    type V = Seq<Seq<(K, V)>>;

    closed spec fn view(&self) -> Seq<Seq<(K, V)>> {
        self.buckets@.map_values(|b: Vec<(K, V)>| b@)
    }
}

impl<K: Hash + Eq, V> ConcurrentMultiMap<K, V> {
    /// The number of buckets.
    pub fn bucket_count(&self) -> (n: usize)
        ensures
            n == self@.len(),
    {
        self.buckets.len()
    }

    /// Create a new empty ConcurrentMultiMap with the given number of buckets.
    pub fn new(bucket_count: usize) -> (map: Self)
        ensures
            map@ == Seq::new(bucket_count as nat, |i: int| Seq::<(K, V)>::empty()),
    {
        let mut buckets: Vec<Vec<(K, V)>> = Vec::new();
        let mut i: usize = 0;
        while i < bucket_count
            invariant
                i <= bucket_count,
                buckets@.len() == i,
                forall|j: int| 0 <= j < i ==> #[trigger] buckets@[j]@ == Seq::<(K, V)>::empty(),
            decreases bucket_count - i,
        {
            buckets.push(Vec::new());
            i = i + 1;
        }
        let map = ConcurrentMultiMap { buckets };
        assert(map@ =~= Seq::new(bucket_count as nat, |i: int| Seq::<(K, V)>::empty()));
        map
    }
}

impl<K: Hash + Eq, V: Clone + Eq> ConcurrentMultiMap<K, V> {
    /// The position of the bucket for a key whose hash is `hash`.
    fn bucket_index(&self, hash: u64) -> (i: usize)
        requires
            self@.len() > 0,
        ensures
            i == bucket_of(hash, self@.len()),
    {
        (hash % (self.buckets.len() as u64)) as usize
    }

    /// Associate `value` with `key`, whose hash is `hash`: unless the bucket
    /// of the key already holds the pair, add the pair at the end of that
    /// bucket.
    pub fn set_hashed(&mut self, hash: u64, key: K, value: V)
        requires
            old(self)@.len() > 0,
        ensures
            inserted(old(self)@, final(self)@, hash, key, value),
    {
        let idx = self.bucket_index(hash);
        let ghost b = self@[idx as int];
        let mut j: usize = 0;
        while j < self.buckets[idx].len()
            invariant
                idx < self.buckets@.len(),
                idx == bucket_of(hash, self@.len()),
                self@ == old(self)@,
                b == self@[idx as int],
                j <= b.len(),
                K::obeys_eq_spec() && V::obeys_eq_spec() ==> forall|l: int|
                    0 <= l < j ==> !(#[trigger] b[l].0.eq_spec(&key) && b[l].1.eq_spec(&value)),
            decreases b.len() - j,
        {
            let entry = &self.buckets[idx][j];
            if entry.0 == key && entry.1 == value {
                proof {
                    if K::obeys_eq_spec() && V::obeys_eq_spec() {
                        assert(b[j as int].0.eq_spec(&key) && b[j as int].1.eq_spec(&value));
                        assert(self@ =~= old(self)@.update(idx as int, b));
                    }
                }
                return;
            }
            j = j + 1;
        }
        let mut bucket: Vec<(K, V)> = Vec::new();
        self.buckets.set_and_swap(idx, &mut bucket);
        bucket.push((key, value));
        self.buckets.set_and_swap(idx, &mut bucket);
        assert(self@ =~= old(self)@.update(idx as int, b.push((key, value))));
    }

    /// Associate `value` with `key`: hash the key, and unless the key's
    /// bucket already holds the pair, add it at the end of that bucket.
    pub fn set(&mut self, key: K, value: V)
        requires
            old(self)@.len() > 0,
        ensures
            exists|writes: Seq<Seq<u8>>|
                inserted(
                    old(self)@,
                    final(self)@,
                    #[trigger] DefaultHasher::spec_finish(writes),
                    key,
                    value,
                ),
    {
        let hash = key_hash(&key);
        self.set_hashed(hash, key, value);
    }

    /// All values associated with `key`, whose hash is `hash`: clones of the
    /// values of the pairs of the key's bucket whose key equals `key`, in the
    /// bucket's order.
    pub fn get_hashed(&self, hash: u64, key: &K) -> (found: Vec<V>)
        requires
            self@.len() > 0,
        ensures
            looked_up(self@, hash, *key, found@),
    {
        let idx = self.bucket_index(hash);
        let bucket = &self.buckets[idx];
        let ghost b = bucket@;
        assert(b == self@[idx as int]);
        let mut found: Vec<V> = Vec::new();
        let mut j: usize = 0;
        while j < bucket.len()
            invariant
                b == bucket@,
                j <= b.len(),
                forall|m: int|
                    0 <= m < found@.len() ==> exists|l: int|
                        0 <= l < b.len() && cloned(b[l].1, #[trigger] found@[m]),
                K::obeys_eq_spec() ==> {
                    let vs = values_for(b.take(j as int), *key);
                    &&& found@.len() == vs.len()
                    &&& forall|m: int| 0 <= m < vs.len() ==> cloned(vs[m], #[trigger] found@[m])
                },
            decreases b.len() - j,
        {
            let entry = &bucket[j];
            assert(b.take(j + 1).drop_last() =~= b.take(j as int));
            if entry.0 == *key {
                let v = entry.1.clone();
                found.push(v);
            }
            j = j + 1;
        }
        assert(b.take(j as int) =~= b);
        assert(table_lookup(self@, hash, *key) == values_for(b, *key));
        found
    }

    /// All values associated with `key`: hash the key, and return clones of
    /// the values of the pairs of the key's bucket whose key equals `key`.
    pub fn get(&self, key: &K) -> (found: Vec<V>)
        requires
            self@.len() > 0,
        ensures
            exists|writes: Seq<Seq<u8>>|
                looked_up(self@, #[trigger] DefaultHasher::spec_finish(writes), *key, found@),
    {
        let hash = key_hash(key);
        self.get_hashed(hash, key)
    }
}

} // verus!
