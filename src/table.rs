//! The hash map: a fixed array of buckets, each empty or holding a chain.
use crate::chain::{
    chain_lookup, chain_upsert, find_key, keys_distinct, lemma_chain_upsert, lemma_find_key, Node,
};
use crate::hashing::{hash_key, key_hash};
use vstd::prelude::*;

verus! {

/// The number of buckets of a map made by `MyHashMap::new`.
pub const DEFAULT_BUFFER_CAPACITY: usize = 30;

/// Why a map could not be made.
#[derive(Debug, Clone, Copy, PartialEq, Eq, Structural)]
pub enum ConfigError {
    /// A map needs at least one bucket.
    ZeroCapacity,
}

/// The bucket of key `k` in a map of `capacity` buckets: its hash, taken as a
/// `usize`, modulo the capacity.
pub open spec fn bucket_of(k: Seq<char>, capacity: nat) -> int
    recommends
        capacity > 0,
{
    ((key_hash(k) as usize) as nat % capacity) as int
}

/// A map from string keys to values, with a fixed number of buckets.
#[derive(Debug)]
pub struct MyHashMap<V> {
    buffer: Vec<Option<Node<V>>>,
}

impl<V> MyHashMap<V> {
    /// The number of buckets, fixed when the map is made.
    pub closed spec fn capacity(self) -> nat {
        self.buffer@.len()
    }

    /// The entries of bucket `i`, in chain order; none for an empty bucket.
    pub closed spec fn bucket(self, i: int) -> Seq<(Seq<char>, V)> {
        match self.buffer@[i] {
            Some(n) => n.entries(),
            None => Seq::empty(),
        }
    }

    /// The map's invariant: at least one bucket, every entry in the bucket of
    /// its key, and no key twice in a chain.
    pub closed spec fn wf(self) -> bool {
        &&& self.capacity() > 0
        &&& forall|b: int| 0 <= b < self.capacity() ==> keys_distinct(#[trigger] self.bucket(b))
        &&& forall|b: int, i: int|
            0 <= b < self.capacity() && 0 <= i < self.bucket(b).len() ==> bucket_of(
                #[trigger] self.bucket(b)[i].0,
                self.capacity(),
            ) == b
    }

    /// What the map holds: each key maps to the value found in its bucket.
    pub closed spec fn as_map(self) -> Map<Seq<char>, V> {
        Map::new(
            |k: Seq<char>| chain_lookup(self.bucket(bucket_of(k, self.capacity())), k).is_some(),
            |k: Seq<char>| chain_lookup(self.bucket(bucket_of(k, self.capacity())), k).unwrap(),
        )
    }
}

impl<V> View for MyHashMap<V> {
    type V = Map<Seq<char>, V>;

    open spec fn view(&self) -> Map<Seq<char>, V> {
        self.as_map()
    }
}

/// A vector of `capacity` empty buckets.
fn empty_buckets<V>(capacity: usize) -> (r: Vec<Option<Node<V>>>)
    ensures
        r@.len() == capacity,
        forall|i: int| 0 <= i < capacity ==> (#[trigger] r@[i]).is_none(),
{
    let mut buffer: Vec<Option<Node<V>>> = Vec::with_capacity(capacity);
    let mut i: usize = 0;
    while i < capacity
        invariant
            i <= capacity,
            buffer@.len() == i,
            forall|j: int| 0 <= j < i ==> (#[trigger] buffer@[j]).is_none(),
        decreases capacity - i,
    {
        buffer.push(None);
        i += 1;
    }
    buffer
}

impl<V: Copy> MyHashMap<V> {
    /// An empty map of `DEFAULT_BUFFER_CAPACITY` buckets.
    pub fn new() -> (r: Self)
        ensures
            r.wf(),
            r@ == Map::<Seq<char>, V>::empty(),
            r.capacity() == DEFAULT_BUFFER_CAPACITY,
            forall|i: int|
                0 <= i < r.capacity() ==> #[trigger] r.bucket(i) == Seq::<(Seq<char>, V)>::empty(),
    {
        let r = MyHashMap { buffer: empty_buckets(DEFAULT_BUFFER_CAPACITY) };
        assert(r@ =~= Map::<Seq<char>, V>::empty());
        r
    }

    /// An empty map of `capacity` buckets; a capacity of zero is refused.
    pub fn with_capacity(capacity: usize) -> (r: Result<Self, ConfigError>)
        ensures
            capacity == 0 <==> r is Err,
            r is Err ==> r == Err::<Self, ConfigError>(ConfigError::ZeroCapacity),
            r matches Ok(m) ==> m.wf() && m@ == Map::<Seq<char>, V>::empty() && m.capacity()
                == capacity && forall|i: int|
                0 <= i < m.capacity() ==> #[trigger] m.bucket(i) == Seq::<(Seq<char>, V)>::empty(),
    {
        if capacity == 0 {
            return Err(ConfigError::ZeroCapacity);
        }
        let r = MyHashMap { buffer: empty_buckets(capacity) };
        assert(r@ =~= Map::<Seq<char>, V>::empty());
        Ok(r)
    }

    /// The hash of a key, before it is reduced to a bucket.
    pub fn key_to_hash(key: &String) -> (r: u64)
        ensures
            r == key_hash(key@),
    {
        hash_key(key)
    }

    /// Binds `key` to `val`: the value of an entry with that key is
    /// overwritten, or else a new entry is added to the key's bucket.
    pub fn insert(&mut self, key: &String, val: &V)
        requires
            old(self).wf(),
        ensures
            final(self).wf(),
            final(self)@ == old(self)@.insert(key@, *val),
            final(self).capacity() == old(self).capacity(),
            forall|b: int|
                0 <= b < old(self).capacity() ==> #[trigger] final(self).bucket(b) == if b
                    == bucket_of(key@, old(self).capacity()) {
                    chain_upsert(old(self).bucket(b), key@, *val)
                } else {
                    old(self).bucket(b)
                },
    {
        let ghost old_map = *self;
        let hashed_key = Self::key_to_hash(key);
        let bucket_index = hashed_key as usize % self.buffer.len();
        let ghost s = self.bucket(bucket_index as int);
        let possible_bucket = &mut self.buffer[bucket_index];
        match possible_bucket {
            Some(bucket) => {
                bucket.upsert(key, val);
            },
            None => {
                *possible_bucket = Some(Node::new(key, val));
            },
        }
        proof {
            let cap = old_map.capacity();
            lemma_chain_upsert(s, key@, *val);
            lemma_find_key(s, key@);
            assert(self.bucket(bucket_index as int) =~= chain_upsert(s, key@, *val));
            assert forall|b: int| 0 <= b < cap implies #[trigger] self.bucket(b) == if b
                == bucket_of(key@, cap) {
                chain_upsert(old_map.bucket(b), key@, *val)
            } else {
                old_map.bucket(b)
            } by {}
            assert(self@ =~= old_map@.insert(key@, *val));
        }
    }

    /// The value bound to `key`, if any.
    pub fn get(&self, key: &String) -> (r: Option<&V>)
        requires
            self.wf(),
        ensures
            match r {
                Some(v) => self@.contains_key(key@) && *v == self@[key@],
                None => !self@.contains_key(key@),
            },
    {
        let hashed_key = Self::key_to_hash(key) as usize;
        let bucket_index = hashed_key % self.buffer.len();
        let ghost s = self.bucket(bucket_index as int);
        proof {
            lemma_find_key(s, key@);
        }
        if let Some(bucket) = &self.buffer[bucket_index] {
            let possible_result = bucket.search_by_key(key);
            if let Some(result) = possible_result {
                return Some(result.value());
            }
        }
        None
    }
}

/// The contents of a map holding `m` after `insert(ops[0])`, ...,
/// `insert(ops[ops.len() - 1])`, in that order.
pub open spec fn apply_inserts<V>(m: Map<Seq<char>, V>, ops: Seq<(Seq<char>, V)>) -> Map<
    Seq<char>,
    V,
>
    decreases ops.len(),
{
    if ops.len() == 0 {
        m
    } else {
        apply_inserts(m, ops.drop_last()).insert(ops.last().0, ops.last().1)
    }
}

/// Last write wins: after a run of inserts that ends with `(k, v)`, the key
/// `k` is bound to `v`, whatever was inserted under `k` before.
pub proof fn lemma_last_insert_wins<V>(m: Map<Seq<char>, V>, ops: Seq<(Seq<char>, V)>)
    requires
        ops.len() > 0,
    ensures
        apply_inserts(m, ops).contains_key(ops.last().0),
        apply_inserts(m, ops)[ops.last().0] == ops.last().1,
{
}

/// A key that no insert names stays absent from a map that starts empty.
pub proof fn lemma_never_inserted_absent<V>(ops: Seq<(Seq<char>, V)>, k: Seq<char>)
    requires
        forall|i: int| 0 <= i < ops.len() ==> (#[trigger] ops[i]).0 != k,
    ensures
        !apply_inserts(Map::<Seq<char>, V>::empty(), ops).contains_key(k),
    decreases ops.len(),
{
    if ops.len() > 0 {
        let front = ops.drop_last();
        assert forall|i: int| 0 <= i < front.len() implies (#[trigger] front[i]).0 != k by {
            assert(front[i] == ops[i]);
        }
        lemma_never_inserted_absent(front, k);
    }
}

/// Two distinct keys that share a bucket are both kept, each with its own
/// value, once both have been inserted.
pub proof fn lemma_colliding_keys_kept<V>(
    m: Map<Seq<char>, V>,
    capacity: nat,
    k1: Seq<char>,
    v1: V,
    k2: Seq<char>,
    v2: V,
)
    requires
        capacity > 0,
        k1 != k2,
        bucket_of(k1, capacity) == bucket_of(k2, capacity),
    ensures
        apply_inserts(m, seq![(k1, v1), (k2, v2)]).contains_key(k1),
        apply_inserts(m, seq![(k1, v1), (k2, v2)])[k1] == v1,
        apply_inserts(m, seq![(k1, v1), (k2, v2)]).contains_key(k2),
        apply_inserts(m, seq![(k1, v1), (k2, v2)])[k2] == v2,
{
    let ops = seq![(k1, v1), (k2, v2)];
    assert(ops.drop_last().drop_last() =~= Seq::<(Seq<char>, V)>::empty());
    assert(ops.drop_last() =~= seq![(k1, v1)]);
    assert(apply_inserts(m, ops.drop_last().drop_last()) == m);
    assert(apply_inserts(m, ops.drop_last()) == m.insert(k1, v1));
    assert(apply_inserts(m, ops) == m.insert(k1, v1).insert(k2, v2));
}

impl<V> MyHashMap<V> {
    /// A well-formed map holds each key at most once over all its buckets.
    pub proof fn lemma_key_held_once(self, k: Seq<char>)
        requires
            self.wf(),
        ensures
            forall|b1: int, i1: int, b2: int, i2: int|
                0 <= b1 < self.capacity() && 0 <= i1 < self.bucket(b1).len() && 0 <= b2
                    < self.capacity() && 0 <= i2 < self.bucket(b2).len() && #[trigger] self.bucket(
                    b1,
                )[i1].0 == k && #[trigger] self.bucket(b2)[i2].0 == k ==> b1 == b2 && i1 == i2,
    {
    }

    /// A well-formed map has at least one bucket, so every key's bucket is a
    /// valid index; the map holds `k` exactly when an entry of that bucket has
    /// key `k`.
    pub proof fn lemma_contains_by_bucket(self, k: Seq<char>)
        requires
            self.wf(),
        ensures
            self.capacity() > 0,
            0 <= bucket_of(k, self.capacity()) < self.capacity(),
            self@.contains_key(k) <==> exists|i: int|
                0 <= i < self.bucket(bucket_of(k, self.capacity())).len() && #[trigger] self.bucket(
                    bucket_of(k, self.capacity()),
                )[i].0 == k,
    {
        let s = self.bucket(bucket_of(k, self.capacity()));
        lemma_find_key(s, k);
        if let Some(j) = find_key(s, k) {
            assert(s[j as int].0 == k);
        }
    }

    /// Every key that the map holds sits, with its value, in the bucket that
    /// its hash selects, and in no other bucket.
    pub proof fn lemma_bucket_consistency(self, k: Seq<char>)
        requires
            self.wf(),
            self@.contains_key(k),
        ensures
            exists|i: int|
                0 <= i < self.bucket(bucket_of(k, self.capacity())).len() && #[trigger] self.bucket(
                    bucket_of(k, self.capacity()),
                )[i] == (k, self@[k]),
            forall|b: int, i: int|
                0 <= b < self.capacity() && 0 <= i < self.bucket(b).len() && #[trigger] self.bucket(
                    b,
                )[i].0 == k ==> b == bucket_of(k, self.capacity()),
    {
        let s = self.bucket(bucket_of(k, self.capacity()));
        lemma_find_key(s, k);
        let j = find_key(s, k).unwrap() as int;
        assert(s[j] == (k, self@[k]));
    }
}

} // verus!
