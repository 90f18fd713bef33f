//! Singly linked chains of entries, the content of one bucket.
use vstd::prelude::*;

verus! {

/// The first position of `s` whose key is `k`, if any.
pub open spec fn find_key<V>(s: Seq<(Seq<char>, V)>, k: Seq<char>) -> Option<nat>
    decreases s.len(),
{
    if s.len() == 0 {
        None
    } else if s[0].0 == k {
        Some(0)
    } else {
        match find_key(s.drop_first(), k) {
            Some(j) => Some(j + 1),
            None => None,
        }
    }
}

/// The value of the first entry of `s` whose key is `k`, if any.
pub open spec fn chain_lookup<V>(s: Seq<(Seq<char>, V)>, k: Seq<char>) -> Option<V> {
    match find_key(s, k) {
        Some(j) => Some(s[j as int].1),
        None => None,
    }
}

/// `s` after an upsert of `(k, v)`: the value of the first entry with key `k`
/// is overwritten, or else a new entry is appended at the tail.
pub open spec fn chain_upsert<V>(s: Seq<(Seq<char>, V)>, k: Seq<char>, v: V) -> Seq<(Seq<char>, V)> {
    match find_key(s, k) {
        Some(j) => s.update(j as int, (k, v)),
        None => s.push((k, v)),
    }
}

/// No two entries of `s` share a key.
pub open spec fn keys_distinct<V>(s: Seq<(Seq<char>, V)>) -> bool {
    forall|i: int, j: int|
        0 <= i < s.len() && 0 <= j < s.len() && i != j ==> #[trigger] s[i].0 != #[trigger] s[j].0
}

/// `find_key` returns the first position that holds the key, and `None` only
/// where no position does.
pub proof fn lemma_find_key<V>(s: Seq<(Seq<char>, V)>, k: Seq<char>)
    ensures
        match find_key(s, k) {
            Some(j) => j < s.len() && s[j as int].0 == k && forall|i: int|
                0 <= i < j ==> #[trigger] s[i].0 != k,
            None => forall|i: int| 0 <= i < s.len() ==> #[trigger] s[i].0 != k,
        },
    decreases s.len(),
{
    if s.len() > 0 && s[0].0 != k {
        lemma_find_key(s.drop_first(), k);
        assert forall|i: int| 1 <= i < s.len() implies s[i].0 == s.drop_first()[i - 1].0 by {}
    }
}

/// What an upsert does to a chain: keys stay where they were, a new entry
/// comes only at the tail and only for a new key, keys stay distinct, and a
/// lookup afterwards finds the new value under `k` and the old ones elsewhere.
pub proof fn lemma_chain_upsert<V>(s: Seq<(Seq<char>, V)>, k: Seq<char>, v: V)
    ensures
        ({
            let u = chain_upsert(s, k, v);
            &&& u.len() == s.len() || (u.len() == s.len() + 1 && find_key(s, k).is_none())
            &&& forall|i: int| 0 <= i < s.len() ==> #[trigger] u[i].0 == s[i].0
            &&& u.len() == s.len() + 1 ==> u[s.len() as int].0 == k
            &&& keys_distinct(s) ==> keys_distinct(u)
            &&& forall|k2: Seq<char>| #[trigger]
                chain_lookup(u, k2) == if k2 == k {
                    Some(v)
                } else {
                    chain_lookup(s, k2)
                }
        }),
{
    let u = chain_upsert(s, k, v);
    lemma_find_key(s, k);
    assert forall|k2: Seq<char>| #[trigger]
        chain_lookup(u, k2) == if k2 == k {
            Some(v)
        } else {
            chain_lookup(s, k2)
        } by {
        lemma_find_key(s, k2);
        lemma_find_key(u, k2);
        if find_key(u, k2).is_some() && find_key(s, k2).is_some() {
            let a = find_key(u, k2).unwrap() as int;
            let b = find_key(s, k2).unwrap() as int;
            if a < b {
                assert(u[a].0 == s[a].0);
            }
            if b < a {
                assert(u[b].0 == s[b].0);
            }
        }
        if find_key(u, k2).is_some() && find_key(s, k2).is_none() && k2 != k {
            let a = find_key(u, k2).unwrap() as int;
            if a < s.len() {
                assert(u[a].0 == s[a].0);
            }
        }
        if find_key(u, k2).is_none() && find_key(s, k2).is_some() {
            let b = find_key(s, k2).unwrap() as int;
            assert(u[b].0 == s[b].0);
        }
        if find_key(u, k2).is_none() && k2 == k {
            match find_key(s, k) {
                Some(j) => assert(u[j as int].0 == k),
                None => assert(u[s.len() as int].0 == k),
            }
        }
    }
}

/// One entry of a chain, owning the rest of the chain.
#[derive(Debug)]
pub struct Node<V> {
    key: String,
    val: V,
    next: Option<Box<Node<V>>>,
}

impl<V> Node<V> {
    /// The entries of the chain that starts here, in chain order.
    pub closed spec fn entries(self) -> Seq<(Seq<char>, V)>
        decreases self,
    {
        seq![(self.key@, self.val)] + match self.next {
            Some(n) => n.entries(),
            None => Seq::empty(),
        }
    }

    /// A chain holds at least the entry of its head.
    pub proof fn lemma_entries_nonempty(self)
        ensures
            self.entries().len() > 0,
    {
    }
}

impl<V: Copy> Node<V> {
    /// A chain of the one entry `(key, val)`.
    pub fn new(key: &String, val: &V) -> (r: Self)
        ensures
            r.entries() == seq![(key@, *val)],
    {
        let r = Node { key: key.clone(), val: *val, next: None };
        assert(r.entries() =~= seq![(key@, *val)]);
        r
    }

    /// The value of this entry, the first of its chain.
    pub fn value(&self) -> (r: &V)
        ensures
            *r == self.entries()[0].1,
    {
        &self.val
    }

    /// Overwrites the value of the first entry with key `key`, or appends
    /// `(key, val)` at the tail when the chain holds no such key.
    pub fn upsert(&mut self, key: &String, val: &V)
        ensures
            final(self).entries() == chain_upsert(old(self).entries(), key@, *val),
        decreases old(self).entries().len(),
    {
        let ghost s = self.entries();
        if self.key == *key {
            self.val = *val;
            assert(self.entries() =~= s.update(0, (key@, *val)));
        } else {
            let ghost t = s.drop_first();
            assert(s =~= seq![s[0]] + t);
            match &mut self.next {
                Some(next) => {
                    assert(t == next.entries());
                    next.upsert(key, val);
                },
                None => {
                    assert(t =~= Seq::<(Seq<char>, V)>::empty());
                    self.next = Some(Box::new(Node::new(key, val)));
                },
            }
            proof {
                lemma_find_key(t, key@);
                assert(self.entries() =~= seq![s[0]] + chain_upsert(t, key@, *val));
                match find_key(t, key@) {
                    Some(j) => assert(self.entries() =~= s.update(j as int + 1, (key@, *val))),
                    None => assert(self.entries() =~= s.push((key@, *val))),
                }
            }
        }
    }

    /// The node of the first entry with key `key`, if any; the chain that
    /// starts there is the rest of this chain from that entry on.
    pub fn search_by_key(&self, key: &String) -> (r: Option<&Node<V>>)
        ensures
            match find_key(self.entries(), key@) {
                Some(j) => r.is_some() && r.unwrap().entries() == self.entries().subrange(
                    j as int,
                    self.entries().len() as int,
                ),
                None => r.is_none(),
            },
        decreases self.entries().len(),
    {
        let ghost s = self.entries();
        if self.key != *key {
            let ghost t = s.drop_first();
            match &self.next {
                Some(next) => {
                    assert(t == next.entries());
                    let r = next.search_by_key(key);
                    proof {
                        lemma_find_key(t, key@);
                        if let Some(j) = find_key(t, key@) {
                            assert(t.subrange(j as int, t.len() as int) =~= s.subrange(
                                j as int + 1,
                                s.len() as int,
                            ));
                        }
                    }
                    return r;
                },
                None => {
                    assert(t =~= Seq::<(Seq<char>, V)>::empty());
                    return None;
                },
            }
        }
        assert(s.subrange(0, s.len() as int) =~= s);
        Some(self)
    }
}

} // verus!
