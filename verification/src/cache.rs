//! The executable cache: a fixed-capacity key-value store with
//! least-recently-used eviction.

use vstd::prelude::*;

use crate::model::{
    distinct_keys, has_key, key_index, key_set, keys_of, lemma_index_matches_chain,
    lemma_key_index, lemma_prepend_distinct, lemma_requeue_distinct, step, Op,
};
use vstd::assert_seqs_equal;

verus! {

/// One cache entry. Its place in the recency chain is its position in the
/// cache's entry vector, so the entry itself carries only its key and value.
struct Node<T> {
    key: u64,
    value: T,
}

/// A fixed-capacity key-value cache with least-recently-used eviction.
///
/// The entries stand in recency order: the first entry is the head of the
/// chain (most recently touched), the last is the tail (least recently
/// touched, next to be evicted). The capacity is fixed at construction and
/// must be at least one. Keys are 64-bit integers, so that the contracts
/// can speak of key equality directly; values may be of any type that can
/// be cloned on lookup.
pub struct LruCache<T> {
    capacity: usize,
    entries: Vec<Node<T>>,
}

/// The chain a vector of nodes stands for: its `(key, value)` pairs in order.
spec fn view_of<T>(entries: Seq<Node<T>>) -> Seq<(u64, T)> {
    entries.map_values(|n: Node<T>| (n.key, n.value))
}

/// Pointwise reading of the chain a vector of nodes stands for.
proof fn lemma_view_index<T>(entries: Seq<Node<T>>)
    ensures
        view_of(entries).len() == entries.len(),
        forall|i: int|
            0 <= i < entries.len() ==> #[trigger] view_of(entries)[i] == (
            entries[i].key,
            entries[i].value,
            ),
{
}

/// Detaching a node commutes with reading the chain.
proof fn lemma_view_remove<T>(entries: Seq<Node<T>>, i: int)
    requires
        0 <= i < entries.len(),
    ensures
        view_of(entries.remove(i)) == view_of(entries).remove(i),
{
    entries.remove_ensures(i);
    view_of(entries).remove_ensures(i);
    assert_seqs_equal!(view_of(entries.remove(i)) == view_of(entries).remove(i), j => {
        if j < i {
            assert(entries.remove(i)[j] == entries[j]);
        } else {
            assert(entries.remove(i)[j] == entries[j + 1]);
        }
    });
}

/// Attaching a node at the head commutes with reading the chain.
proof fn lemma_view_prepend<T>(entries: Seq<Node<T>>, n: Node<T>)
    ensures
        view_of(entries.insert(0, n)) == seq![(n.key, n.value)] + view_of(entries),
{
    entries.insert_ensures(0, n);
    assert_seqs_equal!(
        view_of(entries.insert(0, n)) == seq![(n.key, n.value)] + view_of(entries),
        j => {
            if j > 0 {
                assert(entries.insert(0, n)[(j - 1) + 1] == entries[j - 1]);
            }
        }
    );
}

impl<T> View for LruCache<T> {
    type V = Seq<(u64, T)>;

    /// The recency chain, head (most recently touched) first.
    closed spec fn view(&self) -> Seq<(u64, T)> {
        view_of(self.entries@)
    }
}

impl<T> LruCache<T> {
    /// The capacity the cache was constructed with.
    pub closed spec fn capacity(&self) -> usize {
        self.capacity
    }

    /// The cache's invariant: the chain's keys are distinct, the chain is
    /// no longer than the capacity, and the capacity is positive.
    pub open spec fn wf(&self) -> bool {
        &&& distinct_keys(self@)
        &&& self@.len() <= self.capacity()
        &&& 1 <= self.capacity()
    }

    /// Constructs an empty cache. The capacity must be positive: a cache
    /// of capacity zero is rejected here rather than given a meaning.
    pub fn new(capacity: usize) -> (c: Self)
        requires
            1 <= capacity,
        ensures
            c.wf(),
            c.capacity() == capacity,
            c@ == Seq::<(u64, T)>::empty(),
    {
        let c = LruCache { capacity, entries: Vec::new() };
        proof {
            assert(c@ =~= Seq::<(u64, T)>::empty());
        }
        c
    }

    /// Walks the chain looking for `key`; returns its position, if any.
    fn find(&self, key: u64) -> (r: Option<usize>)
        ensures
            match r {
                Some(i) => i < self@.len() && self@[i as int].0 == key,
                None => !has_key(self@, key),
            },
    {
        proof {
            lemma_view_index(self.entries@);
        }
        let mut i: usize = 0;
        while i < self.entries.len()
            invariant
                i <= self.entries@.len(),
                forall|j: int| 0 <= j < i ==> (#[trigger] self.entries@[j]).key != key,
            decreases self.entries@.len() - i,
        {
            if self.entries[i].key == key {
                return Some(i);
            }
            i = i + 1;
        }
        None
    }

    /// Detaches the node at chain position `i` and hands it back; its
    /// neighbours close ranks, so the chain shrinks by exactly that node.
    fn detach(&mut self, i: usize) -> (n: Node<T>)
        requires
            i < old(self)@.len(),
        ensures
            (n.key, n.value) == old(self)@[i as int],
            final(self)@ == old(self)@.remove(i as int),
            final(self).capacity() == old(self).capacity(),
    {
        let ghost e0 = self.entries@;
        proof {
            lemma_view_index(e0);
        }
        let n = self.entries.remove(i);
        proof {
            lemma_view_remove(e0, i as int);
        }
        n
    }

    /// Attaches a detached node at the head of the chain: it becomes the
    /// most recently touched entry, and every other entry moves one place
    /// toward the tail.
    fn attach_to_head(&mut self, n: Node<T>)
        ensures
            final(self)@ == seq![(n.key, n.value)] + old(self)@,
            final(self).capacity() == old(self).capacity(),
    {
        let ghost e0 = self.entries@;
        let ghost gn = n;
        self.entries.insert(0, n);
        proof {
            lemma_view_prepend(e0, gn);
        }
    }

    /// Looks `key` up. When it is absent, returns `None` and leaves the
    /// cache untouched. When it is present, promotes its entry to the head
    /// of the chain — the stored value is unchanged — and returns a copy of
    /// that value.
    pub fn get(&mut self, key: &u64) -> (r: Option<T>) where T: Clone
        requires
            old(self).wf(),
        ensures
            final(self).wf(),
            final(self).capacity() == old(self).capacity(),
            !has_key(old(self)@, *key) ==> r is None && final(self)@ == old(self)@,
            has_key(old(self)@, *key) ==> ({
                let j = key_index(old(self)@, *key);
                &&& r is Some
                &&& cloned(old(self)@[j].1, r->Some_0)
                &&& final(self)@ == seq![old(self)@[j]] + old(self)@.remove(j)
            }),
            final(self)@ == step(
                old(self)@,
                old(self).capacity() as nat,
                Op::Get { key: *key },
            ),
    {
        let ghost s0 = self@;
        match self.find(*key) {
            None => None,
            Some(i) => {
                proof {
                    lemma_key_index(s0, *key, i as int);
                }
                let n = self.detach(i);
                let v = n.value.clone();
                let ghost gn = n;
                self.attach_to_head(n);
                proof {
                    assert(gn.value == s0[i as int].1);
                    lemma_requeue_distinct(s0, i as int, s0[i as int]);
                }
                Some(v)
            },
        }
    }

    /// Stores `value` under `key`. A key already present keeps its entry:
    /// the value is overwritten and the entry is promoted to the head, so
    /// the cache does not grow. A fresh key gets a new entry at the head;
    /// if that pushes the cache over its capacity, the tail entry — the
    /// least recently touched one — is evicted.
    pub fn put(&mut self, key: u64, value: T)
        requires
            old(self).wf(),
        ensures
            final(self).wf(),
            final(self).capacity() == old(self).capacity(),
            has_key(old(self)@, key) ==> final(self)@ == seq![(key, value)]
                + old(self)@.remove(key_index(old(self)@, key)),
            !has_key(old(self)@, key) && old(self)@.len() < old(self).capacity()
                ==> final(self)@ == seq![(key, value)] + old(self)@,
            !has_key(old(self)@, key) && old(self)@.len() == old(self).capacity()
                ==> final(self)@ == seq![(key, value)] + old(self)@.drop_last(),
            final(self)@ == step(
                old(self)@,
                old(self).capacity() as nat,
                Op::Put { key, value },
            ),
    {
        let ghost s0 = self@;
        match self.find(key) {
            Some(i) => {
                proof {
                    lemma_key_index(s0, key, i as int);
                }
                let mut n = self.detach(i);
                n.value = value;
                self.attach_to_head(n);
                proof {
                    lemma_requeue_distinct(s0, i as int, (key, value));
                }
            },
            None => {
                self.attach_to_head(Node { key, value });
                if self.entries.len() > self.capacity {
                    let ghost s1 = self@;
                    let last = self.entries.len() - 1;
                    let _ = self.detach(last);
                    proof {
                        s1.remove_ensures(last as int);
                        assert_seqs_equal!(self@ == seq![(key, value)] + s0.drop_last());
                        assert forall|i2: int| 0 <= i2 < s0.drop_last().len()
                            implies (#[trigger] s0.drop_last()[i2]).0 != key by {
                            assert(s0[i2].0 != key);
                        }
                        lemma_prepend_distinct(s0.drop_last(), (key, value));
                    }
                } else {
                    proof {
                        lemma_prepend_distinct(s0, (key, value));
                    }
                }
            },
        }
    }

    /// The invariant every operation maintains: the chain never outgrows
    /// the capacity, its keys are pairwise distinct, and the key index —
    /// the set of stored keys — holds exactly one key per chain entry, so
    /// index and chain always have the same size.
    pub proof fn lemma_invariant(&self)
        requires
            self.wf(),
        ensures
            self@.len() <= self.capacity(),
            keys_of(self@).no_duplicates(),
            key_set(self@).len() == self@.len(),
            forall|k: u64| key_set(self@).contains(k) <==> has_key(self@, k),
    {
        lemma_index_matches_chain(self@);
    }
}

} // verus!
