//! The map itself.
use vstd::prelude::*;
use crate::key::Key;
use crate::model::value_at;
use crate::sponge::Sponge;
use crate::table::{Bucket, Entry, Table};

verus! {

/// A hash map laid out as a trie of 256-slot tables.
///
/// The map stands for the mathematical map `self@` from the identifying bytes
/// of a key to the key's value. It grows by turning a leaf into a table when
/// a second key arrives at the leaf's slot; it never moves what it holds, and
/// it never takes a table out again.
pub struct NestedMap<K: Key, V> {
    /// The root table of the hash map.
    root: Table<K, V>,
}

impl<K: Key, V> View for NestedMap<K, V> {
    type V = Map<Seq<u8>, V>;

    closed spec fn view(&self) -> Map<Seq<u8>, V> {
        self.root.model(0)
    }
}

impl<K: Key, V> Default for NestedMap<K, V> {
    /// A map without entries.
    fn default() -> (map: Self)
        ensures
            map.wf(),
            map@ == Map::<Seq<u8>, V>::empty(),
            forall|path: Seq<u8>| !map.has_branch(path),
    {
        Self::new()
    }
}

impl<K: Key, V> NestedMap<K, V> {
    /// The map is sound: every leaf lies where the stream of its own key
    /// leads from the root, and every leaf has a value.
    pub closed spec fn wf(&self) -> bool {
        &&& self.root.wf(Seq::empty())
        &&& forall|seed: Seq<u8>| #[trigger]
            self.root.holds(seed, 0) ==> self.root.get(seed, 0) is Some
    }

    /// Whether a table hangs at the end of the slots that `path` names one
    /// after the other, from the root down.
    pub closed spec fn has_branch(&self, path: Seq<u8>) -> bool {
        self.root.has_branch(path)
    }

    /// How many leaves the trie holds for the key with the bytes `seed`.
    pub closed spec fn leaves(&self, seed: Seq<u8>) -> nat {
        self.root.leaves(seed)
    }

    /// A sound map holds one leaf for each key that it maps, and none for
    /// any other key.
    pub proof fn lemma_one_leaf_per_key(&self, seed: Seq<u8>)
        requires
            self.wf(),
        ensures
            self.leaves(seed) == if self@.contains_key(seed) {
                1nat
            } else {
                0nat
            },
    {
        self.root.lemma_one_leaf(Seq::empty(), seed);
        assert(self.root.holds(seed, 0) ==> self.root.get(seed, 0) is Some);
    }

    /// A map without entries.
    pub fn new() -> (map: Self)
        ensures
            map.wf(),
            map@ == Map::<Seq<u8>, V>::empty(),
            forall|path: Seq<u8>| !map.has_branch(path),
    {
        let root: Table<K, V> = Table::default();
        let map = Self { root };
        assert(map@ =~= Map::<Seq<u8>, V>::empty());
        map
    }

    /// Lookups a key.
    pub fn lookup(&self, key: &K) -> (value: Option<&V>)
        requires
            self.wf(),
        ensures
            value == match value_at(self@, key.ident()) {
                Some(v) => Some(&v),
                None => None,
            },
    {
        let sponge: Sponge = Sponge::new(key);
        assert(sponge.emitted() =~= Seq::empty());
        self.root.lookup(key, sponge)
    }

    /// Insert a key with a certain value into the map.
    ///
    /// Hands back the value that the key had before, if it had one.
    pub fn insert(&mut self, key: K, val: V) -> (displaced: Option<V>)
        requires
            old(self).wf(),
        ensures
            final(self).wf(),
            final(self)@ == old(self)@.insert(key.ident(), val),
            displaced == value_at(old(self)@, key.ident()),
            final(self).leaves(key.ident()) == 1,
            forall|path: Seq<u8>| #[trigger]
                old(self).has_branch(path) ==> final(self).has_branch(path),
    {
        let mut sponge: Sponge = Sponge::new(&key);
        assert(sponge.emitted() =~= Seq::empty());
        let ghost leaf: Entry<K, V> = Entry { key, value: Some(val) };
        let entry: Box<Bucket<K, V>> = Box::new(Bucket::Leaf(Entry { key, value: Some(val) }));
        let displaced: Option<V> = self.root.insert(entry, &mut sponge);
        proof {
            self.root.lemma_insert_model(&old(self).root, Seq::empty(), leaf);
            assert forall|seed: Seq<u8>| #[trigger] self.root.holds(seed, 0) implies self.root.get(
                seed,
                0,
            ) is Some by {
                if seed != leaf.key.ident() {
                    assert(self.root.leaf_of(seed, 0) == old(self).root.leaf_of(seed, 0));
                    assert(old(self).root.holds(seed, 0));
                }
            }
            self.lemma_one_leaf_per_key(leaf.key.ident());
        }
        displaced
    }

    /// Remove a key from the hash map.
    ///
    /// If any, the removed value is returned.
    pub fn delete(&mut self, key: &K) -> (removed: Result<V, ()>)
        requires
            old(self).wf(),
        ensures
            final(self).wf(),
            final(self)@ == old(self)@.remove(key.ident()),
            removed == match value_at(old(self)@, key.ident()) {
                Some(v) => Ok::<V, ()>(v),
                None => Err(()),
            },
            final(self).leaves(key.ident()) == 0,
            forall|path: Seq<u8>| #[trigger]
                old(self).has_branch(path) == final(self).has_branch(path),
    {
        let mut sponge: Sponge = Sponge::new(key);
        assert(sponge.emitted() =~= Seq::empty());
        let removed: Result<V, ()> = self.root.delete(key, &mut sponge);
        proof {
            self.root.lemma_delete_model(&old(self).root, Seq::empty(), key.ident());
            assert forall|seed: Seq<u8>| #[trigger] self.root.holds(seed, 0) implies self.root.get(
                seed,
                0,
            ) is Some by {
                if seed != key.ident() {
                    assert(self.root.leaf_of(seed, 0) == old(self).root.leaf_of(seed, 0));
                    assert(old(self).root.holds(seed, 0));
                }
            }
            self.lemma_one_leaf_per_key(key.ident());
        }
        removed
    }
}

} // verus!
