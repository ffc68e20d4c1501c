//! The nodes of the trie.
use vstd::prelude::*;
use crate::key::Key;
use crate::protocol::{DeleteStep, Found, InsertStep, LookupStep};
use crate::sponge::{follows, horizon, lemma_streams_part, stream, stream_prefix, Sponge};

verus! {

/// How many slots a table has: one for each value of a stream byte.
pub const FANOUT: usize = 256;

/// A key with its value.
pub struct Entry<K, V> {
    pub key: K,
    pub value: Option<V>,
}

/// What a slot of a table points to.
pub enum Bucket<K, V> {
    /// An entry of the map.
    Leaf(Entry<K, V>),
    /// A table one level further down.
    Branch(Table<K, V>),
}

/// An inner node of the trie: one slot for each value of a stream byte, each
/// of them empty or the owner of a bucket.
pub struct Table<K, V> {
    /// The buckets in the table.
    buckets: Vec<Option<Box<Bucket<K, V>>>>,
}

impl<K: Key, V> Bucket<K, V> {
    /// The key of a leaf.
    pub fn get_key(&self) -> (key: Option<&K>)
        ensures
            key == match *self {
                Bucket::Leaf(entry) => Some(&entry.key),
                Bucket::Branch(_) => None,
            },
    {
        match self {
            Bucket::Leaf(entry) => Some(&entry.key),
            _ => None,
        }
    }

    /// The value of a leaf that has one.
    pub fn into_value(self) -> (value: Result<V, ()>)
        ensures
            value == match self {
                Bucket::Leaf(entry) => match entry.value {
                    Some(v) => Ok::<V, ()>(v),
                    None => Err(()),
                },
                Bucket::Branch(_) => Err(()),
            },
    {
        match self {
            Bucket::Leaf(entry) => match entry.value {
                None => Err(()),
                Some(v) => Ok(v),
            },
            _ => Err(()),
        }
    }
}

impl<K: Key, V> Table<K, V> {
    /// How many slots the table holds.
    pub closed spec fn width(&self) -> nat {
        self.buckets@.len()
    }

    /// What slot `i` holds; nothing where the table has no such slot.
    pub closed spec fn slot(&self, i: int) -> Option<Bucket<K, V>> {
        if 0 <= i < self.buckets@.len() {
            match self.buckets@[i] {
                Some(bucket) => Some(*bucket),
                None => None,
            }
        } else {
            None
        }
    }

    /// A table that hangs in a slot is a smaller thing than the table whose
    /// slot it is.
    pub proof fn lemma_below_is_smaller(&self, i: int)
        requires
            self.slot(i) is Some,
            self.slot(i)->0 is Branch,
        ensures
            decreases_to!(self => self.slot(i)->0->Branch_0),
    {
    }

    /// The table is a sound node for the place that the stream bytes `prefix`
    /// lead to: it has all its slots, each leaf in it lies where the stream of
    /// its own key leads, and the tables below it are sound in turn.
    pub open spec fn wf(&self, prefix: Seq<u8>) -> bool
        decreases self,
    {
        &&& self.width() == FANOUT
        &&& prefix.len() < u128::MAX
        &&& forall|i: int|
            0 <= i < FANOUT ==> match #[trigger] self.slot(i) {
                None => true,
                Some(Bucket::Leaf(entry)) => stream_prefix(entry.key.ident(), prefix.len() + 1)
                    =~= prefix.push(i as u8),
                Some(Bucket::Branch(table)) => table.wf(prefix.push(i as u8)),
            }
    }

    /// The entry that a descent along the stream of the key `seed` ends at,
    /// when it enters this table at stream position `depth`.
    pub open spec fn reach(&self, seed: Seq<u8>, depth: nat) -> Option<Entry<K, V>>
        decreases self,
    {
        match self.slot(stream(seed, depth) as int) {
            None => None,
            Some(Bucket::Leaf(entry)) => Some(entry),
            Some(Bucket::Branch(table)) => table.reach(seed, depth + 1),
        }
    }

    /// The leaf that the table keeps for the key `seed`: the entry that a
    /// descent for the key ends at, if that entry is the key's own.
    pub open spec fn leaf_of(&self, seed: Seq<u8>, depth: nat) -> Option<Entry<K, V>> {
        match self.reach(seed, depth) {
            Some(entry) => if entry.key.ident() == seed {
                Some(entry)
            } else {
                None
            },
            None => None,
        }
    }

    /// The value that the table holds for the key `seed`.
    pub open spec fn get(&self, seed: Seq<u8>, depth: nat) -> Option<V> {
        match self.leaf_of(seed, depth) {
            Some(entry) => entry.value,
            None => None,
        }
    }

    /// Whether the table keeps a leaf for the key `seed`.
    pub open spec fn holds(&self, seed: Seq<u8>, depth: nat) -> bool {
        self.leaf_of(seed, depth) is Some
    }

    /// The map that the table stands for, when descents enter it at stream
    /// position `depth`: each key that has a leaf with a value, with that
    /// value.
    pub open spec fn model(&self, depth: nat) -> Map<Seq<u8>, V> {
        Map::new(
            |seed: Seq<u8>| self.get(seed, depth) is Some,
            |seed: Seq<u8>| self.get(seed, depth)->0,
        )
    }

    /// Whether a table hangs at the end of the slots that `path` names one
    /// after the other, from this table down.
    pub open spec fn has_branch(&self, path: Seq<u8>) -> bool
        decreases path.len(),
    {
        path.len() > 0 && match self.slot(path[0] as int) {
            Some(Bucket::Branch(table)) => path.len() == 1 || table.has_branch(path.drop_first()),
            _ => false,
        }
    }

    /// Whether this table and `other` hold the same in every slot but,
    /// possibly, slot `index`.
    pub open spec fn differs_only_at(&self, other: &Self, index: int) -> bool {
        &&& self.width() == other.width()
        &&& forall|j: int| j != index ==> #[trigger] self.slot(j) == other.slot(j)
    }

    /// This table holds the two leaves and nothing else, seen from the place
    /// that the stream bytes `prefix` lead to: it is sound, a descent ends at
    /// a leaf of its own key for the keys of the two leaves only, and tables
    /// hang below it exactly along the common run of the two keys' streams.
    pub open spec fn is_pair_of(&self, prefix: Seq<u8>, first: Entry<K, V>, second: Entry<K, V>) -> bool {
        &&& self.wf(prefix)
        &&& forall|path: Seq<u8>| #[trigger]
            self.has_branch(path) == (path.len() > 0 && follows(
                first.key.ident(),
                prefix.len(),
                path,
            ) && follows(second.key.ident(), prefix.len(), path))
        &&& forall|seed: Seq<u8>| #[trigger]
            self.leaf_of(seed, prefix.len()) == if seed == first.key.ident() {
                Some(first)
            } else if seed == second.key.ident() {
                Some(second)
            } else {
                None
            }
    }

    /// Whether putting in a leaf of the key `seed` hangs a new table at the
    /// end of `path`: the descent for the key ends at the leaf of another
    /// key, and `path` leads to the slot of that leaf or beyond it, as far as
    /// the streams of the two keys run together.
    pub open spec fn splits_at(&self, seed: Seq<u8>, depth: nat, path: Seq<u8>) -> bool {
        &&& self.reach(seed, depth) matches Some(resident) && resident.key.ident() != seed
            && follows(resident.key.ident(), depth, path)
        &&& path.len() >= self.steps(seed, depth)
        &&& follows(seed, depth, path)
    }

    /// This table is `before` with `leaf` put in, both seen from the place
    /// that the stream bytes `prefix` lead to: the table is sound, a descent
    /// for the leaf's key ends at the leaf, every other key has the
    /// leaf it had, and tables hang where they hung before and, if the leaf
    /// met the leaf of another key, along the common run of the two keys'
    /// streams from that leaf's slot on.
    pub open spec fn is_insert_of(&self, before: &Self, prefix: Seq<u8>, leaf: Entry<K, V>) -> bool {
        &&& self.wf(prefix)
        &&& self.leaf_of(leaf.key.ident(), prefix.len()) == Some(leaf)
        &&& forall|seed: Seq<u8>|
            seed != leaf.key.ident() ==> #[trigger] self.leaf_of(seed, prefix.len()) == before.leaf_of(
                seed,
                prefix.len(),
            )
        &&& forall|path: Seq<u8>| #[trigger]
            self.has_branch(path) == (before.has_branch(path) || before.splits_at(
                leaf.key.ident(),
                prefix.len(),
                path,
            ))
    }

    /// This table is `before` with the leaf of the key `seed` taken out, both
    /// seen from the place that the stream bytes `prefix` lead to: the table
    /// is sound, the key has no leaf, every other key has the leaf it had,
    /// tables hang exactly where they hung, and in a table that had no leaf
    /// of the key every descent ends where it ended.
    pub open spec fn is_delete_of(&self, before: &Self, prefix: Seq<u8>, seed: Seq<u8>) -> bool {
        &&& self.wf(prefix)
        &&& self.leaf_of(seed, prefix.len()) is None
        &&& forall|other: Seq<u8>|
            other != seed ==> #[trigger] self.leaf_of(other, prefix.len()) == before.leaf_of(
                other,
                prefix.len(),
            )
        &&& forall|path: Seq<u8>| #[trigger] before.has_branch(path) == self.has_branch(path)
        &&& !before.holds(seed, prefix.len()) ==> forall|other: Seq<u8>| #[trigger]
            self.reach(other, prefix.len()) == before.reach(other, prefix.len())
    }

    /// How many leaves of the key `seed` lie in the first `n` slots of this
    /// table and in the tables below them.
    pub open spec fn leaves_below(&self, seed: Seq<u8>, n: nat) -> nat
        decreases self, n,
    {
        if n == 0 {
            0
        } else {
            self.leaves_below(seed, (n - 1) as nat) + match self.slot(n - 1) {
                None => 0nat,
                Some(Bucket::Leaf(entry)) => if entry.key.ident() == seed {
                    1nat
                } else {
                    0nat
                },
                Some(Bucket::Branch(table)) => table.leaves_below(seed, FANOUT as nat),
            }
        }
    }

    /// How many leaves of the key `seed` lie in this table and below it.
    pub open spec fn leaves(&self, seed: Seq<u8>) -> nat {
        self.leaves_below(seed, FANOUT as nat)
    }

    /// How a slot looks to an operation on the key `seed`.
    pub open spec fn sight(&self, index: int, seed: Seq<u8>) -> Found {
        Found::of(self.slot(index), seed)
    }

    /// How many bytes a descent for the key `seed` squeezes out of its sponge
    /// from this table on.
    pub open spec fn steps(&self, seed: Seq<u8>, depth: nat) -> nat
        decreases self,
    {
        match self.slot(stream(seed, depth) as int) {
            Some(Bucket::Branch(table)) => 1 + table.steps(seed, depth + 1),
            _ => 1,
        }
    }
}

/// The bucket behind an owned pointer, if there is one.
pub open spec fn held<K, V>(pointer: Option<Box<Bucket<K, V>>>) -> Option<Bucket<K, V>> {
    match pointer {
        Some(bucket) => Some(*bucket),
        None => None,
    }
}

impl<K: Key, V> Table<K, V> {
    /// Puts `bucket` into slot `index` and hands back what the slot held.
    fn exchange(&mut self, index: usize, bucket: Option<Box<Bucket<K, V>>>) -> (before: Option<
        Box<Bucket<K, V>>,
    >)
        requires
            index < old(self).width(),
        ensures
            final(self).width() == old(self).width(),
            final(self).slot(index as int) == held(bucket),
            held(before) == old(self).slot(index as int),
            forall|j: int| j != index ==> final(self).slot(j) == old(self).slot(j),
    {
        let mut bucket = bucket;
        core::mem::swap(&mut self.buckets[index], &mut bucket);
        bucket
    }

    /// Create a table containing two particular entries.
    fn with_two_entries(
        entry1: Box<Bucket<K, V>>,
        sponge1: &mut Sponge,
        entry2: Box<Bucket<K, V>>,
        sponge2: &mut Sponge,
    ) -> (table: Self)
        requires
            *entry1 is Leaf,
            *entry2 is Leaf,
            old(sponge1).seed() == entry1->Leaf_0.key.ident(),
            old(sponge2).seed() == entry2->Leaf_0.key.ident(),
            old(sponge1).seed() != old(sponge2).seed(),
            old(sponge1).emitted() == old(sponge2).emitted(),
        ensures
            table.is_pair_of(old(sponge1).emitted(), entry1->Leaf_0, entry2->Leaf_0),
            final(sponge1).seed() == old(sponge1).seed(),
            final(sponge2).seed() == old(sponge2).seed(),
            final(sponge1).position() == old(sponge1).position() + table.steps(
                old(sponge1).seed(),
                old(sponge1).position(),
            ),
            final(sponge2).position() == final(sponge1).position(),
        decreases horizon(old(sponge1).seed(), old(sponge2).seed()) - old(sponge1).position(),
    {
        let ghost seed1: Seq<u8> = sponge1.seed();
        let ghost seed2: Seq<u8> = sponge2.seed();
        let ghost depth: nat = sponge1.position();
        let ghost prefix: Seq<u8> = sponge1.emitted();
        let ghost leaf1: Entry<K, V> = entry1->Leaf_0;
        let ghost leaf2: Entry<K, V> = entry2->Leaf_0;
        proof {
            assert(sponge2.emitted().len() == prefix.len());
            assert forall|i: nat| i < depth implies stream(seed1, i) == stream(seed2, i) by {
                assert(sponge1.emitted()[i as int] == sponge2.emitted()[i as int]);
            }
            lemma_streams_part(seed1, seed2, depth);
            use_type_invariant(&*sponge1);
            use_type_invariant(&*sponge2);
            sponge1.lemma_seed_fits();
            sponge2.lemma_seed_fits();
        }
        let mut table: Table<K, V> = Table::default();

        // Squeeze the two sponges.
        let index1: usize = sponge1.squeeze() as usize;
        let index2: usize = sponge2.squeeze() as usize;
        proof {
            Sponge::lemma_emitted_grows(seed1, depth);
            Sponge::lemma_emitted_grows(seed2, depth);
        }

        if index1 != index2 {
            // The sponges part here: each entry gets a slot of its own.
            let _ = table.exchange(index1, Some(entry1));
            let _ = table.exchange(index2, Some(entry2));
            proof {
                assert forall|seed: Seq<u8>| #[trigger]
                    table.leaf_of(seed, depth) == if seed == seed1 {
                        Some(leaf1)
                    } else if seed == seed2 {
                        Some(leaf2)
                    } else {
                        None
                    } by {
                    let at: int = stream(seed, depth) as int;
                    if at != index1 && at != index2 {
                        assert(table.slot(at) is None);
                    }
                }
                assert forall|path: Seq<u8>| #[trigger]
                    table.has_branch(path) == (path.len() > 0 && follows(seed1, depth, path)
                        && follows(seed2, depth, path)) by {
                    if path.len() > 0 {
                        let at: int = path[0] as int;
                        if at != index1 && at != index2 {
                            assert(table.slot(at) is None);
                        }
                    }
                }
            }
        } else {
            // Both keys lead to one slot, which must hold another table.
            let inner: Table<K, V> = Table::with_two_entries(entry1, sponge1, entry2, sponge2);
            let _ = table.exchange(index1, Some(Box::new(Bucket::Branch(inner))));
            proof {
                assert forall|seed: Seq<u8>| #[trigger]
                    table.leaf_of(seed, depth) == if seed == seed1 {
                        Some(leaf1)
                    } else if seed == seed2 {
                        Some(leaf2)
                    } else {
                        None
                    } by {
                    let at: int = stream(seed, depth) as int;
                    if at != index1 {
                        assert(table.slot(at) is None);
                    } else {
                        assert(table.leaf_of(seed, depth) == inner.leaf_of(seed, depth + 1));
                    }
                }
                assert forall|path: Seq<u8>| #[trigger]
                    table.has_branch(path) == (path.len() > 0 && follows(seed1, depth, path)
                        && follows(seed2, depth, path)) by {
                    if path.len() > 0 {
                        let at: int = path[0] as int;
                        let rest: Seq<u8> = path.drop_first();
                        if at != index1 {
                            assert(table.slot(at) is None);
                        } else if path.len() > 1 {
                            assert(inner.has_branch(rest) == (follows(seed1, depth + 1, rest)
                                && follows(seed2, depth + 1, rest)));
                        } else {
                            assert(follows(seed1, depth + 1, rest));
                            assert(follows(seed2, depth + 1, rest));
                        }
                    }
                }
            }
        }
        table
    }

    /// Looks at slot `index` on behalf of an operation on `key`.
    fn inspect(&self, index: usize, key: &K) -> (found: Found)
        requires
            index < self.width(),
        ensures
            found == self.sight(index as int, key.ident()),
    {
        match &self.buckets[index] {
            None => Found::Nothing,
            Some(bucket) => match &**bucket {
                Bucket::Leaf(entry) => Found::of_leaf(entry, key),
                Bucket::Branch(_) => Found::Branch,
            },
        }
    }

    /// Insert a key-value pair into the table, given its sponge.
    ///
    /// Hands back the value that the key had before, if it had one.
    pub fn insert(&mut self, entry: Box<Bucket<K, V>>, sponge: &mut Sponge) -> (displaced: Option<V>)
        requires
            *entry is Leaf,
            old(sponge).seed() == entry->Leaf_0.key.ident(),
            old(self).wf(old(sponge).emitted()),
        ensures
            final(self).is_insert_of(old(self), old(sponge).emitted(), entry->Leaf_0),
            displaced == old(self).get(old(sponge).seed(), old(sponge).position()),
            final(sponge).seed() == old(sponge).seed(),
            final(sponge).position() == old(sponge).position() + final(self).steps(
                old(sponge).seed(),
                old(sponge).position(),
            ),
        decreases *old(self),
    {
        let ghost seed: Seq<u8> = sponge.seed();
        let ghost depth: nat = sponge.position();
        let ghost prefix: Seq<u8> = sponge.emitted();
        let ghost leaf: Entry<K, V> = entry->Leaf_0;
        let index: usize = sponge.squeeze() as usize;
        proof {
            Sponge::lemma_emitted_grows(seed, depth);
        }
        let found: Found = match entry.get_key() {
            Some(key) => self.inspect(index, key),
            None => Found::Nothing,
        };
        match found.insert_step() {
            InsertStep::Publish => {
                // The slot is free: the entry moves in.
                let _ = self.exchange(index, Some(entry));
                proof {
                    Self::lemma_leaf_placed(old(self), self, index as int, prefix, leaf);
                }
                None
            },
            InsertStep::Replace => {
                // The key is here already: the new entry takes the old one's place.
                let before = self.exchange(index, Some(entry));
                proof {
                    Self::lemma_leaf_placed(old(self), self, index as int, prefix, leaf);
                }
                match before {
                    Some(bucket) => match (*bucket).into_value() {
                        Ok(v) => Some(v),
                        Err(_) => None,
                    },
                    None => None,
                }
            },
            InsertStep::Split => {
                // Another key lives here: both move into a table of their own,
                // which takes the slot.
                let before = self.exchange(index, None);
                match before {
                    Some(resident) => {
                        let ghost other: Entry<K, V> = resident->Leaf_0;
                        let made: Option<Sponge> = match resident.get_key() {
                            Some(key) => Some(Sponge::new(key)),
                            None => None,
                        };
                        match made {
                            Some(mut sponge2) => {
                                sponge2.matching(sponge);
                                assert(sponge2.emitted() =~= sponge.emitted());
                                let table: Table<K, V> = Table::with_two_entries(
                                    entry,
                                    sponge,
                                    resident,
                                    &mut sponge2,
                                );
                                let _ = self.exchange(index, Some(Box::new(Bucket::Branch(table))));
                                proof {
                                    Self::lemma_leaf_split(
                                        old(self),
                                        self,
                                        index as int,
                                        prefix,
                                        leaf,
                                        other,
                                        table,
                                    );
                                }
                                None
                            },
                            None => None,
                        }
                    },
                    None => None,
                }
            },
            InsertStep::Descend => {
                // A table hangs here: the descent goes on in it.
                let ghost inner: Table<K, V> = old(self).slot(index as int)->Some_0->Branch_0;
                let displaced: Option<V> = match &mut self.buckets[index] {
                    Some(bucket) => match &mut **bucket {
                        Bucket::Branch(table) => table.insert(entry, sponge),
                        _ => None,
                    },
                    None => None,
                };
                proof {
                    let grown: Table<K, V> = self.slot(index as int)->Some_0->Branch_0;
                    Self::lemma_descended(old(self), self, index as int, prefix, leaf, inner, grown);
                }
                displaced
            },
        }
    }

    /// Remove a key from the table, given its sponge.
    ///
    /// Hands back the value that the key had, if it had one. The slot of a
    /// removed leaf is left empty; no table is ever taken out.
    pub fn delete(&mut self, key: &K, sponge: &mut Sponge) -> (removed: Result<V, ()>)
        requires
            old(sponge).seed() == key.ident(),
            old(self).wf(old(sponge).emitted()),
        ensures
            final(self).is_delete_of(old(self), old(sponge).emitted(), key.ident()),
            removed == match old(self).get(key.ident(), old(sponge).position()) {
                Some(v) => Ok::<V, ()>(v),
                None => Err(()),
            },
            final(sponge).seed() == old(sponge).seed(),
            final(sponge).position() == old(sponge).position() + old(self).steps(
                key.ident(),
                old(sponge).position(),
            ),
        decreases *old(self),
    {
        let ghost seed: Seq<u8> = sponge.seed();
        let ghost depth: nat = sponge.position();
        let ghost prefix: Seq<u8> = sponge.emitted();
        let index: usize = sponge.squeeze() as usize;
        proof {
            Sponge::lemma_emitted_grows(seed, depth);
        }
        match self.inspect(index, key).delete_step() {
            DeleteStep::Miss => Err(()),
            DeleteStep::Unlink => {
                // The key's leaf is here: the slot is emptied.
                let before = self.exchange(index, None);
                proof {
                    Self::lemma_leaf_removed(old(self), self, index as int, prefix, seed);
                }
                match before {
                    Some(bucket) => (*bucket).into_value(),
                    None => Err(()),
                }
            },
            DeleteStep::Descend => {
                // A table hangs here: the descent goes on in it.
                let ghost inner: Table<K, V> = old(self).slot(index as int)->Some_0->Branch_0;
                let removed: Result<V, ()> = match &mut self.buckets[index] {
                    Some(bucket) => match &mut **bucket {
                        Bucket::Branch(table) => table.delete(key, sponge),
                        _ => Err(()),
                    },
                    None => Err(()),
                };
                proof {
                    let shrunk: Table<K, V> = self.slot(index as int)->Some_0->Branch_0;
                    Self::lemma_removed_below(
                        old(self),
                        self,
                        index as int,
                        prefix,
                        seed,
                        inner,
                        shrunk,
                    );
                }
                removed
            },
        }
    }

    /// Get the value associated with some key, given its sponge.
    pub fn lookup<'a>(&'a self, key: &K, sponge: Sponge) -> (value: Option<&'a V>)
        requires
            sponge.seed() == key.ident(),
            self.wf(sponge.emitted()),
        ensures
            value == match self.get(key.ident(), sponge.position()) {
                Some(v) => Some(&v),
                None => None,
            },
        decreases self,
    {
        let ghost before: Seq<u8> = sponge.emitted();
        let mut sponge = sponge;
        let index: usize = sponge.squeeze() as usize;
        assert(sponge.emitted() =~= before.push(index as u8));
        match self.inspect(index, key).lookup_step() {
            LookupStep::Miss => None,
            LookupStep::Hit => match &self.buckets[index] {
                Some(bucket) => match &**bucket {
                    Bucket::Leaf(entry) => entry.value.as_ref(),
                    _ => None,
                },
                None => None,
            },
            LookupStep::Descend => match &self.buckets[index] {
                Some(bucket) => match &**bucket {
                    Bucket::Branch(table) => table.lookup(key, sponge),
                    _ => None,
                },
                None => None,
            },
        }
    }
}

impl<K: Key, V> Default for Table<K, V> {
    /// A table with every slot empty.
    fn default() -> (table: Self)
        ensures
            table.width() == FANOUT,
            forall|i: int| 0 <= i < FANOUT ==> table.slot(i) is None,
    {
        let mut buckets: Vec<Option<Box<Bucket<K, V>>>> = Vec::with_capacity(FANOUT);
        let mut i: usize = 0;
        while i < FANOUT
            invariant
                i <= FANOUT,
                buckets@.len() == i,
                forall|j: int| 0 <= j < i ==> buckets@[j] is None,
            decreases FANOUT - i,
        {
            buckets.push(None);
            i = i + 1;
        }
        Table { buckets }
    }
}

} // verus!
