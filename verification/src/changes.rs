//! What a change to one slot does to a table.
//!
//! Every operation changes at most one slot of one table. The lemmas here
//! say what such a change comes to for the table whose slot it is, and for
//! every table above it.
use vstd::prelude::*;
use crate::key::Key;
use crate::model::value_at;
use crate::protocol::Found;
use crate::sponge::{follows, stream, stream_prefix, Sponge};
use crate::table::{Bucket, Entry, Table, FANOUT};

verus! {

impl<K: Key, V> Table<K, V> {
    /// Whether a table hangs at the end of `path`: this table itself, for
    /// the empty path.
    pub open spec fn has_table(&self, path: Seq<u8>) -> bool {
        path.len() == 0 || self.has_branch(path)
    }

    /// What slot `index` holds in the table at the end of `path`; nothing
    /// where no table hangs there.
    pub open spec fn slot_at(&self, path: Seq<u8>, index: int) -> Option<Bucket<K, V>>
        decreases path.len(),
    {
        if path.len() == 0 {
            self.slot(index)
        } else {
            match self.slot(path[0] as int) {
                Some(Bucket::Branch(table)) => table.slot_at(path.drop_first(), index),
                _ => None,
            }
        }
    }

    /// This table is `before` but for slot `index` of the table at the end of
    /// `path`, which holds `bucket`.
    pub open spec fn is_swap_of(
        &self,
        before: &Self,
        path: Seq<u8>,
        index: int,
        bucket: Option<Bucket<K, V>>,
    ) -> bool
        decreases path.len(),
    {
        if path.len() == 0 {
            self.differs_only_at(before, index) && self.slot(index) == bucket
        } else {
            self.differs_only_at(before, path[0] as int) && match (
                before.slot(path[0] as int),
                self.slot(path[0] as int),
            ) {
                (Some(Bucket::Branch(inner)), Some(Bucket::Branch(grown))) => grown.is_swap_of(
                    &inner,
                    path.drop_first(),
                    index,
                    bucket,
                ),
                _ => false,
            }
        }
    }

    /// The value that the map of a table has for a key is the value that the
    /// table holds for it.
    pub proof fn lemma_model_value(&self, seed: Seq<u8>, depth: nat)
        ensures
            value_at(self.model(depth), seed) == self.get(seed, depth),
    {
    }

    /// Putting a leaf in gives its key the leaf's value in the map that the
    /// table stands for, or takes the key out where the leaf has no value,
    /// and leaves every other key alone.
    pub proof fn lemma_insert_model(&self, before: &Self, prefix: Seq<u8>, leaf: Entry<K, V>)
        requires
            self.is_insert_of(before, prefix, leaf),
        ensures
            self.model(prefix.len()) == match leaf.value {
                Some(value) => before.model(prefix.len()).insert(leaf.key.ident(), value),
                None => before.model(prefix.len()).remove(leaf.key.ident()),
            },
    {
        let depth: nat = prefix.len();
        let seed: Seq<u8> = leaf.key.ident();
        assert forall|other: Seq<u8>| other != seed implies self.get(other, depth) == before.get(
            other,
            depth,
        ) by {
            assert(self.leaf_of(other, depth) == before.leaf_of(other, depth));
        }
        match leaf.value {
            Some(value) => {
                assert(self.model(depth) =~= before.model(depth).insert(seed, value));
            },
            None => {
                assert(self.model(depth) =~= before.model(depth).remove(seed));
            },
        }
    }

    /// Taking a key's leaf out takes the key out of the map that the table
    /// stands for, and leaves every other key alone.
    pub proof fn lemma_delete_model(&self, before: &Self, prefix: Seq<u8>, seed: Seq<u8>)
        requires
            self.is_delete_of(before, prefix, seed),
        ensures
            self.model(prefix.len()) == before.model(prefix.len()).remove(seed),
    {
        let depth: nat = prefix.len();
        assert forall|other: Seq<u8>| other != seed implies self.get(other, depth) == before.get(
            other,
            depth,
        ) by {
            assert(self.leaf_of(other, depth) == before.leaf_of(other, depth));
        }
        assert(self.model(depth) =~= before.model(depth).remove(seed));
    }

    /// A slot that was empty, or held the key's old leaf, now holds `leaf`.
    pub proof fn lemma_leaf_placed(
        before: &Self,
        after: &Self,
        index: int,
        prefix: Seq<u8>,
        leaf: Entry<K, V>,
    )
        requires
            before.wf(prefix),
            after.differs_only_at(before, index),
            0 <= index < FANOUT,
            stream(leaf.key.ident(), prefix.len()) == index,
            stream_prefix(leaf.key.ident(), prefix.len() + 1) =~= prefix.push(index as u8),
            before.sight(index, leaf.key.ident()) is Nothing || before.sight(
                index,
                leaf.key.ident(),
            ) is Same,
            after.slot(index) == Some(Bucket::Leaf(leaf)),
        ensures
            after.is_insert_of(before, prefix, leaf),
            after.steps(leaf.key.ident(), prefix.len()) == 1,
    {
        let depth: nat = prefix.len();
        assert forall|i: int| 0 <= i < FANOUT implies match #[trigger] after.slot(i) {
            None => true,
            Some(Bucket::Leaf(entry)) => stream_prefix(entry.key.ident(), prefix.len() + 1)
                =~= prefix.push(i as u8),
            Some(Bucket::Branch(table)) => table.wf(prefix.push(i as u8)),
        } by {
            if i != index {
                assert(after.slot(i) == before.slot(i));
            }
        }
        assert forall|seed: Seq<u8>| seed != leaf.key.ident() implies #[trigger] after.leaf_of(
            seed,
            depth,
        ) == before.leaf_of(seed, depth) by {
            let at: int = stream(seed, depth) as int;
            if at != index {
                assert(after.slot(at) == before.slot(at));
            }
        }
        assert forall|path: Seq<u8>| #[trigger]
            after.has_branch(path) == (before.has_branch(path) || before.splits_at(
                leaf.key.ident(),
                depth,
                path,
            )) by {
            if path.len() > 0 && path[0] as int != index {
                assert(after.slot(path[0] as int) == before.slot(path[0] as int));
            }
        }
    }

    /// A slot that held the leaf `other` now holds a table with `other` and
    /// `leaf` in it.
    pub proof fn lemma_leaf_split(
        before: &Self,
        after: &Self,
        index: int,
        prefix: Seq<u8>,
        leaf: Entry<K, V>,
        other: Entry<K, V>,
        table: Self,
    )
        requires
            before.wf(prefix),
            after.differs_only_at(before, index),
            0 <= index < FANOUT,
            stream(leaf.key.ident(), prefix.len()) == index,
            before.slot(index) == Some(Bucket::Leaf(other)),
            other.key.ident() != leaf.key.ident(),
            after.slot(index) == Some(Bucket::Branch(table)),
            table.is_pair_of(prefix.push(index as u8), leaf, other),
        ensures
            after.is_insert_of(before, prefix, leaf),
            after.steps(leaf.key.ident(), prefix.len()) == 1 + table.steps(
                leaf.key.ident(),
                prefix.len() + 1,
            ),
    {
        let depth: nat = prefix.len();
        assert(after.leaf_of(leaf.key.ident(), depth) == table.leaf_of(
            leaf.key.ident(),
            depth + 1,
        ));
        assert forall|i: int| 0 <= i < FANOUT implies match #[trigger] after.slot(i) {
            None => true,
            Some(Bucket::Leaf(entry)) => stream_prefix(entry.key.ident(), prefix.len() + 1)
                =~= prefix.push(i as u8),
            Some(Bucket::Branch(table)) => table.wf(prefix.push(i as u8)),
        } by {
            if i != index {
                assert(after.slot(i) == before.slot(i));
            }
        }
        assert forall|seed: Seq<u8>| seed != leaf.key.ident() implies #[trigger] after.leaf_of(
            seed,
            depth,
        ) == before.leaf_of(seed, depth) by {
            let at: int = stream(seed, depth) as int;
            if at != index {
                assert(after.slot(at) == before.slot(at));
            } else {
                assert(after.leaf_of(seed, depth) == table.leaf_of(seed, depth + 1));
            }
        }
        assert(stream(other.key.ident(), depth) == index) by {
            assert(stream_prefix(other.key.ident(), depth + 1)[depth as int] == prefix.push(
                index as u8,
            )[depth as int]);
        }
        assert forall|path: Seq<u8>| #[trigger]
            after.has_branch(path) == (before.has_branch(path) || before.splits_at(
                leaf.key.ident(),
                depth,
                path,
            )) by {
            if path.len() > 0 {
                if path[0] as int != index {
                    assert(after.slot(path[0] as int) == before.slot(path[0] as int));
                } else if path.len() > 1 {
                    assert(table.has_branch(path.drop_first()) == (follows(
                        leaf.key.ident(),
                        depth + 1,
                        path.drop_first(),
                    ) && follows(other.key.ident(), depth + 1, path.drop_first())));
                } else {
                    assert(follows(leaf.key.ident(), depth + 1, path.drop_first()));
                    assert(follows(other.key.ident(), depth + 1, path.drop_first()));
                }
            }
        }
    }

    /// A slot that held the table `inner` now holds `grown`, which is `inner`
    /// with `leaf` put in.
    pub proof fn lemma_descended(
        before: &Self,
        after: &Self,
        index: int,
        prefix: Seq<u8>,
        leaf: Entry<K, V>,
        inner: Self,
        grown: Self,
    )
        requires
            before.wf(prefix),
            after.differs_only_at(before, index),
            0 <= index < FANOUT,
            stream(leaf.key.ident(), prefix.len()) == index,
            before.slot(index) == Some(Bucket::Branch(inner)),
            after.slot(index) == Some(Bucket::Branch(grown)),
            grown.is_insert_of(&inner, prefix.push(index as u8), leaf),
        ensures
            after.is_insert_of(before, prefix, leaf),
            after.steps(leaf.key.ident(), prefix.len()) == 1 + grown.steps(
                leaf.key.ident(),
                prefix.len() + 1,
            ),
            before.get(leaf.key.ident(), prefix.len()) == inner.get(
                leaf.key.ident(),
                prefix.len() + 1,
            ),
    {
        let depth: nat = prefix.len();
        assert forall|i: int| 0 <= i < FANOUT implies match #[trigger] after.slot(i) {
            None => true,
            Some(Bucket::Leaf(entry)) => stream_prefix(entry.key.ident(), prefix.len() + 1)
                =~= prefix.push(i as u8),
            Some(Bucket::Branch(table)) => table.wf(prefix.push(i as u8)),
        } by {
            if i != index {
                assert(after.slot(i) == before.slot(i));
            }
        }
        assert forall|seed: Seq<u8>| seed != leaf.key.ident() implies #[trigger] after.leaf_of(
            seed,
            depth,
        ) == before.leaf_of(seed, depth) by {
            let at: int = stream(seed, depth) as int;
            if at != index {
                assert(after.slot(at) == before.slot(at));
            } else {
                assert(after.leaf_of(seed, depth) == grown.leaf_of(seed, depth + 1));
                assert(before.leaf_of(seed, depth) == inner.leaf_of(seed, depth + 1));
            }
        }
        assert forall|path: Seq<u8>| #[trigger]
            after.has_branch(path) == (before.has_branch(path) || before.splits_at(
                leaf.key.ident(),
                depth,
                path,
            )) by {
            Self::lemma_branches_below(before, after, index, prefix, leaf, inner, grown, path);
        }
    }

    /// The tables that hang below a slot into whose table a leaf was put.
    proof fn lemma_branches_below(
        before: &Self,
        after: &Self,
        index: int,
        prefix: Seq<u8>,
        leaf: Entry<K, V>,
        inner: Self,
        grown: Self,
        path: Seq<u8>,
    )
        requires
            before.wf(prefix),
            after.differs_only_at(before, index),
            0 <= index < FANOUT,
            stream(leaf.key.ident(), prefix.len()) == index,
            before.slot(index) == Some(Bucket::Branch(inner)),
            after.slot(index) == Some(Bucket::Branch(grown)),
            path.len() > 1 ==> grown.has_branch(path.drop_first()) == (inner.has_branch(
                path.drop_first(),
            ) || inner.splits_at(leaf.key.ident(), prefix.len() + 1, path.drop_first())),
        ensures
            after.has_branch(path) == (before.has_branch(path) || before.splits_at(
                leaf.key.ident(),
                prefix.len(),
                path,
            )),
    {
        let depth: nat = prefix.len();
        let seed: Seq<u8> = leaf.key.ident();
        if path.len() == 0 {
        } else if path[0] as int != index {
            assert(after.slot(path[0] as int) == before.slot(path[0] as int));
            assert(!follows(seed, depth, path));
        } else if path.len() == 1 {
            assert(before.has_branch(path));
            assert(after.has_branch(path));
        } else {
            let rest: Seq<u8> = path.drop_first();
            let longer: Seq<u8> = prefix.push(index as u8);
            assert(after.has_branch(path) == grown.has_branch(rest));
            assert(before.has_branch(path) == inner.has_branch(rest));
            assert(before.reach(seed, depth) == inner.reach(seed, depth + 1));
            assert(before.steps(seed, depth) == 1 + inner.steps(seed, depth + 1));
            assert(follows(seed, depth, path) == follows(seed, depth + 1, rest));
            if inner.reach(seed, depth + 1) is Some {
                let resident: Seq<u8> = inner.reach(seed, depth + 1)->0.key.ident();
                assert(inner.wf(longer));
                inner.lemma_reached_on_path(longer, seed);
                assert(stream_prefix(resident, depth + 1)[depth as int] == longer[depth as int]);
                assert(stream(resident, depth) == index);
                assert(follows(resident, depth, path) == follows(resident, depth + 1, rest));
            }
            assert(before.splits_at(seed, depth, path) == inner.splits_at(seed, depth + 1, rest));
        }
    }

    /// A slot that held the leaf of the key `seed` is now empty.
    pub proof fn lemma_leaf_removed(before: &Self, after: &Self, index: int, prefix: Seq<u8>, seed: Seq<u8>)
        requires
            before.wf(prefix),
            after.differs_only_at(before, index),
            0 <= index < FANOUT,
            stream(seed, prefix.len()) == index,
            before.sight(index, seed) is Same,
            after.slot(index) is None,
        ensures
            after.is_delete_of(before, prefix, seed),
    {
        let depth: nat = prefix.len();
        assert forall|i: int| 0 <= i < FANOUT implies match #[trigger] after.slot(i) {
            None => true,
            Some(Bucket::Leaf(entry)) => stream_prefix(entry.key.ident(), prefix.len() + 1)
                =~= prefix.push(i as u8),
            Some(Bucket::Branch(table)) => table.wf(prefix.push(i as u8)),
        } by {
            if i != index {
                assert(after.slot(i) == before.slot(i));
            }
        }
        assert forall|other: Seq<u8>| other != seed implies #[trigger] after.leaf_of(other, depth)
            == before.leaf_of(other, depth) by {
            let at: int = stream(other, depth) as int;
            if at != index {
                assert(after.slot(at) == before.slot(at));
            }
        }
        assert forall|path: Seq<u8>| #[trigger] before.has_branch(path) == after.has_branch(
            path,
        ) by {
            if path.len() > 0 && path[0] as int != index {
                assert(after.slot(path[0] as int) == before.slot(path[0] as int));
            }
        }
    }

    /// A slot that held the table `inner` now holds `shrunk`, which is `inner`
    /// with the leaf of the key `seed` taken out.
    pub proof fn lemma_removed_below(
        before: &Self,
        after: &Self,
        index: int,
        prefix: Seq<u8>,
        seed: Seq<u8>,
        inner: Self,
        shrunk: Self,
    )
        requires
            before.wf(prefix),
            after.differs_only_at(before, index),
            0 <= index < FANOUT,
            stream(seed, prefix.len()) == index,
            before.slot(index) == Some(Bucket::Branch(inner)),
            after.slot(index) == Some(Bucket::Branch(shrunk)),
            shrunk.is_delete_of(&inner, prefix.push(index as u8), seed),
        ensures
            after.is_delete_of(before, prefix, seed),
            before.get(seed, prefix.len()) == inner.get(seed, prefix.len() + 1),
            before.steps(seed, prefix.len()) == 1 + inner.steps(seed, prefix.len() + 1),
    {
        let depth: nat = prefix.len();
        assert forall|i: int| 0 <= i < FANOUT implies match #[trigger] after.slot(i) {
            None => true,
            Some(Bucket::Leaf(entry)) => stream_prefix(entry.key.ident(), prefix.len() + 1)
                =~= prefix.push(i as u8),
            Some(Bucket::Branch(table)) => table.wf(prefix.push(i as u8)),
        } by {
            if i != index {
                assert(after.slot(i) == before.slot(i));
            }
        }
        assert forall|other: Seq<u8>| other != seed implies #[trigger] after.leaf_of(other, depth)
            == before.leaf_of(other, depth) by {
            let at: int = stream(other, depth) as int;
            if at != index {
                assert(after.slot(at) == before.slot(at));
            } else {
                assert(after.leaf_of(other, depth) == shrunk.leaf_of(other, depth + 1));
                assert(before.leaf_of(other, depth) == inner.leaf_of(other, depth + 1));
            }
        }
        assert forall|path: Seq<u8>| #[trigger] before.has_branch(path) == after.has_branch(
            path,
        ) by {
            if path.len() > 0 {
                if path[0] as int != index {
                    assert(after.slot(path[0] as int) == before.slot(path[0] as int));
                } else if path.len() > 1 {
                    assert(inner.has_branch(path.drop_first()) == shrunk.has_branch(
                        path.drop_first(),
                    ));
                }
            }
        }
        if !before.holds(seed, depth) {
            assert forall|other: Seq<u8>| #[trigger]
                after.reach(other, depth) == before.reach(other, depth) by {
                let at: int = stream(other, depth) as int;
                if at != index {
                    assert(after.slot(at) == before.slot(at));
                } else {
                    assert(shrunk.reach(other, depth + 1) == inner.reach(other, depth + 1));
                }
            }
        }
    }

    /// A descent for a key whose stream runs along `path` ends where it
    /// would end if it began at the slot of the key in the table at the end
    /// of `path`.
    pub proof fn lemma_reach_along(&self, seed: Seq<u8>, depth: nat, path: Seq<u8>)
        requires
            follows(seed, depth, path),
            self.has_table(path),
        ensures
            self.reach(seed, depth) == match self.slot_at(
                path,
                stream(seed, depth + path.len()) as int,
            ) {
                None => None,
                Some(Bucket::Leaf(entry)) => Some(entry),
                Some(Bucket::Branch(table)) => table.reach(seed, depth + path.len() + 1),
            },
        decreases path.len(),
    {
        if path.len() > 0 {
            let rest: Seq<u8> = path.drop_first();
            match self.slot(path[0] as int) {
                Some(Bucket::Branch(table)) => {
                    if rest.len() > 0 {
                        assert(table.has_branch(rest));
                    }
                    table.lemma_reach_along(seed, depth + 1, rest);
                },
                _ => {},
            }
        }
    }

    /// Where the slot of a table holds a table, a table hangs one slot
    /// further down.
    pub proof fn lemma_table_below(&self, path: Seq<u8>, index: u8)
        requires
            self.has_table(path),
            self.slot_at(path, index as int) is Some,
            self.slot_at(path, index as int)->0 is Branch,
        ensures
            self.has_table(path.push(index)),
        decreases path.len(),
    {
        let longer: Seq<u8> = path.push(index);
        if path.len() == 0 {
            assert(longer[0] == index);
        } else {
            assert(longer[0] == path[0]);
            assert(longer.drop_first() =~= path.drop_first().push(index));
            let table: Self = self.slot(path[0] as int)->Some_0->Branch_0;
            if path.len() > 1 {
                assert(table.has_branch(path.drop_first()));
            }
            table.lemma_table_below(path.drop_first(), index);
        }
    }

    /// A swap in a slot that held no table changes no other slot that held no
    /// table.
    pub proof fn lemma_swap_elsewhere(
        &self,
        before: &Self,
        path: Seq<u8>,
        index: int,
        bucket: Option<Bucket<K, V>>,
        other_path: Seq<u8>,
        other_index: int,
    )
        requires
            self.is_swap_of(before, path, index, bucket),
            !(other_path == path && other_index == index),
            !(before.slot_at(path, index) matches Some(Bucket::Branch(_))),
            !(before.slot_at(other_path, other_index) matches Some(Bucket::Branch(_))),
            before.has_table(other_path),
        ensures
            self.slot_at(other_path, other_index) == before.slot_at(other_path, other_index),
        decreases path.len(),
    {
        if path.len() == 0 {
            if other_path.len() == 0 {
                assert(other_path =~= path);
            } else if other_path[0] as int != index {
                assert(self.slot(other_path[0] as int) == before.slot(other_path[0] as int));
            }
        } else if other_path.len() == 0 {
            if other_index != path[0] as int {
                assert(self.slot(other_index) == before.slot(other_index));
            }
        } else if other_path[0] != path[0] {
            assert(self.slot(other_path[0] as int) == before.slot(other_path[0] as int));
        } else {
            let inner: Self = before.slot(path[0] as int)->Some_0->Branch_0;
            let grown: Self = self.slot(path[0] as int)->Some_0->Branch_0;
            if other_path.drop_first() == path.drop_first() {
                assert(other_path.drop_first().len() == other_path.len() - 1);
                assert(path.drop_first().len() == path.len() - 1);
                assert forall|i: int| 0 <= i < path.len() implies other_path[i] == path[i] by {
                    if i > 0 {
                        assert(other_path.drop_first()[i - 1] == path.drop_first()[i - 1]);
                    }
                }
                assert(other_path =~= path);
            }
            if other_path.len() > 1 {
                assert(inner.has_branch(other_path.drop_first()));
            }
            grown.lemma_swap_elsewhere(
                &inner,
                path.drop_first(),
                index,
                bucket,
                other_path.drop_first(),
                other_index,
            );
        }
    }

    /// A leaf swapped into an empty slot, or into the slot of its own key's
    /// old leaf, anywhere along its key's stream, is a leaf put in.
    pub proof fn lemma_placed_at(
        &self,
        before: &Self,
        prefix: Seq<u8>,
        path: Seq<u8>,
        leaf: Entry<K, V>,
    )
        requires
            before.wf(prefix),
            stream_prefix(leaf.key.ident(), prefix.len()) =~= prefix,
            follows(leaf.key.ident(), prefix.len(), path),
            before.has_table(path),
            Found::of(
                before.slot_at(path, stream(leaf.key.ident(), prefix.len() + path.len()) as int),
                leaf.key.ident(),
            ) is Nothing || Found::of(
                before.slot_at(path, stream(leaf.key.ident(), prefix.len() + path.len()) as int),
                leaf.key.ident(),
            ) is Same,
            self.is_swap_of(
                before,
                path,
                stream(leaf.key.ident(), prefix.len() + path.len()) as int,
                Some(Bucket::Leaf(leaf)),
            ),
        ensures
            self.is_insert_of(before, prefix, leaf),
        decreases path.len(),
    {
        let seed: Seq<u8> = leaf.key.ident();
        let depth: nat = prefix.len();
        Sponge::lemma_emitted_grows(seed, depth);
        if path.len() == 0 {
            let index: int = stream(seed, depth) as int;
            Self::lemma_leaf_placed(before, self, index, prefix, leaf);
        } else {
            let index: int = path[0] as int;
            let rest: Seq<u8> = path.drop_first();
            let inner: Self = before.slot(index)->Some_0->Branch_0;
            let grown: Self = self.slot(index)->Some_0->Branch_0;
            if rest.len() > 0 {
                assert(inner.has_branch(rest));
            }
            grown.lemma_placed_at(&inner, prefix.push(index as u8), rest, leaf);
            Self::lemma_descended(before, self, index, prefix, leaf, inner, grown);
        }
    }

    /// A table of two leaves swapped into the slot of one of them, anywhere
    /// along the stream of the other's key, is that other leaf put in.
    pub proof fn lemma_split_at(
        &self,
        before: &Self,
        prefix: Seq<u8>,
        path: Seq<u8>,
        leaf: Entry<K, V>,
        other: Entry<K, V>,
        table: Self,
    )
        requires
            before.wf(prefix),
            stream_prefix(leaf.key.ident(), prefix.len()) =~= prefix,
            follows(leaf.key.ident(), prefix.len(), path),
            before.has_table(path),
            before.slot_at(path, stream(leaf.key.ident(), prefix.len() + path.len()) as int)
                == Some(Bucket::Leaf(other)),
            other.key.ident() != leaf.key.ident(),
            table.is_pair_of(
                stream_prefix(leaf.key.ident(), prefix.len() + path.len() + 1),
                leaf,
                other,
            ),
            self.is_swap_of(
                before,
                path,
                stream(leaf.key.ident(), prefix.len() + path.len()) as int,
                Some(Bucket::Branch(table)),
            ),
        ensures
            self.is_insert_of(before, prefix, leaf),
        decreases path.len(),
    {
        let seed: Seq<u8> = leaf.key.ident();
        let depth: nat = prefix.len();
        Sponge::lemma_emitted_grows(seed, depth);
        if path.len() == 0 {
            let index: int = stream(seed, depth) as int;
            assert(stream_prefix(seed, depth + 1) =~= prefix.push(index as u8));
            Self::lemma_leaf_split(before, self, index, prefix, leaf, other, table);
        } else {
            let index: int = path[0] as int;
            let rest: Seq<u8> = path.drop_first();
            let inner: Self = before.slot(index)->Some_0->Branch_0;
            let grown: Self = self.slot(index)->Some_0->Branch_0;
            if rest.len() > 0 {
                assert(inner.has_branch(rest));
            }
            grown.lemma_split_at(&inner, prefix.push(index as u8), rest, leaf, other, table);
            Self::lemma_descended(before, self, index, prefix, leaf, inner, grown);
        }
    }

    /// The slot of a key's leaf swapped empty, anywhere along the key's
    /// stream, is the leaf taken out.
    pub proof fn lemma_removed_at(&self, before: &Self, prefix: Seq<u8>, path: Seq<u8>, seed: Seq<u8>)
        requires
            before.wf(prefix),
            follows(seed, prefix.len(), path),
            before.has_table(path),
            Found::of(before.slot_at(path, stream(seed, prefix.len() + path.len()) as int), seed)
                is Same,
            self.is_swap_of(before, path, stream(seed, prefix.len() + path.len()) as int, None),
        ensures
            self.is_delete_of(before, prefix, seed),
        decreases path.len(),
    {
        let depth: nat = prefix.len();
        if path.len() == 0 {
            let index: int = stream(seed, depth) as int;
            Self::lemma_leaf_removed(before, self, index, prefix, seed);
        } else {
            let index: int = path[0] as int;
            let rest: Seq<u8> = path.drop_first();
            let inner: Self = before.slot(index)->Some_0->Branch_0;
            let shrunk: Self = self.slot(index)->Some_0->Branch_0;
            if rest.len() > 0 {
                assert(inner.has_branch(rest));
            }
            shrunk.lemma_removed_at(&inner, prefix.push(index as u8), rest, seed);
            Self::lemma_removed_below(before, self, index, prefix, seed, inner, shrunk);
        }
    }
}

} // verus!
