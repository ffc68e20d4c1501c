//! One leaf for each key.
use vstd::prelude::*;
use crate::key::Key;
use crate::sponge::{stream, stream_prefix};
use crate::table::{Bucket, Table, FANOUT};

verus! {

impl<K: Key, V> Table<K, V> {
    /// The key of an entry that a descent ends at, in a sound table, streams
    /// through the place where the table hangs.
    pub proof fn lemma_reached_on_path(&self, prefix: Seq<u8>, seed: Seq<u8>)
        requires
            self.wf(prefix),
            self.reach(seed, prefix.len()) is Some,
        ensures
            stream_prefix(self.reach(seed, prefix.len())->0.key.ident(), prefix.len()) =~= prefix,
        decreases self,
    {
        let index: int = stream(seed, prefix.len()) as int;
        let longer: Seq<u8> = prefix.push(index as u8);
        let resident: Seq<u8> = self.reach(seed, prefix.len())->0.key.ident();
        match self.slot(index) {
            Some(Bucket::Branch(table)) => {
                self.lemma_below_is_smaller(index);
                table.lemma_reached_on_path(longer, seed);
            },
            _ => {},
        }
        assert(stream_prefix(resident, prefix.len() + 1) =~= longer);
        assert forall|i: int| 0 <= i < prefix.len() implies stream_prefix(resident, prefix.len())[i]
            == prefix[i] by {
            assert(stream_prefix(resident, prefix.len() + 1)[i] == longer[i]);
        }
    }

    /// A key that has a leaf in a sound table streams through the place where
    /// the table hangs.
    pub proof fn lemma_held_on_path(&self, prefix: Seq<u8>, seed: Seq<u8>)
        requires
            self.wf(prefix),
            self.holds(seed, prefix.len()),
        ensures
            stream_prefix(seed, prefix.len()) =~= prefix,
    {
        self.lemma_reached_on_path(prefix, seed);
    }

    /// In a sound table the first `n` slots hold a leaf of the key `seed`
    /// once if the key's own slot is among them and a descent for the key
    /// ends at such a leaf, and not at all otherwise.
    proof fn lemma_leaves_below(&self, prefix: Seq<u8>, seed: Seq<u8>, n: nat)
        requires
            self.wf(prefix),
            n <= FANOUT,
        ensures
            self.leaves_below(seed, n) == if stream(seed, prefix.len()) < n && self.holds(
                seed,
                prefix.len(),
            ) {
                1nat
            } else {
                0nat
            },
        decreases self, n,
    {
        if n > 0 {
            let i: int = n - 1;
            let index: int = stream(seed, prefix.len()) as int;
            self.lemma_leaves_below(prefix, seed, (n - 1) as nat);
            match self.slot(i) {
                None => {},
                Some(Bucket::Leaf(entry)) => {
                    if entry.key.ident() == seed {
                        assert(stream_prefix(seed, prefix.len() + 1)[prefix.len() as int]
                            == prefix.push(i as u8)[prefix.len() as int]);
                    }
                },
                Some(Bucket::Branch(table)) => {
                    let longer: Seq<u8> = prefix.push(i as u8);
                    self.lemma_below_is_smaller(i);
                    table.lemma_leaves_below(longer, seed, FANOUT as nat);
                    if table.holds(seed, longer.len()) {
                        table.lemma_held_on_path(longer, seed);
                        assert(stream_prefix(seed, longer.len())[prefix.len() as int]
                            == longer[prefix.len() as int]);
                    }
                },
            }
        }
    }

    /// A sound table keeps at most one leaf for a key, and it keeps one
    /// exactly when a descent for the key ends at it.
    pub proof fn lemma_one_leaf(&self, prefix: Seq<u8>, seed: Seq<u8>)
        requires
            self.wf(prefix),
        ensures
            self.leaves(seed) == if self.holds(seed, prefix.len()) {
                1nat
            } else {
                0nat
            },
    {
        self.lemma_leaves_below(prefix, seed, FANOUT as nat);
    }

}

} // verus!
