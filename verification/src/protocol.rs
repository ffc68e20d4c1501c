//! What an operation does at one slot.
//!
//! Every operation comes down the trie one slot at a time. At each slot it
//! looks at what the slot holds and takes one step: it ends, it changes the
//! slot, or it goes on in the table below. The step depends on nothing but
//! what was found, so the same rules serve whoever owns the slots, however
//! the slots are read and written.
use vstd::prelude::*;
use crate::key::Key;
use crate::table::{Bucket, Entry};

verus! {

/// What a slot holds, as an operation on one key sees it.
#[derive(Clone, Copy, PartialEq, Eq, Structural, Debug)]
pub enum Found {
    /// The slot is empty.
    Nothing,
    /// A leaf with the operation's own key.
    Same,
    /// A leaf with another key.
    Other,
    /// A table one level further down.
    Branch,
}

/// The step of a lookup.
#[derive(Clone, Copy, PartialEq, Eq, Structural, Debug)]
pub enum LookupStep {
    /// The key is not in the map.
    Miss,
    /// The leaf in the slot is the key's: its value is the answer.
    Hit,
    /// Go on in the table below.
    Descend,
}

/// The step of an insert.
#[derive(Clone, Copy, PartialEq, Eq, Structural, Debug)]
pub enum InsertStep {
    /// Put the new leaf into the empty slot.
    Publish,
    /// Put the new leaf in the place of the key's old leaf, whose value is
    /// handed back.
    Replace,
    /// Put a table in the place of the other key's leaf, with that leaf and
    /// the new one in it.
    Split,
    /// Go on in the table below.
    Descend,
}

/// The step of a delete.
#[derive(Clone, Copy, PartialEq, Eq, Structural, Debug)]
pub enum DeleteStep {
    /// The key is not in the map.
    Miss,
    /// Empty the slot, and hand back the value of the leaf that was in it.
    Unlink,
    /// Go on in the table below.
    Descend,
}

impl Found {
    /// How a leaf looks to an operation on the key with the bytes `seed`.
    pub open spec fn leaf<K: Key, V>(entry: Entry<K, V>, seed: Seq<u8>) -> Found {
        if entry.key.ident() == seed {
            Found::Same
        } else {
            Found::Other
        }
    }

    /// How the bucket of a slot looks to an operation on the key with the
    /// bytes `seed`.
    pub open spec fn of<K: Key, V>(bucket: Option<Bucket<K, V>>, seed: Seq<u8>) -> Found {
        match bucket {
            None => Found::Nothing,
            Some(Bucket::Leaf(entry)) => Found::leaf(entry, seed),
            Some(Bucket::Branch(_)) => Found::Branch,
        }
    }

    /// Looks at a leaf on behalf of an operation on `key`.
    pub fn of_leaf<K: Key, V>(entry: &Entry<K, V>, key: &K) -> (found: Found)
        ensures
            found == Found::leaf(*entry, key.ident()),
    {
        if key.same(&entry.key) {
            Found::Same
        } else {
            Found::Other
        }
    }

    /// The step that a lookup takes on what it found.
    pub open spec fn lookup_step_spec(self) -> LookupStep {
        match self {
            Found::Nothing => LookupStep::Miss,
            Found::Same => LookupStep::Hit,
            Found::Other => LookupStep::Miss,
            Found::Branch => LookupStep::Descend,
        }
    }

    /// The step that an insert takes on what it found.
    pub open spec fn insert_step_spec(self) -> InsertStep {
        match self {
            Found::Nothing => InsertStep::Publish,
            Found::Same => InsertStep::Replace,
            Found::Other => InsertStep::Split,
            Found::Branch => InsertStep::Descend,
        }
    }

    /// The step that a delete takes on what it found.
    pub open spec fn delete_step_spec(self) -> DeleteStep {
        match self {
            Found::Nothing => DeleteStep::Miss,
            Found::Same => DeleteStep::Unlink,
            Found::Other => DeleteStep::Miss,
            Found::Branch => DeleteStep::Descend,
        }
    }

    /// The step that a lookup takes on what it found.
    #[verifier::when_used_as_spec(lookup_step_spec)]
    pub fn lookup_step(self) -> (step: LookupStep)
        ensures
            step == self.lookup_step_spec(),
    {
        match self {
            Found::Nothing => LookupStep::Miss,
            Found::Same => LookupStep::Hit,
            Found::Other => LookupStep::Miss,
            Found::Branch => LookupStep::Descend,
        }
    }

    /// The step that an insert takes on what it found.
    #[verifier::when_used_as_spec(insert_step_spec)]
    pub fn insert_step(self) -> (step: InsertStep)
        ensures
            step == self.insert_step_spec(),
    {
        match self {
            Found::Nothing => InsertStep::Publish,
            Found::Same => InsertStep::Replace,
            Found::Other => InsertStep::Split,
            Found::Branch => InsertStep::Descend,
        }
    }

    /// The step that a delete takes on what it found.
    #[verifier::when_used_as_spec(delete_step_spec)]
    pub fn delete_step(self) -> (step: DeleteStep)
        ensures
            step == self.delete_step_spec(),
    {
        match self {
            Found::Nothing => DeleteStep::Miss,
            Found::Same => DeleteStep::Unlink,
            Found::Other => DeleteStep::Miss,
            Found::Branch => DeleteStep::Descend,
        }
    }
}

} // verus!
