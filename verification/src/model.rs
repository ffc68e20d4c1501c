//! The map that the trie stands for, and what runs of operations do to it.
//!
//! The contracts of the trie say what each operation does to a mathematical
//! map from the bytes of a key to a value. This module follows that map
//! through whole runs of operations.
use vstd::prelude::*;
use crate::key::Key;
use crate::table::{Entry, Table};

verus! {

/// An operation on the map, with the bytes of the key it is about.
pub enum Op<V> {
    /// Ask for the value of a key.
    Lookup(Seq<u8>),
    /// Give a key a value.
    Insert(Seq<u8>, V),
    /// Take a key out.
    Delete(Seq<u8>),
}

impl<V> Op<V> {
    /// The key that the operation is about.
    pub open spec fn key(self) -> Seq<u8> {
        match self {
            Op::Lookup(key) => key,
            Op::Insert(key, _) => key,
            Op::Delete(key) => key,
        }
    }
}

/// The value of `key` in `map`, if it has one.
pub open spec fn value_at<V>(map: Map<Seq<u8>, V>, key: Seq<u8>) -> Option<V> {
    if map.contains_key(key) {
        Some(map[key])
    } else {
        None
    }
}

/// The map that an operation leaves behind.
pub open spec fn after<V>(map: Map<Seq<u8>, V>, op: Op<V>) -> Map<Seq<u8>, V> {
    match op {
        Op::Lookup(_) => map,
        Op::Insert(key, value) => map.insert(key, value),
        Op::Delete(key) => map.remove(key),
    }
}

/// What an operation hands back: the value that its key had when it began.
pub open spec fn answer<V>(map: Map<Seq<u8>, V>, op: Op<V>) -> Option<V> {
    value_at(map, op.key())
}

/// The map that a run of operations leaves behind.
pub open spec fn replay<V>(map: Map<Seq<u8>, V>, ops: Seq<Op<V>>) -> Map<Seq<u8>, V>
    decreases ops.len(),
{
    if ops.len() == 0 {
        map
    } else {
        after(replay(map, ops.drop_last()), ops.last())
    }
}

/// Whether an operation may change the value of `key`.
pub open spec fn writes<V>(op: Op<V>, key: Seq<u8>) -> bool {
    op.key() == key && !(op is Lookup)
}

/// A run in which nothing writes to a key leaves the key as it was.
pub proof fn lemma_untouched<V>(map: Map<Seq<u8>, V>, ops: Seq<Op<V>>, key: Seq<u8>)
    requires
        forall|i: int| 0 <= i < ops.len() ==> !writes(#[trigger] ops[i], key),
    ensures
        value_at(replay(map, ops), key) == value_at(map, key),
    decreases ops.len(),
{
    if ops.len() > 0 {
        assert(!writes(ops.last(), key));
        assert forall|i: int| 0 <= i < ops.drop_last().len() implies !writes(
            #[trigger] ops.drop_last()[i],
            key,
        ) by {
            assert(ops.drop_last()[i] == ops[i]);
        }
        lemma_untouched(map, ops.drop_last(), key);
    }
}

/// An insert hands back what the last insert of its key put in: when `first`
/// has been inserted for a key and nothing has written to the key since,
/// the next insert for the key hands back `first`.
pub proof fn lemma_displacement<V>(
    map: Map<Seq<u8>, V>,
    key: Seq<u8>,
    first: V,
    second: V,
    between: Seq<Op<V>>,
)
    requires
        forall|i: int| 0 <= i < between.len() ==> !writes(#[trigger] between[i], key),
    ensures
        answer(replay(after(map, Op::Insert(key, first)), between), Op::Insert(key, second))
            == Some(first),
{
    lemma_untouched(after(map, Op::Insert(key, first)), between, key);
}

/// A deleted key stays away until it is inserted again: when a key has been
/// deleted and nothing has inserted it since, a lookup of the key finds
/// nothing.
pub proof fn lemma_absent_after_delete<V>(map: Map<Seq<u8>, V>, key: Seq<u8>, between: Seq<Op<V>>)
    requires
        forall|i: int|
            0 <= i < between.len() ==> !(#[trigger] between[i] is Insert && between[i].key()
                == key),
    ensures
        answer(replay(after(map, Op::Delete(key)), between), Op::Lookup(key)) is None,
    decreases between.len(),
{
    if between.len() > 0 {
        assert forall|i: int| 0 <= i < between.drop_last().len() implies !(
        #[trigger] between.drop_last()[i] is Insert && between.drop_last()[i].key() == key) by {
            assert(between.drop_last()[i] == between[i]);
        }
        lemma_absent_after_delete(map, key, between.drop_last());
        assert(!(between.last() is Insert && between.last().key() == key));
    }
}

/// Whether the table `after` is what an operation makes of the table
/// `before`, as the contracts of the table's operations describe it. Both
/// tables are seen from the place that the stream bytes `prefix` lead to.
pub open spec fn made_by<K: Key, V>(
    before: Table<K, V>,
    after: Table<K, V>,
    prefix: Seq<u8>,
    op: Op<V>,
) -> bool {
    match op {
        Op::Lookup(_) => after == before,
        Op::Insert(key, value) => exists|leaf: Entry<K, V>|
            leaf.key.ident() == key && leaf.value == Some(value) && #[trigger] after.is_insert_of(
                &before,
                prefix,
                leaf,
            ),
        Op::Delete(key) => after.is_delete_of(&before, prefix, key),
    }
}

/// The trie agrees with the map it stands for, over any run of operations:
/// when each table of a run is what the run's next operation makes of the
/// table before it, the last table stands for the map that the same run
/// makes of the first table's map, and each operation finds at its table what
/// it would find at that map.
pub proof fn lemma_run_agrees<K: Key, V>(
    tables: Seq<Table<K, V>>,
    ops: Seq<Op<V>>,
    prefix: Seq<u8>,
)
    requires
        tables.len() == ops.len() + 1,
        forall|i: int|
            0 <= i < ops.len() ==> made_by(tables[i], #[trigger] tables[i + 1], prefix, ops[i]),
    ensures
        tables.last().model(prefix.len()) == replay(tables[0].model(prefix.len()), ops),
        forall|i: int|
            0 <= i < ops.len() ==> #[trigger] tables[i].get(ops[i].key(), prefix.len()) == answer(
                replay(tables[0].model(prefix.len()), ops.take(i)),
                ops[i],
            ),
    decreases ops.len(),
{
    let depth: nat = prefix.len();
    if ops.len() > 0 {
        let n: int = ops.len() - 1;
        let earlier = tables.drop_last();
        assert forall|i: int| 0 <= i < ops.drop_last().len() implies made_by(
            earlier[i],
            #[trigger] earlier[i + 1],
            prefix,
            ops.drop_last()[i],
        ) by {
            assert(made_by(tables[i], tables[i + 1], prefix, ops[i]));
        }
        lemma_run_agrees(earlier, ops.drop_last(), prefix);
        let before: Table<K, V> = tables[n];
        let after: Table<K, V> = tables[n + 1];
        assert(earlier.last() == before);
        assert(earlier[0] == tables[0]);
        assert(made_by(before, after, prefix, ops[n]));
        match ops[n] {
            Op::Lookup(_) => {},
            Op::Insert(key, value) => {
                let leaf: Entry<K, V> = choose|leaf: Entry<K, V>|
                    leaf.key.ident() == key && leaf.value == Some(value)
                        && #[trigger] after.is_insert_of(&before, prefix, leaf);
                after.lemma_insert_model(&before, prefix, leaf);
            },
            Op::Delete(key) => {
                after.lemma_delete_model(&before, prefix, key);
            },
        }
        assert(ops.take(n) =~= ops.drop_last());
        assert forall|i: int| 0 <= i < ops.len() implies #[trigger] tables[i].get(
            ops[i].key(),
            depth,
        ) == answer(replay(tables[0].model(depth), ops.take(i)), ops[i]) by {
            if i < n {
                assert(earlier[i] == tables[i]);
                assert(ops.drop_last().take(i) =~= ops.take(i));
                assert(earlier[i].get(ops.drop_last()[i].key(), depth) == answer(
                    replay(earlier[0].model(depth), ops.drop_last().take(i)),
                    ops.drop_last()[i],
                ));
            }
        }
    } else {
        assert(tables.last() == tables[0]);
    }
}

} // verus!
