//! The trie shared between threads.
//!
//! When many threads work on one trie, each operation still comes down one
//! slot at a time, but between its look at a slot and its change to the slot
//! other threads may have changed the trie. An operation therefore changes a
//! slot with a single swap that goes through only if the slot still holds
//! what the operation read there, and reads again where the swap fails.
//!
//! This module states that protocol as a transition system over the trie and
//! the threads at work in it, and proves of every step, whoever takes it and
//! whatever the others have done in between: the trie stays sound; the map
//! that the trie stands for changes only in the one step in which an
//! operation takes effect, and then as that operation alone would change it;
//! what the operation hands back is what the map held at that step; no
//! table ever leaves the trie; and a swap fails only where the swap of
//! another thread has gone through in the meantime.
use vstd::prelude::*;
use crate::key::Key;
use crate::model::{after, answer, replay, Op};
use crate::protocol::{DeleteStep, Found, InsertStep, LookupStep};
use crate::sponge::{follows, lemma_follows_on, stream, stream_prefix};
use crate::table::{Bucket, Entry, Table};

verus! {

/// What a thread is at work on.
pub enum Task<K, V> {
    /// Looking up the key with these bytes.
    Lookup(Seq<u8>),
    /// Putting this leaf in.
    Insert(Entry<K, V>),
    /// Taking out the key with these bytes.
    Delete(Seq<u8>),
}

/// How far a thread has come with its task.
pub enum Phase<K, V> {
    /// About to read its slot.
    Reading,
    /// Has read this in its slot, and is about to swap the slot.
    Swapping(Option<Bucket<K, V>>),
    /// Has taken effect, and is about to hand this back.
    Done(Option<V>),
}

/// A thread at work in the trie.
pub struct Thread<K, V> {
    /// What it is at work on.
    pub task: Task<K, V>,
    /// The slots it has come down through, from the root.
    pub path: Seq<u8>,
    /// How far it has come.
    pub phase: Phase<K, V>,
    /// How many swaps had gone through in the trie when it last read a slot.
    pub read_at: nat,
}

/// The trie and the threads at work in it.
pub struct State<K, V> {
    /// The root table.
    pub root: Table<K, V>,
    /// The threads at work, by their numbers.
    pub threads: Map<nat, Thread<K, V>>,
    /// How many swaps have gone through.
    pub changes: nat,
    /// For each slot that was ever swapped, by the path to its table and its
    /// index there, the count of swaps with the last one that hit it.
    pub changed_at: Map<(Seq<u8>, int), nat>,
}

impl<K: Key, V> Task<K, V> {
    /// The bytes of the key that the task is about.
    pub open spec fn seed(self) -> Seq<u8> {
        match self {
            Task::Lookup(seed) => seed,
            Task::Insert(leaf) => leaf.key.ident(),
            Task::Delete(seed) => seed,
        }
    }

    /// The operation on the map that the task comes to. A leaf without a
    /// value counts as absent, so to put one in is to take its key out.
    pub open spec fn op(self) -> Op<V> {
        match self {
            Task::Lookup(seed) => Op::Lookup(seed),
            Task::Insert(leaf) => match leaf.value {
                Some(value) => Op::Insert(leaf.key.ident(), value),
                None => Op::Delete(leaf.key.ident()),
            },
            Task::Delete(seed) => Op::Delete(seed),
        }
    }
}

impl<K: Key, V> Thread<K, V> {
    /// The slot that the thread has come to, in the table at the end of its
    /// path.
    pub open spec fn index(self) -> int {
        stream(self.task.seed(), self.path.len()) as int
    }

    /// The thread one table further down.
    pub open spec fn descended(self) -> Self {
        Thread {
            task: self.task,
            path: self.path.push(self.index() as u8),
            phase: self.phase,
            read_at: self.read_at,
        }
    }

    /// The thread in another phase.
    pub open spec fn in_phase(self, phase: Phase<K, V>) -> Self {
        Thread { task: self.task, path: self.path, phase, read_at: self.read_at }
    }

    /// The thread with a later reading.
    pub open spec fn read_now(self, now: nat) -> Self {
        Thread { task: self.task, path: self.path, phase: self.phase, read_at: now }
    }

    /// The thread once it has read `bucket` in its slot: it goes down, it is
    /// done, or it sets out to swap the slot, as the step of its operation
    /// on what it found says.
    pub open spec fn after_read(self, bucket: Option<Bucket<K, V>>) -> Self {
        let found = Found::of(bucket, self.task.seed());
        match self.task {
            Task::Lookup(_) => match found.lookup_step_spec() {
                LookupStep::Miss => self.in_phase(Phase::Done(None)),
                LookupStep::Hit => self.in_phase(Phase::Done(bucket->Some_0->Leaf_0.value)),
                LookupStep::Descend => self.descended(),
            },
            Task::Insert(_) => match found.insert_step_spec() {
                InsertStep::Descend => self.descended(),
                _ => self.in_phase(Phase::Swapping(bucket)),
            },
            Task::Delete(_) => match found.delete_step_spec() {
                DeleteStep::Miss => self.in_phase(Phase::Done(None)),
                DeleteStep::Unlink => self.in_phase(Phase::Swapping(bucket)),
                DeleteStep::Descend => self.descended(),
            },
        }
    }

    /// Whether the thread, having read `seen` in its slot, may swap `bucket`
    /// into the slot.
    pub open spec fn may_put(self, seen: Option<Bucket<K, V>>, bucket: Option<Bucket<K, V>>) -> bool {
        let seed = self.task.seed();
        match self.task {
            Task::Lookup(_) => false,
            Task::Insert(leaf) => match Found::of(seen, seed).insert_step_spec() {
                InsertStep::Publish => bucket == Some(Bucket::Leaf(leaf)),
                InsertStep::Replace => bucket == Some(Bucket::Leaf(leaf)),
                InsertStep::Split => bucket matches Some(Bucket::Branch(table)) && table.is_pair_of(
                    stream_prefix(seed, self.path.len() + 1),
                    leaf,
                    seen->Some_0->Leaf_0,
                ),
                InsertStep::Descend => false,
            },
            Task::Delete(_) => Found::of(seen, seed).delete_step_spec() is Unlink && bucket is None,
        }
    }

    /// What the thread hands back once its swap has gone through: the value
    /// of its own key's leaf, if that is what it saw in the slot.
    pub open spec fn handed_back(self, seen: Option<Bucket<K, V>>) -> Option<V> {
        match seen {
            Some(Bucket::Leaf(entry)) => if entry.key.ident() == self.task.seed() {
                entry.value
            } else {
                None
            },
            _ => None,
        }
    }
}

impl<K: Key, V> State<K, V> {
    /// The map that the trie stands for.
    pub open spec fn map(self) -> Map<Seq<u8>, V> {
        self.root.model(0)
    }

    /// Whether nobody has swapped the slot of a thread since the thread read
    /// it.
    pub open spec fn unswapped(self, thread: Thread<K, V>) -> bool {
        self.changed_at.contains_key((thread.path, thread.index())) ==> self.changed_at[(
            thread.path,
            thread.index(),
        )] <= thread.read_at
    }

    /// A thread is in its place: it has come down along the stream of its
    /// key, a table hangs where it stands, and if it is about to swap a slot
    /// that nobody has swapped since it read it, the slot holds what it read.
    pub open spec fn in_place(self, thread: Thread<K, V>) -> bool {
        &&& follows(thread.task.seed(), 0, thread.path)
        &&& self.root.has_table(thread.path)
        &&& thread.read_at <= self.changes
        &&& thread.phase matches Phase::Swapping(seen) ==> {
            &&& !(seen matches Some(Bucket::Branch(_)))
            &&& self.unswapped(thread) ==> self.root.slot_at(thread.path, thread.index()) == seen
        }
    }

    /// The state is sound: the trie is, every thread is in its place, and no
    /// slot was swapped later than now.
    pub open spec fn sound(self) -> bool {
        &&& self.root.wf(Seq::empty())
        &&& forall|id: nat| self.threads.contains_key(id) ==> self.in_place(#[trigger] self.threads[id])
        &&& forall|slot: (Seq<u8>, int)|
            self.changed_at.contains_key(slot) ==> #[trigger] self.changed_at[slot] <= self.changes
    }

    /// Whether a step leaves the trie as it is.
    pub open spec fn rests(self, next: Self) -> bool {
        &&& next.root == self.root
        &&& next.changes == self.changes
        &&& next.changed_at == self.changed_at
    }

    /// A thread sets out on a task, at the root.
    pub open spec fn begins(self, next: Self, id: nat, task: Task<K, V>) -> bool {
        &&& !self.threads.contains_key(id)
        &&& self.rests(next)
        &&& next.threads == self.threads.insert(
            id,
            Thread { task, path: Seq::empty(), phase: Phase::Reading, read_at: self.changes },
        )
    }

    /// A thread reads its slot.
    pub open spec fn reads(self, next: Self, id: nat) -> bool {
        &&& self.threads.contains_key(id)
        &&& self.threads[id].phase is Reading
        &&& self.rests(next)
        &&& next.threads == self.threads.insert(
            id,
            self.threads[id].read_now(self.changes).after_read(
                self.root.slot_at(self.threads[id].path, self.threads[id].index()),
            ),
        )
    }

    /// A thread swaps `bucket` into its slot, which holds what the thread
    /// read there.
    ///
    /// A swap compares the pointer in the slot with the pointer that was
    /// read. Buckets do not change, and the memory of a bucket is not used
    /// again while a thread that read it is at work. So where the pointers
    /// are the same, the slot holds what was read: no more is asked of a swap
    /// that goes through. And where they differ, the slot was swapped since
    /// it was read: no more is asked of a swap that fails.
    pub open spec fn swaps(self, next: Self, id: nat, bucket: Option<Bucket<K, V>>) -> bool {
        &&& self.threads.contains_key(id)
        &&& self.threads[id].phase matches Phase::Swapping(seen) && {
            &&& self.root.slot_at(self.threads[id].path, self.threads[id].index()) == seen
            &&& self.threads[id].may_put(seen, bucket)
            &&& next.threads == self.threads.insert(
                id,
                self.threads[id].in_phase(Phase::Done(self.threads[id].handed_back(seen))),
            )
        }
        &&& next.root.is_swap_of(
            &self.root,
            self.threads[id].path,
            self.threads[id].index(),
            bucket,
        )
        &&& next.changes == self.changes + 1
        &&& next.changed_at == self.changed_at.insert(
            (self.threads[id].path, self.threads[id].index()),
            self.changes + 1,
        )
    }

    /// The swap of a thread fails, because its slot was swapped since it
    /// read it, and the thread goes back to read the slot again.
    pub open spec fn retries(self, next: Self, id: nat) -> bool {
        &&& self.threads.contains_key(id)
        &&& self.threads[id].phase is Swapping
        &&& !self.unswapped(self.threads[id])
        &&& self.rests(next)
        &&& next.threads == self.threads.insert(id, self.threads[id].in_phase(Phase::Reading))
    }

    /// A thread that is done leaves.
    pub open spec fn ends(self, next: Self, id: nat) -> bool {
        &&& self.threads.contains_key(id)
        &&& self.threads[id].phase is Done
        &&& self.rests(next)
        &&& next.threads == self.threads.remove(id)
    }

    /// One thread takes one step.
    pub open spec fn steps_to(self, next: Self, id: nat) -> bool {
        ||| exists|task: Task<K, V>| self.begins(next, id, task)
        ||| self.reads(next, id)
        ||| exists|bucket: Option<Bucket<K, V>>| self.swaps(next, id, bucket)
        ||| self.retries(next, id)
        ||| self.ends(next, id)
    }

    /// Whether the task of a thread takes effect in a step: the thread was at
    /// work before the step and is done after it.
    pub open spec fn takes_effect(self, next: Self, id: nat) -> bool {
        &&& self.threads.contains_key(id)
        &&& !(self.threads[id].phase is Done)
        &&& next.threads.contains_key(id)
        &&& next.threads[id].phase is Done
    }
}

impl<K: Key, V> State<K, V> {
    /// A read changes nothing in the trie and leaves the state sound. Where
    /// it ends the task of its thread, the task changes nothing in the map,
    /// and what the thread hands back is the map's answer to it.
    pub proof fn lemma_read(self, next: Self, id: nat)
        requires
            self.sound(),
            self.reads(next, id),
        ensures
            next.sound(),
            self.rests(next),
            self.takes_effect(next, id) ==> {
                &&& after(self.map(), self.threads[id].task.op()) == self.map()
                &&& next.threads[id].phase == Phase::<K, V>::Done(
                    answer(self.map(), self.threads[id].task.op()),
                )
            },
    {
        let thread: Thread<K, V> = self.threads[id];
        let seed: Seq<u8> = thread.task.seed();
        let bucket: Option<Bucket<K, V>> = self.root.slot_at(thread.path, thread.index());
        let moved: Thread<K, V> = thread.read_now(self.changes).after_read(bucket);
        assert(self.in_place(thread));
        self.root.lemma_reach_along(seed, 0, thread.path);
        self.root.lemma_model_value(seed, 0);
        if moved.path != thread.path {
            lemma_follows_on(seed, 0, thread.path);
            self.root.lemma_table_below(thread.path, thread.index() as u8);
        }
        assert forall|other: nat| next.threads.contains_key(other) implies next.in_place(
            #[trigger] next.threads[other],
        ) by {
            if other != id {
                assert(self.in_place(self.threads[other]));
            }
        }
        if self.takes_effect(next, id) {
            assert(self.root.get(seed, 0) is None ==> self.map().remove(seed) =~= self.map());
        }
    }

    /// A swap leaves the state sound and takes no table out of the trie. It
    /// is the step in which the task of its thread takes effect: it changes
    /// the map as the task's operation does, and what the thread hands back
    /// is the map's answer to that operation.
    pub proof fn lemma_swap(self, next: Self, id: nat, bucket: Option<Bucket<K, V>>)
        requires
            self.sound(),
            self.swaps(next, id, bucket),
        ensures
            next.sound(),
            forall|path: Seq<u8>| #[trigger]
                self.root.has_branch(path) ==> next.root.has_branch(path),
            self.takes_effect(next, id),
            next.map() == after(self.map(), self.threads[id].task.op()),
            next.threads[id].phase == Phase::<K, V>::Done(
                answer(self.map(), self.threads[id].task.op()),
            ),
    {
        let thread: Thread<K, V> = self.threads[id];
        let seed: Seq<u8> = thread.task.seed();
        let seen: Option<Bucket<K, V>> = thread.phase->Swapping_0;
        let none: Seq<u8> = Seq::empty();
        assert(self.in_place(thread));
        assert(stream_prefix(seed, 0) =~= none);
        self.root.lemma_reach_along(seed, 0, thread.path);
        self.root.lemma_model_value(seed, 0);
        match thread.task {
            Task::Lookup(_) => {},
            Task::Insert(leaf) => {
                match Found::of(seen, seed).insert_step_spec() {
                    InsertStep::Split => {
                        next.root.lemma_split_at(
                            &self.root,
                            none,
                            thread.path,
                            leaf,
                            seen->Some_0->Leaf_0,
                            bucket->Some_0->Branch_0,
                        );
                    },
                    _ => {
                        next.root.lemma_placed_at(&self.root, none, thread.path, leaf);
                    },
                }
                next.root.lemma_insert_model(&self.root, none, leaf);
            },
            Task::Delete(_) => {
                next.root.lemma_removed_at(&self.root, none, thread.path, seed);
                next.root.lemma_delete_model(&self.root, none, seed);
            },
        }
        assert forall|path: Seq<u8>| #[trigger] self.root.has_branch(path) implies next.root.has_branch(
            path,
        ) by {}
        assert forall|other: nat| next.threads.contains_key(other) implies next.in_place(
            #[trigger] next.threads[other],
        ) by {
            let t: Thread<K, V> = next.threads[other];
            if other != id {
                assert(self.in_place(self.threads[other]));
                if t.phase is Swapping && next.unswapped(t) {
                    assert(self.changed_at.contains_key((t.path, t.index()))
                        ==> self.changed_at[(t.path, t.index())] <= self.changes);
                    assert(!(t.path == thread.path && t.index() == thread.index()));
                    assert(self.unswapped(t));
                    next.root.lemma_swap_elsewhere(
                        &self.root,
                        thread.path,
                        thread.index(),
                        bucket,
                        t.path,
                        t.index(),
                    );
                }
            }
            if t.path.len() > 0 {
                assert(self.root.has_branch(t.path));
            }
        }
    }

    /// No swap fails idly: when the swap of a thread fails, a swap of another
    /// thread has gone through since the thread read its slot.
    pub proof fn lemma_retry_was_beaten(self, next: Self, id: nat)
        requires
            self.sound(),
            self.retries(next, id),
        ensures
            self.threads[id].read_at < self.changes,
    {
        let thread: Thread<K, V> = self.threads[id];
        assert(self.changed_at[(thread.path, thread.index())] <= self.changes);
    }

    /// However the threads have stepped, the trie holds one leaf for each key
    /// that has one, and none for any other key.
    pub proof fn lemma_one_leaf_per_key(self, seed: Seq<u8>)
        requires
            self.sound(),
        ensures
            self.root.leaves(seed) == if self.root.holds(seed, 0) {
                1nat
            } else {
                0nat
            },
    {
        self.root.lemma_one_leaf(Seq::empty(), seed);
    }

    /// Whatever step a thread takes: the state stays sound; no table leaves
    /// the trie; the threads that did not move are as they were; and the map
    /// that the trie stands for changes only if the step is the one in which
    /// the thread's task takes effect, and then as the task's operation
    /// changes it, while the thread hands back the map's answer to that
    /// operation.
    pub proof fn lemma_step(self, next: Self, id: nat)
        requires
            self.sound(),
            self.steps_to(next, id),
        ensures
            next.sound(),
            forall|path: Seq<u8>| #[trigger]
                self.root.has_branch(path) ==> next.root.has_branch(path),
            forall|other: nat|
                other != id ==> next.threads.contains_key(other) == self.threads.contains_key(other)
                    && #[trigger] next.threads[other] == self.threads[other],
            self.takes_effect(next, id) ==> {
                &&& next.map() == after(self.map(), self.threads[id].task.op())
                &&& next.threads[id].phase == Phase::<K, V>::Done(
                    answer(self.map(), self.threads[id].task.op()),
                )
            },
            !self.takes_effect(next, id) ==> next.map() == self.map(),
    {
        if self.reads(next, id) {
            self.lemma_read(next, id);
        } else if exists|bucket: Option<Bucket<K, V>>| self.swaps(next, id, bucket) {
            let bucket = choose|bucket: Option<Bucket<K, V>>| self.swaps(next, id, bucket);
            self.lemma_swap(next, id, bucket);
        } else {
            assert forall|other: nat| next.threads.contains_key(other) implies next.in_place(
                #[trigger] next.threads[other],
            ) by {
                if other != id {
                    assert(self.in_place(self.threads[other]));
                } else if self.retries(next, id) {
                    assert(self.in_place(self.threads[id]));
                }
            }
        }
    }
}

/// Whether `states` is a run of the trie: each state comes from the one
/// before it by one step, taken by the thread that `movers` names for it.
pub open spec fn is_run<K: Key, V>(states: Seq<State<K, V>>, movers: Seq<nat>) -> bool {
    &&& states.len() == movers.len() + 1
    &&& forall|i: int|
        0 <= i < movers.len() ==> states[i].steps_to(states[i + 1], #[trigger] movers[i])
}

/// The operations that take effect in a run, in the order in which they do.
pub open spec fn effects<K: Key, V>(states: Seq<State<K, V>>, movers: Seq<nat>) -> Seq<Op<V>>
    decreases movers.len(),
{
    if movers.len() == 0 || states.len() != movers.len() + 1 {
        Seq::empty()
    } else {
        let earlier = effects(states.drop_last(), movers.drop_last());
        let last: int = movers.len() - 1;
        if states[last].takes_effect(states[last + 1], movers[last]) {
            earlier.push(states[last].threads[movers[last]].task.op())
        } else {
            earlier
        }
    }
}

/// The start of a run is a run.
proof fn lemma_run_start<K: Key, V>(states: Seq<State<K, V>>, movers: Seq<nat>, n: int)
    requires
        is_run(states, movers),
        0 <= n <= movers.len(),
    ensures
        is_run(states.take(n + 1), movers.take(n)),
{
    let before = states.take(n + 1);
    let moved = movers.take(n);
    assert forall|i: int| 0 <= i < moved.len() implies before[i].steps_to(
        before[i + 1],
        #[trigger] moved[i],
    ) by {
        assert(states[i].steps_to(states[i + 1], movers[i]));
    }
}

/// Every run of the trie is one serial run of its operations: from a sound
/// state, however the steps of the threads fall among each other, the state
/// stays sound, no table leaves the trie, and the map that the trie stands
/// for at the end is the map that the operations make of the first map when
/// they are done one after the other, in the order in which they took
/// effect.
pub proof fn lemma_run_is_serial<K: Key, V>(states: Seq<State<K, V>>, movers: Seq<nat>)
    requires
        is_run(states, movers),
        states[0].sound(),
    ensures
        states.last().sound(),
        forall|path: Seq<u8>| #[trigger]
            states[0].root.has_branch(path) ==> states.last().root.has_branch(path),
        states.last().map() == replay(states[0].map(), effects(states, movers)),
    decreases movers.len(),
{
    if movers.len() > 0 {
        let last: int = movers.len() - 1;
        let before = states.drop_last();
        let moved = movers.drop_last();
        lemma_run_start(states, movers, last);
        assert(states.take(last + 1) =~= before);
        assert(movers.take(last) =~= moved);
        lemma_run_is_serial(before, moved);
        let s: State<K, V> = states[last];
        let next: State<K, V> = states[last + 1];
        let id: nat = movers[last];
        assert(before.last() == s);
        assert(before[0] == states[0]);
        assert(states.last() == next);
        assert(s.steps_to(next, id));
        s.lemma_step(next, id);
        let earlier = effects(before, moved);
        assert(s.map() == replay(states[0].map(), earlier));
        if s.takes_effect(next, id) {
            let op: Op<V> = s.threads[id].task.op();
            assert(effects(states, movers) == earlier.push(op));
            assert(earlier.push(op).drop_last() =~= earlier);
            assert(earlier.push(op).last() == op);
        } else {
            assert(effects(states, movers) == earlier);
        }
    } else {
        assert(states.last() == states[0]);
    }
}

/// What an operation hands back in a run of the trie is what it would hand
/// back in the serial run of the operations that took effect before it.
pub proof fn lemma_run_answers<K: Key, V>(states: Seq<State<K, V>>, movers: Seq<nat>, at: int)
    requires
        is_run(states, movers),
        states[0].sound(),
        0 <= at < movers.len(),
        states[at].takes_effect(states[at + 1], movers[at]),
    ensures
        states[at + 1].threads[movers[at]].phase == Phase::<K, V>::Done(
            answer(
                replay(states[0].map(), effects(states.take(at + 1), movers.take(at))),
                states[at].threads[movers[at]].task.op(),
            ),
        ),
{
    let before = states.take(at + 1);
    let moved = movers.take(at);
    lemma_run_start(states, movers, at);
    lemma_run_is_serial(before, moved);
    assert(before.last() == states[at]);
    assert(before[0] == states[0]);
    assert(states[at].steps_to(states[at + 1], movers[at]));
    states[at].lemma_step(states[at + 1], movers[at]);
}

} // verus!
