//! A radix-256 hash trie: an associative map that grows one inner node at a
//! time, never rehashes, and whose every operation is proved against a
//! mathematical map.
//!
//! A key is hashed into an endless stream of bytes. The trie is a tree of
//! tables with 256 slots each. The first byte of a key's stream picks the
//! key's slot in the root. A slot is empty, or holds the leaf of one key, or
//! holds another table, in which the next byte of the stream picks the slot.
//! A leaf turns into a table when a second key comes to its slot; a table
//! never turns back.
//!
//! * [`key`] says what a key is: a value with identifying bytes.
//! * [`sponge`] turns those bytes into the byte stream that steers a descent,
//!   and proves that the streams of two different keys part.
//! * [`protocol`] holds the rules of the three operations: what each of them
//!   does on what it finds in a slot.
//! * [`table`] is the trie for a single owner: the tables, the operations on
//!   them, and what each operation does to the table it is given.
//! * [`changes`] and [`unique`] hold the lemmas behind those operations: what
//!   the change of one slot comes to for the tables above it, and why a key
//!   has one leaf at most.
//! * [`nested_map`] is the map itself, from the root table down.
//! * [`model`] follows the map that a trie stands for through runs of
//!   operations.
//! * [`shared`] follows the trie through the steps of many threads that work
//!   on it at once, and proves that every such run is one serial run of the
//!   operations.
pub mod key;
pub mod sponge;
pub mod protocol;
pub mod table;
pub mod changes;
pub mod unique;
pub mod model;
pub mod nested_map;
pub mod shared;
