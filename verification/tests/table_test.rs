use nested_map::protocol::{DeleteStep, Found, InsertStep, LookupStep};
use nested_map::sponge::Sponge;
use nested_map::table::{Bucket, Entry, Table};

fn leaf(key: i32, value: Option<i32>) -> Box<Bucket<i32, i32>> {
    Box::new(Bucket::Leaf(Entry { key, value }))
}

fn first_bytes(key: i32, n: usize) -> Vec<u8> {
    let mut sponge = Sponge::new(&key);
    let mut out = Vec::new();
    for _ in 0..n {
        out.push(sponge.squeeze());
    }
    out
}

#[test]
fn bucket_get_key() {
    let bucket: Bucket<i32, i32> = Bucket::Leaf(Entry { key: 5, value: Some(6) });
    assert_eq!(bucket.get_key(), Some(&5));
    let branch: Bucket<i32, i32> = Bucket::Branch(Table::default());
    assert_eq!(branch.get_key(), None);
}

#[test]
fn bucket_into_value() {
    let bucket: Bucket<i32, i32> = Bucket::Leaf(Entry { key: 5, value: Some(6) });
    assert_eq!(bucket.into_value(), Ok(6));
    let hollow: Bucket<i32, i32> = Bucket::Leaf(Entry { key: 5, value: None });
    assert_eq!(hollow.into_value(), Err(()));
    let branch: Bucket<i32, i32> = Bucket::Branch(Table::default());
    assert_eq!(branch.into_value(), Err(()));
}

#[test]
fn an_empty_table_holds_nothing() {
    let table: Table<i32, i32> = Table::default();
    for key in -300..300 {
        assert_eq!(table.lookup(&key, Sponge::new(&key)), None);
    }
}

#[test]
fn table_insert_then_lookup_then_delete() {
    let mut table: Table<i32, i32> = Table::default();
    assert_eq!(table.insert(leaf(1, Some(10)), &mut Sponge::new(&1)), None);
    assert_eq!(table.insert(leaf(2, Some(20)), &mut Sponge::new(&2)), None);
    assert_eq!(table.lookup(&1, Sponge::new(&1)), Some(&10));
    assert_eq!(table.lookup(&2, Sponge::new(&2)), Some(&20));
    assert_eq!(table.lookup(&3, Sponge::new(&3)), None);
    assert_eq!(table.insert(leaf(1, Some(11)), &mut Sponge::new(&1)), Some(10));
    assert_eq!(table.delete(&1, &mut Sponge::new(&1)), Ok(11));
    assert_eq!(table.delete(&1, &mut Sponge::new(&1)), Err(()));
    assert_eq!(table.lookup(&1, Sponge::new(&1)), None);
    assert_eq!(table.lookup(&2, Sponge::new(&2)), Some(&20));
}

#[test]
fn a_leaf_without_a_value_counts_as_absent() {
    let mut table: Table<i32, i32> = Table::default();
    assert_eq!(table.insert(leaf(1, None), &mut Sponge::new(&1)), None);
    assert_eq!(table.lookup(&1, Sponge::new(&1)), None);
    // Putting a value over it displaces nothing.
    assert_eq!(table.insert(leaf(1, Some(5)), &mut Sponge::new(&1)), None);
    assert_eq!(table.lookup(&1, Sponge::new(&1)), Some(&5));
    // Putting no value over a value hands the value back and leaves none.
    assert_eq!(table.insert(leaf(1, None), &mut Sponge::new(&1)), Some(5));
    assert_eq!(table.lookup(&1, Sponge::new(&1)), None);
    assert_eq!(table.delete(&1, &mut Sponge::new(&1)), Err(()));
}

#[test]
fn a_leaf_without_a_value_still_splits() {
    // 4 and 6 share the first byte of their streams.
    assert_eq!(first_bytes(4, 1), first_bytes(6, 1));
    let mut table: Table<i32, i32> = Table::default();
    assert_eq!(table.insert(leaf(4, None), &mut Sponge::new(&4)), None);
    assert_eq!(table.insert(leaf(6, Some(60)), &mut Sponge::new(&6)), None);
    assert_eq!(table.lookup(&4, Sponge::new(&4)), None);
    assert_eq!(table.lookup(&6, Sponge::new(&6)), Some(&60));
    assert_eq!(table.insert(leaf(4, Some(40)), &mut Sponge::new(&4)), None);
    assert_eq!(table.lookup(&4, Sponge::new(&4)), Some(&40));
}

#[test]
fn insert_leaves_the_sponge_one_past_the_leaf() {
    // 391 and 544 share the first two bytes of their streams, and part at
    // the third.
    assert_eq!(first_bytes(391, 2), first_bytes(544, 2));
    assert_ne!(first_bytes(391, 3), first_bytes(544, 3));
    let mut table: Table<i32, i32> = Table::default();
    let mut first = Sponge::new(&391);
    assert_eq!(table.insert(leaf(391, Some(1)), &mut first), None);
    // The leaf lies in the root: one byte was squeezed.
    assert_eq!(first.squeeze(), first_bytes(391, 2)[1]);
    let mut second = Sponge::new(&544);
    assert_eq!(table.insert(leaf(544, Some(2)), &mut second), None);
    // Both leaves now lie two tables below the root: three bytes were squeezed.
    assert_eq!(second.squeeze(), first_bytes(544, 4)[3]);
    let mut again = Sponge::new(&391);
    assert_eq!(table.delete(&391, &mut again), Ok(1));
    assert_eq!(again.squeeze(), first_bytes(391, 4)[3]);
    // The tables stay where they are: a miss for 391 still takes three bytes.
    let mut miss = Sponge::new(&391);
    assert_eq!(table.delete(&391, &mut miss), Err(()));
    assert_eq!(miss.squeeze(), first_bytes(391, 4)[3]);
    assert_eq!(table.lookup(&544, Sponge::new(&544)), Some(&2));
}

#[test]
fn delete_of_another_key_in_the_same_slot_removes_nothing() {
    assert_eq!(first_bytes(4, 1), first_bytes(6, 1));
    let mut table: Table<i32, i32> = Table::default();
    assert_eq!(table.insert(leaf(4, Some(40)), &mut Sponge::new(&4)), None);
    assert_eq!(table.delete(&6, &mut Sponge::new(&6)), Err(()));
    assert_eq!(table.lookup(&4, Sponge::new(&4)), Some(&40));
}

#[test]
fn found_of_leaf() {
    let entry = Entry { key: 4, value: Some(40) };
    assert_eq!(Found::of_leaf(&entry, &4), Found::Same);
    assert_eq!(Found::of_leaf(&entry, &6), Found::Other);
}

#[test]
fn steps_of_the_operations() {
    assert_eq!(Found::Nothing.lookup_step(), LookupStep::Miss);
    assert_eq!(Found::Same.lookup_step(), LookupStep::Hit);
    assert_eq!(Found::Other.lookup_step(), LookupStep::Miss);
    assert_eq!(Found::Branch.lookup_step(), LookupStep::Descend);

    assert_eq!(Found::Nothing.insert_step(), InsertStep::Publish);
    assert_eq!(Found::Same.insert_step(), InsertStep::Replace);
    assert_eq!(Found::Other.insert_step(), InsertStep::Split);
    assert_eq!(Found::Branch.insert_step(), InsertStep::Descend);

    assert_eq!(Found::Nothing.delete_step(), DeleteStep::Miss);
    assert_eq!(Found::Same.delete_step(), DeleteStep::Unlink);
    assert_eq!(Found::Other.delete_step(), DeleteStep::Miss);
    assert_eq!(Found::Branch.delete_step(), DeleteStep::Descend);
}
