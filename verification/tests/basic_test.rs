use nested_map::nested_map::NestedMap;
use rayon::iter::{IntoParallelIterator, ParallelIterator};
use std::sync::Mutex;

#[test]
fn smoke() {
    let mut map = NestedMap::default();
    assert!(map.insert("aa", 42).is_none());
    assert!(map.insert("bb", 58).is_none());
    assert_eq!(map.insert("aa", 37), Some(42));
    assert_eq!(map.lookup(&"aa"), Some(&37));
    assert_eq!(map.lookup(&"bb"), Some(&58));
    assert!(map.delete(&"aa").is_ok());
    assert_eq!(map.lookup(&"aa"), None);
}

#[test]
fn insert_same_bucket() {
    let mut map = NestedMap::default();
    assert!(map.insert(91, 1).is_none());
    assert!(map.insert(256, 2).is_none());
    assert_eq!(map.lookup(&91), Some(&1));
    assert_eq!(map.lookup(&256), Some(&2));
    assert!(map.delete(&91).is_ok());
    assert_eq!(map.lookup(&91), None);
    assert_eq!(map.lookup(&256), Some(&2));
}

#[test]
fn insert_many() {
    let mut map = NestedMap::default();

    for i in 0..100000 {
        assert!(map.insert(i, i * 5).is_none());
    }
    for i in 0..100000 {
        assert_eq!(map.lookup(&i), Some(&(i * 5)));
    }
}

#[test]
fn insert_rayon() {
    let map = Mutex::new(NestedMap::default());

    (0..10000).into_par_iter().for_each(|i| {
        assert!(map.lock().unwrap().insert(i, i * 5).is_none());
    });
    let map = map.into_inner().unwrap();
    (0..10000).into_par_iter().for_each(|i| {
        assert_eq!(map.lookup(&i), Some(&(i * 5)));
    });
}
