use nested_map::nested_map::NestedMap;
use rayon::iter::{IntoParallelIterator, ParallelIterator};
use std::sync::{Mutex, RwLock};

#[test]
fn workers_insert_disjoint_ranges_then_all_look_up() {
    let workers: u32 = 8;
    let each: u32 = 2000;
    let map = RwLock::new(NestedMap::new());
    (0..workers).into_par_iter().for_each(|w| {
        for key in w * each..(w + 1) * each {
            assert!(map.write().unwrap().insert(key, key + 1).is_none());
        }
    });
    (0..workers).into_par_iter().for_each(|_| {
        let map = map.read().unwrap();
        for key in 0..workers * each {
            assert_eq!(map.lookup(&key), Some(&(key + 1)));
        }
        assert_eq!(map.lookup(&(workers * each)), None);
    });
}

#[test]
fn racing_inserts_of_one_key_lose_no_value() {
    let racers: usize = 64;
    let map = Mutex::new(NestedMap::new());
    let displaced: Vec<Option<usize>> = (0..racers)
        .into_par_iter()
        .map(|value| map.lock().unwrap().insert("the key", value))
        .collect();
    let map = map.into_inner().unwrap();
    let stored = *map.lookup(&"the key").unwrap();
    assert!(stored < racers);
    // Exactly one insert found the key unoccupied, and the values handed
    // back, with the one that stayed, are all the values that went in.
    assert_eq!(displaced.iter().filter(|d| d.is_none()).count(), 1);
    let mut seen: Vec<usize> = displaced.into_iter().flatten().collect();
    seen.push(stored);
    seen.sort();
    assert_eq!(seen, (0..racers).collect::<Vec<usize>>());
}

#[test]
fn churn_on_one_key_stays_consistent() {
    let rounds: usize = 20_000;
    let map = Mutex::new(NestedMap::new());
    // Every round inserts its own number, or deletes; whatever comes back
    // is a number that an insert has put in, and no number comes back twice.
    let out: Vec<Option<usize>> = (0..rounds)
        .into_par_iter()
        .map(|round| {
            if round % 2 == 0 {
                map.lock().unwrap().insert(0u8, round)
            } else {
                map.lock().unwrap().delete(&0u8).ok()
            }
        })
        .collect();
    let map = map.into_inner().unwrap();
    let mut back: Vec<usize> = out.into_iter().flatten().collect();
    if let Some(last) = map.lookup(&0u8) {
        back.push(*last);
    }
    back.sort();
    // All the numbers inserted, each once.
    assert_eq!(back, (0..rounds).step_by(2).collect::<Vec<usize>>());
}
