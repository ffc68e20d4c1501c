use nested_map::nested_map::NestedMap;
use nested_map::sponge::Sponge;
use std::collections::HashMap;

fn first_byte(key: i32) -> u8 {
    Sponge::new(&key).squeeze()
}

#[test]
fn a_new_map_is_empty() {
    let map: NestedMap<i32, i32> = NestedMap::new();
    for key in 0..1000 {
        assert_eq!(map.lookup(&key), None);
    }
    let map: NestedMap<String, i32> = NestedMap::default();
    assert_eq!(map.lookup(&String::new()), None);
}

#[test]
fn delete_hands_back_the_value() {
    let mut map = NestedMap::new();
    assert_eq!(map.insert("aa", 42), None);
    assert_eq!(map.delete(&"aa"), Ok(42));
    assert_eq!(map.delete(&"aa"), Err(()));
    assert_eq!(map.delete(&"never there"), Err(()));
}

#[test]
fn keys_that_share_their_first_byte() {
    // Find two keys whose streams open with the same byte.
    let mut owner: Vec<Option<i32>> = vec![None; 256];
    let mut pair = None;
    for key in 0..1000 {
        let slot = first_byte(key) as usize;
        if let Some(other) = owner[slot] {
            pair = Some((other, key));
            break;
        }
        owner[slot] = Some(key);
    }
    let (a, b) = pair.unwrap();
    assert_eq!(first_byte(a), first_byte(b));

    let mut map = NestedMap::new();
    assert_eq!(map.insert(a, 1), None);
    assert_eq!(map.insert(b, 2), None);
    assert_eq!(map.lookup(&a), Some(&1));
    assert_eq!(map.lookup(&b), Some(&2));
    assert_eq!(map.delete(&a), Ok(1));
    assert_eq!(map.lookup(&a), None);
    assert_eq!(map.lookup(&b), Some(&2));
    assert_eq!(map.insert(a, 3), None);
    assert_eq!(map.delete(&b), Ok(2));
    assert_eq!(map.lookup(&a), Some(&3));
    assert_eq!(map.lookup(&b), None);
}

#[test]
fn keys_that_share_their_first_two_bytes() {
    let mut map = NestedMap::new();
    assert_eq!(map.insert(391, 'a'), None);
    assert_eq!(map.insert(544, 'b'), None);
    assert_eq!(map.lookup(&391), Some(&'a'));
    assert_eq!(map.lookup(&544), Some(&'b'));
    assert_eq!(map.insert(544, 'c'), Some('b'));
    assert_eq!(map.delete(&391), Ok('a'));
    assert_eq!(map.lookup(&391), None);
    assert_eq!(map.lookup(&544), Some(&'c'));
}

#[test]
fn keys_that_share_their_first_four_bytes() {
    // The streams of 66971 and 81130 open with the same four bytes, those of
    // 710 and 2813 with the same three.
    for (a, b, shared) in [(66971, 81130, 4), (710, 2813, 3)] {
        let mut left = Sponge::new(&a);
        let mut right = Sponge::new(&b);
        for _ in 0..shared {
            assert_eq!(left.squeeze(), right.squeeze());
        }
        assert_ne!(left.squeeze(), right.squeeze());

        let mut map = NestedMap::new();
        assert_eq!(map.insert(a, "a"), None);
        assert_eq!(map.insert(b, "b"), None);
        assert_eq!(map.lookup(&a), Some(&"a"));
        assert_eq!(map.lookup(&b), Some(&"b"));
        assert_eq!(map.delete(&b), Ok("b"));
        assert_eq!(map.lookup(&a), Some(&"a"));
        assert_eq!(map.lookup(&b), None);
        assert_eq!(map.insert(b, "c"), None);
        assert_eq!(map.insert(a, "d"), Some("a"));
        assert_eq!(map.lookup(&b), Some(&"c"));
    }
}

#[test]
fn a_key_has_one_leaf() {
    // However often a key is inserted, one delete takes it out.
    let mut map = NestedMap::new();
    for round in 0..10 {
        let _ = map.insert("again", round);
    }
    assert_eq!(map.delete(&"again"), Ok(9));
    assert_eq!(map.lookup(&"again"), None);
    assert_eq!(map.delete(&"again"), Err(()));
}

#[test]
fn a_second_insert_displaces_the_first() {
    let mut map = NestedMap::new();
    assert_eq!(map.insert(7u64, "first"), None);
    // Work on other keys in between does not matter.
    for other in 100..200u64 {
        assert_eq!(map.insert(other, "noise"), None);
    }
    for other in 100..150u64 {
        assert_eq!(map.delete(&other), Ok("noise"));
    }
    assert_eq!(map.lookup(&7), Some(&"first"));
    assert_eq!(map.insert(7, "second"), Some("first"));
    assert_eq!(map.insert(7, "third"), Some("second"));
    assert_eq!(map.lookup(&7), Some(&"third"));
}

#[test]
fn a_deleted_key_stays_away_until_inserted_again() {
    let mut map = NestedMap::new();
    assert_eq!(map.insert(7u32, 70), None);
    assert_eq!(map.delete(&7), Ok(70));
    for other in 100..200u32 {
        assert_eq!(map.lookup(&7), None);
        assert_eq!(map.insert(other, 0), None);
    }
    for other in 100..200u32 {
        assert_eq!(map.lookup(&7), None);
        assert_eq!(map.delete(&other), Ok(0));
    }
    assert_eq!(map.delete(&7), Err(()));
    assert_eq!(map.lookup(&7), None);
    assert_eq!(map.insert(7, 71), None);
    assert_eq!(map.lookup(&7), Some(&71));
}

#[test]
fn tables_outlive_their_leaves() {
    // Fill the map so deep that many tables hang below the root, empty it,
    // and fill it again: every key is found where it belongs.
    let mut map = NestedMap::new();
    for key in 0..5000 {
        assert_eq!(map.insert(key, key), None);
    }
    for key in 0..5000 {
        assert_eq!(map.delete(&key), Ok(key));
    }
    for key in 0..5000 {
        assert_eq!(map.lookup(&key), None);
    }
    for key in (0..5000).rev() {
        assert_eq!(map.insert(key, -key), None);
    }
    for key in 0..5000 {
        assert_eq!(map.lookup(&key), Some(&-key));
    }
}

#[test]
fn agrees_with_a_reference_map() {
    let mut map: NestedMap<u16, u32> = NestedMap::new();
    let mut reference: HashMap<u16, u32> = HashMap::new();
    let mut state: u64 = 0x2545_f491_4f6c_dd1d;
    for round in 0..200_000u32 {
        state = state
            .wrapping_mul(6364136223846793005)
            .wrapping_add(1442695040888963407);
        let key = ((state >> 33) % 700) as u16;
        match (state >> 20) % 3 {
            0 => assert_eq!(map.insert(key, round), reference.insert(key, round)),
            1 => assert_eq!(map.delete(&key).ok(), reference.remove(&key)),
            _ => assert_eq!(map.lookup(&key), reference.get(&key)),
        }
    }
    for key in 0..700u16 {
        assert_eq!(map.lookup(&key), reference.get(&key));
    }
}

#[test]
fn keys_that_start_one_another() {
    let keys: Vec<Vec<u8>> = vec![
        vec![],
        vec![0],
        vec![0, 0],
        vec![1],
        vec![0, 1],
        vec![1, 0],
        vec![b'a'],
        vec![b'a', 1],
        vec![b'a', 1, 0],
    ];
    let mut map = NestedMap::new();
    for (i, key) in keys.iter().enumerate() {
        assert_eq!(map.insert(key.clone(), i), None);
    }
    for (i, key) in keys.iter().enumerate() {
        assert_eq!(map.lookup(key), Some(&i));
    }
    for (i, key) in keys.iter().enumerate() {
        assert_eq!(map.delete(key), Ok(i));
        assert_eq!(map.lookup(key), None);
        for (j, other) in keys.iter().enumerate().skip(i + 1) {
            assert_eq!(map.lookup(other), Some(&j));
        }
    }
}

#[test]
fn string_keys() {
    let mut map = NestedMap::new();
    for i in 0..2000 {
        assert_eq!(map.insert(format!("key-{i}"), i), None);
    }
    for i in 0..2000 {
        assert_eq!(map.lookup(&format!("key-{i}")), Some(&i));
    }
    assert_eq!(map.lookup(&String::from("key-2000")), None);
    assert_eq!(map.lookup(&String::from("key-")), None);
    assert_eq!(map.insert(String::new(), -1), None);
    assert_eq!(map.lookup(&String::new()), Some(&-1));
}

#[test]
fn values_need_no_equality() {
    struct Opaque(u8);
    let mut map = NestedMap::new();
    assert!(map.insert(1u8, Opaque(10)).is_none());
    let old = map.insert(1u8, Opaque(11));
    assert!(matches!(old, Some(Opaque(10))));
    assert!(matches!(map.lookup(&1), Some(Opaque(11))));
    assert!(matches!(map.delete(&1), Ok(Opaque(11))));
}
