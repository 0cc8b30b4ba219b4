use indexable_sorted_map::IndexableSortedMap;

fn filled(keys: &[i32]) -> IndexableSortedMap<i32, i32> {
    let mut map = IndexableSortedMap::new();
    for k in keys {
        map.insert(*k, *k);
    }
    map
}

fn keys_by_rank(map: &IndexableSortedMap<i32, i32>) -> Vec<i32> {
    let mut out = Vec::new();
    let mut i = 0;
    while let Some((k, _)) = map.index(i) {
        out.push(*k);
        i += 1;
    }
    out
}

const NINE: [i32; 9] = [5, 2, 8, 1, 3, 7, 9, 4, 6];

#[test]
fn empty_map_has_nothing() {
    let map: IndexableSortedMap<i32, i32> = IndexableSortedMap::new();
    assert_eq!(map.len(), 0);
    assert!(map.is_empty());
    assert_eq!(map.lookup(&7), None);
    assert_eq!(map.index(0), None);
    assert!(map.zipper().is_none());
}

#[test]
fn removing_from_an_empty_map_returns_nothing() {
    let mut map: IndexableSortedMap<i32, i32> = IndexableSortedMap::new();
    assert_eq!(map.remove(&1), None);
    assert_eq!(map.len(), 0);
    assert!(map.is_empty());
}

#[test]
fn nine_inserts_are_found_by_key_and_rank() {
    let map = filled(&NINE);
    assert_eq!(map.len(), 9);
    assert!(!map.is_empty());
    assert_eq!(keys_by_rank(&map), vec![1, 2, 3, 4, 5, 6, 7, 8, 9]);
    assert_eq!(map.index(9), None);
    assert_eq!(map.index(4), Some((&5, &5)));
    assert_eq!(map.lookup(&7), Some(&7));
    assert_eq!(map.lookup(&0), None);
    assert_eq!(map.lookup(&10), None);
}

#[test]
fn removing_the_middle_key_shifts_the_ranks() {
    let mut map = filled(&NINE);
    assert_eq!(map.remove(&5), Some(5));
    assert_eq!(map.len(), 8);
    assert_eq!(map.index(4), Some((&6, &6)));
    assert_eq!(map.lookup(&5), None);
    let cursor = map.zipper().unwrap().advance_to(&5).unwrap();
    assert_eq!(*cursor.focus().0, 6);
    assert_eq!(keys_by_rank(&map), vec![1, 2, 3, 4, 6, 7, 8, 9]);
}

#[test]
fn removing_every_key_in_insertion_order_empties_the_map() {
    let mut map = filled(&NINE);
    let mut expected: Vec<i32> = vec![1, 2, 3, 4, 5, 6, 7, 8, 9];
    for k in NINE {
        assert_eq!(map.remove(&k), Some(k));
        expected.retain(|e| *e != k);
        assert_eq!(map.len(), expected.len());
        assert_eq!(keys_by_rank(&map), expected);
        assert_eq!(map.lookup(&k), None);
        for e in &expected {
            assert_eq!(map.lookup(e), Some(e));
        }
    }
    assert_eq!(map.len(), 0);
    assert!(map.is_empty());
    assert!(map.zipper().is_none());
    assert_eq!(map.index(0), None);
}

#[test]
fn a_thousand_scattered_keys_come_out_sorted() {
    let mut state: u64 = 0x2545_f491_4f6c_dd1d;
    let mut keys: Vec<u64> = Vec::new();
    let mut map: IndexableSortedMap<u64, u64> = IndexableSortedMap::new();
    while keys.len() < 1000 {
        state = state.wrapping_mul(6364136223846793005).wrapping_add(1442695040888963407);
        let k = state >> 20;
        if !keys.contains(&k) {
            keys.push(k);
            map.insert(k, k.wrapping_mul(3));
        }
    }
    let mut sorted = keys.clone();
    sorted.sort();
    assert_eq!(map.len(), 1000);
    for i in 0..1000usize {
        let k = sorted[i];
        let v = k.wrapping_mul(3);
        assert_eq!(map.index(i), Some((&k, &v)));
    }
    assert_eq!(map.index(1000), None);
}

#[test]
fn stepping_the_cursor_visits_every_key_once() {
    let map = filled(&NINE);
    let mut cursor = map.zipper();
    let mut seen = Vec::new();
    let mut steps = 0;
    while let Some(c) = cursor {
        seen.push(*c.focus().0);
        cursor = c.advance(1);
        steps += 1;
    }
    assert_eq!(seen, vec![1, 2, 3, 4, 5, 6, 7, 8, 9]);
    assert_eq!(steps, map.len());
}

#[test]
fn stepping_past_the_last_key_ends_the_walk() {
    let map = filled(&NINE);
    let mut cursor = map.zipper().unwrap();
    for expected in 2..=9 {
        cursor = cursor.advance(1).unwrap();
        assert_eq!(cursor.focus(), (&expected, &expected));
    }
    assert!(cursor.advance(1).is_none());
}

#[test]
fn inserting_a_key_again_replaces_its_value() {
    let mut map: IndexableSortedMap<i32, &str> = IndexableSortedMap::new();
    map.insert(4, "four");
    map.insert(4, "vier");
    assert_eq!(map.len(), 1);
    assert_eq!(map.lookup(&4), Some(&"vier"));
    assert_eq!(map.index(0), Some((&4, &"vier")));
    assert_eq!(map.index(1), None);
    for k in [1, 9, 6, 2] {
        map.insert(k, "x");
    }
    map.insert(6, "six");
    map.insert(1, "one");
    assert_eq!(map.len(), 5);
    assert_eq!(map.lookup(&6), Some(&"six"));
    assert_eq!(map.lookup(&1), Some(&"one"));
    assert_eq!(map.lookup(&9), Some(&"x"));
    assert_eq!(map.index(0), Some((&1, &"one")));
    assert_eq!(map.index(3), Some((&6, &"six")));
}

#[test]
fn removing_an_absent_key_changes_nothing() {
    let mut map = filled(&NINE);
    assert_eq!(map.remove(&0), None);
    assert_eq!(map.remove(&10), None);
    assert_eq!(map.len(), 9);
    assert_eq!(keys_by_rank(&map), vec![1, 2, 3, 4, 5, 6, 7, 8, 9]);
    assert_eq!(map.remove(&3), Some(3));
    assert_eq!(map.remove(&3), None);
    assert_eq!(map.len(), 8);
}

#[test]
fn insert_then_remove_restores_the_map() {
    let mut map = filled(&[10, 20, 30, 40, 50, 60, 70]);
    let before = keys_by_rank(&map);
    for k in [5, 15, 25, 35, 45, 55, 65, 75] {
        map.insert(k, -k);
        assert_eq!(map.len(), 8);
        assert_eq!(map.lookup(&k), Some(&-k));
        assert_eq!(map.remove(&k), Some(-k));
        assert_eq!(map.len(), 7);
        assert_eq!(keys_by_rank(&map), before);
        assert_eq!(map.lookup(&k), None);
        for e in &before {
            assert_eq!(map.lookup(e), Some(e));
        }
    }
}

#[test]
fn a_single_entry_map_works() {
    let mut map: IndexableSortedMap<i32, i32> = IndexableSortedMap::new();
    map.insert(3, 30);
    assert_eq!(map.len(), 1);
    assert_eq!(map.index(0), Some((&3, &30)));
    assert_eq!(map.index(1), None);
    let cursor = map.zipper().unwrap();
    assert_eq!(cursor.focus(), (&3, &30));
    assert!(map.zipper().unwrap().advance(1).is_none());
    assert!(map.zipper().unwrap().advance_to(&4).is_none());
    assert_eq!(map.zipper().unwrap().advance_to(&3).unwrap().into_focus(), (&3, &30));
    assert_eq!(map.zipper().unwrap().advance_to(&2).unwrap().into_focus(), (&3, &30));
    assert_eq!(map.zipper().unwrap().advance(0).unwrap().into_focus(), (&3, &30));
    assert_eq!(map.remove(&3), Some(30));
    assert!(map.is_empty());
}

#[test]
fn string_keys_are_ordered_as_strings() {
    let mut map: IndexableSortedMap<String, usize> = IndexableSortedMap::new();
    for (i, w) in ["pear", "apple", "fig", "quince", "cherry"].iter().enumerate() {
        map.insert(w.to_string(), i);
    }
    assert_eq!(map.len(), 5);
    assert_eq!(map.index(0), Some((&"apple".to_string(), &1)));
    assert_eq!(map.index(4), Some((&"quince".to_string(), &3)));
    assert_eq!(map.lookup(&"fig".to_string()), Some(&2));
    assert_eq!(map.lookup(&"grape".to_string()), None);
    let cursor = map.zipper().unwrap().advance_to(&"d".to_string()).unwrap();
    assert_eq!(cursor.focus().0, "fig");
    assert_eq!(map.remove(&"pear".to_string()), Some(0));
    assert_eq!(map.index(3), Some((&"quince".to_string(), &3)));
}
