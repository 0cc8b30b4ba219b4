use indexable_sorted_map::IndexableSortedMap;
use std::collections::BTreeMap;

fn next(state: &mut u64) -> u64 {
    *state ^= *state << 13;
    *state ^= *state >> 7;
    *state ^= *state << 17;
    *state
}

fn same_entries(map: &IndexableSortedMap<u32, u64>, model: &BTreeMap<u32, u64>) {
    assert_eq!(map.len(), model.len());
    assert_eq!(map.is_empty(), model.is_empty());
    let mut previous: Option<u32> = None;
    for (i, (k, v)) in model.iter().enumerate() {
        assert_eq!(map.index(i), Some((k, v)));
        assert_eq!(map.lookup(k), Some(v));
        if let Some(p) = previous {
            assert!(p < *k);
        }
        previous = Some(*k);
    }
    assert_eq!(map.index(model.len()), None);
    let mut cursor = map.zipper();
    for (k, v) in model.iter() {
        let c = cursor.unwrap();
        assert_eq!(c.focus(), (k, v));
        cursor = c.advance(1);
    }
    assert!(cursor.is_none());
}

#[test]
fn random_inserts_and_removes_match_a_btreemap() {
    let mut state: u64 = 88172645463325252;
    for round in 0..20 {
        let mut map: IndexableSortedMap<u32, u64> = IndexableSortedMap::new();
        let mut model: BTreeMap<u32, u64> = BTreeMap::new();
        let span = 8 + round * 6;
        for step in 0..400 {
            let r = next(&mut state);
            let k = (r % span) as u32;
            if (r >> 32) % 3 != 0 {
                map.insert(k, r);
                model.insert(k, r);
            } else {
                assert_eq!(map.remove(&k), model.remove(&k));
            }
            assert_eq!(map.len(), model.len());
            assert_eq!(map.lookup(&k), model.get(&k));
            if step % 16 == 0 {
                same_entries(&map, &model);
            }
        }
        same_entries(&map, &model);
        let keys: Vec<u32> = model.keys().copied().collect();
        for k in keys {
            assert_eq!(map.remove(&k), model.remove(&k));
            same_entries(&map, &model);
        }
        assert!(map.is_empty());
    }
}

#[test]
fn every_removal_order_of_a_small_map_is_right() {
    // the maps with keys 0..n: each key removed first, then the others in
    // ascending or in descending order
    for n in 1..=12u32 {
        for first in 0..n {
            for upwards in [true, false] {
                let mut map: IndexableSortedMap<u32, u64> = IndexableSortedMap::new();
                let mut model: BTreeMap<u32, u64> = BTreeMap::new();
                for k in 0..n {
                    map.insert(k, k as u64 + 100);
                    model.insert(k, k as u64 + 100);
                }
                assert_eq!(map.remove(&first), model.remove(&first));
                same_entries(&map, &model);
                let mut rest: Vec<u32> = (0..n).filter(|k| *k != first).collect();
                if !upwards {
                    rest.reverse();
                }
                for k in rest {
                    assert_eq!(map.remove(&k), model.remove(&k));
                    same_entries(&map, &model);
                }
                assert!(map.is_empty());
            }
        }
    }
}

#[test]
fn ascending_and_descending_inserts_build_the_same_map() {
    for n in [1u32, 2, 3, 4, 5, 8, 13, 27, 64, 200] {
        let mut up: IndexableSortedMap<u32, u64> = IndexableSortedMap::new();
        let mut down: IndexableSortedMap<u32, u64> = IndexableSortedMap::new();
        let mut model: BTreeMap<u32, u64> = BTreeMap::new();
        for k in 0..n {
            up.insert(k, k as u64);
            down.insert(n - 1 - k, (n - 1 - k) as u64);
            model.insert(k, k as u64);
        }
        same_entries(&up, &model);
        same_entries(&down, &model);
    }
}

#[test]
fn len_counts_distinct_keys() {
    let mut map: IndexableSortedMap<u32, u64> = IndexableSortedMap::new();
    for k in [3, 1, 3, 2, 1, 3, 9, 9] {
        map.insert(k, 0);
    }
    assert_eq!(map.len(), 4);
    map.remove(&3);
    map.remove(&3);
    map.remove(&7);
    assert_eq!(map.len(), 3);
    map.insert(3, 1);
    assert_eq!(map.len(), 4);
}

#[test]
fn lookup_returns_the_value_last_inserted() {
    let mut map: IndexableSortedMap<u32, u64> = IndexableSortedMap::new();
    assert_eq!(map.lookup(&5), None);
    map.insert(5, 1);
    assert_eq!(map.lookup(&5), Some(&1));
    map.insert(6, 2);
    map.insert(5, 3);
    assert_eq!(map.lookup(&5), Some(&3));
    assert_eq!(map.lookup(&6), Some(&2));
    assert_eq!(map.remove(&5), Some(3));
    assert_eq!(map.lookup(&5), None);
    map.insert(5, 4);
    assert_eq!(map.lookup(&5), Some(&4));
}
