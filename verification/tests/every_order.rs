use indexable_sorted_map::IndexableSortedMap;

/// Calls `visit` with every order of `items`.
fn each_order(items: &mut Vec<u8>, from: usize, visit: &mut dyn FnMut(&[u8])) {
    if from == items.len() {
        visit(items);
        return;
    }
    for i in from..items.len() {
        items.swap(from, i);
        each_order(items, from + 1, visit);
        items.swap(from, i);
    }
}

fn holds_exactly(map: &IndexableSortedMap<u8, u16>, keys: &[u8]) {
    assert_eq!(map.len(), keys.len());
    assert_eq!(map.is_empty(), keys.is_empty());
    for (i, k) in keys.iter().enumerate() {
        let v = *k as u16 * 3;
        assert_eq!(map.index(i), Some((k, &v)));
        assert_eq!(map.lookup(k), Some(&v));
    }
    assert_eq!(map.index(keys.len()), None);
    assert_eq!(map.zipper().is_none(), keys.is_empty());
}

#[test]
fn inserting_in_every_order_gives_the_same_entries() {
    for n in 1..=7u8 {
        let mut keys: Vec<u8> = (0..n).collect();
        let sorted = keys.clone();
        each_order(&mut keys, 0, &mut |order| {
            let mut map: IndexableSortedMap<u8, u16> = IndexableSortedMap::new();
            for (done, k) in order.iter().enumerate() {
                map.insert(*k, *k as u16 * 3);
                assert_eq!(map.len(), done + 1);
            }
            holds_exactly(&map, &sorted);
        });
    }
}

#[test]
fn removing_in_every_order_keeps_the_other_entries() {
    for n in 1..=7u8 {
        let mut keys: Vec<u8> = (0..n).collect();
        each_order(&mut keys, 0, &mut |order| {
            let mut map: IndexableSortedMap<u8, u16> = IndexableSortedMap::new();
            for k in 0..n {
                map.insert(k, k as u16 * 3);
            }
            let mut left: Vec<u8> = (0..n).collect();
            for k in order {
                assert_eq!(map.remove(k), Some(*k as u16 * 3));
                assert_eq!(map.remove(k), None);
                left.retain(|e| e != k);
                holds_exactly(&map, &left);
            }
        });
    }
}

#[test]
fn three_thousand_keys_in_and_out() {
    let n: u32 = 3000;
    let mut map: IndexableSortedMap<u32, u32> = IndexableSortedMap::new();
    // 1013 and 3000 have no common divisor, so this visits every key once
    let mut k = 0;
    for i in 0..n {
        map.insert(k, k + 1);
        assert_eq!(map.len(), i as usize + 1);
        k = (k + 1013) % n;
    }
    for i in 0..n {
        assert_eq!(map.index(i as usize), Some((&i, &(i + 1))));
        assert_eq!(map.lookup(&i), Some(&(i + 1)));
    }
    let mut walked = 0;
    let mut cursor = map.zipper();
    while let Some(c) = cursor {
        assert_eq!(*c.focus().0, walked);
        walked += 1;
        cursor = c.advance(1);
    }
    assert_eq!(walked, n);
    let far = map.zipper().unwrap().advance(2999).unwrap();
    assert_eq!(far.focus(), (&2999, &3000));
    assert!(map.zipper().unwrap().advance(3000).is_none());
    let mut k = 7;
    for i in 0..n {
        assert_eq!(map.remove(&k), Some(k + 1));
        assert_eq!(map.lookup(&k), None);
        assert_eq!(map.len(), (n - 1 - i) as usize);
        if i % 500 == 0 && !map.is_empty() {
            let mut previous: Option<u32> = None;
            let mut j = 0;
            while let Some((key, value)) = map.index(j) {
                assert_eq!(*value, *key + 1);
                if let Some(p) = previous {
                    assert!(p < *key);
                }
                previous = Some(*key);
                j += 1;
            }
            assert_eq!(j, map.len());
        }
        k = (k + 1013) % n;
    }
    assert!(map.is_empty());
}
