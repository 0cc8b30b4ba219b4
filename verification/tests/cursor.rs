use indexable_sorted_map::{IndexableSortedMap, TreeZipper};

/// The keys 0, 2, .., 2n - 2, each with ten times its key as value,
/// inserted in a mixed order.
fn evens(n: i32) -> IndexableSortedMap<i32, i32> {
    let mut map = IndexableSortedMap::new();
    for j in (0..n).rev().filter(|j| j % 2 == 1) {
        map.insert(2 * j, 20 * j);
    }
    for j in (0..n).filter(|j| j % 2 == 0) {
        map.insert(2 * j, 20 * j);
    }
    map
}

fn cursor_at(map: &IndexableSortedMap<i32, i32>, rank: usize) -> TreeZipper<'_, i32, i32> {
    map.zipper().unwrap().advance(rank).unwrap()
}

#[test]
fn advance_from_the_start_agrees_with_index() {
    for n in 1..40 {
        let map = evens(n);
        assert_eq!(map.len(), n as usize);
        for i in 0..(n as usize + 3) {
            let by_cursor = map.zipper().unwrap().advance(i).map(|c| c.into_focus());
            assert_eq!(by_cursor, map.index(i));
            if i < n as usize {
                let k = 2 * i as i32;
                let v = 20 * i as i32;
                assert_eq!(by_cursor, Some((&k, &v)));
            } else {
                assert_eq!(by_cursor, None);
            }
        }
    }
}

#[test]
fn advance_from_every_rank_by_every_distance() {
    for n in 1..28 {
        let map = evens(n);
        let len = n as usize;
        for start in 0..len {
            for d in 0..(len + 2) {
                let moved = cursor_at(&map, start).advance(d);
                if start + d < len {
                    let k = 2 * (start + d) as i32;
                    assert_eq!(*moved.unwrap().focus().0, k);
                } else {
                    assert!(moved.is_none());
                }
            }
        }
    }
}

#[test]
fn advance_by_zero_stays() {
    let map = evens(10);
    for start in 0..10 {
        let c = cursor_at(&map, start).advance(0).unwrap();
        assert_eq!(*c.focus().0, 2 * start as i32);
    }
}

#[test]
fn advance_to_from_the_start_finds_the_smallest_key_not_below() {
    for n in 1..40 {
        let map = evens(n);
        for k in -1..(2 * n + 2) {
            let found = map.zipper().unwrap().advance_to(&k).map(|c| *c.into_focus().0);
            let expected = (0..n).map(|j| 2 * j).find(|e| *e >= k);
            assert_eq!(found, expected);
        }
    }
}

#[test]
fn advance_to_from_every_rank_never_moves_back() {
    for n in 1..28 {
        let map = evens(n);
        let len = n as usize;
        for start in 0..len {
            for k in -1..(2 * n + 2) {
                let found = cursor_at(&map, start).advance_to(&k).map(|c| *c.into_focus().0);
                let expected = (start as i32..n).map(|j| 2 * j).find(|e| *e >= k);
                assert_eq!(found, expected);
            }
        }
    }
}

#[test]
fn advance_to_reaches_the_last_key_of_four() {
    let mut map: IndexableSortedMap<i32, i32> = IndexableSortedMap::new();
    for k in [1, 2, 3, 4] {
        map.insert(k, k);
    }
    let c = map.zipper().unwrap().advance_to(&4).unwrap();
    assert_eq!(c.focus(), (&4, &4));
    assert_eq!(map.lookup(&4), Some(&4));
    assert!(map.zipper().unwrap().advance_to(&5).is_none());
}

#[test]
fn advance_to_a_key_behind_the_cursor_stays() {
    let map = evens(12);
    let c = cursor_at(&map, 7).advance_to(&3).unwrap();
    assert_eq!(*c.focus().0, 14);
    let c = cursor_at(&map, 7).advance_to(&14).unwrap();
    assert_eq!(*c.focus().0, 14);
    let c = cursor_at(&map, 7).advance_to(&15).unwrap();
    assert_eq!(*c.focus().0, 16);
}

#[test]
fn cursors_chain_their_moves() {
    let map = evens(30);
    let c = map.zipper().unwrap();
    let c = c.advance(3).unwrap();
    assert_eq!(*c.focus().0, 6);
    let c = c.advance_to(&21).unwrap();
    assert_eq!(*c.focus().0, 22);
    let c = c.advance(5).unwrap();
    assert_eq!(*c.focus().0, 32);
    let c = c.advance_to(&58).unwrap();
    assert_eq!(c.focus(), (&58, &580));
    assert!(c.advance(1).is_none());
}

#[test]
fn focus_and_into_focus_agree() {
    let map = evens(9);
    for i in 0..9 {
        let c = cursor_at(&map, i);
        let (k, v) = c.focus();
        let (k, v) = (*k, *v);
        assert_eq!(c.into_focus(), (&k, &v));
        assert_eq!(map.index(i), Some((&k, &v)));
    }
}

#[test]
fn lookup_finds_every_key_and_no_other() {
    for n in 1..60 {
        let map = evens(n);
        for j in 0..n {
            assert_eq!(map.lookup(&(2 * j)), Some(&(20 * j)));
            assert_eq!(map.lookup(&(2 * j + 1)), None);
        }
        assert_eq!(map.lookup(&-2), None);
    }
}
