use subway::skiplist::SkipList;

#[test]
fn test_duplicate_keys_keep_insertion_order() {
    let mut list: SkipList<String> = SkipList::new();
    list.insert(2, "a".to_owned());
    list.insert(2, "b".to_owned());
    assert_eq!(
        list.collect(),
        vec![(2, "a".to_owned()), (2, "b".to_owned())]
    );
    // lookup returns the last value associated with the key
    assert_eq!(list.get(&2), Some("b".to_owned()));
    // one deletion removes only the leftmost duplicate
    list.delete(&2);
    assert_eq!(list.len(), 1);
    assert_eq!(list.collect(), vec![(2, "b".to_owned())]);
    assert_eq!(list.get(&2), Some("b".to_owned()));
}

#[test]
fn test_empty_list_operations() {
    let mut list: SkipList<i32> = SkipList::new();
    assert_eq!(list.len(), 0);
    assert!(list.get(&7).is_none());
    assert!(list.bisect(&7).is_none());
    assert_eq!(list.collect(), vec![]);
    list.delete(&7);
    assert_eq!(list.len(), 0);
    assert_eq!(list.collect(), vec![]);
}

#[test]
fn test_round_trip_distinct_keys() {
    let mut list: SkipList<i64> = SkipList::new();
    let keys: Vec<i64> = vec![12, 3, 44, -7, 0, 25, 9, 31, -2, 18];
    for &k in &keys {
        list.insert(k, k * 10);
    }
    assert_eq!(list.len(), keys.len());
    // while only insertions have happened, every key is found
    for &k in &keys {
        assert_eq!(list.get(&k), Some(k * 10));
    }
    // deleting the largest key first never removes a level head before the
    // end, so lookups stay exact through the whole round trip
    let mut ordered = keys.clone();
    ordered.sort();
    for &k in ordered.iter().rev() {
        assert_eq!(list.get(&k), Some(k * 10));
        list.delete(&k);
        assert_eq!(list.get(&k), None);
    }
    assert_eq!(list.len(), 0);
    assert_eq!(list.collect(), vec![]);
}

#[test]
fn test_repeated_reads_agree() {
    let mut list: SkipList<String> = SkipList::new();
    list.insert(5, "five".to_owned());
    list.insert(1, "one".to_owned());
    list.insert(3, "three".to_owned());
    let first_get = list.get(&3);
    let second_get = list.get(&3);
    assert_eq!(first_get, second_get);
    let first_collect = list.collect();
    let second_collect = list.collect();
    assert_eq!(first_collect, second_collect);
    let first_miss = list.get(&4);
    let second_miss = list.get(&4);
    assert_eq!(first_miss, None);
    assert_eq!(second_miss, None);
}

#[test]
fn test_size_matches_collect_after_random_ops() {
    let mut list: SkipList<i64> = SkipList::new();
    for _ in 0..200 {
        let k = (rand::random::<u32>() % 40) as i64;
        if rand::random::<bool>() {
            list.insert(k, k);
        } else {
            list.delete(&k);
        }
        let entries = list.collect();
        assert_eq!(list.len(), entries.len());
        // the enumeration stays sorted by key
        for w in entries.windows(2) {
            assert!(w[0].0 <= w[1].0);
        }
    }
}

#[test]
fn test_down_links_after_random_ops() {
    let mut list: SkipList<i64> = SkipList::new();
    for _ in 0..300 {
        let k = (rand::random::<u32>() % 30) as i64;
        if rand::random::<u32>() % 3 == 0 {
            list.delete(&k);
        } else {
            list.insert(k, k + 1000);
        }
        assert!(list.down_links_consistent());
    }
}

#[test]
fn test_insert_only_lookups_always_found() {
    let mut list: SkipList<i64> = SkipList::new();
    let mut keys: Vec<i64> = Vec::new();
    for i in 0..150 {
        let k = (rand::random::<u32>() % 1000) as i64;
        keys.push(k);
        list.insert(k, i);
    }
    for &k in &keys {
        assert!(list.get(&k).is_some());
    }
    assert!(list.get(&-1).is_none());
    assert!(list.get(&1000).is_none());
}

#[test]
fn test_levels_stay_vertically_seeded() {
    let mut list: SkipList<i64> = SkipList::new();
    for i in 0..100 {
        list.insert(i, i);
    }
    // every allocated level is headed by a key no larger than the minimum
    let n = list.level_count();
    for lv in 0..n {
        let keys = list.level_keys(lv);
        if lv == 0 {
            assert_eq!(keys.len(), 100);
        }
        if !keys.is_empty() {
            assert!(keys[0] <= 0);
        }
    }
    assert!(list.down_links_consistent());
}
