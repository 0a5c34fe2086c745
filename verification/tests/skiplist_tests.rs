use subway::skiplist::SkipList;

#[test]
fn lib_test_skiplist() {
    let list: SkipList<i32> = SkipList::new();
    assert_eq!(list.len(), 0);
}

#[test]
fn test_operations() {
    let mut list: SkipList<i32> = SkipList::new();
    list.insert(3, 3);
    list.insert(1, 1);
    list.insert(2, 2);
    assert_eq!(list.len(), 3);
    let key = 1;
    assert!(list.get(&key).is_some());
    assert_eq!(list.get(&key).unwrap(), 1);
    assert_eq!(list.collect(), vec![(1, 1), (2, 2), (3, 3)]);
    list.delete(&key);
    assert!(list.get(&key).is_none());
    assert_eq!(list.len(), 2);
    assert_eq!(list.collect(), vec![(2, 2), (3, 3)]);
}

#[test]
fn test_bisect() {
    let mut list: SkipList<i32> = SkipList::new();
    list.insert(4, 4);
    list.insert(1, 1);
    list.insert(2, 2);
    list.insert(3, 2);
    assert_eq!(list.len(), 4);
    // test bisect middle
    let mut maybe_insertion_key = list.bisect(&3);
    assert!(maybe_insertion_key.is_some());
    assert_eq!(maybe_insertion_key.unwrap(), 3);
    maybe_insertion_key = list.bisect(&2);
    assert!(maybe_insertion_key.is_some());
    assert_eq!(maybe_insertion_key.unwrap(), 2);
    // test bisect end
    maybe_insertion_key = list.bisect(&6);
    assert!(maybe_insertion_key.is_some());
    assert_eq!(maybe_insertion_key.unwrap(), 4);
    // test bisect start
    maybe_insertion_key = list.bisect(&0);
    assert!(maybe_insertion_key.is_none());
}

#[test]
fn skiplist_test_skiplist() {
    let list: SkipList<i32> = SkipList::new();
    assert_eq!(list.len(), 0);
}

#[test]
fn test_skiplist_insert() {
    let mut list: SkipList<i32> = SkipList::new();
    list.insert(7, 7);
    list.insert(4, 4);
    list.insert(1, 1);
    list.insert(2, 2);
    list.insert(3, 3);
    list.insert(5, 5);
    list.insert(8, 8);
    list.insert(6, 6);
    assert_eq!(list.len(), 8);
}

#[test]
fn test_skiplist_sorted() {
    let mut list: SkipList<i32> = SkipList::new();
    list.insert(7, 7);
    list.insert(4, 4);
    list.insert(1, 1);
    list.insert(2, 2);
    list.insert(3, 3);
    list.insert(5, 5);
    list.insert(8, 8);
    list.insert(6, 6);
    let values: Vec<i32> = list.collect().iter().map(|tup| tup.1).collect();
    assert_eq!(values, vec![1, 2, 3, 4, 5, 6, 7, 8]);
}

#[test]
fn test_skiplist_get() {
    let mut list: SkipList<i32> = SkipList::new();
    list.insert(7, 7);
    list.insert(4, 4);
    list.insert(1, 1);
    list.insert(2, 2);
    list.insert(3, 3);
    list.insert(5, 5);
    list.insert(8, 8);
    list.insert(6, 6);
    let maybe_1 = list.get(&1);
    assert_eq!(maybe_1.is_some(), true);
    assert_eq!(maybe_1.unwrap(), 1);
    let maybe_3 = list.get(&3);
    assert_eq!(maybe_3.is_some(), true);
    assert_eq!(maybe_3.unwrap(), 3);
}

#[test]
fn test_skiplist_delete() {
    let mut list: SkipList<i32> = SkipList::new();
    list.insert(7, 7);
    list.insert(4, 4);
    list.insert(1, 1);
    list.insert(2, 2);
    list.insert(3, 3);
    list.insert(5, 5);
    list.insert(8, 8);
    list.insert(6, 6);
    assert_eq!(list.len(), 8);
    list.delete(&1);
    list.delete(&4);
    assert_eq!(list.len(), 6);
    let values: Vec<i32> = list.collect().iter().map(|tup| tup.1).collect();
    assert_eq!(values, vec![2, 3, 5, 6, 7, 8]);
}
