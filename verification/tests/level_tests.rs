use std::cmp::Ordering;
use subway::skiplist::{Level, Node};

#[test]
fn test_node() {
    let node_a = Node::new(1, "a_val".to_owned());
    let node_b = Node::new(2, "b_val".to_owned());
    let node_c = Node::new(1, "c_val".to_owned());
    assert_eq!(node_a.cmp(&node_b.key), Ordering::Less);
    assert_eq!(node_b.cmp(&node_a.key), Ordering::Greater);
    assert_eq!(node_c.cmp(&node_a.key), Ordering::Equal);
}

#[test]
fn test_level() {
    let mut level: Level<i32> = Level::new();
    assert_eq!(level.len(), 0);
    level.insert(1, 1);
    assert_eq!(level.len(), 1);
}

#[test]
fn test_level_insert() {
    let mut level: Level<String> = Level::new();
    level.insert(1, "val_1".to_owned());
    level.insert(4, "val_4".to_owned());
    level.insert(3, "val_3".to_owned());
    let node = level.insert(0, "val_0".to_owned());
    assert_eq!(level.key(node), 0);
    assert_eq!(level.len(), 4);
}

#[test]
fn test_level_insert_after() {
    let mut level: Level<i32> = Level::new();
    level.insert(3, 3);
    level.insert(0, 0);
    let after = level.insert(1, 1);
    let new_node = level.insert_after(2, 2, after);
    let prev_node = level.left(new_node);
    let next_node = level.right(new_node);
    assert_eq!(prev_node.is_some(), true);
    assert_eq!(level.key(prev_node.unwrap()), 1);
    assert_eq!(next_node.is_some(), true);
    assert_eq!(level.key(next_node.unwrap()), 3);
}

#[test]
fn test_level_insert_after_tail() {
    let mut level: Level<i32> = Level::new();
    level.insert(3, 3);
    level.insert(0, 0);
    let tail = level.insert(5, 5);
    let new_node = level.insert_after(6, 6, tail);
    let prev_node = level.left(new_node);
    let next_node = level.right(new_node);
    assert_eq!(prev_node.is_some(), true);
    assert_eq!(level.key(prev_node.unwrap()), 5);
    assert_eq!(next_node.is_none(), true);
}

#[test]
fn test_bisect_after() {
    let mut level: Level<i32> = Level::new();
    level.insert(5, 5);
    level.insert(2, 2);
    level.insert(4, 4);
    let node = level.insert(3, 3);
    let maybe_found = level.bisect_after(node, &4);
    assert_eq!(maybe_found.is_some(), true);
    assert_eq!(level.key(maybe_found.unwrap()), 4);
    let maybe_last = level.bisect_after(node, &7);
    assert_eq!(maybe_last.is_some(), true);
    assert_eq!(level.key(maybe_last.unwrap()), 5);
}

#[test]
fn test_bisect_after_larger_node() {
    let mut level: Level<i32> = Level::new();
    level.insert(4, 4);
    level.insert(2, 2);
    level.insert(3, 3);
    let node = level.insert(1, 1);
    let maybe_found = level.bisect_after(node, &0);
    assert_eq!(maybe_found.is_none(), true);
}

#[test]
fn test_bisect_after_when_node_does_not_exist() {
    let mut level: Level<i32> = Level::new();
    level.insert(4, 4);
    level.insert(2, 2);
    level.insert(3, 3);
    let node = level.insert(1, 1);
    let maybe_found = level.bisect_after(node, &5);
    assert_eq!(maybe_found.is_some(), true);
    assert_eq!(level.right(maybe_found.unwrap()).is_none(), true);
}

#[test]
fn test_level_is_sorted() {
    let mut level: Level<i32> = Level::new();
    level.insert(1, 1);
    level.insert(0, 0);
    level.insert(3, 3);
    level.insert(2, 2);
    level.insert(4, 4);
    let mut values = vec![];
    for id in level.iter() {
        values.push(level.key(id));
    }
    assert_eq!(values, vec![0, 1, 2, 3, 4]);
    let ids = level.iter();
    assert_eq!(level.key(*ids.last().unwrap()), 4);
    for id in level.iter() {
        values.push(level.key(id));
    }
    assert_eq!(values, vec![0, 1, 2, 3, 4, 0, 1, 2, 3, 4]);
}

#[test]
fn test_bisect_when_key_exists() {
    let mut level: Level<i32> = Level::new();
    level.insert(1, 1);
    level.insert(0, 0);
    level.insert(3, 3);
    level.insert(2, 2);
    level.insert(2, 2);
    level.insert(4, 4);
    // test value exists in middle
    let maybe_marker = level.bisect(&2);
    assert_eq!(maybe_marker.is_some(), true);
    assert_eq!(level.key(maybe_marker.unwrap()), 2);
    let maybe_next_node = level.right(maybe_marker.unwrap());
    assert_eq!(level.key(maybe_next_node.unwrap()), 3);
    // test value exists at end
    let maybe_marker = level.bisect(&4);
    assert_eq!(maybe_marker.is_some(), true);
    assert_eq!(level.key(maybe_marker.unwrap()), 4);
}

#[test]
fn test_bisect_when_key_does_not_exist() {
    let mut level: Level<i32> = Level::new();
    level.insert(1, 1);
    level.insert(0, 0);
    level.insert(3, 3);
    level.insert(2, 2);
    level.insert(2, 2);
    level.insert(5, 5);
    // test value doesn't exist
    let maybe_marker = level.bisect(&4);
    assert_eq!(maybe_marker.is_some(), true);
    assert_eq!(level.key(maybe_marker.unwrap()), 3);
    let maybe_end = level.bisect(&5);
    assert_eq!(maybe_end.is_some(), true);
    assert_eq!(level.right(maybe_end.unwrap()).is_none(), true);
}

#[test]
fn test_bisect_after_with_last_node() {
    let mut level: Level<i32> = Level::new();
    level.insert(1, 1);
    level.insert(0, 0);
    level.insert(3, 3);
    level.insert(2, 2);
    level.insert(2, 2);
    let last_node = level.insert(5, 5);
    assert_eq!(level.right(last_node).is_none(), true);
    let maybe_found = level.bisect_after(last_node, &5);
    assert_eq!(maybe_found.is_some(), true);
    assert_eq!(level.key(maybe_found.unwrap()), level.key(last_node));
}

#[test]
fn test_bisect_after_when_insertion_point_is_at_end() {
    let mut level: Level<i32> = Level::new();
    level.insert(1, 1);
    level.insert(0, 0);
    level.insert(3, 3);
    level.insert(2, 2);
    let node = level.insert(2, 2);
    let maybe_insert = level.bisect_after(node, &5);
    assert_eq!(maybe_insert.is_some(), true);
    assert_eq!(level.key(maybe_insert.unwrap()), 3);
}

#[test]
fn test_delete_from_level() {
    let mut level: Level<i32> = Level::new();
    level.insert(1, 1);
    level.insert(0, 0);
    level.insert(3, 3);
    level.insert(2, 2);
    level.insert(2, 2);
    level.insert(6, 6);
    level.insert(4, 4);
    level.insert(4, 4);
    // delete value from middle of list
    level.delete(&2);
    // delete from end of last
    level.delete(&6);
    // delete from start of list
    level.delete(&0);
    let mut values = vec![];
    for id in level.iter() {
        values.push(level.key(id));
    }
    assert_eq!(level.len(), 5);
    assert_eq!(values, vec![1, 2, 3, 4, 4]);
    let mut new_level: Level<i32> = Level::new();
    new_level.insert(0, 0);
    new_level.delete(&0);
    assert_eq!(new_level.len(), 0);
}
