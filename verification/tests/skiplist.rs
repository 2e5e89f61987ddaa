use playground_dsa_rust::skiplist::SkipList;
use playground_dsa_rust::skiplist::SkipNode;

#[test]
fn test_skiplist_new() {
    let s = SkipList::new(3, u64::MIN, u64::MAX);
    assert_eq!(s.max_level(), 3);
}

#[test]
fn test_search_new() {
    let mut s = SkipList::new(3, u64::MIN, u64::MAX);

    // The same wiring as a hand-linked list: the third argument is how many
    // levels each node participates in.
    s.insert_force_level("1".to_string(), 1, 1); // level 0 only
    s.insert_force_level("3".to_string(), 3, 1); // level 0 only
    s.insert_force_level("4".to_string(), 4, 2); // levels 0-1
    s.insert_force_level("5".to_string(), 5, 1); // level 0 only
    s.insert_force_level("6".to_string(), 6, 3); // levels 0-2
    s.insert_force_level("7".to_string(), 7, 1); // level 0 only
    s.insert_force_level("8".to_string(), 8, 3); // levels 0-2

    let found = s.search(&6);
    println!("found node: {:#?}", found);
    assert!(found.is_some());
    assert_eq!(s.node_value(found.unwrap()), Some(6));

    let not_found = s.search(&9);
    assert!(not_found.is_none());

    let found = s.search(&7);
    println!("found node: {:#?}", found);
}

#[test]
fn test_insert_new() {
    let mut s = SkipList::new(3, u64::MIN, u64::MAX);

    s.insert_force_level("4".to_string(), 4, 2); // levels 0-1
    s.insert_force_level("6".to_string(), 6, 3); // levels 0-2
    s.insert_force_level("7".to_string(), 7, 1); // level 0 only
    s.insert_force_level("8".to_string(), 8, 3); // levels 0-2
    s.insert_force_level("10".to_string(), 10, 3); // levels 0-2

    s.insert("9".to_string(), 9);

    println!("Level 0: {:?}", s.level_values(0));
    println!("Level 1: {:?}", s.level_values(1));
    println!("Level 2: {:?}", s.level_values(2));

    let found = s.search(&9);
    println!("found node: {:#?}", found);
    assert!(found.is_some());
    assert_eq!(s.node_value(found.unwrap()), Some(9));
}

#[test]
fn test_insert_level_new() {
    let mut s = SkipList::new(3, u64::MIN, u64::MAX);

    s.insert_force_level("4".to_string(), 4, 2); // levels 0-1
    s.insert_force_level("6".to_string(), 6, 3); // levels 0-2
    s.insert_force_level("7".to_string(), 7, 1); // level 0 only
    s.insert_force_level("8".to_string(), 8, 3); // levels 0-2
    s.insert_force_level("10".to_string(), 10, 3); // levels 0-2

    s.insert_force_level("9".to_string(), 9, 2);

    println!("Level 0: {:?}", s.level_values(0));
    println!("Level 1: {:?}", s.level_values(1));
    println!("Level 2: {:?}", s.level_values(2));

    let found = s.search(&9);
    println!("found node: {:#?}", found);
    assert!(found.is_some());
    assert_eq!(s.node_value(found.unwrap()), Some(9));
}

#[test]
fn test_delete() {
    let mut s = SkipList::new(3, u64::MIN, u64::MAX);
    let mut nodes_to_insert = Vec::new();
    for i in 1..=10 {
        let key = i.to_string();
        let value = i as u64;
        let level = s.pick_level();
        nodes_to_insert.push((key, value, level));
    }

    for (key, value, level) in nodes_to_insert {
        s.insert_force_level(key, value, level);
    }

    println!("Level 0: {:?}", s.level_values(0));
    println!("Level 1: {:?}", s.level_values(1));
    println!("Level 2: {:?}", s.level_values(2));

    let d = s.delete(8);
    assert!(d.is_some());
    assert_eq!(d.unwrap(), 8);

    println!("Level 0: {:?}", s.level_values(0));
    println!("Level 1: {:?}", s.level_values(1));
    println!("Level 2: {:?}", s.level_values(2));
}

fn assert_strictly_increasing(values: &Vec<u64>) {
    for i in 1..values.len() {
        assert!(values[i - 1] < values[i]);
    }
}

#[test]
fn test_forced_level_scenario() {
    let mut s = SkipList::new(3, u64::MIN, u64::MAX);
    s.insert_force_level("1".to_string(), 1, 1);
    s.insert_force_level("3".to_string(), 3, 1);
    s.insert_force_level("4".to_string(), 4, 2);
    s.insert_force_level("5".to_string(), 5, 1);
    s.insert_force_level("6".to_string(), 6, 3);
    s.insert_force_level("7".to_string(), 7, 1);
    s.insert_force_level("8".to_string(), 8, 3);

    assert_eq!(s.level_values(0), vec![1, 3, 4, 5, 6, 7, 8]);
    assert_eq!(s.level_values(1), vec![4, 6, 8]);
    assert_eq!(s.level_values(2), vec![6, 8]);

    let found = s.search(&6);
    assert!(found.is_some());
    assert_eq!(s.node_value(found.unwrap()), Some(6));
    assert!(s.search(&9).is_none());

    assert_eq!(s.insert_force_level("9".to_string(), 9, 2), None);
    assert!(s.search(&9).is_some());
    for level in 0..3 {
        assert_strictly_increasing(&s.level_values(level));
    }
    assert_eq!(s.level_values(0), vec![1, 3, 4, 5, 6, 7, 8, 9]);
    assert_eq!(s.level_values(1), vec![4, 6, 8, 9]);

    assert_eq!(s.delete(8), Some(8));
    assert!(s.search(&8).is_none());
    assert!(s.search(&6).is_some());
    assert!(s.search(&9).is_some());
    for level in 0..3 {
        assert_strictly_increasing(&s.level_values(level));
    }
    assert_eq!(s.level_values(0), vec![1, 3, 4, 5, 6, 7, 9]);
    assert_eq!(s.level_values(1), vec![4, 6, 9]);
    assert_eq!(s.level_values(2), vec![6]);
}

#[test]
fn test_insert_duplicate_value() {
    let mut s = SkipList::new(4, 0, u64::MAX);
    assert_eq!(s.insert("a".to_string(), 5), None);
    assert_eq!(s.insert("b".to_string(), 5), Some(5));
    assert_eq!(s.level_values(0), vec![5]);
    assert!(s.search(&5).is_some());
}

#[test]
fn test_delete_missing() {
    let mut s = SkipList::new(3, 0, u64::MAX);
    assert_eq!(s.delete(8), None);
    s.insert_force_level("8".to_string(), 8, 2);
    assert_eq!(s.delete(8), Some(8));
    assert_eq!(s.delete(8), None);
    assert!(s.search(&8).is_none());
}

#[test]
fn test_search_empty() {
    let s = SkipList::new(3, 0, u64::MAX);
    assert!(s.search(&1).is_none());
    assert_eq!(s.level_values(0), Vec::<u64>::new());
}

#[test]
fn test_search_inserted_and_absent() {
    let mut s = SkipList::new(5, 0, u64::MAX);
    for v in [12u64, 3, 44, 29, 7, 100, 0] {
        s.insert(v.to_string(), v);
    }
    for v in [12u64, 3, 44, 29, 7, 100, 0] {
        let found = s.search(&v);
        assert!(found.is_some());
        assert_eq!(s.node_value(found.unwrap()), Some(v));
    }
    for v in [1u64, 13, 45, 99, 101] {
        assert!(s.search(&v).is_none());
    }
    assert_strictly_increasing(&s.level_values(0));
    assert_eq!(s.level_values(0), vec![0, 3, 7, 12, 29, 44, 100]);
}

#[test]
fn test_skipnode_new() {
    let node = SkipNode::new("k".to_string(), 42, 3);
    assert_eq!(node.key, Some("k".to_string()));
    assert_eq!(node.value, Some(42));
    assert_eq!(node.next.len(), 3);
    assert!(node.next.iter().all(|slot| slot.is_none()));

    let head = SkipNode::sentinel(4, String::new(), 0);
    assert_eq!(head.next.len(), 4);
}

#[test]
fn test_pick_level_bounds() {
    let s = SkipList::new(3, 0, u64::MAX);
    for _ in 0..1000 {
        let lvl = s.pick_level();
        assert!(1 <= lvl && lvl <= 3);
    }
}

#[test]
fn test_pick_level_distribution() {
    let s = SkipList::new(8, 0, u64::MAX);
    let draws: usize = 200_000;
    let mut at_least_two: usize = 0;
    let mut at_least_three: usize = 0;
    for _ in 0..draws {
        let lvl = s.pick_level();
        assert!(1 <= lvl && lvl <= 8);
        if lvl >= 2 {
            at_least_two += 1;
        }
        if lvl >= 3 {
            at_least_three += 1;
        }
    }
    // promotion past the first level happens with chance one half, and past
    // the second with a further chance of one quarter
    let frac_two = at_least_two as f64 / draws as f64;
    let frac_three = at_least_three as f64 / draws as f64;
    assert!((frac_two - 0.5).abs() < 0.02, "fraction reaching level 2: {frac_two}");
    assert!((frac_three - 0.125).abs() < 0.015, "fraction reaching level 3: {frac_three}");
}
