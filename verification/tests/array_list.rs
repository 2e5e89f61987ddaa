use playground_dsa_rust::array_list::ArrayList;

#[test]
fn test_array_list_append() {
    let mut arr = ArrayList::new(1);
    arr.append(1);
    assert_eq!(arr.length, 1);
}

#[test]
fn test_array_list_get() {
    let mut arr = ArrayList::new(1);
    arr.append(1);
    assert_eq!(arr.get(0), Some(&1));
}

#[test]
fn test_array_list_append_shrink() {
    let mut arr = ArrayList::new(4);
    arr.append(1);
    assert_eq!(arr.inner[0], 1);
    assert_eq!(arr.inner[1], 0);
    assert_eq!(arr.inner[2], 0);
    assert_eq!(arr.inner[3], 0);
    arr.append(2);
    assert_eq!(arr.inner[0], 1);
    assert_eq!(arr.inner[1], 2);
    assert_eq!(arr.inner[2], 0);
    assert_eq!(arr.inner[3], 0);
    arr.append(3);
    arr.append(4);
    arr.append(4);
    assert_eq!(arr.inner[4], 4);
    assert_eq!(arr.inner[5], 0);
    assert_eq!(arr.length, 5);
    assert_eq!(arr.capacity, 8);
}

#[test]
fn test_array_list_remove_shrink() {
    let mut arr = ArrayList::new(4);
    arr.append(1);
    arr.append(2);
    arr.append(3);
    arr.append(-1);
    assert_eq!(4, arr.length);
    assert_eq!(-1, arr.pop());
    assert_eq!(4, arr.capacity);
    arr.append(1);
    arr.append(2);
    arr.append(3);
    assert_eq!(8, arr.capacity);
    assert_eq!(3, arr.pop());
    assert_eq!(2, arr.pop());
    assert_eq!(1, arr.pop());
    assert_eq!(vec![1, 2, 3, 0, 0, 0, 0, 0], arr.inner);
}

#[test]
fn test_preprend() {
    let mut arr = ArrayList::new(4);
    arr.append(1);
    arr.append(2);
    arr.append(3);
    arr.preprend(4);
    assert_eq!(4, arr.length);
    assert_eq!(Some(&4), arr.get(0));
}

#[test]
fn test_insert_at() {
    let mut arr = ArrayList::new(4);
    arr.append(1);
    arr.insert_at(4, 0);
    arr.insert_at(2, 1);
    arr.insert_at(3, 2);
    assert_eq!(4, arr.length);
    assert_eq!(Some(&4), arr.get(0));
    assert_eq!(Some(&2), arr.get(1));
    assert_eq!(Some(&3), arr.get(2));
    assert_eq!(Some(&1), arr.get(3));
}

#[test]
fn test_remove_at() {
    let mut arr = ArrayList::new(4);
    arr.append(1);
    arr.append(2);
    arr.append(4);
    arr.append(5);
    let i = arr.remove_at(1).unwrap();
    assert_eq!(Some(2), i);
    assert_eq!(vec![1, 4, 5, 0], arr.inner);
    let _ = arr.remove_at(0).unwrap();
    assert_eq!(vec![4, 5, 0, 0], arr.inner);
    let i = arr.remove(&5).unwrap();
    assert_eq!(5, i);
}

#[test]
fn test_remove_missing() {
    let mut arr = ArrayList::new(2);
    arr.append(1);
    assert_eq!(arr.remove(&9), None);
    assert_eq!(arr.length, 1);
}

#[test]
fn test_remove_at_out_of_bounds() {
    let mut arr = ArrayList::new(2);
    arr.append(1);
    assert!(arr.remove_at(1).is_err());
    assert!(arr.remove_at(5).is_err());
    assert_eq!(arr.length, 1);
}

#[test]
fn test_get_out_of_bounds() {
    let mut arr = ArrayList::new(2);
    arr.append(7);
    assert_eq!(arr.get(1), None);
}
