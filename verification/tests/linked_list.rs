use playground_dsa_rust::linked_list::List;

#[test]
fn push() {
    let mut list = List::<i32>::new();
    list.push(1);
    list.push(3);
    list.push(4);
    assert_eq!(list.pop(), Some(4));
    assert_eq!(list.pop(), Some(3));
    assert_eq!(list.pop(), Some(1));
}

#[test]
fn pop_empty() {
    let mut list = List::<i32>::new();
    assert_eq!(list.pop(), None);
    list.push(2);
    assert_eq!(list.pop(), Some(2));
    assert_eq!(list.pop(), None);
}
