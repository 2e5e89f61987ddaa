use playground_dsa_rust::vector::MyVec;

#[test]
fn it_works() {
    let mut vec = MyVec::<usize>::new();
    assert_eq!(vec.len(), 0);
    assert_eq!(vec.capacity(), 0);
    vec.push(1);
    assert_eq!(vec.len(), 1);
    assert_eq!(vec.capacity(), 4);
    vec.push(2);
    vec.push(3);
    vec.push(4);
    vec.push(5);
    assert_eq!(vec.len(), 5);
    assert_eq!(vec.capacity(), 8);

    let value = Some(&5);
    assert_eq!(vec.get(4), value);
}

#[test]
fn get_out_of_range() {
    let mut vec = MyVec::<u32>::new();
    assert_eq!(vec.get(0), None);
    vec.push(10);
    assert_eq!(vec.get(0), Some(&10));
    assert_eq!(vec.get(1), None);
}
