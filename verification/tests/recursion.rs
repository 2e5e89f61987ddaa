use playground_dsa_rust::algos::recursion::factorial_1;
use playground_dsa_rust::algos::recursion::factorial_iter;
use playground_dsa_rust::algos::recursion::fib_mem;
use playground_dsa_rust::algos::recursion::fib_rec;
use playground_dsa_rust::algos::recursion::fibonacci;
use playground_dsa_rust::algos::recursion::palindrome;
use playground_dsa_rust::algos::recursion::toh;

#[test]
fn test_factorial() {
    let cases = vec![(5, 120), (4, 24), (3, 6), (2, 2), (1, 1), (0, 1)];
    for (num, expected) in cases {
        assert_eq!(factorial_1(num), expected);
    }
}

#[test]
fn test_factorial_iter() {
    let cases = vec![(5, 120), (4, 24), (3, 6), (2, 2), (1, 1), (0, 1)];
    for (num, expected) in cases {
        assert_eq!(factorial_iter(num), expected);
    }
}

#[test]
fn test_fib_rec() {
    let cases = vec![(6, 8), (5, 5), (4, 3), (3, 2), (2, 1), (1, 1)];
    for (num, expected) in cases {
        assert_eq!(fib_rec(num), expected);
    }
}

#[test]
fn test_fib_mem() {
    let cases = vec![(6, 8), (5, 5), (4, 3), (3, 2), (2, 1), (1, 1)];
    for (num, expected) in cases {
        let mut v = Vec::<i32>::with_capacity((num + 1) as usize);
        for _i in 0..(num + 1) {
            v.push(-1);
        }
        assert_eq!(fib_mem(num, &mut v), expected);
    }
}

#[test]
fn test_palindrome() {
    let array = vec![1, 2, 3, 4, 3, 2, 1];
    assert_eq!(palindrome(&array, 0, array.len() - 1), true);
}

#[test]
fn test_toh() {
    assert_eq!(toh(0), 0);
    assert_eq!(toh(1), 1);
    assert_eq!(toh(3), 7);
    assert_eq!(toh(4), 15);
}

#[test]
fn test_not_palindrome() {
    let array = vec![1, 2, 3, 4, 5];
    assert_eq!(palindrome(&array, 0, array.len() - 1), false);
}

#[test]
fn test_fibonacci_loop() {
    assert_eq!(fibonacci(1), 1);
    assert_eq!(fibonacci(2), 1);
    assert_eq!(fibonacci(10), 55);
    assert_eq!(fibonacci(93), 12200160415121876738);
}

#[test]
fn test_toh_larger() {
    assert_eq!(toh(20), 1048575);
}
