use vstd::prelude::*;

verus! {

/// 2 to the power n.
pub open spec fn pow2(n: nat) -> nat
    decreases n,
{
    if n == 0 {
        1
    } else {
        2 * pow2((n - 1) as nat)
    }
}

proof fn lemma_pow2_mono(a: nat, b: nat)
    requires
        a <= b,
    ensures
        pow2(a) <= pow2(b),
    decreases b,
{
    if a < b {
        lemma_pow2_mono(a, (b - 1) as nat);
    }
}

proof fn lemma_pow2_31()
    ensures
        pow2(31) == 0x8000_0000,
{
    reveal_with_fuel(pow2, 32);
}

/// Moves needed to solve a tower-of-Hanoi instance with n discs: 2^n - 1.
pub fn toh(n: i32) -> (r: i32)
    requires
        0 <= n <= 31,
    ensures
        r == pow2(n as nat) - 1,
    decreases n,
{
    if n == 0 {
        return 0;
    }
    proof {
        lemma_pow2_mono(n as nat, 31);
        lemma_pow2_31();
    }
    toh(n - 1) + 1 + toh(n - 1)
}

/// n factorial, with every argument below two mapped to one.
pub open spec fn fact(n: int) -> int
    decreases n,
{
    if n <= 1 {
        1
    } else {
        n * fact(n - 1)
    }
}

proof fn lemma_fact_at_least_one(n: int)
    ensures
        fact(n) >= 1,
    decreases n,
{
    if n > 1 {
        lemma_fact_at_least_one(n - 1);
        assert(n * fact(n - 1) >= 1 * fact(n - 1)) by (nonlinear_arith)
            requires
                n >= 2,
                fact(n - 1) >= 1,
        ;
    }
}

proof fn lemma_fact_mono(a: int, b: int)
    requires
        a <= b,
    ensures
        fact(a) <= fact(b),
    decreases b - a,
{
    if a < b {
        lemma_fact_mono(a, b - 1);
        lemma_fact_at_least_one(b - 1);
        if b > 1 {
            assert(b * fact(b - 1) >= 1 * fact(b - 1)) by (nonlinear_arith)
                requires
                    b >= 2,
                    fact(b - 1) >= 1,
            ;
        }
    }
}

proof fn lemma_fact_12()
    ensures
        fact(12) == 479001600,
{
    assert(fact(1) == 1);
    assert(fact(2) == 2);
    assert(fact(3) == 6);
    assert(fact(4) == 24);
    assert(fact(5) == 120);
    assert(fact(6) == 720);
    assert(fact(7) == 5040);
    assert(fact(8) == 40320);
    assert(fact(9) == 362880);
    assert(fact(10) == 3628800);
    assert(fact(11) == 39916800);
    assert(fact(12) == 479001600);
}

pub fn factorial_iter(num: i32) -> (r: i32)
    requires
        num <= 12,
    ensures
        r == fact(num as int),
{
    let mut fat: i32 = 1;
    let mut i: i32 = 1;
    while i <= num
        invariant
            num <= 12,
            1 <= i <= 13,
            i <= num + 1 || i == 1,
            fat == fact(i - 1),
        decreases num + 1 - i,
    {
        proof {
            lemma_fact_at_least_one(i - 1);
            lemma_fact_mono(i as int, 12);
            lemma_fact_12();
            assert(fat * i == fact(i as int)) by (nonlinear_arith)
                requires
                    i >= 1,
                    fat == fact(i - 1),
                    fact(i as int) == if i <= 1 { 1int } else { i * fact(i - 1) },
            ;
        }
        fat = fat * i;
        i = i + 1;
    }
    fat
}

pub fn factorial_1(num: i32) -> (r: i32)
    requires
        num <= 12,
    ensures
        r == fact(num as int),
    decreases num,
{
    if num > 1 {
        let sub = factorial_1(num - 1);
        proof {
            lemma_fact_at_least_one(num - 1);
            lemma_fact_mono(num as int, 12);
            lemma_fact_12();
            assert(num * sub == fact(num as int)) by (nonlinear_arith)
                requires
                    num >= 2,
                    sub == fact(num - 1),
                    fact(num as int) == num * fact(num - 1),
            ;
        }
        return num * sub;
    } else {
        return 1;
    }
}

/// The Fibonacci sequence, starting zero, one, one, two.
pub open spec fn fib(n: nat) -> nat
    decreases n,
{
    if n == 0 {
        0
    } else if n == 1 {
        1
    } else {
        fib((n - 1) as nat) + fib((n - 2) as nat)
    }
}

proof fn lemma_fib_mono(a: nat, b: nat)
    requires
        a <= b,
    ensures
        fib(a) <= fib(b),
    decreases b,
{
    if a < b {
        if b == 1 {
        } else {
            lemma_fib_mono(a, (b - 1) as nat);
        }
    }
}

proof fn lemma_fib_46()
    ensures
        fib(46) == 1836311903,
{
    assert(fib(0) == 0);
    assert(fib(1) == 1);
    assert(fib(2) == 1);
    assert(fib(3) == 2);
    assert(fib(4) == 3);
    assert(fib(5) == 5);
    assert(fib(6) == 8);
    assert(fib(7) == 13);
    assert(fib(8) == 21);
    assert(fib(9) == 34);
    assert(fib(10) == 55);
    assert(fib(11) == 89);
    assert(fib(12) == 144);
    assert(fib(13) == 233);
    assert(fib(14) == 377);
    assert(fib(15) == 610);
    assert(fib(16) == 987);
    assert(fib(17) == 1597);
    assert(fib(18) == 2584);
    assert(fib(19) == 4181);
    assert(fib(20) == 6765);
    assert(fib(21) == 10946);
    assert(fib(22) == 17711);
    assert(fib(23) == 28657);
    assert(fib(24) == 46368);
    assert(fib(25) == 75025);
    assert(fib(26) == 121393);
    assert(fib(27) == 196418);
    assert(fib(28) == 317811);
    assert(fib(29) == 514229);
    assert(fib(30) == 832040);
    assert(fib(31) == 1346269);
    assert(fib(32) == 2178309);
    assert(fib(33) == 3524578);
    assert(fib(34) == 5702887);
    assert(fib(35) == 9227465);
    assert(fib(36) == 14930352);
    assert(fib(37) == 24157817);
    assert(fib(38) == 39088169);
    assert(fib(39) == 63245986);
    assert(fib(40) == 102334155);
    assert(fib(41) == 165580141);
    assert(fib(42) == 267914296);
    assert(fib(43) == 433494437);
    assert(fib(44) == 701408733);
    assert(fib(45) == 1134903170);
    assert(fib(46) == 1836311903);
}

pub fn fib_rec(num: i32) -> (r: i32)
    requires
        0 <= num <= 46,
    ensures
        r == fib(num as nat),
    decreases num,
{
    if num == 0 {
        return 0;
    } else if num == 1 {
        return 1;
    } else {
        let a = fib_rec(num - 1);
        let b = fib_rec(num - 2);
        proof {
            lemma_fib_mono(num as nat, 46);
            lemma_fib_46();
        }
        return a + b;
    }
}

/// Entries still to be computed are marked with minus one.
pub open spec fn memo_ok(memo: Seq<i32>) -> bool {
    forall|i: int| 0 <= i < memo.len() ==> memo[i] == -1 || memo[i] == fib(i as nat)
}

pub fn fib_mem(num: i32, memo: &mut Vec<i32>) -> (r: i32)
    requires
        0 <= num <= 46,
        num < old(memo).len(),
        memo_ok(old(memo)@),
    ensures
        r == fib(num as nat),
        final(memo).len() == old(memo).len(),
        memo_ok(final(memo)@),
    decreases num,
{
    match num {
        0 => 0,
        1 => 1,
        _ => {
            if memo[num as usize] != -1 {
                return memo[num as usize];
            } else {
                let a = fib_mem(num - 1, memo);
                let b = fib_mem(num - 2, memo);
                proof {
                    lemma_fib_mono(num as nat, 46);
                    lemma_fib_46();
                }
                memo[num as usize] = a + b;
                return memo[num as usize];
            }
        },
    }
}

/// Fibonacci using a loop; the argument must be positive and the result
/// must fit in sixty-four bits.
pub fn fibonacci(n: i32) -> (r: u64)
    requires
        1 <= n,
        fib(n as nat) <= u64::MAX,
    ensures
        r == fib(n as nat),
{
    if n == 1 {
        return 1;
    }
    let mut sum: u64 = 0;
    let mut last: u64 = 0;
    let mut curr: u64 = 1;
    let mut i: i32 = 1;
    while i < n
        invariant
            1 <= i <= n,
            last == fib((i - 1) as nat),
            curr == fib(i as nat),
            i > 1 ==> sum == fib(i as nat),
            fib(n as nat) <= u64::MAX,
        decreases n - i,
    {
        proof {
            lemma_fib_mono((i + 1) as nat, n as nat);
        }
        sum = last + curr;
        last = curr;
        curr = sum;
        i = i + 1;
    }
    sum
}

/// Whether the slice of s between positions i and j reads the same both ways.
pub open spec fn pal(s: Seq<i32>, i: int, j: int) -> bool
    decreases j - i + 1,
{
    if i >= j {
        true
    } else {
        s[i] == s[j] && pal(s, i + 1, j - 1)
    }
}

pub fn palindrome(array: &Vec<i32>, start: usize, end: usize) -> (r: bool)
    requires
        start < end ==> end < array.len(),
    ensures
        r == pal(array@, start as int, end as int),
    decreases end - start + 1,
{
    if start >= end {
        return true;
    }
    if array[start] == array[end] {
        return palindrome(array, start + 1, end - 1);
    } else {
        return false;
    }
}

} // verus!
