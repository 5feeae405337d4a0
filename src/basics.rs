//! Functions, expressions and recursion over integers.
use vstd::prelude::*;

verus! {

/// `n!`, with `0! == 1! == 1`.
pub open spec fn factorial(n: nat) -> nat
    decreases n,
{
    if n <= 1 {
        1
    } else {
        n * factorial((n - 1) as nat)
    }
}

/// The Fibonacci numbers: `fib(0) == 0`, `fib(1) == 1`, then each is the sum of the two before.
pub open spec fn fib(n: nat) -> nat
    decreases n,
{
    if n <= 1 {
        n
    } else {
        fib((n - 1) as nat) + fib((n - 2) as nat)
    }
}

/// Returns five.
pub fn five() -> (r: i32)
    ensures
        r == 5,
{
    5
}

/// Returns the successor of `x`.
pub fn plus_one(x: i32) -> (r: i32)
    requires
        x < i32::MAX,
    ensures
        r == x + 1,
{
    x + 1
}

/// Returns the successor of `x`.
pub fn f(x: i32) -> (r: i32)
    requires
        x < i32::MAX,
    ensures
        r == x + 1,
{
    x + 1
}

/// Computes `n!` recursively; the result must fit in a `u128`.
pub fn facto(n: u128) -> (r: u128)
    requires
        factorial(n as nat) <= u128::MAX,
    ensures
        r == factorial(n as nat),
    decreases n,
{
    if n == 0 || n == 1 {
        return 1;
    }
    proof {
        lemma_factorial_monotone((n - 1) as nat, n as nat);
        assert(factorial(n as nat) == n * factorial((n - 1) as nat));
    }
    let rest = facto(n - 1);
    n * rest
}

proof fn lemma_factorial_monotone(a: nat, b: nat)
    requires
        a <= b,
    ensures
        1 <= factorial(a) <= factorial(b),
    decreases b,
{
    if b > a {
        lemma_factorial_monotone(a, (b - 1) as nat);
        if b > 1 {
            let prev = factorial((b - 1) as nat);
            assert(factorial(b) == b * prev);
            assert(b * prev >= prev) by (nonlinear_arith)
                requires
                    b >= 1,
                    prev >= 1,
            {}
        }
    } else if b > 1 {
        lemma_factorial_monotone((b - 1) as nat, (b - 1) as nat);
        let prev = factorial((b - 1) as nat);
        assert(factorial(b) == b * prev);
        assert(b * prev >= 1) by (nonlinear_arith)
            requires
                b >= 1,
                prev >= 1,
        {}
    }
}

proof fn lemma_fib_monotone(a: nat, b: nat)
    requires
        a <= b,
    ensures
        fib(a) <= fib(b),
    decreases b,
{
    if b > a {
        lemma_fib_monotone(a, (b - 1) as nat);
    }
}

/// Computes the `n`-th Fibonacci number iteratively; the result must fit in a `u128`.
pub fn fibonnaci(n: u32) -> (r: u128)
    requires
        fib(n as nat) <= u128::MAX,
    ensures
        r == fib(n as nat),
{
    if n == 0 || n == 1 {
        return n as u128;
    }
    if n == 2 {
        proof {
            reveal_with_fuel(fib, 3);
        }
        return 1;
    }
    let mut previous: u128 = 1;
    let mut current: u128 = 1;
    let mut i: u64 = 3;
    proof {
        reveal_with_fuel(fib, 3);
    }
    while i <= n as u64
        invariant
            3 <= i <= n + 1,
            previous == fib((i - 3) as nat + 1),
            current == fib((i - 3) as nat + 2),
            fib(n as nat) <= u128::MAX,
        decreases n + 1 - i,
    {
        proof {
            lemma_fib_monotone(i as nat, n as nat);
        }
        let next_num = previous + current;
        previous = current;
        current = next_num;
        i = i + 1;
    }
    current
}

/// The label that fizzbuzz shows for `x`: "fizz" for a multiple of 3, "buzz" for a
/// multiple of 5, both in that order for a multiple of 15, and nothing otherwise.
pub open spec fn fizzbuzz_spec(x: int) -> Seq<char> {
    (if x % 3 == 0 {
        seq!['f', 'i', 'z', 'z']
    } else {
        Seq::empty()
    }) + (if x % 5 == 0 {
        seq!['b', 'u', 'z', 'z']
    } else {
        Seq::empty()
    })
}

/// The fizzbuzz label of `x`.
pub fn fizzbuzz_word(x: u32) -> (r: String)
    ensures
        r@ == fizzbuzz_spec(x as int),
{
    proof {
        reveal_strlit("fizz");
        reveal_strlit("buzz");
    }
    let mut output = String::new();
    if x % 3 == 0 {
        output.append("fizz");
    }
    if x % 5 == 0 {
        output.append("buzz");
    }
    assert(output@ =~= fizzbuzz_spec(x as int));
    output
}

} // verus!
