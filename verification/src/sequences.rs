//! Factorials and a memoised Fibonacci: small recursive number sequences
//! whose results are pinned to their mathematical definitions.

use vstd::prelude::*;

verus! {

/// The factorial of `n`, with `n! == 1` for `n <= 0`.
pub open spec fn spec_factorial(n: int) -> int
    decreases n,
{
    if n <= 0 {
        1
    } else {
        n * spec_factorial(n - 1)
    }
}

/// Factorials are positive and non-decreasing.
pub proof fn lemma_factorial_pos(n: int)
    ensures
        1 <= spec_factorial(n),
        n >= 1 ==> spec_factorial(n - 1) <= spec_factorial(n),
    decreases n,
{
    if n > 0 {
        lemma_factorial_pos(n - 1);
        assert(spec_factorial(n - 1) <= n * spec_factorial(n - 1)) by (nonlinear_arith)
            requires
                1 <= n,
                1 <= spec_factorial(n - 1),
        ;
    }
}

/// `n!`, computed recursively.  The precondition asks exactly that the
/// result fit the return type.
pub fn factorial(n: i64) -> (r: i64)
    requires
        0 <= n,
        spec_factorial(n as int) <= i64::MAX,
    ensures
        r == spec_factorial(n as int),
    decreases n,
{
    proof {
        lemma_factorial_pos(n as int);
    }
    if n == 0 {
        1
    } else {
        n * factorial(n - 1)
    }
}

/// The Fibonacci sequence: 0, 1, 1, 2, 3, 5, ...
pub open spec fn spec_fib(n: int) -> int
    decreases n,
{
    if n <= 0 {
        0
    } else if n == 1 {
        1
    } else {
        spec_fib(n - 1) + spec_fib(n - 2)
    }
}

/// Fibonacci numbers are non-negative and non-decreasing.
pub proof fn lemma_fib_monotone(n: int)
    ensures
        0 <= spec_fib(n),
        n >= 1 ==> spec_fib(n - 1) <= spec_fib(n),
    decreases n,
{
    if n >= 1 {
        lemma_fib_monotone(n - 1);
        if n >= 2 {
            lemma_fib_monotone(n - 2);
        }
    }
}

/// Look a Fibonacci number up in a memo vector that holds a correct prefix
/// of the sequence, extending the vector on the fly for indices it does not
/// cover yet.  The precondition asks exactly that the result fit an `i64`.
pub fn fibonacci_on_the_fly(values: &mut Vec<i64>, n: i64) -> (r: i64)
    requires
        0 <= n,
        2 <= old(values)@.len(),
        forall|i: int| 0 <= i < old(values)@.len() ==> old(values)@[i] == spec_fib(i),
        spec_fib(n as int) <= i64::MAX,
    ensures
        r == spec_fib(n as int),
        final(values)@.len() == (if n + 1 >= old(values)@.len() {
            n + 1
        } else {
            old(values)@.len() as int
        }),
        forall|i: int| 0 <= i < final(values)@.len() ==> final(values)@[i] == spec_fib(i),
    decreases n,
{
    if (n as u64) < values.len() as u64 {
        values[n as usize]
    } else {
        proof {
            lemma_fib_monotone(n as int);
            lemma_fib_monotone(n - 1);
        }
        let a = fibonacci_on_the_fly(values, n - 1);
        let b = fibonacci_on_the_fly(values, n - 2);
        let fibn = a + b;
        values.push(fibn);
        fibn
    }
}

} // verus!
