//! Fibonacci numbers, recursively and iteratively.

use vstd::prelude::*;

verus! {

/// The Fibonacci sequence.
pub open spec fn spec_fib(n: nat) -> nat
    decreases n,
{
    if n == 0 {
        0
    } else if n == 1 {
        1
    } else {
        spec_fib((n - 1) as nat) + spec_fib((n - 2) as nat)
    }
}

/// The sequence never decreases.
pub proof fn lemma_fib_mono(i: nat, j: nat)
    requires
        i <= j,
    ensures
        spec_fib(i) <= spec_fib(j),
    decreases j,
{
    if i < j && j >= 2 {
        lemma_fib_mono(i, (j - 1) as nat);
    }
}

/// The largest argument whose Fibonacci number fits in `u32`.
pub proof fn lemma_fib_fits_u32(n: nat)
    requires
        n <= 47,
    ensures
        spec_fib(n) <= 2971215073,
{
    lemma_fib_mono(n, 47);
    assert(spec_fib(47) == 2971215073) by {
        lemma_fib_47();
    }
}

proof fn lemma_fib_47()
    ensures
        spec_fib(47) == 2971215073,
{
    assert(spec_fib(0) == 0);
    assert(spec_fib(1) == 1);
    assert(spec_fib(2) == 1);
    assert(spec_fib(3) == 2);
    assert(spec_fib(4) == 3);
    assert(spec_fib(5) == 5);
    assert(spec_fib(6) == 8);
    assert(spec_fib(7) == 13);
    assert(spec_fib(8) == 21);
    assert(spec_fib(9) == 34);
    assert(spec_fib(10) == 55);
    assert(spec_fib(11) == 89);
    assert(spec_fib(12) == 144);
    assert(spec_fib(13) == 233);
    assert(spec_fib(14) == 377);
    assert(spec_fib(15) == 610);
    assert(spec_fib(16) == 987);
    assert(spec_fib(17) == 1597);
    assert(spec_fib(18) == 2584);
    assert(spec_fib(19) == 4181);
    assert(spec_fib(20) == 6765);
    assert(spec_fib(21) == 10946);
    assert(spec_fib(22) == 17711);
    assert(spec_fib(23) == 28657);
    assert(spec_fib(24) == 46368);
    assert(spec_fib(25) == 75025);
    assert(spec_fib(26) == 121393);
    assert(spec_fib(27) == 196418);
    assert(spec_fib(28) == 317811);
    assert(spec_fib(29) == 514229);
    assert(spec_fib(30) == 832040);
    assert(spec_fib(31) == 1346269);
    assert(spec_fib(32) == 2178309);
    assert(spec_fib(33) == 3524578);
    assert(spec_fib(34) == 5702887);
    assert(spec_fib(35) == 9227465);
    assert(spec_fib(36) == 14930352);
    assert(spec_fib(37) == 24157817);
    assert(spec_fib(38) == 39088169);
    assert(spec_fib(39) == 63245986);
    assert(spec_fib(40) == 102334155);
    assert(spec_fib(41) == 165580141);
    assert(spec_fib(42) == 267914296);
    assert(spec_fib(43) == 433494437);
    assert(spec_fib(44) == 701408733);
    assert(spec_fib(45) == 1134903170);
    assert(spec_fib(46) == 1836311903);
    assert(spec_fib(47) == 2971215073);
}

/// The `n`-th Fibonacci number, by recursion.
pub fn fibonacci_recursive(n: u32) -> (r: u32)
    requires
        n <= 47,
    ensures
        r == spec_fib(n as nat),
    decreases n,
{
    if n <= 1 {
        return n;
    }
    proof {
        lemma_fib_fits_u32(n as nat);
        lemma_fib_mono((n - 1) as nat, n as nat);
        lemma_fib_mono((n - 2) as nat, n as nat);
    }
    fibonacci_recursive(n - 1) + fibonacci_recursive(n - 2)
}

/// The `n`-th Fibonacci number, by iteration.
pub fn fibonacci_iterative(n: u32) -> (r: u32)
    requires
        n <= 47,
    ensures
        r == spec_fib(n as nat),
{
    if n <= 1 {
        return n;
    }
    let mut a: u32 = 0;
    let mut b: u32 = 1;
    let mut k: u32 = 1;
    while k < n
        invariant
            1 <= k <= n <= 47,
            a == spec_fib((k - 1) as nat),
            b == spec_fib(k as nat),
        decreases n - k,
    {
        proof {
            lemma_fib_fits_u32((k + 1) as nat);
        }
        let c = a + b;
        a = b;
        b = c;
        k += 1;
    }
    b
}

} // verus!
