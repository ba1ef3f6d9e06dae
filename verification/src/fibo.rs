//! A plain recursive Fibonacci function.

use vstd::prelude::*;

use crate::fibonacci::{lemma_fib_fits_u32, lemma_fib_mono, spec_fib};

verus! {

/// The `number`-th Fibonacci number.
pub fn fibo(number: u32) -> (r: u32)
    requires
        number <= 47,
    ensures
        r == spec_fib(number as nat),
    decreases number,
{
    if number <= 1 {
        return number;
    }
    proof {
        lemma_fib_fits_u32(number as nat);
        lemma_fib_mono((number - 1) as nat, number as nat);
        lemma_fib_mono((number - 2) as nat, number as nat);
    }
    fibo(number - 1) + fibo(number - 2)
}

} // verus!
