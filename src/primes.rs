//! Trial-division primality, the work item of the parallel benchmark driver.
use vstd::prelude::*;

verus! {

pub open spec fn is_prime_spec(n: nat) -> bool {
    n >= 2 && forall|d: nat| 2 <= d < n ==> #[trigger] (n % d) != 0
}

/// Whether `n` is prime, by trying every divisor below it.
pub fn is_prime(n: usize) -> (r: bool)
    ensures
        r == is_prime_spec(n as nat),
{
    if n <= 1 {
        false
    } else {
        let mut div: usize = 2;
        while div < n
            invariant
                2 <= div <= n,
                forall|d: nat| 2 <= d < div ==> #[trigger] ((n as nat) % d) != 0,
            decreases n - div,
        {
            if n % div == 0 {
                proof {
                    assert((n as nat) % (div as nat) == 0);
                }
                return false;
            }
            div = div + 1;
        }
        true
    }
}

} // verus!
