use primal_sieve::Primes;
use vstd::prelude::*;

verus! {

/// Whether `p` is a prime number.
pub open spec fn is_prime(p: int) -> bool {
    p >= 2 && forall|d: int| 2 <= d < p ==> #[trigger] (p % d) != 0
}

/// The largest argument accepted by `smallest_prime_at_least`.
pub const PRIME_SEARCH_LIMIT: usize = 0x8000_0000;

/// Relies on primal_sieve::Primes::all, which yields every prime in ascending
/// order: the first one that is at least `n` is the smallest prime `>= n`.
#[verifier::external_body]
pub(crate) fn smallest_prime_at_least(n: usize) -> (r: usize)
    requires
        n <= PRIME_SEARCH_LIMIT,
    ensures
        r >= n,
        is_prime(r as int),
        forall|q: int| n <= q < r ==> !is_prime(q),
{
    Primes::all().find(|p| *p >= n).unwrap()
}

} // verus!
