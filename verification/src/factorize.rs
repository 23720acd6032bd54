//! Splitting a 64-bit number into two factors: Pollard's rho in Brent's
//! variant finds a divisor quickly, trial division settles what it leaves open.

use crate::divisors::{
    divides, is_factor_pair, is_prime, is_prime_product, lemma_divisor_times_cofactor,
    lemma_multiple_is_divisible, lemma_semiprime_factor_pair_unique,
};
use crate::rho::{lemma_rho_divisor_divides, pollard_brent, rho_divisor};
use crate::CryptoError;
use vstd::prelude::*;

verus! {

/// How many polynomials `y * y + c`, with `c` from 1 upwards, the rho search tries.
pub const ATTEMPTS: u64 = 5;

/// `d` is the least divisor of `n` that is greater than 1.
pub open spec fn is_least_divisor(n: nat, d: nat) -> bool {
    1 < d && divides(d, n) && forall|j: nat| 1 < j < d ==> !#[trigger] divides(j, n)
}

/// The least divisor of `n` that is greater than 1; `n` itself for a prime.
pub open spec fn least_divisor_of(n: nat) -> nat {
    choose|d: nat| is_least_divisor(n, d)
}

/// The two factors that the divisor `d` of `n` gives, the smaller first.
pub open spec fn factors_from(n: u64, d: u64) -> (u64, u64) {
    if d <= n / d {
        (d, (n / d) as u64)
    } else {
        ((n / d) as u64, d)
    }
}

/// The divisor of `n` that the search comes up with, from the rho walk with
/// constant `c` on: the first proper divisor that one of the walks with
/// constants `c` to `ATTEMPTS` brings out, or, where none does, the least
/// divisor of `n`, which is `n` itself for a prime.
pub open spec fn searched_divisor(n: nat, c: nat) -> nat
    decreases ATTEMPTS + 1 - c,
{
    if c > ATTEMPTS {
        least_divisor_of(n)
    } else {
        let d = rho_divisor(n, c);
        if 1 < d < n {
            d
        } else {
            searched_divisor(n, c + 1)
        }
    }
}

/// The outcome of the factorization of `pq`: `InvalidInput` below 2,
/// `(2, pq / 2)` for an even number, and for an odd number the two factors
/// that the searched divisor gives, or `FactorizationFailed` where the
/// search comes back with `pq` itself. `lemma_factorized_outcomes` and
/// `lemma_factorized_prime_product` say what that amounts to.
pub open spec fn factorized(pq: u64) -> Result<(u64, u64), CryptoError> {
    if pq < 2 {
        Err(CryptoError::InvalidInput)
    } else if pq % 2 == 0 {
        Ok((2u64, (pq / 2) as u64))
    } else {
        let d = searched_divisor(pq as nat, 1);
        if d < pq {
            Ok(factors_from(pq, d as u64))
        } else {
            Err(CryptoError::FactorizationFailed)
        }
    }
}

/// A number has one least divisor greater than 1 at most.
pub proof fn lemma_least_divisor_unique(n: nat, d: nat)
    requires
        is_least_divisor(n, d),
    ensures
        least_divisor_of(n) == d,
{
    let e = least_divisor_of(n);
    assert(is_least_divisor(n, e));
    if e < d {
        assert(divides(e, n));
    } else if d < e {
        assert(divides(d, n));
    }
}

/// A number from 2 on that no `j` in `1 < j < k` divides has a least
/// divisor greater than 1.
proof fn lemma_least_divisor_exists_from(n: nat, k: nat)
    requires
        2 <= k <= n,
        forall|j: nat| 1 < j < k ==> !#[trigger] divides(j, n),
    ensures
        exists|d: nat| is_least_divisor(n, d),
    decreases n - k,
{
    if divides(k, n) {
        assert(is_least_divisor(n, k));
    } else {
        lemma_multiple_is_divisible(n, 1, n);
        lemma_least_divisor_exists_from(n, k + 1);
    }
}

/// The least divisor greater than 1 of a number from 2 on: it is there, it
/// is at most the number, and it is the number itself exactly for a prime.
pub proof fn lemma_least_divisor(n: nat)
    requires
        n >= 2,
    ensures
        is_least_divisor(n, least_divisor_of(n)),
        least_divisor_of(n) <= n,
        least_divisor_of(n) == n <==> is_prime(n),
{
    lemma_least_divisor_exists_from(n, 2);
    let d = least_divisor_of(n);
    lemma_divisor_times_cofactor(d, n);
    lemma_multiple_is_divisible(n, 1, n);
    if is_prime(n) && d < n {
        assert(divides(d, n));
    }
}

/// What the search comes up with is a divisor of `n` greater than 1, and
/// `n` itself exactly for a prime.
pub proof fn lemma_searched_divisor(n: nat, c: nat)
    requires
        n >= 2,
    ensures
        1 < searched_divisor(n, c) <= n,
        divides(searched_divisor(n, c), n),
        searched_divisor(n, c) == n <==> is_prime(n),
    decreases ATTEMPTS + 1 - c,
{
    if c > ATTEMPTS {
        lemma_least_divisor(n);
    } else {
        let d = rho_divisor(n, c);
        lemma_rho_divisor_divides(n, c);
        if 1 < d < n {
            assert(divides(d, n));
        } else {
            lemma_searched_divisor(n, c + 1);
        }
    }
}

/// The two factors that a proper divisor gives are a factor pair.
pub proof fn lemma_factors_from(n: u64, d: u64)
    requires
        1 < d < n,
        divides(d as nat, n as nat),
    ensures
        is_factor_pair(n as nat, factors_from(n, d).0 as nat, factors_from(n, d).1 as nat),
{
    lemma_divisor_times_cofactor(d as nat, n as nat);
    let e: int = n as int / d as int;
    assert(1 < e && e * d == n) by (nonlinear_arith)
        requires
            d * e == n,
            1 < d < n,
    ;
}

/// A number with an even divisor is even.
proof fn lemma_even_divisor(d: nat, n: nat)
    requires
        d % 2 == 0,
        divides(d, n),
    ensures
        n % 2 == 0,
{
    lemma_divisor_times_cofactor(d, n);
    let half: nat = d / 2;
    let k: nat = n / d;
    assert(n == (half * k) * 2) by (nonlinear_arith)
        requires
            d == 2 * half,
            d * k == n,
    ;
    lemma_multiple_is_divisible(2, (half * k) as int, n);
}

/// A number `n` with no divisor `j` in `1 < j < k`, where `k * k > n`, is prime.
proof fn lemma_no_small_divisor_means_prime(n: nat, k: nat)
    requires
        n >= 2,
        k * k > n,
        forall|j: nat| 1 < j < k ==> !#[trigger] divides(j, n),
    ensures
        is_prime(n),
{
    assert forall|d: nat| 1 < d < n implies !#[trigger] divides(d, n) by {
        if divides(d, n) {
            lemma_divisor_times_cofactor(d, n);
            let e: nat = n / d;
            assert(1 < e < k) by (nonlinear_arith)
                requires
                    d * e == n,
                    1 < d < n,
                    k <= d,
                    k * k > n,
            ;
            assert(n == d * e);
            lemma_multiple_is_divisible(e, d as int, n);
            assert(divides(e, n));
        }
    }
}

/// The least divisor of `n` that is greater than 1, found by trial division.
/// It is `n` itself exactly when `n` is prime.
pub fn least_divisor(n: u64) -> (d: u64)
    requires
        n >= 2,
    ensures
        d == least_divisor_of(n as nat),
        is_least_divisor(n as nat, d as nat),
        d <= n,
        d == n <==> is_prime(n as nat),
{
    if n % 2 == 0 {
        proof {
            if n == 2 {
                assert(is_prime(2));
            } else {
                assert(divides(2, n as nat));
            }
            lemma_least_divisor_unique(n as nat, 2);
        }
        return 2;
    }
    let mut k: u64 = 3;
    while k <= n / k
        invariant
            n >= 2,
            n % 2 == 1,
            3 <= k,
            k % 2 == 1,
            forall|j: nat| 1 < j < k ==> !#[trigger] divides(j, n as nat),
        decreases n - k,
    {
        assert(k * k <= n && k + 2 <= n) by (nonlinear_arith)
            requires
                3 <= k <= n / k,
                n >= 2,
        ;
        if n % k == 0 {
            proof {
                assert(divides(k as nat, n as nat));
                assert(k < n);
                lemma_least_divisor_unique(n as nat, k as nat);
            }
            return k;
        }
        proof {
            if divides((k + 1) as nat, n as nat) {
                lemma_even_divisor((k + 1) as nat, n as nat);
            }
        }
        k = k + 2;
    }
    proof {
        assert(k * k > n) by (nonlinear_arith)
            requires
                k > n / k,
                k >= 3,
                n >= 2,
        ;
        lemma_no_small_divisor_means_prime(n as nat, k as nat);
        lemma_multiple_is_divisible(n as nat, 1, n as nat);
        lemma_least_divisor_unique(n as nat, n as nat);
    }
    n
}

/// The two factors that a proper divisor `d` of `n` gives, the smaller first.
pub fn ordered_factors(n: u64, d: u64) -> (pair: (u64, u64))
    requires
        1 < d < n,
        divides(d as nat, n as nat),
    ensures
        pair == factors_from(n, d),
        is_factor_pair(n as nat, pair.0 as nat, pair.1 as nat),
{
    let e: u64 = n / d;
    proof {
        lemma_factors_from(n, d);
    }
    if d <= e {
        (d, e)
    } else {
        (e, d)
    }
}

/// What a factor pair of `n` tells about `n`: it is not prime, and if it is
/// the product of two primes, the pair consists of those two.
pub proof fn lemma_factor_pair_determines(n: nat, a: nat, b: nat)
    requires
        is_factor_pair(n, a, b),
    ensures
        !is_prime(n),
        forall|p: nat, q: nat| #[trigger] is_prime_product(n, p, q) ==> a == p && b == q,
{
    assert(1 < a < n && n == b * a) by (nonlinear_arith)
        requires
            1 < a <= b,
            a * b == n,
    ;
    lemma_multiple_is_divisible(a, b as int, n);
    assert(divides(a, n));
    assert forall|p: nat, q: nat| #[trigger] is_prime_product(n, p, q) implies a == p && b == q by {
        lemma_semiprime_factor_pair_unique(p, q, a, b);
    }
}

/// Neither a prime nor a number below 4 is the product of two primes.
pub proof fn lemma_prime_is_no_product(n: nat)
    requires
        is_prime(n) || n < 4,
    ensures
        forall|p: nat, q: nat| !#[trigger] is_prime_product(n, p, q),
{
    assert forall|p: nat, q: nat| !#[trigger] is_prime_product(n, p, q) by {
        if is_prime_product(n, p, q) {
            assert(1 < p < n && n == q * p && n >= 4) by (nonlinear_arith)
                requires
                    2 <= p <= q,
                    p * q == n,
            ;
            lemma_multiple_is_divisible(p, q as int, n);
            assert(divides(p, n));
        }
    }
}

/// The outcome for every number: below 2 it is `InvalidInput`; an even
/// number gives `(2, pq / 2)`; an odd prime gives `FactorizationFailed`; and
/// every other odd number gives a factor pair.
pub proof fn lemma_factorized_outcomes(pq: u64)
    ensures
        pq < 2 ==> factorized(pq) == Err::<(u64, u64), CryptoError>(CryptoError::InvalidInput),
        pq >= 2 && pq % 2 == 0 ==> factorized(pq) == Ok::<(u64, u64), CryptoError>(
            (2u64, (pq / 2) as u64),
        ),
        pq >= 2 && pq % 2 == 1 && is_prime(pq as nat) ==> factorized(pq) == Err::<
            (u64, u64),
            CryptoError,
        >(CryptoError::FactorizationFailed),
        pq >= 2 && pq % 2 == 1 && !is_prime(pq as nat) ==> factorized(pq) is Ok && is_factor_pair(
            pq as nat,
            factorized(pq)->Ok_0.0 as nat,
            factorized(pq)->Ok_0.1 as nat,
        ),
{
    if pq >= 2 && pq % 2 == 1 {
        lemma_searched_divisor(pq as nat, 1);
        let d = searched_divisor(pq as nat, 1);
        if d < pq {
            lemma_factors_from(pq, d as u64);
        }
    }
}

/// The product of two primes is split into those two primes, the smaller
/// first: for primes `p <= q` with `p * q == pq`, the outcome is `(p, q)`.
pub proof fn lemma_factorized_prime_product(pq: u64, p: nat, q: nat)
    requires
        is_prime_product(pq as nat, p, q),
    ensures
        factorized(pq) == Ok::<(u64, u64), CryptoError>((p as u64, q as u64)),
{
    lemma_factorized_outcomes(pq);
    if pq < 4 || (pq % 2 == 1 && is_prime(pq as nat)) {
        lemma_prime_is_no_product(pq as nat);
    } else if pq % 2 == 0 {
        assert(is_factor_pair(pq as nat, 2, (pq / 2) as nat));
        lemma_factor_pair_determines(pq as nat, 2, (pq / 2) as nat);
    } else {
        let pair = factorized(pq)->Ok_0;
        lemma_factor_pair_determines(pq as nat, pair.0 as nat, pair.1 as nat);
    }
}

/// Searches `n` for a divisor greater than 1: up to
/// `ATTEMPTS` rho walks, with the constants 1, 2, ..., and the first proper
/// divisor that one of them brings out; where none does, trial division.
/// The result is `n` itself exactly when `n` is prime.
pub fn search_divisor(n: u64) -> (d: u64)
    requires
        n >= 2,
    ensures
        d == searched_divisor(n as nat, 1),
        1 < d <= n,
        divides(d as nat, n as nat),
        d == n <==> is_prime(n as nat),
{
    proof {
        lemma_searched_divisor(n as nat, 1);
    }
    let mut c: u64 = 1;
    while c <= ATTEMPTS
        invariant
            n >= 2,
            1 <= c <= ATTEMPTS + 1,
            searched_divisor(n as nat, c as nat) == searched_divisor(n as nat, 1),
        decreases ATTEMPTS + 1 - c,
    {
        let d: u64 = pollard_brent(n, c);
        if 1 < d && d < n {
            return d;
        }
        c = c + 1;
    }
    least_divisor(n)
}

/// Splits `pq` into two factors `(p, q)` with `p <= q`.
///
/// A number below 2 is refused as `InvalidInput`. An even number gives
/// `(2, pq / 2)` at once, without any search. For an odd number a divisor is
/// searched, first by rho walks and then by trial division, so that the
/// search fails, with `FactorizationFailed`, exactly on the odd primes. The
/// product of two primes, the input that this function is meant for, gives
/// those two primes.
///
/// The rho walks are what makes the search fast: on a product of two primes
/// below 2^32 the first walk as a rule ends within some hundred thousand
/// steps. Trial division is what makes the answer certain: it is reached
/// where the walks find nothing, which for a prime near 2^64 means some 2^31
/// divisions before the failure is reported.
pub fn factorize_pq_pair(pq: u64) -> (result: Result<(u64, u64), CryptoError>)
    ensures
        result == factorized(pq),
        pq < 2 ==> result == Err::<(u64, u64), CryptoError>(CryptoError::InvalidInput),
        pq >= 2 && pq % 2 == 0 ==> result == Ok::<(u64, u64), CryptoError>((2u64, (pq / 2) as u64)),
        pq >= 2 && pq % 2 == 1 && is_prime(pq as nat) ==> result == Err::<(u64, u64), CryptoError>(
            CryptoError::FactorizationFailed,
        ),
        pq >= 2 && pq % 2 == 1 && !is_prime(pq as nat) ==> result is Ok && is_factor_pair(
            pq as nat,
            result->Ok_0.0 as nat,
            result->Ok_0.1 as nat,
        ),
        forall|p: nat, q: nat| #[trigger]
            is_prime_product(pq as nat, p, q) ==> result == Ok::<(u64, u64), CryptoError>(
                (p as u64, q as u64),
            ),
{
    proof {
        lemma_factorized_outcomes(pq);
        assert forall|p: nat, q: nat| #[trigger] is_prime_product(pq as nat, p, q) implies factorized(
            pq,
        ) == Ok::<(u64, u64), CryptoError>((p as u64, q as u64)) by {
            lemma_factorized_prime_product(pq, p, q);
        }
    }
    if pq < 2 {
        return Err(CryptoError::InvalidInput);
    }
    if pq % 2 == 0 {
        return Ok((2, pq / 2));
    }
    let d: u64 = search_divisor(pq);
    if d < pq {
        Ok(ordered_factors(pq, d))
    } else {
        Err(CryptoError::FactorizationFailed)
    }
}

} // verus!
