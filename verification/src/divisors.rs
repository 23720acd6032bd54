//! Divisibility, primes and greatest common divisors over the natural numbers,
//! with the facts about them that the factorization relies on.

use vstd::arithmetic::div_mod::{lemma_fundamental_div_mod, lemma_mod_multiples_basic};
use vstd::prelude::*;

verus! {

/// `d` divides `n`: `n` is a whole multiple of the nonzero number `d`.
pub open spec fn divides(d: nat, n: nat) -> bool {
    d != 0 && n % d == 0
}

/// `n` is prime: at least 2, and no number strictly between 1 and `n` divides it.
pub open spec fn is_prime(n: nat) -> bool {
    n >= 2 && forall|d: nat| 1 < d < n ==> !#[trigger] divides(d, n)
}

/// `(p, q)` splits `n` into two factors greater than 1, the smaller one first.
pub open spec fn is_factor_pair(n: nat, p: nat, q: nat) -> bool {
    1 < p <= q && p * q == n
}

/// `n` is the product of the two primes `p` and `q`, the smaller one first.
pub open spec fn is_prime_product(n: nat, p: nat, q: nat) -> bool {
    is_prime(p) && is_prime(q) && p <= q && p * q == n
}

/// The greatest common divisor of `a` and `b`, by Euclid's recurrence.
/// `greatest_common_divisor(0, 0)` is 0.
pub open spec fn greatest_common_divisor(a: nat, b: nat) -> nat
    decreases b,
{
    if b == 0 {
        a
    } else {
        greatest_common_divisor(b, a % b)
    }
}

/// Every whole multiple of a nonzero `d` is divisible by `d`.
pub proof fn lemma_multiple_is_divisible(d: nat, k: int, n: nat)
    requires
        d != 0,
        n == k * d,
    ensures
        divides(d, n),
{
    lemma_mod_multiples_basic(k, d as int);
}

/// A divisor times its cofactor gives the number back, and a divisor of a
/// positive number is no larger than that number.
pub proof fn lemma_divisor_times_cofactor(d: nat, n: nat)
    requires
        divides(d, n),
    ensures
        d * (n / d) == n,
        n > 0 ==> 1 <= d <= n && 1 <= n / d <= n,
{
    lemma_fundamental_div_mod(n as int, d as int);
    let k: int = n as int / d as int;
    if n > 0 {
        assert(1 <= d <= n && 1 <= k <= n) by (nonlinear_arith)
            requires
                d * k == n,
                n > 0,
                d > 0,
        ;
    }
}

/// A common divisor of two numbers divides their sum of multiples
/// `x * u + y * v` whenever that sum is a natural number.
pub proof fn lemma_divides_combination(d: nat, x: nat, u: int, y: nat, v: int, n: nat)
    requires
        divides(d, x),
        divides(d, y),
        n == x * u + y * v,
    ensures
        divides(d, n),
{
    lemma_divisor_times_cofactor(d, x);
    lemma_divisor_times_cofactor(d, y);
    let kx: int = x as int / d as int;
    let ky: int = y as int / d as int;
    assert(n == (kx * u + ky * v) * d) by (nonlinear_arith)
        requires
            d * kx == x,
            d * ky == y,
            n == x * u + y * v,
    ;
    lemma_multiple_is_divisible(d, kx * u + ky * v, n);
}

/// The greatest common divisor of two numbers that are not both zero is
/// positive and divides each of them.
pub proof fn lemma_gcd_divides_both(a: nat, b: nat)
    requires
        a > 0 || b > 0,
    ensures
        greatest_common_divisor(a, b) > 0,
        divides(greatest_common_divisor(a, b), a),
        divides(greatest_common_divisor(a, b), b),
    decreases b,
{
    let g = greatest_common_divisor(a, b);
    if b == 0 {
        lemma_multiple_is_divisible(a, 1, a);
        lemma_multiple_is_divisible(a, 0, 0);
    } else {
        lemma_gcd_divides_both(b, a % b);
        lemma_fundamental_div_mod(a as int, b as int);
        let r: nat = a % b;
        let k: int = a as int / b as int;
        assert(a == b * k + r * 1) by (nonlinear_arith)
            requires
                a == b * k + r,
        ;
        lemma_divides_combination(g, b, k, r, 1, a);
    }
}

/// Bezout's identity: the greatest common divisor of `a` and `b` is an
/// integer combination of the two. Returns the coefficients.
pub proof fn lemma_bezout(a: nat, b: nat) -> (c: (int, int))
    ensures
        a * c.0 + b * c.1 == greatest_common_divisor(a, b),
    decreases b,
{
    if b == 0 {
        (1, 0)
    } else {
        let r: nat = a % b;
        let k: int = a as int / b as int;
        let (x, y) = lemma_bezout(b, r);
        lemma_fundamental_div_mod(a as int, b as int);
        let g = greatest_common_divisor(a, b);
        assert(a * y + b * (x - k * y) == g) by (nonlinear_arith)
            requires
                a == b * k + r,
                b * x + r * y == g,
        ;
        (y, x - k * y)
    }
}

/// A prime that does not divide `a` has no divisor in common with `a` but 1.
pub proof fn lemma_gcd_with_prime(a: nat, p: nat)
    requires
        is_prime(p),
        !divides(p, a),
    ensures
        greatest_common_divisor(a, p) == 1,
{
    let g = greatest_common_divisor(a, p);
    lemma_gcd_divides_both(a, p);
    lemma_divisor_times_cofactor(g, p);
    if g != 1 {
        if g < p {
            assert(divides(g, p));
            assert(false);
        }
        assert(g == p);
        assert(false);
    }
}

/// Euclid's lemma: a prime that divides a product divides one of its factors.
pub proof fn lemma_prime_divides_product(p: nat, a: nat, b: nat)
    requires
        is_prime(p),
        divides(p, a * b),
    ensures
        divides(p, a) || divides(p, b),
{
    if !divides(p, a) {
        lemma_gcd_with_prime(a, p);
        let (x, y) = lemma_bezout(a, p);
        lemma_multiple_is_divisible(p, 1, p);
        assert(b == (a * b) * x + p * (b * y)) by (nonlinear_arith)
            requires
                a * x + p * y == 1,
        ;
        lemma_divides_combination(p, a * b, x, p, b * y, b);
    }
}

/// A number greater than 1 that divides a prime is that prime.
pub proof fn lemma_divisor_of_prime(d: nat, p: nat)
    requires
        is_prime(p),
        divides(d, p),
        d > 1,
    ensures
        d == p,
{
    lemma_divisor_times_cofactor(d, p);
}

/// The product of two primes splits into two factors greater than 1 in one
/// way only: any factor pair `(a, b)` of `p * q` is the pair `(p, q)` itself.
pub proof fn lemma_semiprime_factor_pair_unique(p: nat, q: nat, a: nat, b: nat)
    requires
        is_prime(p),
        is_prime(q),
        p <= q,
        is_factor_pair(p * q, a, b),
    ensures
        a == p,
        b == q,
{
    assert(a * b == q * p) by (nonlinear_arith)
        requires
            a * b == p * q,
    ;
    lemma_multiple_is_divisible(p, q as int, a * b);
    lemma_prime_divides_product(p, a, b);
    if divides(p, a) {
        // a = p * k, so k * b = q, and the prime q has no divisor b > 1 but itself
        lemma_divisor_times_cofactor(p, a);
        let k: nat = a / p;
        assert(k * b == q) by (nonlinear_arith)
            requires
                p * k == a,
                a * b == p * q,
                p > 0,
        ;
        lemma_multiple_is_divisible(b, k as int, q);
        lemma_divisor_of_prime(b, q);
        assert(k == 1) by (nonlinear_arith)
            requires
                k * b == b,
                b > 0,
        ;
        assert(a == p) by (nonlinear_arith)
            requires
                p * k == a,
                k == 1,
        ;
    } else {
        // b = p * k, so a * k = q, hence a = q and b = p; with a <= b and p <= q both are equal
        lemma_divisor_times_cofactor(p, b);
        let k: nat = b / p;
        assert(a * k == q) by (nonlinear_arith)
            requires
                p * k == b,
                a * b == p * q,
                p > 0,
        ;
        lemma_multiple_is_divisible(a, k as int, q);
        lemma_divisor_of_prime(a, q);
        assert(k == 1) by (nonlinear_arith)
            requires
                a * k == a,
                a > 0,
        ;
        assert(b == p) by (nonlinear_arith)
            requires
                p * k == b,
                k == 1,
        ;
    }
}

} // verus!
