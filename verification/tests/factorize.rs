use cryptg::factorize::{least_divisor, ordered_factors, search_divisor};
use cryptg::rho::{abs_diff, gcd, mul_mod, pollard_brent, rho_step, walk_ahead, walk_batch};
use cryptg::{factorize_pq_pair, CryptoError};

#[test]
fn six_splits_into_two_and_three() {
    assert_eq!(factorize_pq_pair(2 * 3), Ok((2, 3)));
}

#[test]
fn four_splits_into_two_and_two() {
    assert_eq!(factorize_pq_pair(4), Ok((2, 2)));
}

#[test]
fn one_is_invalid_input() {
    assert_eq!(factorize_pq_pair(1), Err(CryptoError::InvalidInput));
}

#[test]
fn zero_is_invalid_input() {
    assert_eq!(factorize_pq_pair(0), Err(CryptoError::InvalidInput));
}

#[test]
fn even_numbers_split_off_two() {
    assert_eq!(factorize_pq_pair(2), Ok((2, 1)));
    assert_eq!(factorize_pq_pair(10), Ok((2, 5)));
    assert_eq!(factorize_pq_pair(2 * 4294967291), Ok((2, 4294967291)));
    assert_eq!(factorize_pq_pair(u64::MAX - 1), Ok((2, (u64::MAX - 1) / 2)));
}

#[test]
fn odd_primes_fail() {
    for prime in [3u64, 5, 7, 11, 13, 101, 65537, 1_000_003, 2_147_483_647] {
        assert_eq!(factorize_pq_pair(prime), Err(CryptoError::FactorizationFailed));
    }
}

#[test]
fn small_odd_products_split() {
    assert_eq!(factorize_pq_pair(9), Ok((3, 3)));
    assert_eq!(factorize_pq_pair(15), Ok((3, 5)));
    assert_eq!(factorize_pq_pair(21), Ok((3, 7)));
    assert_eq!(factorize_pq_pair(25), Ok((5, 5)));
    assert_eq!(factorize_pq_pair(35), Ok((5, 7)));
    assert_eq!(factorize_pq_pair(49), Ok((7, 7)));
    assert_eq!(factorize_pq_pair(77), Ok((7, 11)));
    assert_eq!(factorize_pq_pair(143), Ok((11, 13)));
}

#[test]
fn handshake_sized_products_split() {
    assert_eq!(factorize_pq_pair(1470626929934143021), Ok((1206429347, 1218991343)));
    assert_eq!(factorize_pq_pair(2363612107535801713), Ok((1518968219, 1556064227)));
    assert_eq!(factorize_pq_pair(2804275833720261793), Ok((1555252417, 1803100129)));
}

#[test]
fn product_of_the_two_largest_primes_below_two_to_the_32_splits() {
    assert_eq!(factorize_pq_pair(4294967279 * 4294967291), Ok((4294967279, 4294967291)));
}

#[test]
fn unbalanced_product_splits() {
    assert_eq!(factorize_pq_pair(3 * 4294967291), Ok((3, 4294967291)));
    assert_eq!(factorize_pq_pair(65521 * 65537), Ok((65521, 65537)));
    assert_eq!(factorize_pq_pair(7 * 2_147_483_647), Ok((7, 2_147_483_647)));
}

#[test]
fn products_of_distinct_primes_give_back_the_primes() {
    let primes: [u64; 8] = [3, 101, 7919, 65537, 1_000_003, 15_485_863, 2_147_483_647, 4294967291];
    for (i, &p) in primes.iter().enumerate() {
        for &q in &primes[i + 1..] {
            assert_eq!(factorize_pq_pair(p * q), Ok((p, q)));
        }
    }
}

#[test]
fn a_product_of_three_primes_splits_at_the_divisor_found() {
    assert_eq!(factorize_pq_pair(3 * 5 * 7), Ok((3, 35)));
    assert_eq!(factorize_pq_pair(3 * 3 * 3), Ok((3, 9)));
}

#[test]
fn same_number_same_answer() {
    let pq = 1470626929934143021;
    assert_eq!(factorize_pq_pair(pq), factorize_pq_pair(pq));
}

#[test]
fn agrees_with_grammers_crypto_on_its_products() {
    for pq in [1470626929934143021u64, 2363612107535801713, 2804275833720261793] {
        assert_eq!(factorize_pq_pair(pq), Ok(grammers_crypto::factorize(pq)));
    }
}

#[test]
fn gcd_of_small_numbers() {
    assert_eq!(gcd(12, 18), 6);
    assert_eq!(gcd(18, 12), 6);
    assert_eq!(gcd(17, 5), 1);
    assert_eq!(gcd(0, 5), 5);
    assert_eq!(gcd(5, 0), 5);
    assert_eq!(gcd(0, 0), 0);
    assert_eq!(gcd(u64::MAX, u64::MAX - 1), 1);
    assert_eq!(gcd(1206429347 * 3, 1470626929934143021), 1206429347);
}

#[test]
fn mul_mod_does_not_overflow() {
    assert_eq!(mul_mod(7, 8, 10), 6);
    assert_eq!(mul_mod(0, 8, 10), 0);
    assert_eq!(mul_mod(u64::MAX, u64::MAX, u64::MAX), 0);
    // (2^64 - 1)^2 = (2^64 - 2) * 2^64 + 1
    assert_eq!(mul_mod(u64::MAX, u64::MAX, u64::MAX - 1), 1);
    assert_eq!(mul_mod(1 << 63, 4, 1_000_000_007), 164688009);
}

#[test]
fn rho_step_squares_and_adds() {
    assert_eq!(rho_step(2, 1, 15), 5);
    assert_eq!(rho_step(5, 1, 15), 11);
    assert_eq!(rho_step(0, 3, 7), 3);
    // (2^64 - 1)^2 + (2^64 - 1) = (2^64 - 1) * 2^64
    assert_eq!(rho_step(u64::MAX, u64::MAX, u64::MAX), 0);
    assert_eq!(rho_step(u64::MAX, u64::MAX, 1 << 63), 0);
}

#[test]
fn abs_diff_is_the_distance() {
    assert_eq!(abs_diff(3, 10), 7);
    assert_eq!(abs_diff(10, 3), 7);
    assert_eq!(abs_diff(5, 5), 0);
    assert_eq!(abs_diff(0, u64::MAX), u64::MAX);
}

#[test]
fn least_divisor_finds_the_smallest_prime_factor() {
    assert_eq!(least_divisor(2), 2);
    assert_eq!(least_divisor(4), 2);
    assert_eq!(least_divisor(9), 3);
    assert_eq!(least_divisor(91), 7);
    assert_eq!(least_divisor(97), 97);
    assert_eq!(least_divisor(65521 * 65537), 65521);
    assert_eq!(least_divisor(2_147_483_647), 2_147_483_647);
}

#[test]
fn ordered_factors_puts_the_smaller_first() {
    assert_eq!(ordered_factors(35, 7), (5, 7));
    assert_eq!(ordered_factors(35, 5), (5, 7));
    assert_eq!(ordered_factors(49, 7), (7, 7));
    assert_eq!(ordered_factors(105, 35), (3, 35));
}

#[test]
fn rho_walk_brings_out_a_prime_factor() {
    assert_eq!(pollard_brent(1470626929934143021, 1), 1206429347);
    assert_eq!(pollard_brent(1470626929934143021, 2), 1206429347);
    assert_eq!(pollard_brent(2363612107535801713, 1), 1518968219);
    assert_eq!(pollard_brent(2804275833720261793, 1), 1555252417);
    assert_eq!(pollard_brent(4294967279 * 4294967291, 1), 4294967291);
    assert_eq!(pollard_brent(15, 1), 3);
    assert_eq!(pollard_brent(105, 1), 3);
}

#[test]
fn rho_walk_that_finds_nothing_gives_the_number_itself() {
    assert_eq!(pollard_brent(25, 1), 25);
    assert_eq!(pollard_brent(35, 1), 35);
    assert_eq!(pollard_brent(3, 1), 3);
    assert_eq!(pollard_brent(7, 1), 7);
    assert_eq!(pollard_brent(101, 1), 101);
    assert_eq!(pollard_brent(1_000_003, 1), 1_000_003);
}

#[test]
fn another_constant_finds_what_the_first_walk_missed() {
    assert_eq!(pollard_brent(25, 2), 5);
    assert_eq!(pollard_brent(35, 2), 5);
    assert_eq!(factorize_pq_pair(25), Ok((5, 5)));
    assert_eq!(factorize_pq_pair(35), Ok((5, 7)));
}

#[test]
fn walk_ahead_takes_the_given_number_of_steps() {
    let n = 1470626929934143021;
    assert_eq!(walk_ahead(2, 1, n, 0), 2);
    assert_eq!(walk_ahead(2, 1, n, 1), 5);
    assert_eq!(walk_ahead(2, 1, n, 5), 210066388901);
    assert_eq!(walk_ahead(2, 1, n, 10), 1276467029751910277);
    assert_eq!(walk_ahead(2, 1, 15, 3), 2);
    assert_eq!(walk_ahead(0, 3, 7, 4), 3);
}

#[test]
fn walk_batch_multiplies_the_distances() {
    assert_eq!(walk_batch(2, 2, 1, 1, 15, 2), (11, 12));
    assert_eq!(walk_batch(7, 3, 5, 2, 101, 0), (3, 5));
    assert_eq!(walk_batch(2, 5, 1, 1, 1_000_003, 4), (758706, 90156));
}

#[test]
fn search_divisor_gives_a_proper_divisor_or_the_prime_itself() {
    assert_eq!(search_divisor(15), 3);
    assert_eq!(search_divisor(25), 5);
    assert_eq!(search_divisor(35), 5);
    assert_eq!(search_divisor(105), 3);
    assert_eq!(search_divisor(9), 3);
    assert_eq!(search_divisor(3), 3);
    assert_eq!(search_divisor(101), 101);
    assert_eq!(search_divisor(3 * 1_000_003), 3);
    assert_eq!(search_divisor(1470626929934143021), 1206429347);
}

#[test]
fn a_prime_of_sixty_one_bits_fails_after_trial_division() {
    assert_eq!(factorize_pq_pair((1 << 61) - 1), Err(CryptoError::FactorizationFailed));
}
