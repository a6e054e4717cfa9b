use algorithms::{
    find_max_prime_factor, gcd, is_prime, multiply_mod, pollard_rho, power_mod, trial_division,
};

fn is_prime_by_trial(n: u128) -> bool {
    if n < 2 {
        return false;
    }
    let mut k: u128 = 2;
    while k * k <= n {
        if n % k == 0 {
            return false;
        }
        k += 1;
    }
    true
}

#[test]
fn max_factor_known_values() {
    assert_eq!(find_max_prime_factor(13195), 29);
    assert_eq!(find_max_prime_factor(600851475143), 6857);
    assert_eq!(find_max_prime_factor(2), 2);
    assert_eq!(find_max_prime_factor(100), 5);
}

#[test]
fn max_factor_of_one_and_zero() {
    assert_eq!(find_max_prime_factor(1), 1);
    assert_eq!(find_max_prime_factor(0), 0);
}

#[test]
fn max_factor_of_power_of_two() {
    assert_eq!(find_max_prime_factor(1u128 << 40), 2);
    assert_eq!(find_max_prime_factor(1u128 << 127), 2);
}

#[test]
fn max_factor_of_power_of_three() {
    assert_eq!(find_max_prime_factor(3u128.pow(40)), 3);
}

#[test]
fn max_factor_of_large_semiprime() {
    // 1000003 and 1000033 are both primes above the rho threshold.
    let n: u128 = 1_000_003 * 1_000_033;
    assert!(n >= 1_000_000);
    assert!(!is_prime(n));
    let d = pollard_rho(n).unwrap();
    assert!(d == 1_000_003 || d == 1_000_033);
    assert_eq!(find_max_prime_factor(n), 1_000_033);
}

#[test]
fn max_factor_of_primes_is_the_prime() {
    for p in [3u128, 5, 7, 97, 7919, 999_983, 1_000_003, 2_147_483_647, 1_000_000_007] {
        assert_eq!(find_max_prime_factor(p), p);
    }
    // 2^61 - 1 is a Mersenne prime.
    let m61: u128 = (1u128 << 61) - 1;
    assert_eq!(find_max_prime_factor(m61), m61);
}

#[test]
fn max_factor_divides_and_is_prime_for_small_inputs() {
    for n in 2u128..5000 {
        let r = find_max_prime_factor(n);
        assert_eq!(n % r, 0, "n = {}", n);
        assert!(is_prime_by_trial(r), "n = {}", n);
        let mut m = n;
        let mut largest = 1;
        let mut k = 2;
        while m > 1 {
            while m % k == 0 {
                largest = k;
                m /= k;
            }
            k += 1;
        }
        assert_eq!(r, largest, "n = {}", n);
    }
}

#[test]
fn max_factor_with_composite_rho_factor() {
    // Three primes above the threshold: a rho factor may be a product of two.
    let n: u128 = 1_000_003 * 1_000_033 * 1_000_037;
    assert_eq!(find_max_prime_factor(n), 1_000_037);
    let n2: u128 = 1_000_003 * 1_000_003 * 7 * 1_000_037;
    assert_eq!(find_max_prime_factor(n2), 1_000_037);
}

#[test]
fn is_prime_agrees_with_trial_division_below_ten_thousand() {
    for n in 0u128..10_000 {
        assert_eq!(is_prime(n), is_prime_by_trial(n), "n = {}", n);
    }
}

#[test]
fn is_prime_on_strong_pseudoprimes() {
    // Strong pseudoprimes to base 2, and to bases 2, 3, 5, 7.
    assert!(!is_prime(2047));
    assert!(!is_prime(3_215_031_751));
    // The least composite that every one of the seven witnesses accepts.
    assert_eq!(341_550_071_728_321u128 % 10_670_053, 0);
    assert!(is_prime(341_550_071_728_321));
    assert!(is_prime(18_446_744_073_709_551_557));
    assert!(is_prime(u128::MAX - 158));
}

#[test]
fn power_mod_trivial_cases() {
    for a in [0u128, 1, 2, 12345, u128::MAX] {
        for m in [2u128, 3, 97, u128::MAX] {
            assert_eq!(power_mod(a, 0, m), 1);
        }
        for e in [0u128, 1, 5, u128::MAX] {
            assert_eq!(power_mod(a, e, 1), 0);
        }
    }
}

#[test]
fn power_mod_values() {
    assert_eq!(power_mod(2, 10, 1000), 24);
    assert_eq!(power_mod(3, 200, 1_000_000_007), 136_318_165);
    assert_eq!(power_mod(u128::MAX - 1, 2, u128::MAX), 1);
}

#[test]
fn multiply_mod_near_the_top_of_the_range() {
    let m = u128::MAX;
    assert_eq!(multiply_mod(m - 1, m - 1, m), 1);
    assert_eq!(multiply_mod(m - 1, 2, m), m - 2);
    assert_eq!(multiply_mod(1u128 << 127, 2, m), 1);
    assert_eq!(multiply_mod(123456789, 987654321, 1_000_000_007), 123456789u128 * 987654321 % 1_000_000_007);
}

#[test]
fn gcd_values() {
    assert_eq!(gcd(12, 18), 6);
    assert_eq!(gcd(0, 7), 7);
    assert_eq!(gcd(7, 0), 7);
    assert_eq!(gcd(17, 5), 1);
}

#[test]
fn trial_division_values() {
    assert_eq!(trial_division(1), None);
    assert_eq!(trial_division(5), None);
    assert_eq!(trial_division(25), Some(5));
    assert_eq!(trial_division(49), Some(7));
    assert_eq!(trial_division(7 * 13), Some(7));
    assert_eq!(trial_division(11 * 13), Some(11));
    assert_eq!(trial_division(999_983), None);
}

#[test]
fn pollard_rho_values() {
    assert_eq!(pollard_rho(10), Some(2));
    assert_eq!(pollard_rho(999_983), Some(999_983));
    let d = pollard_rho(8051).unwrap();
    assert!(d == 83 || d == 97);
}
