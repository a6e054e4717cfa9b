//! The largest prime factor of a 128-bit unsigned integer.
use crate::factor::{
    is_least_divisor, lemma_divides_combination, lemma_divisor_at_most,
    lemma_divisor_coprime_to_six, lemma_rho_factor_proper, pollard_rho, trial_division,
};
use crate::primality::{is_prime, is_prime_number, passes_miller_rabin};
use vstd::arithmetic::div_mod::*;
use vstd::prelude::*;

verus! {

/// Remainders below this bound are searched by trial division, which also
/// settles their primality exactly; larger ones by Pollard's rho.
pub const POLLARD_THRESHOLD: u128 = 1000000;

/// `p` is the largest prime that divides `n`.
pub open spec fn is_largest_prime_factor(p: nat, n: nat) -> bool {
    &&& is_prime_number(p)
    &&& n % p == 0
    &&& forall|q: nat| is_prime_number(q) && #[trigger] (n % q) == 0 ==> q <= p
}

/// The Miller-Rabin test makes no mistake on the divisors of `n` that it is
/// asked about: every divisor of `n` at or above [`POLLARD_THRESHOLD`] that
/// passes the test is prime. This holds for every `n` below
/// 341,550,071,728,321 (the least composite that all seven witnesses
/// accept), and vacuously for every `n` below the threshold.
pub open spec fn test_exact_on_divisors(n: nat) -> bool {
    forall|d: nat|
        d >= POLLARD_THRESHOLD && #[trigger] (n % d) == 0 && passes_miller_rabin(d)
            ==> is_prime_number(d)
}

/// What a factor found by the engine is: a prime, or a number at or above
/// the threshold that passes the Miller-Rabin test.
pub open spec fn is_accepted_factor(p: nat) -> bool {
    is_prime_number(p) || (p >= POLLARD_THRESHOLD && passes_miller_rabin(p))
}

/// Euclid's lemma: a prime that divides a product divides one of its factors.
pub proof fn lemma_euclid(p: nat, a: nat, b: nat)
    requires
        is_prime_number(p),
        (a * b) % p == 0,
    ensures
        a % p == 0 || b % p == 0,
    decreases a,
{
    if a % p == 0 {
    } else if a >= p {
        let a1 = (a - p) as nat;
        lemma_mod_multiples_basic(b as int, p as int);
        assert(b * p == p * b) by (nonlinear_arith);
        lemma_divides_combination(p as int, (p * b) as int, (a * b) as int, -1);
        assert(-1 * (p * b) + a * b == a1 * b) by (nonlinear_arith)
            requires
                a1 == a - p,
        ;
        lemma_euclid(p, a1, b);
        if a1 % p == 0 {
            lemma_mod_self_0(p as int);
            lemma_divides_combination(p as int, p as int, a1 as int, 1);
        }
    } else if a == 1 {
        assert(a * b == b);
    } else {
        let s = p % a;
        let q = p / a;
        lemma_fundamental_div_mod(p as int, a as int);
        assert(s != 0);
        lemma_mod_multiples_basic(b as int, p as int);
        assert(b * p == p * b) by (nonlinear_arith);
        lemma_divides_combination(p as int, (a * b) as int, (p * b) as int, -(q as int));
        assert(-(q as int) * (a * b) + p * b == s * b) by (nonlinear_arith)
            requires
                p == a * q + s,
        ;
        lemma_euclid(p, s as nat, b);
        lemma_small_mod(s as nat, p);
    }
}

/// Divisibility is transitive.
pub(crate) proof fn lemma_divides_trans(a: nat, b: nat, c: nat)
    requires
        b > 0,
        c > 0,
        a % b == 0,
        b % c == 0,
    ensures
        a % c == 0,
{
    lemma_fundamental_div_mod(a as int, b as int);
    lemma_fundamental_div_mod(b as int, c as int);
    let t = (a / b) * (b / c);
    assert(a == c * t) by (nonlinear_arith)
        requires
            a == b * (a / b),
            b == c * (b / c),
            t == (a / b) * (b / c),
    ;
    lemma_mod_multiples_basic(t as int, c as int);
    assert(t * c == c * t) by (nonlinear_arith);
}

/// The only divisor above 1 of a prime is the prime itself.
proof fn lemma_prime_divisor(q: nat, p: nat)
    requires
        is_prime_number(p),
        q > 1,
        p % q == 0,
    ensures
        q == p,
{
    lemma_divisor_at_most(q, p);
}

/// The least divisor above 1 of a number is prime.
proof fn lemma_least_divisor_prime(f: nat, n: nat)
    requires
        is_least_divisor(f, n),
    ensures
        is_prime_number(f),
{
    assert forall|k: nat| 1 < k < f implies #[trigger] (f % k) != 0 by {
        if f % k == 0 {
            lemma_divides_trans(n, f, k);
        }
    }
}

/// The cofactor `n / f` of a divisor `f` divides `n`, and `n = f * (n / f)`.
proof fn lemma_cofactor(n: nat, f: nat)
    requires
        f > 0,
        n % f == 0,
    ensures
        n == f * (n / f),
        n / f > 0 ==> n % (n / f) == 0,
{
    lemma_fundamental_div_mod(n as int, f as int);
    if n / f > 0 {
        lemma_mod_multiples_basic(f as int, (n / f) as int);
    }
}

/// Bookkeeping when the divisor `f` of `rem` is divided out: a prime that
/// divides `rem` divides `f` or the cofactor `rem / f`.
proof fn lemma_split_remainder(q: nat, rem: nat, f: nat)
    requires
        is_prime_number(q),
        f > 0,
        rem % f == 0,
        rem % q == 0,
    ensures
        f % q == 0 || (rem / f) % q == 0,
{
    lemma_cofactor(rem, f);
    lemma_euclid(q, f, rem / f);
}

proof fn lemma_small_primes()
    ensures
        is_prime_number(2),
        is_prime_number(3),
{
    assert forall|k: nat| 1 < k < 3 implies #[trigger] (3nat % k) != 0 by {
        assert(k == 2);
    }
}

proof fn lemma_test_exact_below_threshold(n: nat)
    requires
        0 < n < POLLARD_THRESHOLD,
    ensures
        test_exact_on_divisors(n),
{
    assert forall|d: nat|
        d >= POLLARD_THRESHOLD && #[trigger] (n % d) == 0 && passes_miller_rabin(d) implies is_prime_number(d) by {
        lemma_small_mod(n, d);
    }
}

/// The largest accepted prime factor of an `n > 1` with neither 2 nor 3 as a
/// factor.
///
/// The remainder is reduced in turn: below the threshold by trial division,
/// which also proves it prime when no factor is left; at or above it by the
/// primality test and then Pollard's rho, with trial division as fallback.
/// Each factor found is reduced by recursion to its own largest prime
/// factor before it is divided out: a factor that Pollard's rho reports
/// need not be prime (one that trial division finds is, and takes one step).
fn largest_rough_factor(n: u128) -> (r: u128)
    requires
        n > 1,
        n % 2 != 0,
        n % 3 != 0,
    ensures
        1 < r <= n,
        n % r == 0,
        is_accepted_factor(r as nat),
        forall|q: nat| is_prime_number(q) && #[trigger] ((n as nat) % q) == 0 ==> q <= r,
    decreases n,
{
    let mut rem: u128 = n;
    let mut best: u128 = 1;
    proof {
        lemma_mod_self_0(n as int);
    }
    while rem > 1
        invariant
            n > 1,
            1 <= rem <= n,
            n % rem == 0,
            rem % 2 != 0,
            rem % 3 != 0,
            best <= n,
            rem < n ==> best > 1,
            best > 1 ==> n % best == 0 && is_accepted_factor(best as nat),
            forall|q: nat|
                is_prime_number(q) && #[trigger] ((n as nat) % q) == 0 ==> q <= best || (rem as nat)
                    % q == 0,
        decreases rem,
    {
        if rem < POLLARD_THRESHOLD || !is_prime(rem) {
            let found = if rem < POLLARD_THRESHOLD {
                trial_division(rem)
            } else {
                match pollard_rho(rem) {
                    Some(d) => Some(d),
                    None => trial_division(rem),
                }
            };
            match found {
                None => {
                    // No factor left: `rem` is prime.
                    proof {
                        assert(is_prime_number(rem as nat));
                        assert forall|q: nat|
                            is_prime_number(q) && #[trigger] ((rem as nat) % q) == 0 implies q <= rem by {
                            lemma_prime_divisor(q, rem as nat);
                        }
                    }
                    if rem > best {
                        best = rem;
                    }
                    rem = 1;
                }
                Some(f) => {
                    proof {
                        if rem >= POLLARD_THRESHOLD {
                            assert(!passes_miller_rabin(rem as nat));
                            lemma_rho_factor_proper(rem as nat, 1);
                        }
                        assert(1 < f < rem && rem % f == 0);
                        lemma_divides_trans(n as nat, rem as nat, f as nat);
                        lemma_divisor_coprime_to_six(rem as nat, f as nat);
                        lemma_cofactor(rem as nat, f as nat);
                        assert(rem / f < rem) by (nonlinear_arith)
                            requires
                                rem == f * (rem / f),
                                f > 1,
                                rem > 0,
                        ;
                        if rem / f > 0 {
                            lemma_divides_trans(n as nat, rem as nat, (rem / f) as nat);
                            lemma_divisor_coprime_to_six(rem as nat, (rem / f) as nat);
                        }
                    }
                    let p = largest_rough_factor(f);
                    proof {
                        lemma_divides_trans(n as nat, f as nat, p as nat);
                        assert forall|q: nat|
                            is_prime_number(q) && #[trigger] ((n as nat) % q) == 0 implies q <= if p
                            > best {
                            p
                        } else {
                            best
                        } || ((rem / f) as nat) % q == 0 by {
                            if (rem as nat) % q == 0 {
                                lemma_split_remainder(q, rem as nat, f as nat);
                                if (f as nat) % q == 0 {
                                    assert(q <= p);
                                }
                            }
                        }
                    }
                    if p > best {
                        best = p;
                    }
                    rem = rem / f;
                }
            }
        } else {
            // `rem` passes the primality test; every prime dividing it is at
            // most `rem` itself.
            proof {
                assert forall|q: nat|
                    is_prime_number(q) && #[trigger] ((rem as nat) % q) == 0 implies q <= rem by {
                    lemma_divisor_at_most(q, rem as nat);
                }
            }
            if rem > best {
                best = rem;
            }
            rem = 1;
        }
    }
    assert forall|q: nat| is_prime_number(q) implies (1nat % q) != 0 by {
        lemma_small_mod(1, q);
    }
    best
}

/// The largest prime factor of `number`.
///
/// Numbers up to 1 have no prime factor and are returned unchanged. Factors
/// 2 and 3 are divided out first; the rest is reduced by trial division
/// below [`POLLARD_THRESHOLD`] and by the Miller-Rabin test and Pollard's rho
/// at or above it.
///
/// The result always divides `number`, and no prime factor of `number`
/// exceeds it. It is prime, and so the largest prime factor, whenever the
/// Miller-Rabin test is exact on the divisors of `number` that it examines. That holds for every `number` below
/// 341,550,071,728,321, and is proved here for every `number` below the
/// threshold.
pub fn find_max_prime_factor(number: u128) -> (r: u128)
    ensures
        number <= 1 ==> r == number,
        number > 1 ==> 1 < r <= number && number % r == 0 && is_accepted_factor(r as nat),
        number > 1 ==> forall|q: nat|
            is_prime_number(q) && #[trigger] ((number as nat) % q) == 0 ==> q <= r,
        is_prime_number(number as nat) ==> r == number,
        number > 1 && test_exact_on_divisors(number as nat) ==> is_largest_prime_factor(
            r as nat,
            number as nat,
        ),
        1 < number < POLLARD_THRESHOLD ==> is_largest_prime_factor(r as nat, number as nat),
{
    if number <= 1 {
        return number;
    }
    proof {
        if number < POLLARD_THRESHOLD {
            lemma_test_exact_below_threshold(number as nat);
        }
    }
    proof {
        lemma_small_primes();
        lemma_mod_self_0(number as int);
    }
    if number >= POLLARD_THRESHOLD && is_prime(number) {
        proof {
            assert((number as nat) % (number as nat) == 0);
            assert forall|q: nat|
                is_prime_number(q) && #[trigger] ((number as nat) % q) == 0 implies q <= number by {
                lemma_divisor_at_most(q, number as nat);
            }
        }
        return number;
    }
    let mut n: u128 = number;
    let mut best: u128 = 1;
    while n % 2 == 0
        invariant
            number > 1,
            1 <= n <= number,
            number % n == 0,
            best == 1 || best == 2,
            best == 2 ==> number % 2 == 0,
            n < number ==> best == 2,
            forall|q: nat|
                is_prime_number(q) && #[trigger] ((number as nat) % q) == 0 ==> q <= best || (n as nat)
                    % q == 0,
        decreases n,
    {
        proof {
            lemma_divides_trans(number as nat, n as nat, 2);
            lemma_cofactor(n as nat, 2);
            lemma_divides_trans(number as nat, n as nat, (n / 2) as nat);
            assert forall|q: nat|
                is_prime_number(q) && #[trigger] ((number as nat) % q) == 0 implies q <= 2 || ((n
                / 2) as nat) % q == 0 by {
                if (n as nat) % q == 0 {
                    lemma_split_remainder(q, n as nat, 2);
                    if 2nat % q == 0 {
                        lemma_divisor_at_most(q, 2);
                    }
                }
            }
        }
        best = 2;
        n = n / 2;
    }
    while n % 3 == 0
        invariant
            number > 1,
            1 <= n <= number,
            number % n == 0,
            n % 2 != 0,
            best == 1 || best == 2 || best == 3,
            best > 1 ==> number % best == 0,
            n < number ==> best > 1,
            forall|q: nat|
                is_prime_number(q) && #[trigger] ((number as nat) % q) == 0 ==> q <= best || (n as nat)
                    % q == 0,
        decreases n,
    {
        proof {
            lemma_divides_trans(number as nat, n as nat, 3);
            lemma_cofactor(n as nat, 3);
            lemma_divides_trans(number as nat, n as nat, (n / 3) as nat);
            lemma_divisor_coprime_to_six(n as nat, (n / 3) as nat);
            assert forall|q: nat|
                is_prime_number(q) && #[trigger] ((number as nat) % q) == 0 implies q <= 3 || ((n
                / 3) as nat) % q == 0 by {
                if (n as nat) % q == 0 {
                    lemma_split_remainder(q, n as nat, 3);
                    if 3nat % q == 0 {
                        lemma_divisor_at_most(q, 3);
                    }
                }
            }
        }
        best = 3;
        n = n / 3;
    }
    if n > 1 {
        let p = largest_rough_factor(n);
        proof {
            lemma_divides_trans(number as nat, n as nat, p as nat);
        }
        if p > best {
            best = p;
        }
    }
    assert forall|q: nat| is_prime_number(q) implies (1nat % q) != 0 by {
        lemma_small_mod(1, q);
    }
    proof {
        if is_prime_number(number as nat) {
            lemma_prime_divisor(best as nat, number as nat);
        }
    }
    best
}

} // verus!
