//! Factor search: greatest common divisor, trial division and Pollard's rho.
use crate::fermat::lemma_prime_passes_miller_rabin;
use crate::modular::{add_mod, multiply_mod};
use crate::primality::{is_prime, is_prime_number, passes_miller_rabin};
use vstd::arithmetic::div_mod::*;
use vstd::prelude::*;

verus! {

/// Rounds of Floyd's cycle detection tried for one constant of Pollard's
/// rho before that constant is given up.
pub const RHO_ROUND_LIMIT: u64 = 4294967296;

/// Euclid's greatest common divisor.
pub open spec fn gcd_spec(a: nat, b: nat) -> nat
    decreases b,
{
    if b == 0 {
        a
    } else {
        gcd_spec(b, a % b)
    }
}

/// `f` is the least divisor of `n` above 1.
pub open spec fn is_least_divisor(f: nat, n: nat) -> bool {
    1 < f && n % f == 0 && forall|k: nat| 1 < k < f ==> #[trigger] (n % k) != 0
}

pub(crate) proof fn lemma_divides_combination(g: int, x: int, y: int, q: int)
    requires
        g > 0,
        x % g == 0,
        y % g == 0,
    ensures
        (q * x + y) % g == 0,
{
    lemma_fundamental_div_mod(x, g);
    lemma_fundamental_div_mod(y, g);
    let t = q * (x / g) + y / g;
    assert(q * x + y == g * t) by (nonlinear_arith)
        requires
            x == g * (x / g),
            y == g * (y / g),
            t == q * (x / g) + y / g,
    ;
    lemma_mod_multiples_basic(t, g);
    assert(t * g == g * t) by (nonlinear_arith);
}

/// The greatest common divisor of two numbers that are not both 0 is
/// positive and divides both.
pub proof fn lemma_gcd_divides(a: nat, b: nat)
    requires
        a > 0 || b > 0,
    ensures
        gcd_spec(a, b) > 0,
        a % gcd_spec(a, b) == 0,
        b % gcd_spec(a, b) == 0,
    decreases b,
{
    if b == 0 {
        lemma_mod_self_0(a as int);
        lemma_small_mod(0, a);
    } else {
        lemma_gcd_divides(b, a % b);
        let g = gcd_spec(a, b);
        lemma_fundamental_div_mod(a as int, b as int);
        lemma_divides_combination(g as int, b as int, (a % b) as int, (a / b) as int);
        assert(b * (a / b) == (a / b) * b) by (nonlinear_arith);
    }
}

/// Greatest common divisor by Euclid's algorithm, as a loop.
pub fn gcd(a: u128, b: u128) -> (r: u128)
    ensures
        r == gcd_spec(a as nat, b as nat),
{
    let mut x = a;
    let mut y = b;
    while y != 0
        invariant
            gcd_spec(x as nat, y as nat) == gcd_spec(a as nat, b as nat),
        decreases y,
    {
        let t = x % y;
        x = y;
        y = t;
    }
    x
}

pub(crate) proof fn lemma_divisor_coprime_to_six(n: nat, k: nat)
    requires
        k > 0,
        n % k == 0,
    ensures
        n % 2 != 0 ==> k % 2 != 0,
        n % 3 != 0 ==> k % 3 != 0,
{
    if k % 2 == 0 {
        lemma_fundamental_div_mod(k as int, 2);
        lemma_mod_mod(n as int, 2, (k / 2) as int);
        lemma_small_mod(0, 2);
    }
    if k % 3 == 0 {
        lemma_fundamental_div_mod(k as int, 3);
        lemma_mod_mod(n as int, 3, (k / 3) as int);
        lemma_small_mod(0, 3);
    }
}

proof fn lemma_no_divisor_past_root(n: nat, i: nat)
    requires
        i > 1,
        i * i > n,
        forall|k: nat| 1 < k < i ==> #[trigger] (n % k) != 0,
    ensures
        forall|k: nat| 1 < k < n ==> #[trigger] (n % k) != 0,
{
    assert forall|k: nat| 1 < k < n implies #[trigger] (n % k) != 0 by {
        if k >= i && n % k == 0 {
            let q = n / k;
            lemma_fundamental_div_mod(n as int, k as int);
            assert(n == k * q);
            assert(q >= 2 && q < i) by (nonlinear_arith)
                requires
                    n == k * q,
                    k < n,
                    k >= i,
                    i * i > n,
                    i > 1,
            ;
            lemma_mod_multiples_basic(k as int, q as int);
            assert(k * q == q * k) by (nonlinear_arith);
        }
    }
}

/// Finds the least divisor above 1 of `n` by trial division over the
/// candidates `6k - 1` and `6k + 1` from 5 up to the square root of `n`.
///
/// Multiples of 2 and 3 are never tried: the caller has already divided
/// them out of `n`. Returns `None` exactly when `n` is 1 or prime.
pub fn trial_division(n: u128) -> (r: Option<u128>)
    requires
        n % 2 != 0,
        n % 3 != 0,
    ensures
        r.is_none() <==> (n == 1 || is_prime_number(n as nat)),
        r matches Some(f) ==> f < n && is_least_divisor(f as nat, n as nat),
{
    let mut i: u128 = 5;
    assert forall|k: nat| 1 < k < 5 implies #[trigger] ((n as nat) % k) != 0 by {
        if k == 4 && (n as nat) % k == 0 {
            lemma_divisor_coprime_to_six(n as nat, 4);
        }
    }
    while i <= n / i
        invariant
            n % 2 != 0,
            n % 3 != 0,
            5 <= i,
            i % 6 == 5,
            i <= 0x1_0000_0000_0000_0010,
            forall|k: nat| 1 < k < i ==> #[trigger] ((n as nat) % k) != 0,
        decreases n - i,
    {
        assert(i * i <= n && i < n && i + 2 < n) by (nonlinear_arith)
            requires
                i <= n / i,
                5 <= i,
        ;
        if n % i == 0 {
            return Some(i);
        }
        if n % (i + 2) == 0 {
            assert forall|k: nat| 1 < k < i + 2 implies #[trigger] ((n as nat) % k) != 0 by {
                if k == i + 1 && (n as nat) % k == 0 {
                    lemma_divisor_coprime_to_six(n as nat, k);
                }
            }
            return Some(i + 2);
        }
        assert(i + 6 <= 0x1_0000_0000_0000_0010) by (nonlinear_arith)
            requires
                i * i <= n,
                n <= u128::MAX,
        ;
        assert forall|k: nat| 1 < k < i + 6 implies #[trigger] ((n as nat) % k) != 0 by {
            if k >= i && k != i && k != i + 2 && (n as nat) % k == 0 {
                lemma_divisor_coprime_to_six(n as nat, k);
            }
        }
        i = i + 6;
    }
    assert(i * i > n) by (nonlinear_arith)
        requires
            i > n / i,
            i > 0,
    ;
    proof {
        lemma_no_divisor_past_root(n as nat, i as nat);
    }
    None
}

/// One step of the pseudo-random sequence of Pollard's rho:
/// `x -> (x^2 + c) mod n`.
pub open spec fn rho_step(x: nat, c: nat, n: nat) -> nat {
    (x * x + c) % n
}

/// The `k`-th element of the sequence that starts at 2.
pub open spec fn rho_orbit(n: nat, c: nat, k: nat) -> nat
    decreases k,
{
    if k == 0 {
        2
    } else {
        rho_step(rho_orbit(n, c, (k - 1) as nat), c, n)
    }
}

pub open spec fn abs_diff(a: nat, b: nat) -> nat {
    if a >= b {
        (a - b) as nat
    } else {
        (b - a) as nat
    }
}

/// The divisor that round `i` of Floyd's cycle detection computes: the
/// tortoise is at element `i`, the hare at element `2i`.
pub open spec fn rho_round_gcd(n: nat, c: nat, i: nat) -> nat {
    gcd_spec(abs_diff(rho_orbit(n, c, i), rho_orbit(n, c, 2 * i)), n)
}

/// The divisor on which cycle detection with constant `c` stops, looking
/// from round `i` on: the first round gcd other than 1, or 1 when the round
/// limit is reached first.
pub open spec fn rho_stop(n: nat, c: nat, i: nat) -> nat
    decreases RHO_ROUND_LIMIT + 1 - i,
{
    if i > RHO_ROUND_LIMIT {
        1
    } else if rho_round_gcd(n, c, i) != 1 {
        rho_round_gcd(n, c, i)
    } else {
        rho_stop(n, c, i + 1)
    }
}

/// The factor that Pollard's rho reports when trying the constants from `c`
/// up to 10: the first stopping divisor that is neither 1 nor `n`.
pub open spec fn rho_factor_from(n: nat, c: nat) -> Option<nat>
    decreases 11 - c,
{
    if c > 10 {
        None
    } else if rho_stop(n, c, 1) != 1 && rho_stop(n, c, 1) != n {
        Some(rho_stop(n, c, 1))
    } else {
        rho_factor_from(n, c + 1)
    }
}

pub(crate) proof fn lemma_divisor_at_most(g: nat, n: nat)
    requires
        g > 0,
        n > 0,
        n % g == 0,
    ensures
        g <= n,
{
    if g > n {
        lemma_small_mod(n, g);
    }
}

proof fn lemma_rho_stop_divides(n: nat, c: nat, i: nat)
    requires
        n > 1,
    ensures
        rho_stop(n, c, i) > 0,
        n % rho_stop(n, c, i) == 0,
    decreases RHO_ROUND_LIMIT + 1 - i,
{
    if i > RHO_ROUND_LIMIT {
        lemma_mod_multiples_basic(n as int, 1);
    } else if rho_round_gcd(n, c, i) != 1 {
        lemma_gcd_divides(abs_diff(rho_orbit(n, c, i), rho_orbit(n, c, 2 * i)), n);
    } else {
        lemma_rho_stop_divides(n, c, i + 1);
    }
}

/// A factor that Pollard's rho reports is a proper divisor.
pub proof fn lemma_rho_factor_proper(n: nat, c: nat)
    requires
        n > 1,
    ensures
        rho_factor_from(n, c) matches Some(d) ==> 1 < d < n && n % d == 0,
    decreases 11 - c,
{
    if c <= 10 {
        lemma_rho_stop_divides(n, c, 1);
        lemma_divisor_at_most(rho_stop(n, c, 1), n);
        lemma_rho_factor_proper(n, c + 1);
    }
}

/// One step of the sequence, computed without overflow.
fn rho_next(x: u128, c: u128, n: u128) -> (r: u128)
    requires
        n > 0,
    ensures
        r == rho_step(x as nat, c as nat, n as nat),
        r < n,
{
    let sq = multiply_mod(x, x, n);
    proof {
        lemma_add_mod_noop((x * x) as int, c as int, n as int);
        lemma_mod_twice((x * x) as int, n as int);
    }
    add_mod(sq, c % n, n)
}

/// Floyd's cycle detection with constant `c`: the divisor it stops on, or 1
/// when the round limit is reached.
fn rho_cycle(n: u128, c: u128) -> (d: u128)
    requires
        n > 2,
    ensures
        d == rho_stop(n as nat, c as nat, 1),
{
    let mut x: u128 = 2;
    let mut y: u128 = 2;
    let mut d: u128 = 1;
    let mut i: u64 = 0;
    while d == 1 && i < RHO_ROUND_LIMIT
        invariant
            n > 2,
            i <= RHO_ROUND_LIMIT,
            x < n,
            y < n,
            x == rho_orbit(n as nat, c as nat, i as nat),
            y == rho_orbit(n as nat, c as nat, 2 * i as nat),
            rho_stop(n as nat, c as nat, 1) == if d != 1 {
                d as nat
            } else {
                rho_stop(n as nat, c as nat, i as nat + 1)
            },
        decreases RHO_ROUND_LIMIT - i,
    {
        x = rho_next(x, c, n);
        let t = rho_next(y, c, n);
        y = rho_next(t, c, n);
        let diff = if x >= y {
            x - y
        } else {
            y - x
        };
        d = gcd(diff, n);
        i = i + 1;
        assert(y == rho_orbit(n as nat, c as nat, 2 * i as nat)) by {
            assert(rho_orbit(n as nat, c as nat, (2 * i - 1) as nat) == t);
        }
    }
    d
}

/// Pollard's rho: looks for a divisor of `n` with the sequences
/// `x -> x^2 + c (mod n)` for the constants `c = 1, ..., 10` in turn, all
/// started at 2.
///
/// An even `n` gives 2, and an `n` that passes [`is_prime`] gives `n`
/// itself. Otherwise the result is the first proper divisor that cycle
/// detection stops on, or `None` when every constant fails. A constant
/// fails when cycle detection stops on `n` itself, or has not stopped after
/// [`RHO_ROUND_LIMIT`] rounds; the limit bounds the time spent on a number
/// whose factors are all very large.
pub fn pollard_rho(n: u128) -> (r: Option<u128>)
    requires
        n > 1,
    ensures
        n % 2 == 0 ==> r == Some(2u128),
        n % 2 == 1 && passes_miller_rabin(n as nat) ==> r == Some(n),
        n % 2 == 1 && is_prime_number(n as nat) ==> r == Some(n),
        n % 2 == 1 && !passes_miller_rabin(n as nat) ==> {
            &&& r.is_some() == rho_factor_from(n as nat, 1).is_some()
            &&& r matches Some(d) ==> rho_factor_from(n as nat, 1) == Some(d as nat)
        },
        r matches Some(d) ==> 1 < d <= n && n % d == 0,
{
    if n % 2 == 0 {
        return Some(2);
    }
    proof {
        if is_prime_number(n as nat) {
            lemma_prime_passes_miller_rabin(n as nat);
        }
    }
    if is_prime(n) {
        proof {
            lemma_mod_self_0(n as int);
        }
        return Some(n);
    }
    proof {
        lemma_rho_factor_proper(n as nat, 1);
    }
    let mut c: u128 = 1;
    while c <= 10
        invariant
            1 <= c <= 11,
            n > 2,
            n % 2 == 1,
            !passes_miller_rabin(n as nat),
            rho_factor_from(n as nat, 1) == rho_factor_from(n as nat, c as nat),
            rho_factor_from(n as nat, 1) matches Some(d) ==> 1 < d < n && (n as nat) % d == 0,
        decreases 11 - c,
    {
        let d = rho_cycle(n, c);
        if d != 1 && d != n {
            return Some(d);
        }
        c = c + 1;
    }
    None
}

} // verus!
