//! Miller-Rabin primality test with a fixed set of seven witnesses.
//!
//! The witness set {2, 3, 5, 7, 11, 13, 17} makes the test exact for every
//! input below 341,550,071,728,321, which is itself the least composite that
//! every witness accepts. Above that bound it is a strong probable-prime
//! test, whose false positives are rare but exist; a prime, on the other
//! hand, is always accepted (proved in [`crate::fermat`]). The contract of [`is_prime`] therefore
//! states exactly which test is performed, and [`is_prime_number`] is the
//! mathematical notion that callers compare it against.
use crate::fermat::lemma_prime_passes_miller_rabin;
use crate::modular::{multiply_mod, power_mod};
use vstd::arithmetic::div_mod::*;
use vstd::arithmetic::power::*;
use vstd::arithmetic::power2::*;
use vstd::prelude::*;

verus! {

/// `p` is prime: above 1 and without a divisor strictly between 1 and `p`.
pub open spec fn is_prime_number(p: nat) -> bool {
    p > 1 && forall|k: nat| 1 < k < p ==> #[trigger] (p % k) != 0
}

/// The odd part of `x`: `x` with every factor 2 removed.
pub open spec fn odd_part(x: nat) -> nat
    decreases x,
{
    if x > 0 && x % 2 == 0 {
        odd_part(x / 2)
    } else {
        x
    }
}

/// The number of factors 2 in `x` (0 for `x == 0`).
pub open spec fn two_valuation(x: nat) -> nat
    decreases x,
{
    if x > 0 && x % 2 == 0 {
        1 + two_valuation(x / 2)
    } else {
        0
    }
}

/// The Miller-Rabin witnesses, in increasing order.
pub open spec fn witnesses() -> Seq<u128> {
    seq![2, 3, 5, 7, 11, 13, 17]
}

/// With `n - 1 = d * 2^s` and `d` odd, witness `a` fails to prove `n`
/// composite: `a^d = 1 (mod n)`, or `a^(d * 2^i) = n - 1 (mod n)` for some
/// `i < s`.
pub open spec fn passes_witness(n: nat, a: nat) -> bool {
    let d = odd_part((n - 1) as nat);
    let s = two_valuation((n - 1) as nat);
    pow(a as int, d) % (n as int) == 1 || exists|i: nat|
        i < s && #[trigger] (pow(a as int, (d as nat) * pow2(i)) % (n as int)) == n - 1
}

/// The strong probable-prime test that [`is_prime`] performs: 2 and 3 are
/// accepted, other numbers up to 4 and even numbers are rejected, and an odd
/// `n > 4` is accepted when every witness below `n` passes.
pub open spec fn passes_miller_rabin(n: nat) -> bool {
    n == 2 || n == 3 || (n > 4 && n % 2 == 1 && forall|j: int|
        0 <= j < 7 && (#[trigger] witnesses()[j]) < n ==> passes_witness(n, witnesses()[j] as nat))
}

pub(crate) proof fn lemma_square_power_mod(a: int, k: nat, n: int)
    requires
        n > 0,
    ensures
        ((pow(a, k) % n) * (pow(a, k) % n)) % n == pow(a, 2 * k) % n,
{
    lemma_pow_adds(a, k, k);
    lemma_mul_mod_noop(pow(a, k), pow(a, k), n);
}

/// One Miller-Rabin round: whether witness `a` passes for `n`, given
/// `n - 1 = d * 2^s` with `d` odd.
fn witness_passes(n: u128, a: u128, d: u128, s: u128) -> (r: bool)
    requires
        n > 4,
        n % 2 == 1,
        d == odd_part((n - 1) as nat),
        s == two_valuation((n - 1) as nat),
        s >= 1,
    ensures
        r == passes_witness(n as nat, a as nat),
{
    let mut x = power_mod(a, d, n);
    assert(pow2(0) == 1) by {
        reveal(pow);
    }
    assert((d as nat) * pow2(0) == d);
    if x == 1 {
        return true;
    }
    if x == n - 1 {
        assert(pow(a as int, (d as nat) * pow2(0)) % (n as int) == n - 1);
        return true;
    }
    let mut i: u128 = 1;
    while i < s
        invariant
            n > 4,
            1 <= i <= s,
            d == odd_part((n - 1) as nat),
            s == two_valuation((n - 1) as nat),
            x < n,
            x == pow(a as int, (d as nat) * pow2((i - 1) as nat)) % (n as int),
            pow(a as int, d as nat) % (n as int) != 1,
            forall|k: nat| k < i ==> #[trigger] (pow(a as int, (d as nat) * pow2(k)) % (n as int)) != n - 1,
        decreases s - i,
    {
        proof {
            let k = (d * pow2((i - 1) as nat)) as nat;
            lemma_square_power_mod(a as int, k, n as int);
            lemma_pow2_unfold(i as nat);
            assert(2 * k == (d as nat) * pow2(i as nat)) by (nonlinear_arith)
                requires
                    k == (d as nat) * pow2((i - 1) as nat),
                    pow2(i as nat) == 2 * pow2((i - 1) as nat),
            ;
        }
        x = multiply_mod(x, x, n);
        if x == n - 1 {
            return true;
        }
        i = i + 1;
    }
    false
}

/// Miller-Rabin primality test over the fixed witness set.
///
/// Every prime is accepted. Every composite below 341,550,071,728,321 is
/// rejected; above that, a strong probable-prime test whose false-positive
/// rate is negligible but not zero.
pub fn is_prime(n: u128) -> (r: bool)
    ensures
        r == passes_miller_rabin(n as nat),
        is_prime_number(n as nat) ==> r,
{
    proof {
        if is_prime_number(n as nat) {
            lemma_prime_passes_miller_rabin(n as nat);
        }
    }
    if n <= 1 || n == 4 {
        return false;
    }
    if n <= 3 {
        return true;
    }
    if n % 2 == 0 {
        return false;
    }
    let mut d: u128 = n - 1;
    let mut s: u128 = 0;
    while d % 2 == 0
        invariant
            d > 0,
            s + d <= n,
            odd_part(d as nat) == odd_part((n - 1) as nat),
            two_valuation((n - 1) as nat) == s + two_valuation(d as nat),
        decreases d,
    {
        d = d / 2;
        s = s + 1;
    }
    assert(s >= 1) by {
        if s == 0 {
            assert(d == n - 1);
        }
    }
    let bases: [u128; 7] = [2, 3, 5, 7, 11, 13, 17];
    assert(bases@ =~= witnesses());
    let mut j: usize = 0;
    while j < 7
        invariant
            n > 4,
            n % 2 == 1,
            s >= 1,
            d == odd_part((n - 1) as nat),
            s == two_valuation((n - 1) as nat),
            j <= 7,
            bases@ == witnesses(),
            is_prime_number(n as nat) ==> passes_miller_rabin(n as nat),
            forall|t: int|
                0 <= t < j && (#[trigger] witnesses()[t]) < n ==> passes_witness(
                    n as nat,
                    witnesses()[t] as nat,
                ),
        decreases 7 - j,
    {
        let a = bases[j];
        if a < n && !witness_passes(n, a, d, s) {
            return false;
        }
        j = j + 1;
    }
    true
}

} // verus!
