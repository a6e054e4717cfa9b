//! Fermat's little theorem, and with it the fact that every prime passes
//! the Miller-Rabin test.
use crate::max_factor::lemma_euclid;
use crate::primality::{
    is_prime_number, lemma_square_power_mod, odd_part, passes_miller_rabin, passes_witness,
    two_valuation, witnesses,
};
use vstd::arithmetic::power2::*;
use vstd::arithmetic::div_mod::*;
use vstd::arithmetic::power::*;
use vstd::prelude::*;

verus! {

/// The binomial coefficient `n` choose `k`, by Pascal's rule.
pub open spec fn binom(n: nat, k: nat) -> nat
    decreases n,
{
    if k == 0 {
        1
    } else if n == 0 {
        0
    } else {
        binom((n - 1) as nat, (k - 1) as nat) + binom((n - 1) as nat, k)
    }
}

proof fn lemma_binom_zero_above(n: nat, k: nat)
    requires
        k > n,
    ensures
        binom(n, k) == 0,
    decreases n,
{
    if n > 0 {
        lemma_binom_zero_above((n - 1) as nat, (k - 1) as nat);
        lemma_binom_zero_above((n - 1) as nat, k);
    }
}

proof fn lemma_binom_one(n: nat)
    ensures
        binom(n, 1) == n,
    decreases n,
{
    if n > 0 {
        lemma_binom_one((n - 1) as nat);
        assert(binom((n - 1) as nat, 0) == 1);
    }
}

proof fn lemma_binom_self(n: nat)
    ensures
        binom(n, n) == 1,
    decreases n,
{
    if n > 0 {
        lemma_binom_self((n - 1) as nat);
        lemma_binom_zero_above((n - 1) as nat, n);
    }
}

/// `k * C(n, k) == n * C(n - 1, k - 1)`.
proof fn lemma_binom_absorb(n: nat, k: nat)
    requires
        1 <= k <= n,
    ensures
        k * binom(n, k) == n * binom((n - 1) as nat, (k - 1) as nat),
    decreases n,
{
    if k == 1 {
        lemma_binom_one(n);
        assert(binom((n - 1) as nat, 0) == 1);
    } else {
        let a = binom((n - 1) as nat, (k - 1) as nat);
        let b = binom((n - 1) as nat, k);
        let c = binom((n - 2) as nat, (k - 2) as nat);
        let e = binom((n - 2) as nat, (k - 1) as nat);
        assert(binom(n, k) == a + b);
        lemma_binom_absorb((n - 1) as nat, (k - 1) as nat);
        assert((k - 1) * a == (n - 1) * c);
        if k <= n - 1 {
            lemma_binom_absorb((n - 1) as nat, k);
        } else {
            lemma_binom_zero_above((n - 1) as nat, k);
            lemma_binom_zero_above((n - 2) as nat, (k - 1) as nat);
        }
        assert(k * b == (n - 1) * e) by (nonlinear_arith)
            requires
                k <= n - 1 ==> k * b == (n - 1) * e,
                k > n - 1 ==> b == 0 && e == 0,
        ;
        assert(a == c + e);
        assert(k * (a + b) == n * a) by (nonlinear_arith)
            requires
                (k - 1) * a == (n - 1) * c,
                k * b == (n - 1) * e,
                a == c + e,
        ;
    }
}

/// A prime divides every binomial coefficient `C(p, k)` with `0 < k < p`.
proof fn lemma_prime_divides_binom(p: nat, k: nat)
    requires
        is_prime_number(p),
        1 <= k < p,
    ensures
        binom(p, k) % p == 0,
{
    lemma_binom_absorb(p, k);
    let m = binom((p - 1) as nat, (k - 1) as nat);
    lemma_mod_multiples_basic(m as int, p as int);
    assert(m * p == p * m) by (nonlinear_arith);
    lemma_euclid(p, k, binom(p, k));
    lemma_small_mod(k, p);
}

/// `C(n, 0) x^0 + ... + C(n, j - 1) x^(j - 1)`.
pub open spec fn binom_sum(n: nat, x: int, j: nat) -> int
    decreases j,
{
    if j == 0 {
        0
    } else {
        binom_sum(n, x, (j - 1) as nat) + binom(n, (j - 1) as nat) * pow(x, (j - 1) as nat)
    }
}

proof fn lemma_binom_sum_one(n: nat, x: int)
    ensures
        binom_sum(n, x, 1) == 1,
{
    assert(binom(n, 0) == 1);
    lemma_pow0(x);
    assert(binom_sum(n, x, 0) == 0);
    assert(binom_sum(n, x, 1) == binom_sum(n, x, 0) + binom(n, 0) * pow(x, 0));
}

proof fn lemma_binom_sum_pascal(n: nat, x: int, j: nat)
    ensures
        binom_sum(n + 1, x, j + 1) == x * binom_sum(n, x, j) + binom_sum(n, x, j + 1),
    decreases j,
{
    reveal(pow);
    if j == 0 {
        lemma_binom_sum_one(n + 1, x);
        lemma_binom_sum_one(n, x);
        assert(x * binom_sum(n, x, 0) == 0);
    } else {
        lemma_binom_sum_pascal(n, x, (j - 1) as nat);
        let s1 = binom_sum((n + 1) as nat, x, j);
        let t0 = binom_sum(n, x, (j - 1) as nat);
        let t1 = binom_sum(n, x, j);
        let t2 = binom_sum(n, x, j + 1);
        let cp = binom(n, (j - 1) as nat);
        let cj = binom(n, j);
        let pj = pow(x, j);
        let pm = pow(x, (j - 1) as nat);
        assert(binom(n + 1, j) == cp + cj);
        assert(pj == x * pm);
        assert(binom_sum(n + 1, x, j + 1) == s1 + (cp + cj) * pj);
        assert(t1 == t0 + cp * pm);
        assert(t2 == t1 + cj * pj);
        assert(s1 + (cp + cj) * pj == x * t1 + t2) by (nonlinear_arith)
            requires
                s1 == x * t0 + t1,
                pj == x * pm,
                t1 == t0 + cp * pm,
                t2 == t1 + cj * pj,
        ;
    }
}

/// The binomial theorem for `(x + 1)^n`.
proof fn lemma_binomial_theorem(x: int, n: nat)
    ensures
        pow(x + 1, n) == binom_sum(n, x, n + 1),
    decreases n,
{
    reveal(pow);
    if n == 0 {
        lemma_binom_sum_one(0, x);
    } else {
        let m = (n - 1) as nat;
        lemma_binomial_theorem(x, m);
        lemma_binom_sum_pascal(m, x, n);
        lemma_binom_zero_above(m, n);
        assert(binom_sum(m, x, n + 1) == binom_sum(m, x, n));
        assert(pow(x + 1, n) == (x + 1) * pow(x + 1, m));
        assert((x + 1) * binom_sum(m, x, n) == x * binom_sum(m, x, n) + binom_sum(m, x, n))
            by (nonlinear_arith);
    }
}

/// The middle terms of `(x + 1)^p` vanish modulo a prime `p`.
proof fn lemma_binom_sum_mod_prime(p: nat, x: int, j: nat)
    requires
        is_prime_number(p),
        1 <= j <= p,
    ensures
        binom_sum(p, x, j) % (p as int) == 1,
    decreases j,
{
    reveal(pow);
    if j == 1 {
        lemma_binom_sum_one(p, x);
        lemma_small_mod(1, p);
    } else {
        let k = (j - 1) as nat;
        lemma_binom_sum_mod_prime(p, x, k);
        lemma_prime_divides_binom(p, k);
        let c = binom(p, k);
        let q = c / p;
        lemma_fundamental_div_mod(c as int, p as int);
        let t = binom_sum(p, x, k);
        assert(c * pow(x, k) == p * (q * pow(x, k))) by (nonlinear_arith)
            requires
                c == p * q + 0,
        ;
        lemma_mod_multiples_vanish(q * pow(x, k), t, p as int);
        assert(binom_sum(p, x, j) == p * (q * pow(x, k)) + t);
    }
}

/// `(x + 1)^p = x^p + 1` modulo a prime `p`.
proof fn lemma_freshman(p: nat, x: int)
    requires
        is_prime_number(p),
    ensures
        pow(x + 1, p) % (p as int) == (pow(x, p) + 1) % (p as int),
{
    lemma_binomial_theorem(x, p);
    lemma_binom_sum_mod_prime(p, x, p);
    lemma_binom_self(p);
    assert(binom_sum(p, x, p + 1) == binom_sum(p, x, p) + pow(x, p));
    lemma_add_mod_noop(binom_sum(p, x, p), pow(x, p), p as int);
    lemma_add_mod_noop(1, pow(x, p), p as int);
    lemma_small_mod(1, p);
}

/// Fermat's little theorem: `a^p = a` modulo a prime `p`.
pub proof fn lemma_fermat(p: nat, a: nat)
    requires
        is_prime_number(p),
    ensures
        pow(a as int, p) % (p as int) == (a as int) % (p as int),
    decreases a,
{
    if a == 0 {
        lemma0_pow(p);
    } else {
        let b = (a - 1) as nat;
        lemma_fermat(p, b);
        lemma_freshman(p, b as int);
        lemma_add_mod_noop(pow(b as int, p), 1, p as int);
        lemma_add_mod_noop(b as int, 1, p as int);
    }
}

/// `a^(p - 1) = 1` modulo a prime `p` that does not divide `a`.
proof fn lemma_fermat_unit(p: nat, a: nat)
    requires
        is_prime_number(p),
        0 < a < p,
    ensures
        pow(a as int, (p - 1) as nat) % (p as int) == 1,
{
    let q = pow(a as int, (p - 1) as nat);
    lemma_fermat(p, a);
    lemma_pow_adds(a as int, 1, (p - 1) as nat);
    lemma_pow1(a as int);
    lemma_pow_positive(a as int, (p - 1) as nat);
    lemma_small_mod(a, p);
    assert(pow(a as int, p) == a * q);
    // p divides a * q - a = a * (q - 1).
    lemma_sub_mod_noop(a * q, a as int, p as int);
    lemma_mod_self_0(p as int);
    lemma_small_mod(0, p);
    assert((a * q - a) % (p as int) == 0) by {
        lemma_mod_twice(a as int, p as int);
    }
    let q1 = (q - 1) as nat;
    assert(a * q1 == a * q - a) by (nonlinear_arith)
        requires
            q1 == q - 1,
    ;
    lemma_euclid(p, a, q1);
    lemma_small_mod(1, p);
    lemma_add_mod_noop(q1 as int, 1, p as int);
}

/// `x^2 = 1` modulo a prime `p` only for `x = 1` and `x = p - 1`.
proof fn lemma_square_root_of_one(p: nat, y: nat)
    requires
        is_prime_number(p),
        y < p,
        (y * y) % p == 1,
    ensures
        y == 1 || y == p - 1,
{
    if y == 0 {
        lemma_small_mod(0, p);
    } else {
        let lo = (y - 1) as nat;
        let hi = y + 1;
        assert(lo * hi == y * y - 1) by (nonlinear_arith)
            requires
                lo == y - 1,
                hi == y + 1,
        ;
        lemma_fundamental_div_mod((y * y) as int, p as int);
        let k = (y * y) / p;
        assert(lo * hi == p * k) by (nonlinear_arith)
            requires
                lo * hi == y * y - 1,
                y * y == p * k + 1,
        ;
        lemma_mod_multiples_basic(k as int, p as int);
        assert(k * p == p * k) by (nonlinear_arith);
        lemma_euclid(p, lo, hi);
        if lo % p == 0 {
            lemma_small_mod(lo, p);
        } else {
            if hi < p {
                lemma_small_mod(hi, p);
            }
        }
    }
}

proof fn lemma_odd_part_product(x: nat)
    requires
        x > 0,
    ensures
        odd_part(x) * pow2(two_valuation(x)) == x,
        odd_part(x) % 2 == 1,
    decreases x,
{
    if x % 2 == 0 {
        lemma_odd_part_product(x / 2);
        lemma_pow2_unfold(two_valuation(x));
        lemma_fundamental_div_mod(x as int, 2);
        let o = odd_part(x / 2);
        let t = pow2(two_valuation(x / 2));
        assert(odd_part(x) == o);
        assert(two_valuation(x) == 1 + two_valuation(x / 2));
        assert(pow2(two_valuation(x)) == 2 * t);
        assert(o * t == x / 2);
        assert(o * (2 * t) == x) by (nonlinear_arith)
            requires
                o * t == x / 2,
                x == 2 * (x / 2) + x % 2,
                x % 2 == 0,
        ;
    } else {
        assert(pow2(0) == 1) by {
            reveal(pow);
        }
        assert(odd_part(x) == x);
        assert(two_valuation(x) == 0);
        assert(x * pow2(0) == x);
    }
}

/// Going down from an `a^(d 2^j) = 1` while `a^d` is not 1, some earlier
/// power in the chain is `n - 1`.
proof fn lemma_square_chain(n: nat, a: nat, d: nat, j: nat)
    requires
        is_prime_number(n),
        pow(a as int, d) % (n as int) != 1,
        pow(a as int, d * pow2(j)) % (n as int) == 1,
    ensures
        exists|i: nat| i < j && #[trigger] (pow(a as int, d * pow2(i)) % (n as int)) == n - 1,
    decreases j,
{
    if j == 0 {
        assert(pow2(0) == 1) by {
            reveal(pow);
        }
        assert(d * pow2(0) == d);
    } else {
        let k = (d * pow2((j - 1) as nat)) as nat;
        lemma_pow2_unfold(j);
        assert(2 * k == d * pow2(j)) by (nonlinear_arith)
            requires
                k == d * pow2((j - 1) as nat),
                pow2(j) == 2 * pow2((j - 1) as nat),
        ;
        lemma_square_power_mod(a as int, k, n as int);
        let y = pow(a as int, k) % (n as int);
        assert(y >= 0 && y < n);
        lemma_square_root_of_one(n, y as nat);
        if y != n - 1 {
            lemma_square_chain(n, a, d, (j - 1) as nat);
        }
    }
}

/// Every witness below a prime `n > 4` passes for `n`.
proof fn lemma_prime_passes_witness(n: nat, a: nat)
    requires
        is_prime_number(n),
        n > 4,
        0 < a < n,
    ensures
        passes_witness(n, a),
{
    let d = odd_part((n - 1) as nat);
    let s = two_valuation((n - 1) as nat);
    lemma_odd_part_product((n - 1) as nat);
    lemma_fermat_unit(n, a);
    if pow(a as int, d) % (n as int) != 1 {
        lemma_square_chain(n, a, d, s);
    }
}

/// A prime passes the Miller-Rabin test.
pub proof fn lemma_prime_passes_miller_rabin(n: nat)
    requires
        is_prime_number(n),
    ensures
        passes_miller_rabin(n),
{
    if n > 4 {
        assert(n % 2 != 0);
        assert forall|j: int| 0 <= j < 7 && (#[trigger] witnesses()[j]) < n implies passes_witness(
            n,
            witnesses()[j] as nat,
        ) by {
            lemma_prime_passes_witness(n, witnesses()[j] as nat);
        }
    } else if n == 4 {
        assert(4nat % 2 == 0);
    }
}

} // verus!
