//! Overflow-free modular arithmetic on `u128`.
use vstd::arithmetic::div_mod::*;
use vstd::arithmetic::mul::*;
use vstd::arithmetic::power::*;
use vstd::prelude::*;

verus! {

/// `(a + b) mod m` for operands already reduced below `m`.
///
/// The sum is never formed directly: when `a + b` would reach `m`, the
/// result is computed as `a - (m - b)`, which stays below `m`.
pub(crate) fn add_mod(a: u128, b: u128, m: u128) -> (r: u128)
    requires
        a < m,
        b < m,
    ensures
        r == (a + b) % (m as int),
{
    if a >= m - b {
        proof {
            lemma_fundamental_div_mod_converse(a + b, m as int, 1, a + b - m);
        }
        a - (m - b)
    } else {
        proof {
            lemma_small_mod((a + b) as nat, m as nat);
        }
        a + b
    }
}

proof fn lemma_double_and_add_step(res: int, base: int, a: int, m: int)
    requires
        m > 0,
        a >= 0,
    ensures
        ((res + (a % 2) * base) % m + (a / 2) * ((2 * base) % m)) % m == (res + a * base) % m,
{
    let x = res + (a % 2) * base;
    let y = (a / 2) * ((2 * base) % m);
    let y2 = (a / 2) * (2 * base);
    lemma_mul_mod_noop_right(a / 2, 2 * base, m);
    lemma_add_mod_noop(x % m, y, m);
    lemma_mod_twice(x, m);
    lemma_add_mod_noop(x, y, m);
    lemma_add_mod_noop(x, y2, m);
    lemma_fundamental_div_mod(a, 2);
    assert(x + y2 == res + a * base) by (nonlinear_arith)
        requires
            x == res + (a % 2) * base,
            y2 == (a / 2) * (2 * base),
            a == 2 * (a / 2) + a % 2,
    ;
}

/// `(a * b) mod m`, computed by binary double-and-add so that no
/// intermediate value ever exceeds `m`.
///
/// The accumulated base is doubled with [`add_mod`] (base + base), never by
/// a left shift, so the doubling cannot overflow even when `m` is close to
/// `u128::MAX`.
pub fn multiply_mod(a: u128, b: u128, m: u128) -> (r: u128)
    requires
        m > 0,
    ensures
        r == (a * b) % (m as int),
{
    let mut res: u128 = 0;
    let mut base: u128 = b % m;
    let mut k: u128 = a;
    proof {
        lemma_mul_mod_noop_right(a as int, b as int, m as int);
        lemma_small_mod(0, m as nat);
    }
    while k > 0
        invariant
            m > 0,
            res < m,
            base < m,
            (res + k * base) % (m as int) == (a * b) % (m as int),
        decreases k,
    {
        proof {
            lemma_double_and_add_step(res as int, base as int, k as int, m as int);
        }
        if k % 2 == 1 {
            assert((k as int % 2) * base == base) by (nonlinear_arith)
                requires
                    k % 2 == 1,
            ;
            res = add_mod(res, base, m);
        } else {
            assert((k as int % 2) * base == 0) by (nonlinear_arith)
                requires
                    k % 2 != 1,
                    k % 2 < 2,
            ;
            proof {
                lemma_small_mod(res as nat, m as nat);
            }
        }
        base = add_mod(base, base, m);
        k = k / 2;
    }
    proof {
        lemma_small_mod(res as nat, m as nat);
    }
    res
}

proof fn lemma_square_step(result: int, b: int, e: nat, m: int)
    requires
        m > 0,
    ensures
        ((if e % 2 == 1 { (result * b) % m } else { result % m }) * pow((b * b) % m, e / 2)) % m
            == (result * pow(b, e)) % m,
{
    let bb = (b * b) % m;
    let h = e / 2;
    let r1 = if e % 2 == 1 { result * b } else { result };
    lemma_pow_mod_noop(b * b, h, m);
    lemma_square_is_pow2(b);
    lemma_pow_multiplies(b, 2, h);
    lemma_fundamental_div_mod(e as int, 2);
    assert(pow(b, e) == if e % 2 == 1 { b * pow(b, 2 * h) } else { pow(b, 2 * h) }) by {
        if e % 2 == 1 {
            lemma_pow_adds(b, 1, 2 * h);
            lemma_pow1(b);
            assert(e == 1 + 2 * h);
        } else {
            assert(e == 2 * h);
        }
    }
    lemma_mul_mod_noop(r1, pow(bb, h), m);
    lemma_mul_mod_noop(r1, pow(b * b, h), m);
    lemma_mod_twice(r1, m);
    assert(r1 % m == if e % 2 == 1 { (result * b) % m } else { result % m });
    lemma_mul_mod_noop(r1 % m, pow(bb, h), m);
    lemma_mod_twice(pow(bb, h), m);
    assert(r1 * pow(b, 2 * h) == result * pow(b, e)) by {
        if e % 2 == 1 {
            lemma_mul_is_associative(result, b, pow(b, 2 * h));
        }
    }
}

/// `base` raised to `exponent`, reduced modulo `modulus`, by repeated
/// squaring with [`multiply_mod`]. Everything is congruent to 0 modulo 1, so
/// a modulus of 1 gives 0.
pub fn power_mod(base: u128, exponent: u128, modulus: u128) -> (r: u128)
    requires
        modulus > 0,
    ensures
        r == pow(base as int, exponent as nat) % (modulus as int),
        r < modulus,
        exponent == 0 && modulus > 1 ==> r == 1,
        modulus == 1 ==> r == 0,
{
    if modulus == 1 {
        return 0;
    }
    proof {
        lemma_pow0(base as int);
        lemma_small_mod(1, modulus as nat);
    }
    let mut result: u128 = 1;
    let mut b: u128 = base % modulus;
    let mut e: u128 = exponent;
    proof {
        lemma_pow_mod_noop(base as int, exponent as nat, modulus as int);
        lemma_small_mod(1, modulus as nat);
        lemma_mul_mod_noop_right(1, pow((base % modulus) as int, exponent as nat), modulus as int);
    }
    while e > 0
        invariant
            modulus > 1,
            result < modulus,
            b < modulus,
            (result * pow(b as int, e as nat)) % (modulus as int) == pow(base as int, exponent as nat)
                % (modulus as int),
        decreases e,
    {
        proof {
            lemma_square_step(result as int, b as int, e as nat, modulus as int);
            lemma_small_mod(result as nat, modulus as nat);
        }
        if e % 2 == 1 {
            result = multiply_mod(result, b, modulus);
        }
        b = multiply_mod(b, b, modulus);
        e = e / 2;
    }
    proof {
        lemma_pow0(b as int);
        lemma_small_mod(result as nat, modulus as nat);
    }
    result
}

} // verus!
