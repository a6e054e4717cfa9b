//! Fibonacci numbers by 2x2 matrix exponentiation, and the sum of the odd
//! Fibonacci numbers up to a bound.
use vstd::arithmetic::mul::*;
use vstd::prelude::*;

verus! {

/// The Fibonacci sequence: F(0) = 0, F(1) = 1, F(n) = F(n - 1) + F(n - 2).
pub open spec fn fib_spec(n: nat) -> nat
    decreases n,
{
    if n == 0 {
        0
    } else if n == 1 {
        1
    } else {
        fib_spec((n - 1) as nat) + fib_spec((n - 2) as nat)
    }
}

/// A 2x2 integer matrix `[[m.0, m.1], [m.2, m.3]]`.
pub type Matrix2 = (int, int, int, int);

/// The entries of `m`.
pub open spec fn entries(m: [[i32; 2]; 2]) -> Matrix2 {
    (m[0][0] as int, m[0][1] as int, m[1][0] as int, m[1][1] as int)
}

/// The matrix product `a * b`.
pub open spec fn mat_mul(a: Matrix2, b: Matrix2) -> Matrix2 {
    (a.0 * b.0 + a.1 * b.2, a.0 * b.1 + a.1 * b.3, a.2 * b.0 + a.3 * b.2, a.2 * b.1 + a.3 * b.3)
}

/// `m` raised to the power `k`; the identity for `k == 0`.
pub open spec fn mat_pow(m: Matrix2, k: nat) -> Matrix2
    decreases k,
{
    if k == 0 {
        (1, 0, 0, 1)
    } else {
        mat_mul(mat_pow(m, (k - 1) as nat), m)
    }
}

pub open spec fn in_i32(x: int) -> bool {
    i32::MIN <= x <= i32::MAX
}

/// Every product of two entries and every entry of `a * b` lies within
/// `i32`, so that `a * b` can be computed in `i32`.
pub open spec fn product_fits(a: Matrix2, b: Matrix2) -> bool {
    &&& in_i32(a.0 * b.0) && in_i32(a.1 * b.2) && in_i32(a.0 * b.1) && in_i32(a.1 * b.3)
    &&& in_i32(a.2 * b.0) && in_i32(a.3 * b.2) && in_i32(a.2 * b.1) && in_i32(a.3 * b.3)
    &&& in_i32(mat_mul(a, b).0) && in_i32(mat_mul(a, b).1)
    &&& in_i32(mat_mul(a, b).2) && in_i32(mat_mul(a, b).3)
}

/// The `k`-th power of `[[1, 1], [1, 0]]`:
/// `[[F(k + 1), F(k)], [F(k), F(k - 1)]]`, with F(-1) read as 1.
pub open spec fn fib_power(k: nat) -> Matrix2 {
    (
        fib_spec(k + 1) as int,
        fib_spec(k) as int,
        fib_spec(k) as int,
        fib_spec(k + 1) - fib_spec(k),
    )
}

proof fn lemma_entry_assoc(p0: int, p1: int, q0: int, q1: int, q2: int, q3: int, c0: int, c2: int)
    ensures
        (p0 * q0 + p1 * q2) * c0 + (p0 * q1 + p1 * q3) * c2 == p0 * (q0 * c0 + q1 * c2) + p1 * (q2
            * c0 + q3 * c2),
{
    lemma_mul_is_distributive_add_other_way(c0, p0 * q0, p1 * q2);
    lemma_mul_is_distributive_add_other_way(c2, p0 * q1, p1 * q3);
    lemma_mul_is_distributive_add(p0, q0 * c0, q1 * c2);
    lemma_mul_is_distributive_add(p1, q2 * c0, q3 * c2);
    lemma_mul_is_associative(p0, q0, c0);
    lemma_mul_is_associative(p1, q2, c0);
    lemma_mul_is_associative(p0, q1, c2);
    lemma_mul_is_associative(p1, q3, c2);
}

proof fn lemma_mat_mul_assoc(a: Matrix2, b: Matrix2, c: Matrix2)
    ensures
        mat_mul(mat_mul(a, b), c) == mat_mul(a, mat_mul(b, c)),
{
    lemma_entry_assoc(a.0, a.1, b.0, b.1, b.2, b.3, c.0, c.2);
    lemma_entry_assoc(a.0, a.1, b.0, b.1, b.2, b.3, c.1, c.3);
    lemma_entry_assoc(a.2, a.3, b.0, b.1, b.2, b.3, c.0, c.2);
    lemma_entry_assoc(a.2, a.3, b.0, b.1, b.2, b.3, c.1, c.3);
}

/// `m^(a + b) = m^a * m^b`.
proof fn lemma_mat_pow_add(m: Matrix2, a: nat, b: nat)
    ensures
        mat_pow(m, a + b) == mat_mul(mat_pow(m, a), mat_pow(m, b)),
    decreases b,
{
    if b == 0 {
        let x = mat_pow(m, a);
        assert(mat_mul(x, (1, 0, 0, 1)) == x) by (nonlinear_arith);
    } else {
        lemma_mat_pow_add(m, a, (b - 1) as nat);
        lemma_mat_mul_assoc(mat_pow(m, a), mat_pow(m, (b - 1) as nat), m);
        assert(a + b - 1 == a + (b - 1) as nat);
    }
}

proof fn lemma_fib_add(a: nat, b: nat)
    ensures
        fib_spec(a + b + 1) == fib_spec(a + 1) * fib_spec(b + 1) + fib_spec(a) * fib_spec(b),
    decreases b,
{
    if b == 0 {
        assert(fib_spec(0) == 0 && fib_spec(1) == 1);
        let fa1 = fib_spec(a + 1);
        let fa = fib_spec(a);
        assert(fa1 == fa1 * 1 + fa * 0) by (nonlinear_arith);
    } else if b == 1 {
        assert(fib_spec(0) == 0 && fib_spec(1) == 1);
        assert(fib_spec(2) == 1);
        let fa1 = fib_spec(a + 1);
        let fa = fib_spec(a);
        assert(fib_spec(a + 2) == fa1 + fa);
        assert(fa1 + fa == fa1 * 1 + fa * 1) by (nonlinear_arith);
    } else {
        lemma_fib_add(a, (b - 1) as nat);
        lemma_fib_add(a, (b - 2) as nat);
        let fa1 = fib_spec(a + 1);
        let fa = fib_spec(a);
        let x = fib_spec(a + b);
        let y = fib_spec((a + b - 1) as nat);
        let fb1 = fib_spec(b + 1);
        let fb = fib_spec(b);
        let fbm = fib_spec((b - 1) as nat);
        let fbmm = fib_spec((b - 2) as nat);
        assert((a + (b - 1) as nat + 1) == a + b);
        assert((a + (b - 2) as nat + 1) == (a + b - 1) as nat);
        assert(((b - 1) as nat + 1) == b);
        assert(x == fa1 * fb + fa * fbm);
        assert(y == fa1 * fbm + fa * fbmm);
        assert(fib_spec(a + b + 1) == x + y);
        assert(fb1 == fb + fbm);
        assert(fb == fbm + fbmm);
        assert(x + y == fa1 * fb1 + fa * fb) by (nonlinear_arith)
            requires
                x == fa1 * fb + fa * fbm,
                y == fa1 * fbm + fa * fbmm,
                fb1 == fb + fbm,
                fb == fbm + fbmm,
        ;
    }
}

proof fn lemma_fib_monotonic(a: nat, b: nat)
    requires
        a <= b,
    ensures
        fib_spec(a) <= fib_spec(b),
    decreases b - a,
{
    if a < b {
        lemma_fib_monotonic(a, (b - 1) as nat);
    }
}

/// The product of the `j`-th and the `k`-th power of the Fibonacci matrix
/// is its `(j + k)`-th power.
proof fn lemma_fib_power_product(j: nat, k: nat)
    ensures
        mat_mul(fib_power(j), fib_power(k)) == fib_power(j + k),
{
    let fj = fib_spec(j);
    let fj1 = fib_spec(j + 1);
    let fk = fib_spec(k);
    let fk1 = fib_spec(k + 1);
    let gj = fj1 - fj;
    let gk = fk1 - fk;
    assert(fib_spec(0) == 0 && fib_spec(1) == 1);
    lemma_fib_add(j, k);
    // (0, 1): F(j + 1) F(k) + F(j) G(k) = F(j + k)
    if k >= 1 {
        lemma_fib_add(j, (k - 1) as nat);
        assert(gk == fib_spec((k - 1) as nat));
    }
    // (1, 0): F(j) F(k + 1) + G(j) F(k) = F(j + k)
    if j >= 1 {
        lemma_fib_add(k, (j - 1) as nat);
        assert(gj == fib_spec((j - 1) as nat));
        assert(fj * fk1 + gj * fk == fk1 * fj + fk * gj) by (nonlinear_arith);
        assert((k + (j - 1) + 1) as nat == j + k);
    } else {
        assert(fj * fk1 + gj * fk == fk) by (nonlinear_arith)
            requires
                fj == 0,
                gj == 1,
        ;
    }
    // (1, 1): F(j) F(k) + G(j) G(k) = G(j + k)
    if j >= 1 && k >= 1 {
        lemma_fib_add((j - 1) as nat, (k - 1) as nat);
        assert(((j - 1) + (k - 1) + 1) as nat == (j + k - 1) as nat);
        assert(fib_spec(j + k + 1) - fib_spec(j + k) == fib_spec((j + k - 1) as nat));
    } else if j == 0 {
        assert(fj * fk + gj * gk == gk) by (nonlinear_arith)
            requires
                fj == 0,
                gj == 1,
        ;
    } else {
        assert(fj * fk + gj * gk == gj) by (nonlinear_arith)
            requires
                fk == 0,
                gk == 1,
        ;
    }
    if k == 0 {
        assert(fj1 * fk + fj * gk == fj) by (nonlinear_arith)
            requires
                fk == 0,
                gk == 1,
        ;
    }
    let p = mat_mul(fib_power(j), fib_power(k));
    assert(p.0 == fj1 * fk1 + fj * fk);
    assert(p.1 == fj1 * fk + fj * gk);
    assert(p.2 == fj * fk1 + gj * fk);
    assert(p.3 == fj * fk + gj * gk);
}


proof fn lemma_fib_power(k: nat)
    ensures
        mat_pow((1, 1, 1, 0), k) == fib_power(k),
    decreases k,
{
    assert(fib_spec(0) == 0 && fib_spec(1) == 1 && fib_spec(2) == 1) by {
        reveal_with_fuel(fib_spec, 3);
    }
    if k == 0 {
    } else {
        lemma_fib_power((k - 1) as nat);
        lemma_fib_power_product((k - 1) as nat, 1);
        assert(fib_power(1) == (1int, 1int, 1int, 0int));
    }
}

/// Two powers of the Fibonacci matrix multiply within `i32` while the
/// Fibonacci number above their product fits.
proof fn lemma_fib_power_product_fits(j: nat, k: nat)
    requires
        fib_spec(j + k + 1) <= i32::MAX,
    ensures
        product_fits(fib_power(j), fib_power(k)),
{
    lemma_fib_power_product(j, k);
    lemma_fib_monotonic(j, j + 1);
    lemma_fib_monotonic(k, k + 1);
    lemma_fib_monotonic(j + k, j + k + 1);
    let (a0, a1, a2, a3) = fib_power(j);
    let (b0, b1, b2, b3) = fib_power(k);
    let top = fib_spec(j + k + 1) as int;
    assert(0 <= a0 && 0 <= a1 && 0 <= a2 && 0 <= a3 && 0 <= b0 && 0 <= b1 && 0 <= b2 && 0 <= b3);
    assert(0 <= a0 * b0 && 0 <= a1 * b2 && 0 <= a0 * b1 && 0 <= a1 * b3 && 0 <= a2 * b0 && 0 <= a3
        * b2 && 0 <= a2 * b1 && 0 <= a3 * b3) by (nonlinear_arith)
        requires
            0 <= a0 && 0 <= a1 && 0 <= a2 && 0 <= a3 && 0 <= b0 && 0 <= b1 && 0 <= b2 && 0 <= b3,
    ;
    assert(mat_mul(fib_power(j), fib_power(k)).0 <= top);
    assert(mat_mul(fib_power(j), fib_power(k)).1 <= top);
    assert(mat_mul(fib_power(j), fib_power(k)).2 <= top);
    assert(mat_mul(fib_power(j), fib_power(k)).3 <= top);
}

/// The product of two 2x2 matrices whose products and entries fit in `i32`.
fn matrix_multiply(a: [[i32; 2]; 2], b: [[i32; 2]; 2]) -> (r: [[i32; 2]; 2])
    requires
        product_fits(entries(a), entries(b)),
    ensures
        entries(r) == mat_mul(entries(a), entries(b)),
{
    let r00 = a[0][0] * b[0][0] + a[0][1] * b[1][0];
    let r01 = a[0][0] * b[0][1] + a[0][1] * b[1][1];
    let r10 = a[1][0] * b[0][0] + a[1][1] * b[1][0];
    let r11 = a[1][0] * b[0][1] + a[1][1] * b[1][1];
    [[r00, r01], [r10, r11]]
}

/// `base` raised to the power `exp` (the identity for `exp <= 0`), by
/// repeated squaring. A square is only formed while a higher bit of the
/// exponent remains, so only products of powers up to `exp` are computed.
fn matrix_power(base: [[i32; 2]; 2], exp: i32) -> (r: [[i32; 2]; 2])
    requires
        forall|j: nat, k: nat|
            j + k <= exp ==> #[trigger] product_fits(
                mat_pow(entries(base), j),
                mat_pow(entries(base), k),
            ),
    ensures
        entries(r) == mat_pow(entries(base), if exp > 0 {
            exp as nat
        } else {
            0
        }),
{
    let ghost m = entries(base);
    let mut result: [[i32; 2]; 2] = [[1, 0], [0, 1]];
    let mut b = base;
    let mut e = exp;
    if e < 0 {
        e = 0;
    }
    let ghost total = e as nat;
    let ghost mut done: nat = 0;
    let ghost mut step: nat = 1;
    assert(mat_pow(m, 0) == (1int, 0int, 0int, 1int));
    assert(mat_pow(m, 1) == mat_mul(mat_pow(m, 0), m));
    assert(mat_mul((1int, 0int, 0int, 1int), m) == m) by (nonlinear_arith);
    while e > 0
        invariant
            e >= 0,
            total == if exp > 0 {
                exp as nat
            } else {
                0
            },
            entries(result) == mat_pow(m, done),
            entries(b) == mat_pow(m, step),
            step >= 1,
            done + step * e as nat == total,
            forall|j: nat, k: nat|
                j + k <= exp ==> #[trigger] product_fits(mat_pow(m, j), mat_pow(m, k)),
        decreases e,
    {
        let ghost e0 = e as nat;
        if e % 2 == 1 {
            proof {
                assert(done + step <= total) by (nonlinear_arith)
                    requires
                        done + step * e0 == total,
                        e0 >= 1,
                ;
                assert(product_fits(mat_pow(m, done), mat_pow(m, step)));
                lemma_mat_pow_add(m, done, step);
            }
            result = matrix_multiply(result, b);
            proof {
                done = done + step;
            }
        }
        assert(done + step * (2 * (e0 / 2)) == total) by (nonlinear_arith)
            requires
                e0 % 2 == 1 ==> done == total - step * e0 + step,
                e0 % 2 != 1 ==> done == total - step * e0,
                e0 == 2 * (e0 / 2) + e0 % 2,
        ;
        e = e / 2;
        if e > 0 {
            proof {
                assert(step + step <= total && done + (step + step) * e as nat == total)
                    by (nonlinear_arith)
                    requires
                        done + step * (2 * e as nat) == total,
                        e >= 1,
                ;
                assert(product_fits(mat_pow(m, step), mat_pow(m, step)));
                lemma_mat_pow_add(m, step, step);
            }
            b = matrix_multiply(b, b);
            proof {
                step = step + step;
            }
        }
    }
    assert(done == total) by (nonlinear_arith)
        requires
            done + step * e as nat == total,
            e == 0,
    ;
    result
}

/// The `n`-th Fibonacci number; `n` itself for `n <= 1`, negative `n`
/// included. F(46) is the largest Fibonacci number that fits in `i32`.
pub fn fib(n: i32) -> (r: i32)
    requires
        n <= 46,
    ensures
        n <= 1 ==> r == n,
        n >= 0 ==> r == fib_spec(n as nat),
{
    if n <= 1 {
        assert(fib_spec(0) == 0 && fib_spec(1) == 1);
        return n;
    }
    let base_matrix: [[i32; 2]; 2] = [[1, 1], [1, 0]];
    proof {
        lemma_fib_46();
        assert(entries(base_matrix) == (1int, 1int, 1int, 0int));
        assert forall|j: nat, k: nat| j + k <= n - 1 implies #[trigger] product_fits(
            mat_pow(entries(base_matrix), j),
            mat_pow(entries(base_matrix), k),
        ) by {
            lemma_fib_power(j);
            lemma_fib_power(k);
            lemma_fib_monotonic(j + k + 1, 46);
            lemma_fib_power_product_fits(j, k);
        }
        lemma_fib_power((n - 1) as nat);
    }
    let result_matrix = matrix_power(base_matrix, n - 1);
    result_matrix[0][0]
}

proof fn lemma_fib_46()
    ensures
        fib_spec(46) == 1836311903,
{
    assert(fib_spec(0) == 0 && fib_spec(1) == 1);
    assert(fib_spec(2) == 1);
    assert(fib_spec(3) == 2);
    assert(fib_spec(4) == 3);
    assert(fib_spec(5) == 5);
    assert(fib_spec(6) == 8);
    assert(fib_spec(7) == 13);
    assert(fib_spec(8) == 21);
    assert(fib_spec(9) == 34);
    assert(fib_spec(10) == 55);
    assert(fib_spec(11) == 89);
    assert(fib_spec(12) == 144);
    assert(fib_spec(13) == 233);
    assert(fib_spec(14) == 377);
    assert(fib_spec(15) == 610);
    assert(fib_spec(16) == 987);
    assert(fib_spec(17) == 1597);
    assert(fib_spec(18) == 2584);
    assert(fib_spec(19) == 4181);
    assert(fib_spec(20) == 6765);
    assert(fib_spec(21) == 10946);
    assert(fib_spec(22) == 17711);
    assert(fib_spec(23) == 28657);
    assert(fib_spec(24) == 46368);
    assert(fib_spec(25) == 75025);
    assert(fib_spec(26) == 121393);
    assert(fib_spec(27) == 196418);
    assert(fib_spec(28) == 317811);
    assert(fib_spec(29) == 514229);
    assert(fib_spec(30) == 832040);
    assert(fib_spec(31) == 1346269);
    assert(fib_spec(32) == 2178309);
    assert(fib_spec(33) == 3524578);
    assert(fib_spec(34) == 5702887);
    assert(fib_spec(35) == 9227465);
    assert(fib_spec(36) == 14930352);
    assert(fib_spec(37) == 24157817);
    assert(fib_spec(38) == 39088169);
    assert(fib_spec(39) == 63245986);
    assert(fib_spec(40) == 102334155);
    assert(fib_spec(41) == 165580141);
    assert(fib_spec(42) == 267914296);
    assert(fib_spec(43) == 433494437);
    assert(fib_spec(44) == 701408733);
    assert(fib_spec(45) == 1134903170);
    assert(fib_spec(46) == 1836311903);
}

/// The sum of the odd Fibonacci numbers F(i), `1 <= i < k`, that do not
/// exceed `t`.
pub open spec fn odd_fib_sum_below(t: nat, k: nat) -> nat
    decreases k,
{
    if k <= 1 {
        0
    } else {
        odd_fib_sum_below(t, (k - 1) as nat) + if fib_spec((k - 1) as nat) % 2 == 1 && fib_spec(
            (k - 1) as nat,
        ) <= t {
            fib_spec((k - 1) as nat)
        } else {
            0
        }
    }
}

/// The sum of the odd Fibonacci numbers F(i), `i >= 1`, that do not exceed
/// `t`; F(1) and F(2) both count. Every F(i) with `i >= t + 2` exceeds `t`.
pub open spec fn odd_fib_total(t: nat) -> nat {
    odd_fib_sum_below(t, t + 2)
}

proof fn lemma_fib_at_least_index(i: nat)
    ensures
        fib_spec(i) + 1 >= i,
        i >= 1 ==> fib_spec(i) >= 1,
    decreases i,
{
    assert(fib_spec(0) == 0 && fib_spec(1) == 1);
    if i >= 2 {
        lemma_fib_at_least_index((i - 1) as nat);
        lemma_fib_at_least_index((i - 2) as nat);
        if i == 2 {
            assert(fib_spec(2) == 1);
        }
    }
}

proof fn lemma_odd_sum_monotone(t: nat, k: nat, m: nat)
    requires
        k <= m,
    ensures
        odd_fib_sum_below(t, k) <= odd_fib_sum_below(t, m),
    decreases m - k,
{
    if k < m {
        lemma_odd_sum_monotone(t, k, (m - 1) as nat);
    }
}

proof fn lemma_odd_sum_stable(t: nat, k: nat, m: nat)
    requires
        k <= m,
        fib_spec(k) > t,
    ensures
        odd_fib_sum_below(t, m) == odd_fib_sum_below(t, k),
    decreases m - k,
{
    if k < m {
        lemma_odd_sum_stable(t, k, (m - 1) as nat);
        lemma_fib_monotonic(k, (m - 1) as nat);
    }
}

/// The sum of the odd F(i), `1 <= i < k`, whatever their size.
spec fn odd_fib_prefix(k: nat) -> nat
    decreases k,
{
    if k <= 1 {
        0
    } else {
        odd_fib_prefix((k - 1) as nat) + if fib_spec((k - 1) as nat) % 2 == 1 {
            fib_spec((k - 1) as nat)
        } else {
            0
        }
    }
}

proof fn lemma_odd_sum_below_prefix(t: nat, k: nat)
    ensures
        odd_fib_sum_below(t, k) <= odd_fib_prefix(k),
    decreases k,
{
    if k > 1 {
        lemma_odd_sum_below_prefix(t, (k - 1) as nat);
    }
}

proof fn lemma_odd_fib_prefix_47()
    ensures
        fib_spec(47) == 2971215073,
        odd_fib_prefix(47) == 3321919439,
{
    lemma_fib_46();
    assert(fib_spec(0) == 0);
    assert(fib_spec(1) == 1);
    assert(fib_spec(2) == 1);
    assert(fib_spec(3) == 2);
    assert(fib_spec(4) == 3);
    assert(fib_spec(5) == 5);
    assert(fib_spec(6) == 8);
    assert(fib_spec(7) == 13);
    assert(fib_spec(8) == 21);
    assert(fib_spec(9) == 34);
    assert(fib_spec(10) == 55);
    assert(fib_spec(11) == 89);
    assert(fib_spec(12) == 144);
    assert(fib_spec(13) == 233);
    assert(fib_spec(14) == 377);
    assert(fib_spec(15) == 610);
    assert(fib_spec(16) == 987);
    assert(fib_spec(17) == 1597);
    assert(fib_spec(18) == 2584);
    assert(fib_spec(19) == 4181);
    assert(fib_spec(20) == 6765);
    assert(fib_spec(21) == 10946);
    assert(fib_spec(22) == 17711);
    assert(fib_spec(23) == 28657);
    assert(fib_spec(24) == 46368);
    assert(fib_spec(25) == 75025);
    assert(fib_spec(26) == 121393);
    assert(fib_spec(27) == 196418);
    assert(fib_spec(28) == 317811);
    assert(fib_spec(29) == 514229);
    assert(fib_spec(30) == 832040);
    assert(fib_spec(31) == 1346269);
    assert(fib_spec(32) == 2178309);
    assert(fib_spec(33) == 3524578);
    assert(fib_spec(34) == 5702887);
    assert(fib_spec(35) == 9227465);
    assert(fib_spec(36) == 14930352);
    assert(fib_spec(37) == 24157817);
    assert(fib_spec(38) == 39088169);
    assert(fib_spec(39) == 63245986);
    assert(fib_spec(40) == 102334155);
    assert(fib_spec(41) == 165580141);
    assert(fib_spec(42) == 267914296);
    assert(fib_spec(43) == 433494437);
    assert(fib_spec(44) == 701408733);
    assert(fib_spec(45) == 1134903170);
    assert(fib_spec(46) == 1836311903);
    assert(fib_spec(47) == 2971215073);
    assert(odd_fib_prefix(0) == 0);
    assert(odd_fib_prefix(1) == 0);
    assert(odd_fib_prefix(2) == 1);
    assert(odd_fib_prefix(3) == 2);
    assert(odd_fib_prefix(4) == 2);
    assert(odd_fib_prefix(5) == 5);
    assert(odd_fib_prefix(6) == 10);
    assert(odd_fib_prefix(7) == 10);
    assert(odd_fib_prefix(8) == 23);
    assert(odd_fib_prefix(9) == 44);
    assert(odd_fib_prefix(10) == 44);
    assert(odd_fib_prefix(11) == 99);
    assert(odd_fib_prefix(12) == 188);
    assert(odd_fib_prefix(13) == 188);
    assert(odd_fib_prefix(14) == 421);
    assert(odd_fib_prefix(15) == 798);
    assert(odd_fib_prefix(16) == 798);
    assert(odd_fib_prefix(17) == 1785);
    assert(odd_fib_prefix(18) == 3382);
    assert(odd_fib_prefix(19) == 3382);
    assert(odd_fib_prefix(20) == 7563);
    assert(odd_fib_prefix(21) == 14328);
    assert(odd_fib_prefix(22) == 14328);
    assert(odd_fib_prefix(23) == 32039);
    assert(odd_fib_prefix(24) == 60696);
    assert(odd_fib_prefix(25) == 60696);
    assert(odd_fib_prefix(26) == 135721);
    assert(odd_fib_prefix(27) == 257114);
    assert(odd_fib_prefix(28) == 257114);
    assert(odd_fib_prefix(29) == 574925);
    assert(odd_fib_prefix(30) == 1089154);
    assert(odd_fib_prefix(31) == 1089154);
    assert(odd_fib_prefix(32) == 2435423);
    assert(odd_fib_prefix(33) == 4613732);
    assert(odd_fib_prefix(34) == 4613732);
    assert(odd_fib_prefix(35) == 10316619);
    assert(odd_fib_prefix(36) == 19544084);
    assert(odd_fib_prefix(37) == 19544084);
    assert(odd_fib_prefix(38) == 43701901);
    assert(odd_fib_prefix(39) == 82790070);
    assert(odd_fib_prefix(40) == 82790070);
    assert(odd_fib_prefix(41) == 185124225);
    assert(odd_fib_prefix(42) == 350704366);
    assert(odd_fib_prefix(43) == 350704366);
    assert(odd_fib_prefix(44) == 784198803);
    assert(odd_fib_prefix(45) == 1485607536);
    assert(odd_fib_prefix(46) == 1485607536);
    assert(odd_fib_prefix(47) == 3321919439);
}

/// Below F(47) = 2971215073 the sum fits in `u32`; from F(47) on it does
/// not, since F(47) is odd and the smaller odd terms add up to more than
/// 2^32 - 1 - F(47).
proof fn lemma_odd_fib_total_fits(t: nat)
    requires
        t < 2971215073,
    ensures
        odd_fib_total(t) <= u32::MAX,
{
    lemma_odd_fib_prefix_47();
    if t + 2 >= 47 {
        lemma_odd_sum_stable(t, 47, t + 2);
    } else {
        lemma_odd_sum_monotone(t, t + 2, 47);
    }
    lemma_odd_sum_below_prefix(t, 47);
}

/// The sum of the odd Fibonacci numbers, counting F(1) and F(2) both, that
/// do not exceed `threshold`. The threshold stays below F(47), the first
/// Fibonacci number whose inclusion makes the sum overflow `u32`.
pub fn odd_fibnacci_sum(threshold: u32) -> (r: u32)
    requires
        threshold < 2971215073,
    ensures
        r == odd_fib_total(threshold as nat),
{
    proof {
        lemma_odd_fib_total_fits(threshold as nat);
    }
    let ghost t = threshold as nat;
    let mut sum: u32 = 0;
    let mut a: u64 = 0;
    let mut b: u64 = 1;
    let ghost mut k: nat = 1;
    assert(fib_spec(0) == 0 && fib_spec(1) == 1);
    while b <= threshold as u64
        invariant
            t == threshold as nat,
            k >= 1,
            a == fib_spec((k - 1) as nat),
            b == fib_spec(k),
            sum == odd_fib_sum_below(t, k),
            k <= t + 2,
            odd_fib_total(t) <= u32::MAX,
        decreases t + 2 - k,
    {
        proof {
            lemma_fib_at_least_index(k);
            lemma_fib_monotonic((k - 1) as nat, k);
            lemma_odd_sum_monotone(t, k + 1, t + 2);
            assert(odd_fib_sum_below(t, k + 1) == sum + if b % 2 == 1 && b <= t {
                b as nat
            } else {
                0
            });
        }
        if b % 2 != 0 {
            sum = sum + b as u32;
        }
        let next = a + b;
        a = b;
        b = next;
        proof {
            k = k + 1;
        }
    }
    proof {
        lemma_odd_sum_stable(t, k, t + 2);
    }
    sum
}

} // verus!
