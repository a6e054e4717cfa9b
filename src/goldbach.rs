//! Odd composites that are not a prime plus twice a square.
use crate::max_factor::lemma_divides_trans;
use crate::primality::is_prime_number;
use crate::text::{append_decimal, decimal};
use vstd::arithmetic::div_mod::*;
use vstd::prelude::*;

verus! {

/// The search covers the numbers below this bound.
pub const SEARCH_BOUND: usize = 10000;

/// `p + 2 n^2`.
pub open spec fn prime_plus_twice_square(p: nat, n: nat) -> nat {
    p + 2 * n * n
}

/// `m` is a prime plus twice a square.
pub open spec fn is_prime_plus_twice_square(m: nat) -> bool {
    exists|p: nat, n: nat| is_prime_number(p) && #[trigger] prime_plus_twice_square(p, n) == m
}

/// `m` is an odd composite from 9 up, below the search bound, that is not
/// a prime plus twice a square.
pub open spec fn is_exception(m: nat) -> bool {
    &&& 9 <= m < SEARCH_BOUND
    &&& m % 2 == 1
    &&& !is_prime_number(m)
    &&& !is_prime_plus_twice_square(m)
}

/// `a` and `b` are the two least exceptions.
pub open spec fn first_two_exceptions(a: nat, b: nat) -> bool {
    &&& a < b
    &&& is_exception(a)
    &&& is_exception(b)
    &&& forall|m: nat| m < b && m != a ==> !#[trigger] is_exception(m)
}

/// `k >= 2` has no divisor in `[2, i)` below itself.
pub open spec fn survives_sieve(k: nat, i: nat) -> bool {
    k >= 2 && forall|d: nat| 2 <= d < i && d < k ==> #[trigger] (k % d) != 0
}

proof fn lemma_between_multiples(m: int, k: int, i: int)
    requires
        i > 0,
        m >= 0,
        m % i == 0,
        m < k < m + i,
    ensures
        k % i != 0,
{
    lemma_fundamental_div_mod(m, i);
    assert(m == (m / i) * i) by (nonlinear_arith)
        requires
            m == i * (m / i) + m % i,
            m % i == 0,
    ;
    lemma_fundamental_div_mod_converse(k, i, m / i, k - m);
}

/// The primes below the search bound, by the sieve of Eratosthenes.
fn prime_table() -> (t: Vec<bool>)
    ensures
        t.len() == SEARCH_BOUND,
        forall|k: int| 0 <= k < SEARCH_BOUND ==> t@[k] == is_prime_number(k as nat),
{
    let mut primes: Vec<bool> = Vec::new();
    let mut k: usize = 0;
    while k < SEARCH_BOUND
        invariant
            k <= SEARCH_BOUND,
            primes.len() == k,
            forall|j: int| 0 <= j < k ==> primes@[j] == survives_sieve(j as nat, 2),
        decreases SEARCH_BOUND - k,
    {
        primes.push(k >= 2);
        k = k + 1;
    }
    let mut i: usize = 2;
    while i < SEARCH_BOUND
        invariant
            2 <= i <= SEARCH_BOUND,
            primes.len() == SEARCH_BOUND,
            forall|j: int| 0 <= j < SEARCH_BOUND ==> primes@[j] == survives_sieve(j as nat, i as nat),
        decreases SEARCH_BOUND - i,
    {
        if primes[i] {
            let mut multiple: usize = i * 2;
            proof {
                lemma_mod_multiples_basic(2, i as int);
                lemma_mod_self_0(i as int);
                assert forall|j: int| i < j < i * 2 implies #[trigger] (j % (i as int)) != 0 by {
                    lemma_between_multiples(i as int, j, i as int);
                }
            }
            while multiple < SEARCH_BOUND
                invariant
                    2 <= i < SEARCH_BOUND,
                    i < multiple <= SEARCH_BOUND + i,
                    multiple % i == 0,
                    primes.len() == SEARCH_BOUND,
                    forall|j: int|
                        0 <= j < SEARCH_BOUND ==> primes@[j] == (survives_sieve(j as nat, i as nat)
                            && !(i < j < multiple && j % (i as int) == 0)),
                decreases SEARCH_BOUND + i - multiple,
            {
                primes.set(multiple, false);
                proof {
                    assert forall|j: int| multiple < j < multiple + i implies #[trigger] (j % (i as int)) != 0 by {
                        lemma_between_multiples(multiple as int, j, i as int);
                    }
                    lemma_mod_add_multiples_vanish(multiple as int, i as int);
                }
                multiple = multiple + i;
            }
            proof {
                assert forall|j: int| 0 <= j < SEARCH_BOUND implies primes@[j] == survives_sieve(
                    j as nat,
                    (i + 1) as nat,
                ) by {
                    if i < j && j % (i as int) == 0 {
                        assert(!survives_sieve(j as nat, (i + 1) as nat));
                    }
                    if survives_sieve(j as nat, i as nat) && !survives_sieve(j as nat, (i + 1) as nat) {
                        assert((j as nat) % (i as nat) == 0);
                    }
                }
            }
        } else {
            proof {
                assert(!survives_sieve(i as nat, i as nat));
                let d0 = choose|d: nat| 2 <= d < i && d < i && #[trigger] ((i as nat) % d) == 0;
                assert forall|j: int| 0 <= j < SEARCH_BOUND implies primes@[j] == survives_sieve(
                    j as nat,
                    (i + 1) as nat,
                ) by {
                    if survives_sieve(j as nat, i as nat) && i < j && (j as nat) % (i as nat) == 0 {
                        lemma_divides_trans(j as nat, i as nat, d0);
                        assert((j as nat) % d0 == 0);
                    }
                }
            }
        }
        i = i + 1;
    }
    proof {
        assert forall|j: int| 0 <= j < SEARCH_BOUND implies primes@[j] == is_prime_number(j as nat) by {
            if survives_sieve(j as nat, SEARCH_BOUND as nat) {
                assert forall|d: nat| 1 < d < j implies #[trigger] ((j as nat) % d) != 0 by {
                    assert(2 <= d < SEARCH_BOUND && d < j);
                }
            }
            if is_prime_number(j as nat) {
                assert forall|d: nat| 2 <= d < SEARCH_BOUND && d < j implies #[trigger] ((j as nat)
                    % d) != 0 by {
                    assert(1 < d < j);
                }
            }
        }
    }
    primes
}

/// Whether `m` is a prime plus twice a square, looking the primes up in
/// `primes`.
fn has_prime_plus_twice_square(primes: &Vec<bool>, m: usize) -> (r: bool)
    requires
        2 <= m < SEARCH_BOUND,
        primes.len() == SEARCH_BOUND,
        forall|k: int| 0 <= k < SEARCH_BOUND ==> primes@[k] == is_prime_number(k as nat),
    ensures
        r == is_prime_plus_twice_square(m as nat),
{
    let mut p: usize = 2;
    while p <= m
        invariant
            2 <= p <= m + 1,
            m < SEARCH_BOUND,
            primes.len() == SEARCH_BOUND,
            forall|k: int| 0 <= k < SEARCH_BOUND ==> primes@[k] == is_prime_number(k as nat),
            forall|q: nat, n: nat|
                q < p && is_prime_number(q) ==> #[trigger] prime_plus_twice_square(q, n) != m,
        decreases m + 1 - p,
    {
        if primes[p] {
            let mut n: usize = 0;
            while p + 2 * n * n <= m
                invariant
                    2 <= p <= m,
                    m < SEARCH_BOUND,
                    is_prime_number(p as nat),
                    n <= 100,
                    2 * n * n <= 20000,
                    forall|k: nat| k < n ==> #[trigger] prime_plus_twice_square(p as nat, k) != m,
                decreases 100 - n,
            {
                if p + 2 * n * n == m {
                    assert(prime_plus_twice_square(p as nat, n as nat) == m);
                    return true;
                }
                assert(n < 100 && 2 * (n + 1) * (n + 1) <= 20000) by (nonlinear_arith)
                    requires
                        p + 2 * n * n <= m,
                        m < 10000,
                ;
                n = n + 1;
            }
            assert forall|k: nat| #[trigger] prime_plus_twice_square(p as nat, k) != m by {
                if k >= n {
                    assert(p + 2 * k * k >= p + 2 * n * n) by (nonlinear_arith)
                        requires
                            k >= n,
                    ;
                }
            }
        }
        p = p + 1;
    }
    assert forall|q: nat, n: nat| is_prime_number(q) implies #[trigger] prime_plus_twice_square(q, n) != m by {
        if q > m {
            assert(n * n >= 0) by (nonlinear_arith);
        }
    }
    false
}

/// The two least odd composites from 9 up, below the search bound, that
/// are not a prime plus twice a square, written `"a,b"`.
///
/// The search goes no further than the bound; were there fewer than two
/// such numbers below it, the result would be empty.
pub fn goldbach_conjecture() -> (r: String)
    ensures
        (exists|a: nat, b: nat| first_two_exceptions(a, b)) ==> exists|a: nat, b: nat|
            first_two_exceptions(a, b) && r@ == decimal(a) + seq![','] + decimal(b),
        !(exists|a: nat, b: nat| first_two_exceptions(a, b)) ==> r@.len() == 0,
{
    let primes = prime_table();
    let mut found: Vec<usize> = Vec::new();
    let mut i: usize = 9;
    while i < SEARCH_BOUND && found.len() < 2
        invariant
            9 <= i <= SEARCH_BOUND + 1,
            i % 2 == 1,
            primes.len() == SEARCH_BOUND,
            forall|k: int| 0 <= k < SEARCH_BOUND ==> primes@[k] == is_prime_number(k as nat),
            found.len() <= 2,
            forall|t: int| 0 <= t < found.len() ==> is_exception(#[trigger] found@[t] as nat) && found@[t] < i,
            found.len() == 2 ==> found@[0] < found@[1],
            forall|m: nat| m < i && #[trigger] is_exception(m) ==> exists|t: int|
                0 <= t < found.len() && found@[t] == m,
        decreases SEARCH_BOUND + 1 - i,
    {
        let ghost before = found@;
        if !primes[i] && !has_prime_plus_twice_square(&primes, i) {
            found.push(i);
        }
        proof {
            assert forall|m: nat| m < i + 2 && #[trigger] is_exception(m) implies exists|t: int|
                0 <= t < found.len() && found@[t] == m by {
                if m == i {
                    assert(found@[found.len() - 1] == m);
                } else if m < i {
                    let t = choose|t: int| 0 <= t < before.len() && before[t] == m;
                    assert(found@[t] == m);
                } else {
                    assert(m == i + 1);
                    assert(m % 2 == 0);
                }
            }
        }
        i = i + 2;
    }
    let mut r = String::new();
    if found.len() == 2 {
        let a = found[0];
        let b = found[1];
        append_decimal(&mut r, a as u64);
        proof {
            reveal_strlit(",");
        }
        r.append(",");
        append_decimal(&mut r, b as u64);
        proof {
            assert forall|m: nat| m < b && m != a implies !#[trigger] is_exception(m) by {
                if is_exception(m) {
                    let t = choose|t: int| 0 <= t < found.len() && found@[t] == m;
                }
            }
            assert(first_two_exceptions(a as nat, b as nat));
            assert(r@ =~= decimal(a as nat) + seq![','] + decimal(b as nat));
        }
    } else {
        proof {
            assert forall|a: nat, b: nat| !first_two_exceptions(a, b) by {
                if first_two_exceptions(a, b) {
                    if b < i {
                        let ta = choose|t: int| 0 <= t < found.len() && found@[t] == a;
                        let tb = choose|t: int| 0 <= t < found.len() && found@[t] == b;
                    }
                }
            }
        }
    }
    r
}

} // verus!
