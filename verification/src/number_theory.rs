use crate::math_utils::{
    divides, factors_product, is_prime, is_primitive_root, least_divisor_from, lemma_least_divisor,
    lemma_prime_factorization, pow_mod, prime_factorization,
};
use vstd::arithmetic::div_mod::*;
use vstd::arithmetic::mul::*;
use vstd::arithmetic::power::*;
use vstd::prelude::*;

verus! {

/// The greatest common divisor, by Euclid's algorithm.
pub open spec fn gcd(a: nat, b: nat) -> nat
    decreases b,
{
    if b == 0 {
        a
    } else {
        gcd(b, a % b)
    }
}

/// The greatest common divisor does not depend on the order of the two numbers.
pub proof fn lemma_gcd_symmetric(a: nat, b: nat)
    ensures
        gcd(a, b) == gcd(b, a),
{
    reveal_with_fuel(gcd, 3);
    if a > 0 && b > 0 {
        if a < b {
            lemma_small_mod(a, b);
        } else if b < a {
            lemma_small_mod(b, a);
        }
    }
}

/// The greatest common divisor of two numbers is a combination of them with integer
/// coefficients, which are returned.
pub proof fn lemma_bezout(a: nat, b: nat) -> (c: (int, int))
    ensures
        c.0 * a + c.1 * b == gcd(a, b),
    decreases b,
{
    if b == 0 {
        (1, 0)
    } else {
        let (u, v) = lemma_bezout(b, a % b);
        let q = (a / b) as int;
        lemma_fundamental_div_mod(a as int, b as int);
        assert(v * a + (u - v * q) * b == u * b + v * (a % b)) by (nonlinear_arith)
            requires
                a == b * q + a % b,
        ;
        (v, u - v * q)
    }
}

/// What divides a product and has no divisor in common with one factor divides the other.
pub proof fn lemma_coprime_divides(a: nat, b: nat, m: int)
    requires
        a > 0,
        gcd(a, b) == 1,
        (b * m) % (a as int) == 0,
    ensures
        m % (a as int) == 0,
{
    let (u, v) = lemma_bezout(a, b);
    let t = (b * m) / (a as int);
    lemma_fundamental_div_mod(b * m, a as int);
    assert(m == (u * m + v * t) * a) by (nonlinear_arith)
        requires
            u * a + v * b == 1,
            b * m == a * t,
    ;
    lemma_mod_multiples_basic(u * m + v * t, a as int);
}

/// Among the numbers below the product of two coprime numbers, one is known by its two
/// remainders.
pub proof fn lemma_chinese_remainders(n1: nat, n2: nat, k: int, l: int)
    requires
        n1 > 0,
        n2 > 0,
        gcd(n1, n2) == 1,
        0 <= l <= k < n1 * n2,
        k % (n1 as int) == l % (n1 as int),
        k % (n2 as int) == l % (n2 as int),
    ensures
        k == l,
{
    let diff = k - l;
    lemma_mod_equivalence(k, l, n1 as int);
    lemma_mod_equivalence(k, l, n2 as int);
    let q1 = diff / (n1 as int);
    lemma_fundamental_div_mod(diff, n1 as int);
    lemma_gcd_symmetric(n1, n2);
    lemma_coprime_divides(n2, n1, q1);
    let q2 = q1 / (n2 as int);
    lemma_fundamental_div_mod(q1, n2 as int);
    assert(q2 == 0) by (nonlinear_arith)
        requires
            diff == n1 * q1,
            q1 == n2 * q2,
            0 <= diff < n1 * n2,
            n1 > 0,
            n2 > 0,
    ;
    assert(diff == 0) by (nonlinear_arith)
        requires
            diff == n1 * q1,
            q1 == n2 * q2,
            q2 == 0,
    ;
}

/// The greatest common divisor of two numbers, not both 0, divides both.
pub proof fn lemma_gcd_divides(a: nat, b: nat)
    requires
        a > 0 || b > 0,
    ensures
        gcd(a, b) > 0,
        a % gcd(a, b) == 0,
        b % gcd(a, b) == 0,
    decreases b,
{
    if b == 0 {
        lemma_mod_self_0(a as int);
        lemma_small_mod(0, a);
    } else {
        let g = gcd(b, a % b);
        lemma_gcd_divides(b, a % b);
        // a is a multiple of b plus the remainder, and g divides both
        lemma_fundamental_div_mod(a as int, b as int);
        lemma_fundamental_div_mod(b as int, g as int);
        lemma_fundamental_div_mod((a % b) as int, g as int);
        let q = (a / b) as int;
        let s = (b / g) as int;
        let t = ((a % b) / g) as int;
        assert(a == (q * s + t) * g) by (nonlinear_arith)
            requires
                a == b * q + a % b,
                b == g * s,
                a % b == g * t,
        ;
        lemma_mod_multiples_basic(q * s + t, g as int);
    }
}

/// A prime that divides a product divides one of the factors.
pub proof fn lemma_prime_divides_factor(q: nat, a: nat, b: nat)
    requires
        is_prime(q),
        (a * b) % q == 0,
    ensures
        a % q == 0 || b % q == 0,
{
    if a % q != 0 {
        let g = gcd(q, a);
        lemma_gcd_divides(q, a);
        if g != 1 {
            // a divisor of a prime, not 1, is the prime
            if g < q {
                assert(divides(g, q));
            } else if g > q {
                lemma_small_mod(q, g);
            }
            assert(g == q);
        }
        lemma_coprime_divides(q, a, b as int);
    }
}

/// A prime that divides a power of a prime is that prime.
pub proof fn lemma_prime_divides_power(q: nat, p: nat, m: nat)
    requires
        is_prime(q),
        is_prime(p),
        pow(p as int, m) % (q as int) == 0,
    ensures
        q == p,
    decreases m,
{
    reveal(pow);
    if m == 0 {
        lemma_small_mod(1, q);
    } else {
        lemma_pow_positive(p as int, (m - 1) as nat);
        lemma_prime_divides_factor(q, p, pow(p as int, (m - 1) as nat) as nat);
        if p % q == 0 {
            if q < p {
                assert(divides(q, p));
            } else if q > p {
                lemma_small_mod(p, q);
            }
        } else {
            lemma_prime_divides_power(q, p, (m - 1) as nat);
        }
    }
}

/// A prime that divides the product of a list of powers of primes is one of the primes.
pub proof fn lemma_prime_divides_product(factors: Seq<(usize, usize)>, q: nat) -> (i: int)
    requires
        is_prime(q),
        forall|i: int| 0 <= i < factors.len() ==> is_prime((#[trigger] factors[i]).0 as nat),
        factors_product(factors) % (q as int) == 0,
    ensures
        0 <= i < factors.len(),
        factors[i].0 == q,
    decreases factors.len(),
{
    if factors.len() == 0 {
        lemma_small_mod(1, q);
        0
    } else {
        let rest = factors_product(factors.drop_last());
        let last = pow(factors.last().0 as int, factors.last().1 as nat);
        lemma_factors_product_positive(factors.drop_last());
        lemma_pow_positive(factors.last().0 as int, factors.last().1 as nat);
        lemma_prime_divides_factor(q, rest as nat, last as nat);
        if last % (q as int) == 0 {
            lemma_prime_divides_power(q, factors.last().0 as nat, factors.last().1 as nat);
            factors.len() - 1
        } else {
            lemma_prime_divides_product(factors.drop_last(), q)
        }
    }
}

/// The product of a list of powers of primes is positive.
pub proof fn lemma_factors_product_positive(factors: Seq<(usize, usize)>)
    requires
        forall|i: int| 0 <= i < factors.len() ==> is_prime((#[trigger] factors[i]).0 as nat),
    ensures
        factors_product(factors) > 0,
    decreases factors.len(),
{
    if factors.len() > 0 {
        lemma_factors_product_positive(factors.drop_last());
        lemma_pow_positive(factors.last().0 as int, factors.last().1 as nat);
        lemma_mul_strictly_positive(
            factors_product(factors.drop_last()),
            pow(factors.last().0 as int, factors.last().1 as nat),
        );
    }
}

/// Every prime that divides a number is listed in its prime factorization; the place is
/// returned.
pub proof fn lemma_prime_divisor_is_listed(n: nat, q: nat) -> (i: int)
    requires
        1 <= n <= usize::MAX,
        is_prime(q),
        n % q == 0,
    ensures
        0 <= i < prime_factorization(n).len(),
        prime_factorization(n)[i].0 == q,
{
    lemma_prime_factorization(n);
    lemma_prime_divides_product(prime_factorization(n), q)
}

/// The power of a sum of exponents is the product of the powers, modulo `p`.
pub proof fn lemma_pow_mod_adds(x: nat, a: nat, b: nat, p: nat)
    requires
        p > 0,
    ensures
        pow_mod(x, a + b, p) == (pow_mod(x, a, p) * pow_mod(x, b, p)) % p,
{
    lemma_pow_adds(x as int, a, b);
    lemma_mul_mod_noop(pow(x as int, a), pow(x as int, b), p as int);
    lemma_mod_bound(pow(x as int, a), p as int);
    lemma_mod_bound(pow(x as int, b), p as int);
    lemma_mod_bound(pow(x as int, a + b), p as int);
}

/// Where a power is 1 modulo `p`, so is the power of every multiple of the exponent.
pub proof fn lemma_pow_mod_one_multiple(x: nat, b: nat, q: nat, p: nat)
    requires
        p >= 2,
        pow_mod(x, b, p) == 1,
    ensures
        pow_mod(x, b * q, p) == 1,
{
    lemma_pow_multiplies(x as int, b, q);
    lemma_pow_mod_noop(pow(x as int, b), q, p as int);
    lemma_mod_bound(pow(x as int, b), p as int);
    lemma1_pow(q);
    lemma_small_mod(1, p);
}

/// Where the powers of two exponents are 1 modulo `p`, so is the power of their greatest
/// common divisor.
pub proof fn lemma_pow_mod_one_gcd(x: nat, a: nat, b: nat, p: nat)
    requires
        p >= 2,
        pow_mod(x, a, p) == 1,
        pow_mod(x, b, p) == 1,
    ensures
        pow_mod(x, gcd(a, b), p) == 1,
    decreases b,
{
    if b != 0 {
        let q = a / b;
        let r = a % b;
        lemma_fundamental_div_mod(a as int, b as int);
        lemma_pow_mod_one_multiple(x, b, q, p);
        lemma_pow_mod_adds(x, b * q, r, p);
        lemma_mul_basics(pow_mod(x, r, p) as int);
        lemma_mod_bound(pow(x as int, r), p as int);
        lemma_small_mod(pow_mod(x, r, p), p);
        lemma_pow_mod_one_gcd(x, b, r, p);
    }
}

/// The powers of a primitive root with exponents below `p - 1` all differ modulo `p`.
pub proof fn lemma_powers_of_root_differ(g: nat, p: nat, i: nat, j: nat)
    requires
        is_primitive_root(g, p),
        i < j < p - 1,
    ensures
        pow_mod(g, i, p) != pow_mod(g, j, p),
{
    let n = (p - 1) as nat;
    if pow_mod(g, i, p) == pow_mod(g, j, p) {
        // the power of the difference of the exponents is 1
        let d = (j - i) as nat;
        let up = (n - i) as nat;
        lemma_pow_mod_adds(g, i, up, p);
        lemma_pow_mod_adds(g, j, up, p);
        lemma_pow_mod_adds(g, n, d, p);
        assert(i + up == n);
        assert(j + up == n + d);
        lemma_mul_basics(pow_mod(g, d, p) as int);
        lemma_mod_bound(pow(g as int, d), p as int);
        lemma_small_mod(pow_mod(g, d, p), p);
        assert(pow_mod(g, d, p) == 1);

        // so is the power of a proper divisor of p - 1
        let e = gcd(n, d);
        lemma_pow_mod_one_gcd(g, n, d, p);
        lemma_gcd_divides(n, d);
        if e > d {
            lemma_small_mod(d, e);
        }
        let m = n / e;
        lemma_fundamental_div_mod(n as int, e as int);
        assert(m >= 2) by (nonlinear_arith)
            requires
                n == e * m,
                0 < e < n,
        ;

        // and so is the power of p - 1 without one of its prime factors
        let q = least_divisor_from(m, 2);
        lemma_least_divisor(m, 2);
        let k = m / q;
        lemma_fundamental_div_mod(m as int, q as int);
        assert(n == q * (e * k)) by (nonlinear_arith)
            requires
                n == e * m,
                m == q * k,
        ;
        lemma_mul_is_commutative(q as int, (e * k) as int);
        lemma_fundamental_div_mod_converse(n as int, q as int, (e * k) as int, 0);
        lemma_pow_mod_one_multiple(g, e, k, p);
        let place = lemma_prime_divisor_is_listed(n, q);
        let factors = prime_factorization(n);
        assert(factors[place].0 == q);
        assert(pow_mod(g, (n / q) as nat, p) == 1);
        assert(false);
    }
}

/// No power of a primitive root is 0 modulo `p`.
pub proof fn lemma_powers_of_root_are_units(g: nat, p: nat, i: nat)
    requires
        is_primitive_root(g, p),
    ensures
        pow_mod(g, i, p) != 0,
{
    let n = (p - 1) as nat;
    // the power of a multiple of p - 1 beyond the exponent is 1
    lemma_pow_mod_one_multiple(g, n, i + 1, p);
    assert(n * (i + 1) >= i) by (nonlinear_arith)
        requires
            n >= 1,
    ;
    let up = (n * (i + 1) - i) as nat;
    lemma_pow_mod_adds(g, i, up, p);
    if pow_mod(g, i, p) == 0 {
        lemma_mul_basics(pow_mod(g, up, p) as int);
        lemma_small_mod(0, p);
    }
}

/// The power `p - 2` of a primitive root is its inverse: the powers of the two with the same
/// exponent multiply to 1 modulo `p`.
pub proof fn lemma_powers_of_inverse_root(g: nat, p: nat, i: nat)
    requires
        is_primitive_root(g, p),
        p >= 3,
    ensures
        (pow_mod(pow_mod(g, (p - 2) as nat, p), i, p) * pow_mod(g, i, p)) % p == 1,
{
    let n = (p - 1) as nat;
    let back = (p - 2) as nat;
    let inverse = pow_mod(g, back, p);
    // the power of the inverse is the power of g with the exponent (p - 2) * i
    lemma_pow_mod_noop(pow(g as int, back), i, p as int);
    lemma_pow_multiplies(g as int, back, i);
    assert(pow_mod(inverse, i, p) == pow_mod(g, back * i, p));
    lemma_pow_mod_adds(g, back * i, i, p);
    assert(back * i + i == n * i) by (nonlinear_arith)
        requires
            back + 1 == n,
    ;
    lemma_pow_mod_one_multiple(g, n, i, p);
}

/// The powers of the inverse of a primitive root with exponents below `p - 1` all differ modulo
/// `p`, and none is 0.
pub proof fn lemma_powers_of_inverse_root_differ(g: nat, p: nat, i: nat, j: nat)
    requires
        is_primitive_root(g, p),
        p >= 3,
        i < j < p - 1,
    ensures
        pow_mod(pow_mod(g, (p - 2) as nat, p), i, p) != pow_mod(
            pow_mod(g, (p - 2) as nat, p),
            j,
            p,
        ),
        pow_mod(pow_mod(g, (p - 2) as nat, p), i, p) != 0,
{
    let inverse = pow_mod(g, (p - 2) as nat, p);
    let a = pow_mod(inverse, i, p) as int;
    let b = pow_mod(inverse, j, p) as int;
    let x = pow_mod(g, i, p) as int;
    let y = pow_mod(g, j, p) as int;
    let m = p as int;
    lemma_powers_of_inverse_root(g, p, i);
    lemma_powers_of_inverse_root(g, p, j);
    lemma_powers_of_root_differ(g, p, i, j);
    lemma_mod_bound(pow(g as int, i), m);
    lemma_mod_bound(pow(g as int, j), m);
    if a == 0 {
        lemma_mul_basics(x);
        lemma_small_mod(0, p);
    }
    if a == b {
        // x = x * (a * y) = (x * a) * y = y, modulo p
        lemma_mul_mod_noop_right(x, a * y, m);
        lemma_mul_is_associative(x, a, y);
        lemma_mul_is_commutative(x, a);
        lemma_mul_mod_noop_left(a * x, y, m);
        lemma_mul_basics(x);
        lemma_mul_basics(y);
        lemma_small_mod(x as nat, p);
        lemma_small_mod(y as nat, p);
        assert(false);
    }
}

} // verus!
