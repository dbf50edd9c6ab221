use vstd::arithmetic::div_mod::*;
use vstd::arithmetic::mul::*;
use vstd::arithmetic::power::*;
use vstd::prelude::*;

verus! {

/// `d` divides `n`.
pub open spec fn divides(d: nat, n: nat) -> bool {
    d > 0 && n % d == 0
}

/// `p` is at least 2 and no number from 2 up to `p - 1` divides it.
pub open spec fn is_prime(p: nat) -> bool {
    p >= 2 && forall|d: nat| 2 <= d < p ==> !#[trigger] divides(d, p)
}

/// The product of `prime ^ multiplicity` over a list of pairs.
pub open spec fn factors_product(factors: Seq<(usize, usize)>) -> int
    decreases factors.len(),
{
    if factors.len() == 0 {
        1
    } else {
        factors_product(factors.drop_last()) * pow(
            factors.last().0 as int,
            factors.last().1 as nat,
        )
    }
}

/// `factors` is the prime factorization of `n`: primes in ascending order, each once, with
/// its multiplicity, which is at least 1, and the product of the powers is `n`.
pub open spec fn is_factorization(factors: Seq<(usize, usize)>, n: nat) -> bool {
    &&& forall|i: int|
        0 <= i < factors.len() ==> is_prime((#[trigger] factors[i]).0 as nat) && factors[i].1 >= 1
    &&& forall|i: int, j: int|
        0 <= i < j < factors.len() ==> (#[trigger] factors[i]).0 < (#[trigger] factors[j]).0
    &&& factors_product(factors) == n
}

/// The least divisor of `n` that is at least `d`, for `2 <= d`; `n` itself where there is none
/// below it.
pub open spec fn least_divisor_from(n: nat, d: nat) -> nat
    decreases n - d,
{
    if d >= n {
        n
    } else if d >= 2 && n % d == 0 {
        d
    } else {
        least_divisor_from(n, d + 1)
    }
}

/// How often `p` divides `n`.
pub open spec fn multiplicity(n: nat, p: nat) -> nat
    decreases n,
{
    if p >= 2 && n >= 1 && n % p == 0 {
        proof {
            lemma_div_decreases(n as int, p as int);
        }
        1 + multiplicity(n / p, p)
    } else {
        0
    }
}

/// `n` without its factors `p`.
pub open spec fn without_factor(n: nat, p: nat) -> nat
    decreases n,
{
    if p >= 2 && n >= 1 && n % p == 0 {
        proof {
            lemma_div_decreases(n as int, p as int);
        }
        without_factor(n / p, p)
    } else {
        n
    }
}

/// The least divisor from `d` on is a divisor, and not below 2.
pub proof fn lemma_least_divisor_divides(n: nat, d: nat)
    requires
        n >= 2,
        d >= 2,
    ensures
        least_divisor_from(n, d) >= 2,
        n % least_divisor_from(n, d) == 0,
    decreases n - d,
{
    lemma_mod_self_0(n as int);
    if d < n && n % d != 0 {
        lemma_least_divisor_divides(n, d + 1);
    }
}

/// What is left of a number without a factor that it has is less than the number.
pub proof fn lemma_without_factor_decreases(n: nat, p: nat)
    requires
        n >= 1,
        p >= 2,
        n % p == 0,
    ensures
        without_factor(n, p) < n,
    decreases n,
{
    lemma_div_decreases(n as int, p as int);
    let q = n / p;
    if q >= 1 && q % p == 0 {
        lemma_without_factor_decreases(q, p);
    } else {
        lemma_fundamental_div_mod(n as int, p as int);
        if q == 0 {
            lemma_mul_basics(p as int);
        }
    }
}

/// The prime factorization of a number whose divisors, but 1, are all at least `d`: its least
/// divisor from `d` on with its multiplicity, then the factorization of what is left.
pub open spec fn factorization_from(n: nat, d: nat) -> Seq<(usize, usize)>
    decreases n,
{
    if n < 2 || d < 2 {
        Seq::empty()
    } else {
        let p = least_divisor_from(n, d);
        proof {
            lemma_least_divisor_divides(n, d);
            lemma_without_factor_decreases(n, p);
        }
        seq![(p as usize, multiplicity(n, p) as usize)] + factorization_from(
            without_factor(n, p),
            p + 1,
        )
    }
}

/// The prime factorization of `n`: its primes in ascending order, each with its multiplicity.
/// It is empty for 0 and 1.
pub open spec fn prime_factorization(n: nat) -> Seq<(usize, usize)> {
    factorization_from(n, 2)
}

/// Where nothing from `d` up to `n - 1` divides `n`, the least divisor from `d` on is `n`.
pub proof fn lemma_least_divisor_of_prime(n: nat, d: nat)
    requires
        is_prime(n),
        2 <= d,
    ensures
        least_divisor_from(n, d) == n,
    decreases n - d,
{
    if d < n {
        assert(!divides(d, n));
        lemma_least_divisor_of_prime(n, d + 1);
    }
}

/// A divisor of `a` divides every multiple of `a`.
pub proof fn lemma_divides_multiple(e: nat, a: nat, b: nat)
    requires
        divides(e, a),
    ensures
        divides(e, a * b),
        divides(e, b * a),
{
    let q = a / e;
    lemma_fundamental_div_mod(a as int, e as int);
    assert(a * b == (q * b) * e) by (nonlinear_arith)
        requires
            a == e * q,
    ;
    lemma_mod_multiples_basic((q * b) as int, e as int);
    lemma_mul_is_commutative(a as int, b as int);
}

/// A number greater than 1 is prime if nothing below `bound` but 1 divides it and the square
/// of `bound` is beyond it.
pub proof fn lemma_prime_by_trial(r: nat, bound: nat)
    requires
        r >= 2,
        bound >= 2,
        r < bound * bound,
        forall|e: nat| 2 <= e < bound ==> !#[trigger] divides(e, r),
    ensures
        is_prime(r),
{
    assert forall|e: nat| 2 <= e < r implies !#[trigger] divides(e, r) by {
        if divides(e, r) {
            if e >= bound {
                let c = r / e;
                lemma_fundamental_div_mod(r as int, e as int);
                assert(r == e * c);
                lemma_mul_is_commutative(e as int, c as int);
                lemma_mod_multiples_basic(e as int, c as int);
                if c >= bound {
                    lemma_mul_inequality(bound as int, e as int, bound as int);
                    lemma_mul_inequality(bound as int, c as int, e as int);
                    lemma_mul_is_commutative(bound as int, e as int);
                    assert(false);
                }
                if c == 1 {
                    assert(e * 1 == e) by (nonlinear_arith);
                    assert(false);
                }
                if c == 0 {
                    assert(e * 0 == 0) by (nonlinear_arith);
                    assert(false);
                }
                assert(divides(c, r));
                assert(false);
            }
        }
    }
}

/// The product of a list of prime powers is the first power times the product of the others.
pub proof fn lemma_factors_product_first(factors: Seq<(usize, usize)>)
    requires
        factors.len() >= 1,
    ensures
        factors_product(factors) == pow(factors[0].0 as int, factors[0].1 as nat)
            * factors_product(factors.skip(1)),
    decreases factors.len(),
{
    if factors.len() == 1 {
        assert(factors.drop_last() =~= Seq::<(usize, usize)>::empty());
        assert(factors.skip(1) =~= Seq::<(usize, usize)>::empty());
        lemma_mul_basics(pow(factors[0].0 as int, factors[0].1 as nat));
    } else {
        lemma_factors_product_first(factors.drop_last());
        assert(factors.drop_last().skip(1) =~= factors.skip(1).drop_last());
        lemma_mul_is_associative(
            pow(factors[0].0 as int, factors[0].1 as nat),
            factors_product(factors.skip(1).drop_last()),
            pow(factors.last().0 as int, factors.last().1 as nat),
        );
    }
}

/// Where nothing from 2 up to `d - 1` divides `n`, the least divisor of `n` from `d` on is
/// a prime that divides `n`, and nothing below it but 1 does.
pub proof fn lemma_least_divisor(n: nat, d: nat)
    requires
        n >= 2,
        d >= 2,
        forall|e: nat| 2 <= e < d ==> !#[trigger] divides(e, n),
    ensures
        d <= least_divisor_from(n, d) <= n,
        divides(least_divisor_from(n, d), n),
        is_prime(least_divisor_from(n, d)),
        forall|e: nat| 2 <= e < least_divisor_from(n, d) ==> !#[trigger] divides(e, n),
    decreases n - d,
{
    lemma_mod_self_0(n as int);
    assert(divides(n, n));
    if d < n && !(n % d == 0) {
        assert forall|e: nat| 2 <= e < d + 1 implies !#[trigger] divides(e, n) by {}
        lemma_least_divisor(n, d + 1);
    }
    let p = least_divisor_from(n, d);
    assert forall|e: nat| 2 <= e < p implies !#[trigger] divides(e, p) by {
        if divides(e, p) {
            lemma_divides_multiple(e, p, n / p);
            lemma_fundamental_div_mod(n as int, p as int);
        }
    }
}

/// A number is the power of `p` that divides it times what is left, which `p` does not
/// divide and whose divisors all divide the number.
pub proof fn lemma_multiplicity(n: nat, p: nat)
    requires
        n >= 1,
        p >= 2,
    ensures
        n == pow(p as int, multiplicity(n, p)) * without_factor(n, p),
        1 <= without_factor(n, p) <= n,
        multiplicity(n, p) < n,
        !divides(p, without_factor(n, p)),
        divides(p, n) ==> multiplicity(n, p) >= 1 && without_factor(n, p) < n,
        forall|e: nat| #[trigger] divides(e, without_factor(n, p)) ==> divides(e, n),
    decreases n,
{
    reveal(pow);
    if n % p == 0 {
        let q = n / p;
        lemma_fundamental_div_mod(n as int, p as int);
        assert(1 <= q < n) by (nonlinear_arith)
            requires
                n == p * q,
                p >= 2,
                n >= 1,
        ;
        lemma_multiplicity(q, p);
        lemma_mul_is_associative(
            p as int,
            pow(p as int, multiplicity(q, p)),
            without_factor(q, p) as int,
        );
        assert forall|e: nat| #[trigger] divides(e, without_factor(n, p)) implies divides(
            e,
            n,
        ) by {
            assert(divides(e, q));
            lemma_divides_multiple(e, q, p);
            lemma_mul_is_commutative(p as int, q as int);
        }
    } else {
        lemma_mul_basics(n as int);
    }
}

/// The list that `factorization_from` gives for a number whose divisors, but 1, are all at
/// least `d` is its prime factorization, and its primes are at least `d`.
pub proof fn lemma_factorization_from(n: nat, d: nat)
    requires
        1 <= n <= usize::MAX,
        d >= 2,
        forall|e: nat| 2 <= e < d ==> !#[trigger] divides(e, n),
    ensures
        is_factorization(factorization_from(n, d), n),
        forall|i: int|
            0 <= i < factorization_from(n, d).len() ==> (#[trigger] factorization_from(n, d)[i]).0
                >= d,
    decreases n,
{
    let factors = factorization_from(n, d);
    if n < 2 {
        assert(factors =~= Seq::<(usize, usize)>::empty());
    } else {
        lemma_least_divisor(n, d);
        let p = least_divisor_from(n, d);
        let m = multiplicity(n, p);
        let rest = without_factor(n, p);
        lemma_multiplicity(n, p);
        assert forall|e: nat| 2 <= e < p + 1 implies !#[trigger] divides(e, rest) by {}
        lemma_factorization_from(rest, p + 1);
        let others = factorization_from(rest, p + 1);
        assert(factors =~= seq![(p as usize, m as usize)] + others);
        assert(factors.skip(1) =~= others);
        lemma_factors_product_first(factors);
    }
}

/// The prime factorization that the planner goes by: every listed factor is a prime, the
/// primes ascend, no multiplicity is 0, and the product of the powers is the number.
pub proof fn lemma_prime_factorization(n: nat)
    requires
        1 <= n <= usize::MAX,
    ensures
        is_factorization(prime_factorization(n), n),
{
    lemma_factorization_from(n, 2);
}

/// The prime factorization of `n`, by trial division: its primes in ascending order, each with
/// its multiplicity. For 0, which has none, and for 1 the list is empty.
pub fn prime_factors(n: usize) -> (factors: Vec<(usize, usize)>)
    ensures
        factors@ == prime_factorization(n as nat),
        n >= 1 ==> is_factorization(factors@, n as nat),
{
    let mut factors: Vec<(usize, usize)> = Vec::new();
    if n == 0 {
        assert(factors@ =~= prime_factorization(0));
        return factors;
    }
    let mut r: usize = n;
    let mut d: usize = 2;
    proof {
        lemma_prime_factorization(n as nat);
        assert(factors@ + factorization_from(r as nat, d as nat) =~= prime_factorization(
            n as nat,
        ));
    }
    while d <= r / d
        invariant
            r >= 1,
            d >= 2,
            factors@ + factorization_from(r as nat, d as nat) == prime_factorization(n as nat),
            forall|e: nat| 2 <= e < d ==> !#[trigger] divides(e, r as nat),
        decreases usize::MAX - d,
    {
        proof {
            lemma_fundamental_div_mod(r as int, d as int);
            assert(d < r) by (nonlinear_arith)
                requires
                    r == d * (r / d) + r % d,
                    0 <= r % d,
                    2 <= d <= r / d,
            ;
        }
        if r % d == 0 {
            let ghost start = r;
            let mut count: usize = 0;
            while r % d == 0
                invariant
                    r >= 1,
                    d >= 2,
                    count + r <= start,
                    start % d == 0,
                    count == 0 ==> r == start,
                    multiplicity(start as nat, d as nat) == count + multiplicity(
                        r as nat,
                        d as nat,
                    ),
                    without_factor(start as nat, d as nat) == without_factor(r as nat, d as nat),
                    forall|e: nat| 2 <= e < d ==> !#[trigger] divides(e, r as nat),
                decreases r,
            {
                proof {
                    lemma_fundamental_div_mod(r as int, d as int);
                    let q = (r / d) as nat;
                    assert(q >= 1 && q < r) by (nonlinear_arith)
                        requires
                            r == d * q,
                            d >= 2,
                            r >= 1,
                    ;
                    // a divisor of the quotient divides r
                    assert forall|e: nat| 2 <= e < d implies !#[trigger] divides(e, q) by {
                        if divides(e, q) {
                            lemma_divides_multiple(e, q, d as nat);
                            assert(divides(e, r as nat));
                        }
                    }
                }
                r = r / d;
                count += 1;
            }
            proof {
                assert(least_divisor_from(start as nat, d as nat) == d);
                assert(factorization_from(start as nat, d as nat) =~= seq![(d, count)]
                    + factorization_from(r as nat, (d + 1) as nat));
                assert(factors@.push((d, count)) + factorization_from(r as nat, (d + 1) as nat)
                    =~= factors@ + factorization_from(start as nat, d as nat));
            }
            factors.push((d, count));
        } else {
            proof {
                assert(least_divisor_from(r as nat, d as nat) == least_divisor_from(
                    r as nat,
                    (d + 1) as nat,
                ));
                assert(factorization_from(r as nat, d as nat) =~= factorization_from(
                    r as nat,
                    (d + 1) as nat,
                ));
            }
        }
        d += 1;
    }
    if r > 1 {
        proof {
            // nothing up to the square root divides what is left: it is a prime, and its
            // factorization is itself, once
            lemma_fundamental_div_mod(r as int, d as int);
            let q = (r / d) as int;
            assert(r < d * d) by (nonlinear_arith)
                requires
                    r == d * q + r % d,
                    0 <= r % d < d,
                    0 <= q < d,
            ;
            lemma_prime_by_trial(r as nat, d as nat);
            lemma_least_divisor_of_prime(r as nat, d as nat);
            lemma_div_by_self(r as int);
            lemma_mod_self_0(r as int);
            lemma_small_mod(1, r as nat);
            assert(multiplicity(1, r as nat) == 0);
            assert(multiplicity(r as nat, r as nat) == 1);
            assert(without_factor(1, r as nat) == 1);
            assert(without_factor(r as nat, r as nat) == 1);
            assert(factorization_from(1, (r + 1) as nat) =~= Seq::<(usize, usize)>::empty());
            assert(factorization_from(r as nat, d as nat) =~= seq![(r, 1usize)]);
            assert(factors@.push((r, 1usize)) =~= factors@ + seq![(r, 1usize)]);
        }
        factors.push((r, 1));
    } else {
        assert(factors@ + factorization_from(1, d as nat) =~= factors@);
    }
    factors
}

/// `base ^ exponent mod modulo`.
pub open spec fn pow_mod(base: nat, exponent: nat, modulo: nat) -> nat {
    (pow(base as int, exponent) % (modulo as int)) as nat
}

/// One step of exponentiation by squaring keeps `result * base ^ exponent` modulo `m`.
proof fn lemma_pow_mod_step(result: int, b: int, e: nat, m: int)
    requires
        m > 0,
        e > 0,
    ensures
        ({
            let next = if e % 2 == 1 {
                (result * b) % m
            } else {
                result % m
            };
            (next * pow((b * b) % m, e / 2)) % m == (result * pow(b, e)) % m
        }),
{
    let h = e / 2;
    let bit = e % 2;
    let head = if bit == 1 {
        result * b
    } else {
        result
    };
    let square = pow(b * b, h);
    // b ^ e is b ^ bit times (b * b) ^ h
    assert(head * square == result * pow(b, e)) by {
        lemma_square_is_pow2(b);
        lemma_pow_multiplies(b, 2, h);
        assert(pow(b, 2 * h) == square);
        lemma_pow_adds(b, 2 * h, bit);
        lemma_pow1(b);
        lemma_pow0(b);
        assert(2 * h + bit == e);
        if bit == 1 {
            lemma_mul_is_associative(result, b, square);
            lemma_mul_is_commutative(b, square);
        } else {
            lemma_mul_basics(square);
        }
    }
    lemma_pow_mod_noop(b * b, h, m);
    lemma_mul_mod_noop_general(head, square, m);
    lemma_mul_mod_noop_general(head, pow((b * b) % m, h), m);
}

/// The product of two residues modulo `modulo`.
pub fn mul_mod(a: usize, b: usize, modulo: usize) -> (r: usize)
    requires
        modulo > 0,
    ensures
        r == (a * b) % (modulo as int),
{
    proof {
        lemma_mul_nonnegative(a as int, b as int);
        lemma_mul_upper_bound(a as int, usize::MAX as int, b as int, usize::MAX as int);
        lemma_mod_bound(a * b, modulo as int);
        assert(usize::MAX * usize::MAX <= u128::MAX) by (nonlinear_arith);
    }
    let wide: u128 = (a as u128) * (b as u128);
    (wide % (modulo as u128)) as usize
}

/// `base ^ exponent mod modulo`, by squaring.
pub fn modular_exponent(base: usize, exponent: usize, modulo: usize) -> (r: usize)
    requires
        modulo > 0,
    ensures
        r == pow_mod(base as nat, exponent as nat, modulo as nat),
{
    let mut result: usize = 1 % modulo;
    let mut b: usize = base % modulo;
    let mut e: usize = exponent;
    proof {
        lemma_pow_mod_noop(base as int, exponent as nat, modulo as int);
        lemma_mul_mod_noop_general(1, pow(b as int, e as nat), modulo as int);
        lemma_mul_basics(pow(b as int, e as nat));
    }
    while e > 0
        invariant
            modulo > 0,
            result < modulo,
            b < modulo,
            (result * pow(b as int, e as nat)) % (modulo as int) == pow(
                base as int,
                exponent as nat,
            ) % (modulo as int),
        decreases e,
    {
        proof {
            lemma_pow_mod_step(result as int, b as int, e as nat, modulo as int);
            lemma_small_mod(result as nat, modulo as nat);
        }
        if e % 2 == 1 {
            result = mul_mod(result, b, modulo);
        }
        b = mul_mod(b, b, modulo);
        e = e / 2;
    }
    proof {
        lemma_pow0(b as int);
        lemma_mul_basics(result as int);
        lemma_small_mod(result as nat, modulo as nat);
    }
    result
}

/// Whether `g` passes the test for a primitive root modulo `p` against the primes of
/// `factors`: for none of them is `g ^ ((p - 1) / prime)` congruent to 1.
pub open spec fn passes_root_test(g: nat, p: nat, factors: Seq<(usize, usize)>) -> bool {
    forall|i: int|
        0 <= i < factors.len() ==> pow_mod(
            g,
            ((p - 1) / ((#[trigger] factors[i]).0 as int)) as nat,
            p,
        ) != 1
}

/// `g` is a primitive root modulo `p`: its power `p - 1` is congruent to 1, and for no prime
/// factor `q` of `p - 1` is its power `(p - 1) / q`. The powers of such a number are `p - 1`
/// different residues.
pub open spec fn is_primitive_root(g: nat, p: nat) -> bool {
    &&& 2 <= p <= usize::MAX
    &&& pow_mod(g, (p - 1) as nat, p) == 1
    &&& passes_root_test(g, p, prime_factorization((p - 1) as nat))
}

/// The least primitive root modulo `p` from `g` up to `p - 1`, if there is one.
pub open spec fn root_search(p: nat, g: nat) -> Option<usize>
    decreases p - g,
{
    if g >= p {
        None
    } else if is_primitive_root(g, p) {
        Some(g as usize)
    } else {
        root_search(p, g + 1)
    }
}

/// The least primitive root modulo `p` from 2 on, if there is one. There is none for `p`
/// below 3.
pub open spec fn primitive_root_spec(p: nat) -> Option<usize> {
    root_search(p, 2)
}

/// What the search finds is a primitive root, and not below where the search began.
pub proof fn lemma_root_search(p: nat, g: nat)
    ensures
        root_search(p, g) matches Some(root) ==> g <= root < p && is_primitive_root(
            root as nat,
            p,
        ),
    decreases p - g,
{
    if g < p && !is_primitive_root(g, p) {
        lemma_root_search(p, g + 1);
    }
}

/// Whether `g` is a primitive root modulo `p`, given the prime factorization of `p - 1`.
fn root_test(g: usize, p: usize, factors: &Vec<(usize, usize)>) -> (ok: bool)
    requires
        p >= 2,
        factors@ == prime_factorization((p - 1) as nat),
        forall|i: int| 0 <= i < factors@.len() ==> (#[trigger] factors@[i]).0 >= 2,
    ensures
        ok == is_primitive_root(g as nat, p as nat),
{
    if modular_exponent(g, p - 1, p) != 1 {
        return false;
    }
    let mut i: usize = 0;
    while i < factors.len()
        invariant
            p >= 2,
            i <= factors@.len(),
            factors@ == prime_factorization((p - 1) as nat),
            pow_mod(g as nat, (p - 1) as nat, p as nat) == 1,
            forall|j: int| 0 <= j < factors@.len() ==> (#[trigger] factors@[j]).0 >= 2,
            forall|j: int|
                0 <= j < i ==> pow_mod(
                    g as nat,
                    ((p - 1) / ((#[trigger] factors@[j]).0 as int)) as nat,
                    p as nat,
                ) != 1,
        decreases factors@.len() - i,
    {
        let exponent = (p - 1) / factors[i].0;
        if modular_exponent(g, exponent, p) == 1 {
            assert(pow_mod(
                g as nat,
                ((p - 1) / (factors@[i as int].0 as int)) as nat,
                p as nat,
            ) == 1);
            return false;
        }
        i += 1;
    }
    true
}

/// The least primitive root modulo `prime` from 2 on, found by the test against the prime
/// factors of `prime - 1`; `None` where there is none, as for every number that is no prime.
pub fn primitive_root(prime: usize) -> (root: Option<usize>)
    ensures
        root == primitive_root_spec(prime as nat),
{
    if prime < 2 {
        return None;
    }
    let factors = prime_factors(prime - 1);
    let mut g: usize = 2;
    while g < prime
        invariant
            prime >= 2,
            2 <= g,
            is_factorization(factors@, (prime - 1) as nat),
            factors@ == prime_factorization((prime - 1) as nat),
            root_search(prime as nat, g as nat) == primitive_root_spec(prime as nat),
        decreases prime - g,
    {
        if root_test(g, prime, &factors) {
            return Some(g);
        }
        g += 1;
    }
    None
}

/// Stepping a power of `g` by one more factor `g`, modulo `p`.
pub proof fn lemma_pow_mod_next(g: nat, k: nat, p: nat)
    requires
        p > 0,
    ensures
        (pow_mod(g, k, p) * g) % p == pow_mod(g, k + 1, p),
        pow_mod(g, k, p) < p,
        p >= 2 ==> pow_mod(g, 0, p) == 1,
{
    if p >= 2 {
        lemma_small_mod(1, p);
    }
    lemma_pow_adds(g as int, k, 1);
    lemma_pow1(g as int);
    lemma_pow0(g as int);
    lemma_mul_mod_noop_left(pow(g as int, k), g as int, p as int);
    lemma_mod_bound(pow(g as int, k), p as int);
    lemma_mod_bound(pow(g as int, k + 1), p as int);
}

/// `base ^ exponent`.
pub fn power(base: usize, exponent: usize) -> (r: usize)
    requires
        base >= 1,
        pow(base as int, exponent as nat) <= usize::MAX,
    ensures
        r == pow(base as int, exponent as nat),
{
    let mut r: usize = 1;
    let mut i: usize = 0;
    proof {
        lemma_pow0(base as int);
    }
    while i < exponent
        invariant
            base >= 1,
            i <= exponent,
            r == pow(base as int, i as nat),
            pow(base as int, exponent as nat) <= usize::MAX,
        decreases exponent - i,
    {
        proof {
            lemma_pow_adds(base as int, i as nat, 1);
            lemma_pow1(base as int);
            lemma_pow_increases(base as nat, (i + 1) as nat, exponent as nat);
        }
        r = r * base;
        i += 1;
    }
    r
}

} // verus!
