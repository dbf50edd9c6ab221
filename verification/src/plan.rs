use crate::algorithm::mixed_radix::{
    grid_twiddles_spec, is_chain, is_kernel, terminal_kernels, MixedRadixSingle,
    MixedRadixTerminal,
};
use crate::algorithm::raders_algorithm::RadersAlgorithm;
use crate::algorithm::dft::DFT;
use crate::algorithm::radix4::{
    is_power_of_two, is_power_of_two_spec, lemma_power_of_two, Radix4,
};
use crate::algorithm::{FFTAlgorithm, NoopAlgorithm};
use crate::array_utils::chunk;
use crate::common::FFTnum;
use crate::complex::Complex;
use crate::math_utils::{
    factors_product, lemma_factors_product_first, pow_mod, power, prime_factorization,
    prime_factors, primitive_root_spec,
};
use crate::twiddles::twiddle_table_spec;
use vstd::arithmetic::div_mod::*;
use vstd::arithmetic::mul::*;
use vstd::arithmetic::power::*;
use vstd::prelude::*;

verus! {

/// The largest prime that is still transformed by its definition inside a chain of kernels.
/// A larger one gets Rader's scheme.
pub const MIN_RADERS_SIZE: usize = 100;

/// The algorithm is the radix-4 transform of the length `len` and the direction `inverse`.
pub open spec fn is_radix4<T: FFTnum>(
    algorithm: FFTAlgorithm<T>,
    len: usize,
    inverse: bool,
) -> bool {
    &&& algorithm matches FFTAlgorithm::Radix4(a)
    &&& a.inverse == inverse
    &&& a.twiddles@ == twiddle_table_spec::<T>(len, inverse)
}

/// The algorithm is the six-step combination, for the direction `inverse`, of a transform
/// of the length `width` and one of the length `height`.
pub open spec fn is_combination<T: FFTnum>(
    a: MixedRadixSingle<T>,
    width: usize,
    height: usize,
    inverse: bool,
) -> bool {
    &&& a.width == width
    &&& a.height == height
    &&& a.twiddles@ == grid_twiddles_spec::<T>(width, height, inverse)
}

/// The algorithm is what the planner makes of the length `len`, given as the list of its
/// prime powers in ascending order, for the direction `inverse`.
///
/// One prime power `p ^ m`: for `p` above the threshold, Rader's scheme around the plan for
/// `p - 1` if `m` is 1 (the transform by definition if `p` has no primitive root, which no
/// prime is without), and else the combination of the plans for `p ^ (m / 2)` and
/// `p ^ (m - m / 2)`; for `p` up to the threshold, the chain of kernels.
/// Several prime powers: if the largest prime is above the threshold, the combination of
/// the plan for its power and the plan for the others; else the chain of kernels.
pub open spec fn follows_factor_plan<T: FFTnum>(
    algorithm: FFTAlgorithm<T>,
    len: usize,
    factors: Seq<(usize, usize)>,
    inverse: bool,
) -> bool
    decreases algorithm, 0nat,
{
    if factors.len() == 0 {
        false
    } else if factors.last().0 <= MIN_RADERS_SIZE {
        &&& algorithm matches FFTAlgorithm::MixedRadixTerminal(a)
        &&& is_chain(*a.stages, terminal_kernels(factors), inverse)
    } else if factors.len() > 1 {
        let factor_size = pow(factors.last().0 as int, factors.last().1 as nat) as usize;
        let other_size = (len / factor_size) as usize;
        &&& algorithm matches FFTAlgorithm::MixedRadixSingle(a)
        &&& is_combination(a, factor_size, other_size, inverse)
        &&& follows_factor_plan(*a.width_size_fft, factor_size, seq![factors.last()], inverse)
        &&& follows_factor_plan(*a.height_size_fft, other_size, factors.drop_last(), inverse)
    } else if factors[0].1 == 1 {
        match primitive_root_spec(len as nat) {
            Some(root) => {
                &&& algorithm matches FFTAlgorithm::Raders(a)
                &&& a.len == len
                &&& a.primitive_root == root
                &&& a.primitive_root_inverse == pow_mod(root as nat, (len - 2) as nat, len as nat)
                &&& follows_plan(*a.inner_fft, (len - 1) as usize, inverse)
                &&& a.inner_fft_data@ == RadersAlgorithm::data_spec(
                    *a.inner_fft,
                    a.primitive_root_inverse as nat,
                    len,
                    inverse,
                )
            },
            None => is_kernel(algorithm, len, inverse),
        }
    } else {
        let left_count = (factors[0].1 / 2) as usize;
        let right_count = (factors[0].1 - left_count) as usize;
        let left_len = pow(factors[0].0 as int, left_count as nat) as usize;
        let right_len = (len / left_len) as usize;
        &&& algorithm matches FFTAlgorithm::MixedRadixSingle(a)
        &&& is_combination(a, left_len, right_len, inverse)
        &&& follows_factor_plan(
            *a.width_size_fft,
            left_len,
            seq![(factors[0].0, left_count)],
            inverse,
        )
        &&& follows_factor_plan(
            *a.height_size_fft,
            right_len,
            seq![(factors[0].0, right_count)],
            inverse,
        )
    }
}

/// The algorithm is what the planner makes of the length `len` for the direction `inverse`:
/// the identity below 2; the radix-4 transform for a power of two; where the factor 2 comes
/// more than four times, the combination of the radix-4 transform for the power of 2 and the
/// plan for the other prime powers; else the plan for all the prime powers.
pub open spec fn follows_plan<T: FFTnum>(
    algorithm: FFTAlgorithm<T>,
    len: usize,
    inverse: bool,
) -> bool
    decreases algorithm, 1nat,
{
    if len < 2 {
        algorithm matches FFTAlgorithm::Noop(a) && a.len == len
    } else if is_power_of_two_spec(len as nat) {
        is_radix4(algorithm, len, inverse)
    } else {
        let factors = prime_factorization(len as nat);
        if factors[0].0 == 2 && factors[0].1 > 4 {
            let power_of_two = pow(2, factors[0].1 as nat) as usize;
            let other_size = (len / power_of_two) as usize;
            &&& algorithm matches FFTAlgorithm::MixedRadixSingle(a)
            &&& is_combination(a, power_of_two, other_size, inverse)
            &&& is_radix4(*a.width_size_fft, power_of_two, inverse)
            &&& follows_factor_plan(*a.height_size_fft, other_size, factors.skip(1), inverse)
        } else {
            follows_factor_plan(algorithm, len, factors, inverse)
        }
    }
}

/// A list of prime powers as the planner takes it: not empty, no prime below 2, no
/// multiplicity 0, and the product of the powers is `len`.
pub open spec fn is_factor_list(factors: Seq<(usize, usize)>, len: usize) -> bool {
    &&& factors.len() >= 1
    &&& forall|i: int|
        0 <= i < factors.len() ==> (#[trigger] factors[i]).0 >= 2 && factors[i].1 >= 1
    &&& factors_product(factors) == len
}

/// The product of one prime power is that power.
proof fn lemma_single_product(factor: (usize, usize))
    ensures
        factors_product(seq![factor]) == pow(factor.0 as int, factor.1 as nat),
{
    assert(seq![factor].drop_last() =~= Seq::<(usize, usize)>::empty());
    assert(factors_product(Seq::<(usize, usize)>::empty()) == 1);
    assert(seq![factor].last() == factor);
    lemma_mul_basics(pow(factor.0 as int, factor.1 as nat));
}

/// A power with a base of at least 2 and an exponent of at least 1 is at least 2, and at
/// least the power with a smaller exponent.
proof fn lemma_power_bounds(base: usize, exponent: nat)
    requires
        base >= 2,
        exponent >= 1,
    ensures
        pow(base as int, exponent) >= 2,
        forall|e: nat|
            e <= exponent ==> 1 <= #[trigger] pow(base as int, e) <= pow(base as int, exponent),
{
    lemma_pow1(base as int);
    lemma_pow_increases(base as nat, 1, exponent);
    assert forall|e: nat| e <= exponent implies 1 <= #[trigger] pow(base as int, e) <= pow(
        base as int,
        exponent,
    ) by {
        lemma_pow_increases(base as nat, e, exponent);
        lemma_pow_positive(base as int, e);
    }
}

/// The plan for the length `len`, given as the list of its prime powers in ascending order,
/// and the direction `inverse`.
pub fn plan_fft_with_factors<T: FFTnum>(
    len: usize,
    factors: &[(usize, usize)],
    inverse: bool,
) -> (r: Box<FFTAlgorithm<T>>)
    requires
        is_factor_list(factors@, len),
    ensures
        r.wf(),
        r.spec_len() == len,
        follows_factor_plan(*r, len, factors@, inverse),
    decreases len, 0nat,
{
    let last = factors.len() - 1;
    let (largest_factor, largest_count) = factors[last];
    if largest_factor <= MIN_RADERS_SIZE {
        // nothing but small factors: a chain of kernels
        return Box::new(
            FFTAlgorithm::MixedRadixTerminal(MixedRadixTerminal::new(len, factors, inverse)),
        );
    }
    if factors.len() > 1 {
        // the largest prime is worth Rader's scheme: its power apart from the others
        proof {
            lemma_power_bounds(largest_factor, largest_count as nat);
            let others = factors@.drop_last();
            lemma_factor_list_product(others);
            assert(others.len() >= 1);
            assert(factors_product(others) >= 2);
            lemma_mul_is_commutative(
                factors_product(others),
                pow(largest_factor as int, largest_count as nat),
            );
            lemma_div_multiples_vanish(
                factors_product(others),
                pow(largest_factor as int, largest_count as nat),
            );
            lemma_mul_strictly_increases(
                factors_product(others),
                pow(largest_factor as int, largest_count as nat),
            );
            lemma_mul_strictly_increases(
                pow(largest_factor as int, largest_count as nat),
                factors_product(others),
            );
            lemma_single_product(factors@[last as int]);
        }
        let factor_size = power(largest_factor, largest_count);
        let factor_list = chunk(factors, last, 1);
        assert(factor_list@ =~= seq![factors@.last()]);
        let factor_fft = plan_fft_with_factors(factor_size, factor_list, inverse);
        let other_size = len / factor_size;
        let other_list = chunk(factors, 0, last);
        assert(other_list@ =~= factors@.drop_last());
        let other_fft = plan_fft_with_factors(other_size, other_list, inverse);
        return Box::new(
            FFTAlgorithm::MixedRadixSingle(
                MixedRadixSingle::new(factor_size, factor_fft, other_size, other_fft, inverse),
            ),
        );
    }
    proof {
        assert(factors@ =~= seq![factors@[0]]);
        lemma_single_product(factors@[0]);
        lemma_power_bounds(largest_factor, largest_count as nat);
    }
    if largest_count == 1 {
        // a large prime
        proof {
            lemma_pow1(largest_factor as int);
        }
        let inner_fft = plan_fft(len - 1, inverse);
        match RadersAlgorithm::new(len, inner_fft, inverse) {
            Some(raders) => Box::new(FFTAlgorithm::Raders(raders)),
            None => Box::new(FFTAlgorithm::DFT(DFT::new(len, inverse))),
        }
    } else {
        // a power of a large prime: two halves of about the same size
        let left_count = largest_count / 2;
        let right_count = largest_count - left_count;
        proof {
            lemma_pow_adds(largest_factor as int, left_count as nat, right_count as nat);
            lemma_power_bounds(largest_factor, left_count as nat);
            lemma_power_bounds(largest_factor, right_count as nat);
            let left = pow(largest_factor as int, left_count as nat);
            let right = pow(largest_factor as int, right_count as nat);
            lemma_mul_is_commutative(left, right);
            lemma_div_multiples_vanish(right, left);
            lemma_mul_strictly_increases(left, right);
            lemma_mul_strictly_increases(right, left);
            lemma_single_product((largest_factor, left_count));
            lemma_single_product((largest_factor, right_count));
        }
        let left_factors = [(largest_factor, left_count)];
        let left_len = power(largest_factor, left_count);
        let right_factors = [(largest_factor, right_count)];
        let right_len = len / left_len;
        assert(left_factors@ =~= seq![(largest_factor, left_count)]);
        assert(right_factors@ =~= seq![(largest_factor, right_count)]);

        let left_fft = plan_fft_with_factors(left_len, &left_factors, inverse);
        let right_fft = plan_fft_with_factors(right_len, &right_factors, inverse);

        Box::new(
            FFTAlgorithm::MixedRadixSingle(
                MixedRadixSingle::new(left_len, left_fft, right_len, right_fft, inverse),
            ),
        )
    }
}

/// The product of a list of prime powers as the planner takes it is at least 2.
proof fn lemma_factor_list_product(factors: Seq<(usize, usize)>)
    requires
        forall|i: int|
            0 <= i < factors.len() ==> (#[trigger] factors[i]).0 >= 2 && factors[i].1 >= 1,
    ensures
        factors_product(factors) >= 1,
        factors.len() >= 1 ==> factors_product(factors) >= 2,
    decreases factors.len(),
{
    if factors.len() > 0 {
        lemma_factor_list_product(factors.drop_last());
        lemma_power_bounds(factors.last().0, factors.last().1 as nat);
        lemma_mul_increases(
            factors_product(factors.drop_last()),
            pow(factors.last().0 as int, factors.last().1 as nat),
        );
    }
}

/// The plan for the length `len` and the direction `inverse`.
pub fn plan_fft<T: FFTnum>(len: usize, inverse: bool) -> (r: Box<FFTAlgorithm<T>>)
    ensures
        r.wf(),
        r.spec_len() == len,
        follows_plan(*r, len, inverse),
    decreases len, 1nat,
{
    if len < 2 {
        return Box::new(FFTAlgorithm::Noop(NoopAlgorithm { len }));
    }
    if is_power_of_two(len) {
        return Box::new(FFTAlgorithm::Radix4(Radix4::new(len, inverse)));
    }
    let factors = prime_factors(len);
    proof {
        lemma_factor_list_product(factors@);
        if factors@.len() == 0 {
            assert(factors_product(factors@) == 1);
        }
        assert forall|i: int| 0 <= i < factors@.len() implies (#[trigger] factors@[i]).0 >= 2
            && factors@[i].1 >= 1 by {}
    }
    let (smallest_factor, smallest_count) = factors[0];
    if smallest_factor == 2 && smallest_count > 4 {
        // a large power of 2 apart from the others
        proof {
            lemma_factors_product_first(factors@);
            lemma_power_of_two(smallest_count as nat);
            lemma_power_bounds(2, smallest_count as nat);
            let others = factors@.skip(1);
            lemma_factor_list_product(others);
            if others.len() == 0 {
                lemma_mul_basics(pow(2, smallest_count as nat));
                assert(false);
            }
            let power_of_two = pow(2, smallest_count as nat);
            lemma_mul_is_commutative(power_of_two, factors_product(others));
            lemma_div_multiples_vanish(factors_product(others), power_of_two);
            lemma_mul_strictly_increases(power_of_two, factors_product(others));
            lemma_mul_strictly_increases(factors_product(others), power_of_two);
        }
        let power_of_two = power(2, smallest_count);
        let p2_fft: Box<FFTAlgorithm<T>> = Box::new(
            FFTAlgorithm::Radix4(Radix4::new(power_of_two, inverse)),
        );
        let other_size = len / power_of_two;
        let other_list = chunk(factors.as_slice(), 1, factors.len() - 1);
        assert(other_list@ =~= factors@.skip(1));
        let other_fft = plan_fft_with_factors(other_size, other_list, inverse);
        Box::new(
            FFTAlgorithm::MixedRadixSingle(
                MixedRadixSingle::new(power_of_two, p2_fft, other_size, other_fft, inverse),
            ),
        )
    } else {
        plan_fft_with_factors(len, factors.as_slice(), inverse)
    }
}

/// The plan for a length below 2 gives every buffer back as it is.
pub proof fn lemma_short_plan_is_identity<T: FFTnum>(
    algorithm: FFTAlgorithm<T>,
    len: usize,
    inverse: bool,
    x: Seq<Complex<T>>,
)
    requires
        len < 2,
        follows_plan(algorithm, len, inverse),
    ensures
        algorithm.transform(x) == x,
        algorithm.spec_len() == len,
{
}

/// A prime is its own factorization.
proof fn lemma_factorization_of_prime(p: nat)
    requires
        crate::math_utils::is_prime(p),
        p <= usize::MAX,
    ensures
        prime_factorization(p) == seq![(p as usize, 1usize)],
{
    crate::math_utils::lemma_least_divisor_of_prime(p, 2);
    lemma_div_by_self(p as int);
    lemma_mod_self_0(p as int);
    lemma_small_mod(1, p);
    reveal_with_fuel(crate::math_utils::multiplicity, 2);
    reveal_with_fuel(crate::math_utils::without_factor, 2);
    reveal_with_fuel(crate::math_utils::factorization_from, 2);
    assert(crate::math_utils::multiplicity(p, p) == 1);
    assert(crate::math_utils::without_factor(p, p) == 1);
    assert(prime_factorization(p) =~= seq![(p as usize, 1usize)]);
}

/// For the prime lengths that have a butterfly, 3, 5 and 7, the plan is that butterfly.
pub proof fn lemma_plan_of_butterfly_prime<T: FFTnum>(
    algorithm: FFTAlgorithm<T>,
    len: usize,
    inverse: bool,
    x: Seq<Complex<T>>,
)
    requires
        len == 3 || len == 5 || len == 7,
        follows_plan(algorithm, len, inverse),
    ensures
        algorithm matches FFTAlgorithm::MixedRadixTerminal(a) && is_kernel(
            *a.stages,
            len,
            inverse,
        ) && algorithm.transform(x) == a.stages.transform(x),
{
    assert(crate::math_utils::is_prime(len as nat)) by {
        assert forall|d: nat| 2 <= d < len implies !#[trigger] crate::math_utils::divides(
            d,
            len as nat,
        ) by {
            if len == 3 {
                assert(3nat % 2 != 0);
            } else if len == 5 {
                assert(5nat % 2 != 0 && 5nat % 3 != 0 && 5nat % 4 != 0);
            } else {
                assert(7nat % 2 != 0 && 7nat % 3 != 0 && 7nat % 4 != 0 && 7nat % 5 != 0 && 7nat
                    % 6 != 0);
            }
        }
    }
    lemma_factorization_of_prime(len as nat);
    reveal_with_fuel(is_power_of_two_spec, 4);
    let factors = prime_factorization(len as nat);
    assert(factors.drop_last() =~= Seq::<(usize, usize)>::empty());
    reveal_with_fuel(crate::algorithm::mixed_radix::kernels_of, 2);
    reveal_with_fuel(terminal_kernels, 2);
    assert(terminal_kernels(factors) =~= seq![len]);
    match algorithm {
        FFTAlgorithm::MixedRadixTerminal(a) => {
            assert(algorithm.transform(x) == a.transform(x));
        },
        _ => {},
    }
}

} // verus!
