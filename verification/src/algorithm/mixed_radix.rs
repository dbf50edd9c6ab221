use crate::algorithm::butterflies::{
    Butterfly2, Butterfly3, Butterfly4, Butterfly5, Butterfly6, Butterfly7,
};
use crate::algorithm::dft::DFT;
use crate::algorithm::FFTAlgorithm;
use crate::math_utils::factors_product;
use crate::twiddles::twiddle_table_spec;
use vstd::arithmetic::power::*;
use crate::array_utils::{to_vec, transpose, transposed};
use crate::common::FFTnum;
use crate::complex::{pointwise_mul, Complex};
use crate::twiddles::{single_twiddle, twiddle_spec};
use vstd::arithmetic::div_mod::*;
use vstd::arithmetic::mul::*;
use vstd::prelude::*;

verus! {

/// The twiddle factors of the six-step scheme on a grid of `width` rows of `height` elements:
/// element `x * height + y` is the root of unity of order `width * height` and exponent
/// `x * y`.
pub open spec fn grid_twiddles_spec<T: FFTnum>(width: usize, height: usize, inverse: bool) -> Seq<
    Complex<T>,
> {
    Seq::new(
        (width * height) as nat,
        |k: int|
            twiddle_spec::<T>(
                ((k / (height as int)) * (k % (height as int))) as usize,
                (width * height) as usize,
                inverse,
            ),
    )
}

/// Multiplies `buffer` elementwise by `factors`.
pub fn multiply_by<T: FFTnum>(buffer: &mut [Complex<T>], factors: &[Complex<T>])
    requires
        old(buffer)@.len() == factors@.len(),
    ensures
        final(buffer)@ == pointwise_mul(old(buffer)@, factors@),
{
    let n = buffer.len();
    let mut k: usize = 0;
    while k < n
        invariant
            n == factors@.len(),
            buffer@.len() == n,
            k <= n,
            forall|j: int| 0 <= j < k ==> buffer@[j] == old(buffer)@[j].mul_spec(factors@[j]),
            forall|j: int| k <= j < n ==> buffer@[j] == old(buffer)@[j],
        decreases n - k,
    {
        buffer[k] = buffer[k].times(factors[k]);
        k += 1;
    }
    assert(buffer@ =~= pointwise_mul(old(buffer)@, factors@));
}

/// The transform of length `width * height` from two transforms of lengths `width` and
/// `height`, by the six-step scheme: transpose, transforms of length `height`, twiddle
/// factors, transpose, transforms of length `width`, transpose.
pub struct MixedRadixSingle<T> {
    pub width: usize,
    pub width_size_fft: Box<FFTAlgorithm<T>>,
    pub height: usize,
    pub height_size_fft: Box<FFTAlgorithm<T>>,
    pub twiddles: Vec<Complex<T>>,
}

impl<T: FFTnum> MixedRadixSingle<T> {
    pub open spec fn spec_len(&self) -> nat {
        self.twiddles@.len()
    }

    /// Both parts are well formed and of the lengths `width` and `height`, neither of which
    /// is 0, and there are `width * height` twiddle factors.
    pub open spec fn wf(&self) -> bool
        decreases self,
    {
        &&& self.width > 0
        &&& self.height > 0
        &&& self.twiddles@.len() == self.width * self.height
        &&& self.width_size_fft.wf()
        &&& self.width_size_fft.spec_len() == self.width
        &&& self.height_size_fft.wf()
        &&& self.height_size_fft.spec_len() == self.height
    }

    /// The six steps, on a buffer read as `height` rows of `width` elements.
    pub open spec fn transform(&self, x: Seq<Complex<T>>) -> Seq<Complex<T>>
        decreases self, 0nat,
    {
        let columns = transposed(self.width as nat, self.height as nat, x);
        let first = self.height_size_fft.transform_lanes(columns);
        let twiddled = pointwise_mul(first, self.twiddles@);
        let rows = transposed(self.height as nat, self.width as nat, twiddled);
        let second = self.width_size_fft.transform_lanes(rows);
        transposed(self.width as nat, self.height as nat, second)
    }

    /// Combines a transform of length `width` and one of length `height`, both of the
    /// direction `inverse`.
    pub fn new(
        width: usize,
        width_fft: Box<FFTAlgorithm<T>>,
        height: usize,
        height_fft: Box<FFTAlgorithm<T>>,
        inverse: bool,
    ) -> (r: Self)
        requires
            width > 0,
            height > 0,
            width * height <= usize::MAX,
            width_fft.wf(),
            width_fft.spec_len() == width,
            height_fft.wf(),
            height_fft.spec_len() == height,
        ensures
            r.wf(),
            r.width == width,
            r.height == height,
            r.width_size_fft == width_fft,
            r.height_size_fft == height_fft,
            r.twiddles@ == grid_twiddles_spec::<T>(width, height, inverse),
    {
        let len = width * height;
        let mut twiddles: Vec<Complex<T>> = Vec::with_capacity(len);
        let mut x: usize = 0;
        while x < width
            invariant
                len == width * height,
                height > 0,
                x <= width,
                twiddles@.len() == x * height,
                forall|k: int|
                    0 <= k < twiddles@.len() ==> twiddles@[k] == grid_twiddles_spec::<T>(
                        width,
                        height,
                        inverse,
                    )[k],
            decreases width - x,
        {
            let mut y: usize = 0;
            proof {
                lemma_mul_is_distributive_add_other_way(height as int, x as int, 1);
                lemma_mul_inequality(x as int + 1, width as int, height as int);
                lemma_mul_nonnegative(x as int, height as int);
            }
            while y < height
                invariant
                    len == width * height,
                    height > 0,
                    x < width,
                    y <= height,
                    (x + 1) * height == x * height + height,
                    (x + 1) * height <= width * height,
                    0 <= x * height,
                    twiddles@.len() == x * height + y,
                    forall|k: int|
                        0 <= k < twiddles@.len() ==> twiddles@[k] == grid_twiddles_spec::<T>(
                            width,
                            height,
                            inverse,
                        )[k],
                decreases height - y,
            {
                proof {
                    crate::array_utils::lemma_index_in_lane(height as nat, x as int, y as int);
                    lemma_mul_upper_bound(x as int, width as int, y as int, height as int);
                    lemma_mul_nonnegative(x as int, y as int);
                }
                twiddles.push(single_twiddle(x * y, len, inverse));
                y += 1;
            }
            x += 1;
        }
        assert(twiddles@ =~= grid_twiddles_spec::<T>(width, height, inverse));
        MixedRadixSingle {
            width,
            width_size_fft: width_fft,
            height,
            height_size_fft: height_fft,
            twiddles,
        }
    }

    /// Writes the transform of `input` to `output`.
    pub fn process(&self, input: &[Complex<T>], output: &mut [Complex<T>])
        requires
            self.wf(),
            input@.len() == self.spec_len(),
            old(output)@.len() == self.spec_len(),
        ensures
            final(output)@ == self.transform(input@),
            final(output)@.len() == self.spec_len(),
        decreases self, 0nat,
    {
        proof {
            lemma_mul_is_commutative(self.width as int, self.height as int);
            lemma_mod_multiples_basic(self.width as int, self.height as int);
            lemma_mod_multiples_basic(self.height as int, self.width as int);
        }
        let mut scratch = to_vec(input);

        transpose(self.width, self.height, input, output);

        self.height_size_fft.process_multi(output, scratch.as_mut_slice());

        multiply_by(scratch.as_mut_slice(), self.twiddles.as_slice());

        transpose(self.height, self.width, scratch.as_slice(), output);

        self.width_size_fft.process_multi(output, scratch.as_mut_slice());

        transpose(self.width, self.height, scratch.as_slice(), output);
    }

    pub fn len(&self) -> (n: usize)
        ensures
            n == self.spec_len(),
    {
        self.twiddles.len()
    }
}

/// The algorithm is the kernel of the length `size` and the direction `inverse`: the
/// butterfly of that length for 2 to 7, the transform by definition for any other length,
/// with the tables that their constructors compute.
pub open spec fn is_kernel<T: FFTnum>(
    algorithm: FFTAlgorithm<T>,
    size: usize,
    inverse: bool,
) -> bool {
    match algorithm {
        FFTAlgorithm::Butterfly2(_) => size == 2,
        FFTAlgorithm::Butterfly3(a) => size == 3 && a.twiddle == twiddle_spec::<T>(1, 3, inverse),
        FFTAlgorithm::Butterfly4(a) => size == 4 && a.inverse == inverse,
        FFTAlgorithm::Butterfly5(a) => size == 5 && a.inverse == inverse && a.inner_fft_multiply@
            == Butterfly5::<T>::multiplier_spec(inverse),
        FFTAlgorithm::Butterfly6(a) => size == 6 && a.butterfly3.twiddle == twiddle_spec::<T>(
            1,
            3,
            inverse,
        ),
        FFTAlgorithm::Butterfly7(a) => size == 7 && a.inner_fft.butterfly3.twiddle
            == twiddle_spec::<T>(1, 3, inverse) && a.inner_fft_multiply@
            == Butterfly7::<T>::multiplier_spec(inverse),
        FFTAlgorithm::DFT(a) => (size < 2 || size > 7) && a.twiddles@ == twiddle_table_spec::<T>(
            size,
            inverse,
        ),
        _ => false,
    }
}

/// The kernel of the length `size` and the direction `inverse`.
pub fn make_kernel<T: FFTnum>(size: usize, inverse: bool) -> (kernel: FFTAlgorithm<T>)
    ensures
        is_kernel(kernel, size, inverse),
        kernel.wf(),
        kernel.spec_len() == size,
{
    if size == 2 {
        FFTAlgorithm::Butterfly2(Butterfly2)
    } else if size == 3 {
        FFTAlgorithm::Butterfly3(Butterfly3::new(inverse))
    } else if size == 4 {
        FFTAlgorithm::Butterfly4(Butterfly4::new(inverse))
    } else if size == 5 {
        FFTAlgorithm::Butterfly5(Butterfly5::new(inverse))
    } else if size == 6 {
        FFTAlgorithm::Butterfly6(Butterfly6::new(inverse))
    } else if size == 7 {
        FFTAlgorithm::Butterfly7(Butterfly7::new(inverse))
    } else {
        FFTAlgorithm::DFT(DFT::new(size, inverse))
    }
}

/// The kernel lengths for the power `prime ^ count`: the prime, `count` times; but two
/// factors 2 make one kernel of length 4.
pub open spec fn kernels_of(prime: usize, count: nat) -> Seq<usize>
    decreases count,
{
    if count == 0 {
        Seq::empty()
    } else if prime == 2 && count >= 2 {
        seq![4usize] + kernels_of(prime, (count - 2) as nat)
    } else {
        seq![prime] + kernels_of(prime, (count - 1) as nat)
    }
}

/// The kernel lengths for a list of prime powers, in the order of the list.
pub open spec fn terminal_kernels(factors: Seq<(usize, usize)>) -> Seq<usize>
    decreases factors.len(),
{
    if factors.len() == 0 {
        Seq::empty()
    } else {
        terminal_kernels(factors.drop_last()) + kernels_of(
            factors.last().0,
            factors.last().1 as nat,
        )
    }
}

/// The product of a list of lengths.
pub open spec fn kernels_product(kernels: Seq<usize>) -> int
    decreases kernels.len(),
{
    if kernels.len() == 0 {
        1
    } else {
        kernels[0] * kernels_product(kernels.skip(1))
    }
}

/// The product of two lists, one behind the other, is the product of their products.
pub proof fn lemma_kernels_product_concat(a: Seq<usize>, b: Seq<usize>)
    ensures
        kernels_product(a + b) == kernels_product(a) * kernels_product(b),
    decreases a.len(),
{
    if a.len() == 0 {
        assert(a + b =~= b);
        lemma_mul_basics(kernels_product(b));
    } else {
        assert((a + b).skip(1) =~= a.skip(1) + b);
        lemma_kernels_product_concat(a.skip(1), b);
        lemma_mul_is_associative(
            a[0] as int,
            kernels_product(a.skip(1)),
            kernels_product(b),
        );
    }
}

/// The kernel lengths for a prime power multiply to the power, and none is below 2.
pub proof fn lemma_kernels_of(prime: usize, count: nat)
    requires
        prime >= 2,
    ensures
        kernels_product(kernels_of(prime, count)) == pow(prime as int, count),
        forall|i: int| 0 <= i < kernels_of(prime, count).len() ==> kernels_of(prime, count)[i] >= 2,
        count >= 1 ==> kernels_of(prime, count).len() >= 1,
    decreases count,
{
    let kernels = kernels_of(prime, count);
    if count == 0 {
        lemma_pow0(prime as int);
        assert(kernels =~= Seq::<usize>::empty());
    } else if prime == 2 && count >= 2 {
        let rest = kernels_of(prime, (count - 2) as nat);
        lemma_kernels_of(prime, (count - 2) as nat);
        assert(kernels =~= seq![4usize] + rest);
        assert(kernels.skip(1) =~= rest);
        assert(kernels_product(kernels) == 4 * kernels_product(rest));
        // 2 ^ count is 2 ^ 2 times 2 ^ (count - 2)
        lemma_pow_adds(2, 2, (count - 2) as nat);
        lemma_square_is_pow2(2);
        assert(pow(2, 2) == 4);
    } else {
        let rest = kernels_of(prime, (count - 1) as nat);
        lemma_kernels_of(prime, (count - 1) as nat);
        assert(kernels =~= seq![prime] + rest);
        assert(kernels.skip(1) =~= rest);
        assert(kernels_product(kernels) == prime * kernels_product(rest));
        lemma_pow_adds(prime as int, 1, (count - 1) as nat);
        lemma_pow1(prime as int);
    }
}

/// The kernel lengths of a list of prime powers multiply to the product of the powers, and
/// none is below 2.
pub proof fn lemma_terminal_kernels(factors: Seq<(usize, usize)>)
    requires
        forall|i: int| 0 <= i < factors.len() ==> (#[trigger] factors[i]).0 >= 2,
    ensures
        kernels_product(terminal_kernels(factors)) == factors_product(factors),
        forall|i: int|
            0 <= i < terminal_kernels(factors).len() ==> #[trigger] terminal_kernels(factors)[i]
                >= 2,
        factors.len() >= 1 && factors.last().1 >= 1 ==> terminal_kernels(factors).len() >= 1,
    decreases factors.len(),
{
    if factors.len() > 0 {
        lemma_terminal_kernels(factors.drop_last());
        lemma_kernels_of(factors.last().0, factors.last().1 as nat);
        lemma_kernels_product_concat(
            terminal_kernels(factors.drop_last()),
            kernels_of(factors.last().0, factors.last().1 as nat),
        );
    }
}

/// The product of the lengths from `i` on is at most that of all, where none is 0.
pub proof fn lemma_suffix_product(kernels: Seq<usize>, i: int)
    requires
        0 <= i <= kernels.len(),
        forall|j: int| 0 <= j < kernels.len() ==> #[trigger] kernels[j] >= 1,
    ensures
        1 <= kernels_product(kernels.skip(i)) <= kernels_product(kernels),
        i < kernels.len() ==> kernels_product(kernels.skip(i)) == kernels[i] * kernels_product(
            kernels.skip(i + 1),
        ),
    decreases kernels.len() - i,
{
    if i == kernels.len() {
        assert(kernels.skip(i) =~= Seq::<usize>::empty());
        lemma_suffix_product_positive(kernels);
    } else {
        lemma_suffix_product(kernels, i + 1);
        assert(kernels.skip(i).skip(1) =~= kernels.skip(i + 1));
        assert(kernels.skip(i)[0] == kernels[i]);
        lemma_suffix_product_positive(kernels.skip(i + 1));
        lemma_mul_increases(kernels[i] as int, kernels_product(kernels.skip(i + 1)));
        if i == 0 {
            assert(kernels.skip(0) =~= kernels);
        } else {
            lemma_suffix_product_chain(kernels, i);
        }
    }
}

/// The product of lengths of which none is 0 is at least 1.
proof fn lemma_suffix_product_positive(kernels: Seq<usize>)
    requires
        forall|j: int| 0 <= j < kernels.len() ==> #[trigger] kernels[j] >= 1,
    ensures
        kernels_product(kernels) >= 1,
    decreases kernels.len(),
{
    if kernels.len() > 0 {
        lemma_suffix_product_positive(kernels.skip(1));
        lemma_mul_increases(kernels[0] as int, kernels_product(kernels.skip(1)));
    }
}

/// The product of the lengths from `i` on is at most that of all, where none is 0.
proof fn lemma_suffix_product_chain(kernels: Seq<usize>, i: int)
    requires
        0 <= i <= kernels.len(),
        forall|j: int| 0 <= j < kernels.len() ==> #[trigger] kernels[j] >= 1,
    ensures
        kernels_product(kernels.skip(i)) <= kernels_product(kernels),
    decreases i,
{
    if i == 0 {
        assert(kernels.skip(0) =~= kernels);
    } else {
        lemma_suffix_product_chain(kernels, i - 1);
        assert(kernels.skip(i - 1).skip(1) =~= kernels.skip(i));
        assert(kernels.skip(i - 1)[0] == kernels[i - 1]);
        lemma_suffix_product_positive(kernels.skip(i));
        lemma_mul_increases(kernels[i - 1] as int, kernels_product(kernels.skip(i)));
    }
}

/// The algorithm is the chain of six-step combinations of the kernels of the given lengths:
/// the one kernel where there is one; else the combination of the first kernel, as the
/// transform of the width, with the chain of the others, as the transform of the height.
pub open spec fn is_chain<T: FFTnum>(
    algorithm: FFTAlgorithm<T>,
    kernels: Seq<usize>,
    inverse: bool,
) -> bool
    decreases algorithm,
{
    if kernels.len() == 0 {
        false
    } else if kernels.len() == 1 {
        is_kernel(algorithm, kernels[0], inverse)
    } else {
        match algorithm {
            FFTAlgorithm::MixedRadixSingle(a) => {
                &&& is_kernel(*a.width_size_fft, kernels[0], inverse)
                &&& is_chain(*a.height_size_fft, kernels.skip(1), inverse)
                &&& a.twiddles@ == grid_twiddles_spec::<T>(a.width, a.height, inverse)
            },
            _ => false,
        }
    }
}

/// The kernel lengths for a list of prime powers.
pub fn expand_factors(factors: &[(usize, usize)]) -> (kernels: Vec<usize>)
    ensures
        kernels@ == terminal_kernels(factors@),
{
    let mut kernels: Vec<usize> = Vec::new();
    let mut i: usize = 0;
    assert(factors@.take(0) =~= Seq::<(usize, usize)>::empty());
    while i < factors.len()
        invariant
            i <= factors@.len(),
            kernels@ == terminal_kernels(factors@.take(i as int)),
        decreases factors@.len() - i,
    {
        let (prime, count) = factors[i];
        let mut left: usize = count;
        let ghost done = kernels@;
        proof {
            assert(factors@.take(i + 1).drop_last() =~= factors@.take(i as int));
            assert(factors@.take(i + 1).last() == factors@[i as int]);
        }
        while left > 0
            invariant
                left <= count,
                kernels@ + kernels_of(prime, left as nat) == done + kernels_of(prime, count as nat),
            decreases left,
        {
            let ghost before = kernels@;
            if prime == 2 && left >= 2 {
                kernels.push(4);
                left -= 2;
                assert(kernels@ + kernels_of(prime, left as nat) =~= before + (seq![4usize]
                    + kernels_of(prime, left as nat)));
            } else {
                kernels.push(prime);
                left -= 1;
                assert(kernels@ + kernels_of(prime, left as nat) =~= before + (seq![prime]
                    + kernels_of(prime, left as nat)));
            }
        }
        assert(kernels@ =~= kernels@ + kernels_of(prime, 0));
        i += 1;
    }
    assert(factors@.take(factors@.len() as int) =~= factors@);
    kernels
}

/// The transform of a length whose prime factors all have kernels: the chain of six-step
/// combinations of the kernels for the factors.
pub struct MixedRadixTerminal<T> {
    pub stages: Box<FFTAlgorithm<T>>,
}

impl<T: FFTnum> MixedRadixTerminal<T> {
    pub open spec fn spec_len(&self) -> nat
        decreases self,
    {
        self.stages.spec_len()
    }

    /// The chain is well formed.
    pub open spec fn wf(&self) -> bool
        decreases self,
    {
        self.stages.wf()
    }

    /// What the chain makes of `x`.
    pub open spec fn transform(&self, x: Seq<Complex<T>>) -> Seq<Complex<T>>
        decreases self, 0nat,
    {
        self.stages.transform(x)
    }

    /// Makes the transform of the length `len`, the product of the prime powers `factors`,
    /// and the direction `inverse`.
    pub fn new(len: usize, factors: &[(usize, usize)], inverse: bool) -> (r: Self)
        requires
            factors@.len() >= 1,
            forall|i: int|
                0 <= i < factors@.len() ==> (#[trigger] factors@[i]).0 >= 2 && factors@[i].1 >= 1,
            factors_product(factors@) == len,
        ensures
            r.wf(),
            r.spec_len() == len,
            is_chain(*r.stages, terminal_kernels(factors@), inverse),
    {
        let kernels = expand_factors(factors);
        proof {
            lemma_terminal_kernels(factors@);
        }
        let count = kernels.len();
        let mut i: usize = count - 1;
        let mut chain: FFTAlgorithm<T> = make_kernel(kernels[i], inverse);
        let mut chain_len: usize = kernels[i];
        proof {
            lemma_suffix_product(kernels@, i as int);
            lemma_suffix_product(kernels@, i + 1);
            assert(kernels@.skip(i as int).len() == 1);
        }
        while i > 0
            invariant
                count == kernels@.len(),
                i < count,
                kernels_product(kernels@) == len,
                forall|j: int| 0 <= j < kernels@.len() ==> #[trigger] kernels@[j] >= 2,
                chain.wf(),
                chain.spec_len() == chain_len,
                chain_len == kernels_product(kernels@.skip(i as int)),
                is_chain(chain, kernels@.skip(i as int), inverse),
            decreases i,
        {
            i -= 1;
            proof {
                lemma_suffix_product(kernels@, i as int);
                assert(kernels@.skip(i as int).skip(1) =~= kernels@.skip(i + 1));
                lemma_mul_strictly_positive(kernels@[i as int] as int, chain_len as int);
            }
            let width = kernels[i];
            let kernel: FFTAlgorithm<T> = make_kernel(width, inverse);
            let combined = MixedRadixSingle::new(
                width,
                Box::new(kernel),
                chain_len,
                Box::new(chain),
                inverse,
            );
            chain_len = width * chain_len;
            chain = FFTAlgorithm::MixedRadixSingle(combined);
        }
        proof {
            assert(kernels@.skip(0) =~= kernels@);
        }
        MixedRadixTerminal { stages: Box::new(chain) }
    }

    /// Writes the transform of `input` to `output`.
    pub fn process(&self, input: &[Complex<T>], output: &mut [Complex<T>])
        requires
            self.wf(),
            input@.len() == self.spec_len(),
            old(output)@.len() == self.spec_len(),
        ensures
            final(output)@ == self.transform(input@),
            final(output)@.len() == self.spec_len(),
        decreases self, 0nat,
    {
        self.stages.process(input, output);
    }

    pub fn len(&self) -> (n: usize)
        ensures
            n == self.spec_len(),
        decreases self,
    {
        self.stages.len()
    }
}

} // verus!
