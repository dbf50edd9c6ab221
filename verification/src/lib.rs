pub mod algorithm;
pub mod array_utils;
pub mod common;
pub mod complex;
pub mod hardcoded_butterflies;
pub mod math_utils;
pub mod number_theory;
pub mod plan;
pub mod twiddles;

pub use common::FFTnum;
pub use complex::Complex;

use algorithm::FFTAlgorithm;
use twiddles::{single_twiddle, twiddle_spec};
use vstd::prelude::*;

verus! {

/// A transform of one length and direction, planned once and used for any number of
/// signals. Nothing is normalized: a forward transform followed by an inverse one scales the
/// signal by its length.
pub struct FFT<T: FFTnum> {
    len: usize,
    algorithm: Box<FFTAlgorithm<T>>,
}

impl<T: FFTnum> FFT<T> {
    #[verifier::type_invariant]
    spec fn well_formed(&self) -> bool {
        self.algorithm.wf() && self.algorithm.spec_len() == self.len
    }

    /// The length of the signals that the transform takes.
    pub closed spec fn spec_len(&self) -> nat {
        self.len as nat
    }

    /// The planned algorithm.
    pub closed spec fn algorithm(&self) -> FFTAlgorithm<T> {
        *self.algorithm
    }

    /// Plans the transform of signals of the length `len`; the inverse transform if
    /// `inverse`.
    pub fn new(len: usize, inverse: bool) -> (r: Self)
        ensures
            r.spec_len() == len,
            plan::follows_plan(r.algorithm(), len, inverse),
    {
        FFT { len, algorithm: plan::plan_fft(len, inverse) }
    }

    /// Writes the transform of `signal` to `spectrum`.
    pub fn process(&mut self, signal: &[Complex<T>], spectrum: &mut [Complex<T>])
        requires
            signal@.len() == old(self).spec_len(),
            old(spectrum)@.len() == old(self).spec_len(),
        ensures
            *final(self) == *old(self),
            final(spectrum)@ == old(self).algorithm().transform(signal@),
    {
        proof {
            use_type_invariant(&*self);
        }
        self.algorithm.process(signal, spectrum);
    }
}

/// Bin `k` of the transform by definition of the first `count` elements of `x`: the sum
/// `zero + w^0 * x[0] + w^k * x[1] + w^2k * x[2] + ...`, added from the left, over the
/// forward roots of unity of the order of the length of `x`.
pub open spec fn dft_sum<T: FFTnum>(x: Seq<Complex<T>>, k: int, count: nat) -> Complex<T>
    decreases count,
{
    if count == 0 {
        Complex::zero_spec()
    } else {
        let i = count - 1;
        dft_sum(x, k, i as nat).add_spec(
            twiddle_spec::<T>((i * k) as usize, x.len() as usize, false).mul_spec(x[i]),
        )
    }
}

/// The forward transform by its definition, each root of unity computed where it is used:
/// bin `k` of `spectrum` becomes the sum of `w^(i * k) * signal[i]`.
pub fn dft<T: FFTnum>(signal: &[Complex<T>], spectrum: &mut [Complex<T>])
    requires
        signal@.len() * old(spectrum)@.len() <= usize::MAX,
    ensures
        final(spectrum)@.len() == old(spectrum)@.len(),
        forall|k: int|
            0 <= k < old(spectrum)@.len() ==> final(spectrum)@[k] == dft_sum(
                signal@,
                k,
                signal@.len(),
            ),
{
    let n = signal.len();
    let bins = spectrum.len();
    let mut k: usize = 0;
    while k < bins
        invariant
            n == signal@.len(),
            bins == spectrum@.len(),
            bins == old(spectrum)@.len(),
            n * bins <= usize::MAX,
            k <= bins,
            forall|j: int| 0 <= j < k ==> spectrum@[j] == dft_sum(signal@, j, n as nat),
        decreases bins - k,
    {
        let mut sum: Complex<T> = Complex::zero();
        let mut i: usize = 0;
        while i < n
            invariant
                n == signal@.len(),
                n * bins <= usize::MAX,
                k < bins,
                i <= n,
                sum == dft_sum(signal@, k as int, i as nat),
            decreases n - i,
        {
            proof {
                assert(0 <= i * k <= n * bins) by (nonlinear_arith)
                    requires
                        0 <= i < n,
                        0 <= k < bins,
                ;
            }
            let twiddle = single_twiddle::<T>(i * k, n, false);
            sum = sum.plus(twiddle.times(signal[i]));
            i += 1;
        }
        spectrum[k] = sum;
        k += 1;
    }
}

} // verus!
