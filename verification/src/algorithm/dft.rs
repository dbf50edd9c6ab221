use crate::array_utils::{chunk, chunk_mut, lane, lemma_lane_bounds, lemma_lane_replaced};
use crate::common::FFTnum;
use crate::complex::Complex;
use crate::twiddles::{generate_twiddle_factors, twiddle_table_spec};
use vstd::arithmetic::div_mod::*;
use vstd::arithmetic::mul::*;
use vstd::prelude::*;

verus! {

/// The sum `zero + table[0] * x[0] + table[k mod n] * x[1] + table[2k mod n] * x[2] + ...` over
/// the first `count` elements of `x`, added from the left; `n` is the length of `table`.
pub open spec fn dft_bin<T: FFTnum>(
    table: Seq<Complex<T>>,
    x: Seq<Complex<T>>,
    k: int,
    count: nat,
) -> Complex<T>
    decreases count,
{
    if count == 0 {
        Complex::zero_spec()
    } else {
        let i = count - 1;
        dft_bin(table, x, k, i as nat).add_spec(
            table[(k * i) % (table.len() as int)].mul_spec(x[i]),
        )
    }
}

/// The transform by its definition, in a quadratic number of steps, over a table of the roots
/// of unity. It takes any length and is what the faster algorithms are measured against.
pub struct DFT<T> {
    pub twiddles: Vec<Complex<T>>,
}

/// The next index into a table of length `n` when stepping by `k`: `(index + k) mod n`.
fn step_index(index: usize, k: usize, n: usize, Ghost(i): Ghost<int>) -> (next: usize)
    requires
        k < n,
        0 <= i,
        index == (k * i) % (n as int),
    ensures
        next == (k * (i + 1)) % (n as int),
{
    proof {
        lemma_mul_is_distributive_add(k as int, i, 1);
        lemma_mul_nonnegative(k as int, i);
        lemma_fundamental_div_mod(k * i, n as int);
        let q = (k * i) / (n as int);
        lemma_mul_is_commutative(n as int, q);
        if index + k >= n {
            lemma_mul_is_distributive_add(n as int, q, 1);
            lemma_mul_is_commutative(n as int, q + 1);
            lemma_fundamental_div_mod_converse(k * (i + 1), n as int, q + 1, index + k - n);
        } else {
            lemma_fundamental_div_mod_converse(k * (i + 1), n as int, q, index + k);
        }
    }
    if index >= n - k {
        index - (n - k)
    } else {
        index + k
    }
}

impl<T: FFTnum> DFT<T> {
    /// The length that the transform was made for.
    pub open spec fn spec_len(&self) -> nat {
        self.twiddles@.len()
    }

    /// Element `k` is `dft_bin` over all of `x`: the sum of `table[(k * i) mod n] * x[i]`.
    pub open spec fn transform(&self, x: Seq<Complex<T>>) -> Seq<Complex<T>> {
        Seq::new(x.len(), |k: int| dft_bin(self.twiddles@, x, k, x.len()))
    }

    /// Makes the transform of the length `len` and the direction `inverse`.
    pub fn new(len: usize, inverse: bool) -> (r: Self)
        ensures
            r.twiddles@ == twiddle_table_spec::<T>(len, inverse),
    {
        DFT { twiddles: generate_twiddle_factors(len, inverse) }
    }

    /// Writes the transform of `signal` to `spectrum`; the index into the table is stepped
    /// by the number of the bin and wrapped at the end of the table.
    fn perform_fft(&self, signal: &[Complex<T>], spectrum: &mut [Complex<T>])
        requires
            signal@.len() == self.spec_len(),
            old(spectrum)@.len() == self.spec_len(),
        ensures
            final(spectrum)@ == self.transform(signal@),
    {
        let n = self.twiddles.len();
        let mut k: usize = 0;
        while k < n
            invariant
                n == self.twiddles@.len(),
                signal@.len() == n,
                spectrum@.len() == n,
                k <= n,
                forall|j: int|
                    0 <= j < k ==> spectrum@[j] == dft_bin(self.twiddles@, signal@, j, n as nat),
            decreases n - k,
        {
            let mut sum: Complex<T> = Complex::zero();
            let mut twiddle_index: usize = 0;
            let mut i: usize = 0;
            proof {
                lemma_mul_basics(k as int);
            }
            while i < n
                invariant
                    n == self.twiddles@.len(),
                    signal@.len() == n,
                    k < n,
                    i <= n,
                    twiddle_index == (k * i) % (n as int),
                    sum == dft_bin(self.twiddles@, signal@, k as int, i as nat),
                decreases n - i,
            {
                proof {
                    lemma_mul_nonnegative(k as int, i as int);
                    lemma_mod_bound(k * i, n as int);
                }
                let twiddle = self.twiddles[twiddle_index];
                sum = sum.plus(twiddle.times(signal[i]));
                twiddle_index = step_index(twiddle_index, k, n, Ghost(i as int));
                i += 1;
            }
            spectrum[k] = sum;
            k += 1;
        }
        assert(spectrum@ =~= self.transform(signal@));
    }

    /// Writes the transform of `input` to `output`.
    pub fn process(&self, input: &[Complex<T>], output: &mut [Complex<T>])
        requires
            input@.len() == self.spec_len(),
            old(output)@.len() == self.spec_len(),
        ensures
            final(output)@ == self.transform(input@),
    {
        self.perform_fft(input, output);
    }

    /// Writes the transform of every lane of `input` to the same lane of `output`.
    pub fn process_multi(&self, input: &[Complex<T>], output: &mut [Complex<T>])
        requires
            self.spec_len() > 0,
            input@.len() % self.spec_len() == 0,
            old(output)@.len() == input@.len(),
        ensures
            final(output)@.len() == input@.len(),
            forall|m: int|
                0 <= m < input@.len() / self.spec_len() ==> #[trigger] lane(
                    final(output)@,
                    self.spec_len(),
                    m,
                ) == self.transform(lane(input@, self.spec_len(), m)),
    {
        let n = self.twiddles.len();
        let total = input.len();
        let lanes = total / n;
        let mut m: usize = 0;
        while m < lanes
            invariant
                n == self.spec_len(),
                n > 0,
                total == input@.len(),
                output@.len() == total,
                total % n == 0,
                lanes == total / n,
                m <= lanes,
                forall|i: int|
                    0 <= i < m ==> #[trigger] lane(output@, n as nat, i) == self.transform(
                        lane(input@, n as nat, i),
                    ),
            decreases lanes - m,
        {
            proof {
                lemma_lane_bounds(total as nat, n as nat, m as int);
            }
            let ghost before = output@;
            let in_chunk = chunk(input, m * n, n);
            let out_chunk = chunk_mut(output, m * n, n);
            assert(in_chunk@ =~= lane(input@, n as nat, m as int));
            self.perform_fft(in_chunk, out_chunk);
            proof {
                lemma_lane_replaced(
                    before,
                    output@,
                    n as nat,
                    m as int,
                    self.transform(lane(input@, n as nat, m as int)),
                );
            }
            m += 1;
        }
    }

    pub fn len(&self) -> (n: usize)
        ensures
            n == self.spec_len(),
    {
        self.twiddles.len()
    }
}

} // verus!
