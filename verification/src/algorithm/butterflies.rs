use crate::array_utils::{chunk_mut, copy_into, lane, lemma_lane_bounds, lemma_lane_replaced};
use crate::common::FFTnum;
use crate::complex::{pointwise_mul, Complex};
use crate::twiddles::{single_twiddle, twiddle_spec};
use vstd::prelude::*;

verus! {

/// Whether both buffers have the length `expected`, as the `process` of a butterfly asks.
pub fn verify_size<T>(signal: &[T], spectrum: &[T], expected: usize) -> (ok: bool)
    ensures
        ok == (signal@.len() == expected && spectrum@.len() == expected),
{
    signal.len() == expected && spectrum.len() == expected
}

/// The transform of length 2: a sum and a difference. It is the same in both directions.
pub struct Butterfly2;

impl Butterfly2 {
    /// `[x0 + x1, x0 - x1]`
    pub open spec fn transform<T: FFTnum>(&self, x: Seq<Complex<T>>) -> Seq<Complex<T>> {
        seq![x[0].add_spec(x[1]), x[0].sub_spec(x[1])]
    }

    /// Transforms the two elements of `buffer` in place.
    pub fn perform_fft<T: FFTnum>(&self, buffer: &mut [Complex<T>])
        requires
            old(buffer)@.len() == 2,
        ensures
            final(buffer)@ == self.transform(old(buffer)@),
    {
        let x0 = buffer[0];
        let x1 = buffer[1];
        buffer[0] = x0.plus(x1);
        buffer[1] = x0.minus(x1);
        assert(buffer@ =~= self.transform(old(buffer)@));
    }

    /// Transforms every lane of 2 elements of `buffer` in place.
    pub fn process_multi_inplace<T: FFTnum>(&self, buffer: &mut [Complex<T>])
        requires
            old(buffer)@.len() % 2 == 0,
        ensures
            final(buffer)@.len() == old(buffer)@.len(),
            forall|m: int|
                0 <= m < old(buffer)@.len() / 2 ==> #[trigger] lane(final(buffer)@, 2, m)
                    == self.transform(lane(old(buffer)@, 2, m)),
    {
        let total = buffer.len();
        let lanes = total / 2;
        let mut m: usize = 0;
        while m < lanes
            invariant
                total == old(buffer)@.len(),
                buffer@.len() == total,
                total % 2 == 0,
                lanes == total / 2,
                m <= lanes,
                forall|i: int|
                    0 <= i < m ==> #[trigger] lane(buffer@, 2, i) == self.transform(
                        lane(old(buffer)@, 2, i),
                    ),
                forall|k: int| m * 2 <= k < total ==> buffer@[k] == old(buffer)@[k],
            decreases lanes - m,
        {
            proof {
                lemma_lane_bounds(total as nat, 2, m as int);
            }
            let ghost before = buffer@;
            let part = chunk_mut(buffer, m * 2, 2);
            assert(part@ =~= lane(old(buffer)@, 2, m as int));
            self.perform_fft(part);
            proof {
                lemma_lane_replaced(
                    before,
                    buffer@,
                    2,
                    m as int,
                    self.transform(lane(old(buffer)@, 2, m as int)),
                );
            }
            m += 1;
        }
    }

    /// Writes the transform of `input` to `output`.
    pub fn process<T: FFTnum>(&self, input: &[Complex<T>], output: &mut [Complex<T>])
        requires
            input@.len() == 2,
            old(output)@.len() == 2,
        ensures
            final(output)@ == self.transform(input@),
    {
        copy_into(input, output);
        self.perform_fft(output);
    }

    /// Writes the transform of every lane of 2 elements of `input` to the same lane of
    /// `output`.
    pub fn process_multi<T: FFTnum>(&self, input: &[Complex<T>], output: &mut [Complex<T>])
        requires
            input@.len() % 2 == 0,
            old(output)@.len() == input@.len(),
        ensures
            final(output)@.len() == input@.len(),
            forall|m: int|
                0 <= m < input@.len() / 2 ==> #[trigger] lane(final(output)@, 2, m)
                    == self.transform(lane(input@, 2, m)),
    {
        copy_into(input, output);
        self.process_multi_inplace(output);
    }

    pub fn len(&self) -> (n: usize)
        ensures
            n == 2,
    {
        2
    }
}

/// The transform of length 3: one transform of length 2 on the last two elements, one
/// multiplication by the primitive cube root of unity, and a second transform of length 2.
pub struct Butterfly3<T> {
    /// The primitive cube root of unity of the direction.
    pub twiddle: Complex<T>,
}

impl<T: FFTnum> Butterfly3<T> {
    /// With `b = [x1 + x2, x1 - x2]`, `c1 = b0 * re(w) + x0` and `c2 = b1 * (0 + im(w) i)`:
    /// `[x0 + b0, c1 + c2, c1 - c2]`.
    pub open spec fn transform(&self, x: Seq<Complex<T>>) -> Seq<Complex<T>> {
        let b = Butterfly2.transform(seq![x[1], x[2]]);
        let c1 = b[0].scale_spec(self.twiddle.re).add_spec(x[0]);
        let c2 = b[1].mul_spec(Complex { re: T::zero_spec(), im: self.twiddle.im });
        let d = Butterfly2.transform(seq![c1, c2]);
        seq![x[0].add_spec(b[0]), d[0], d[1]]
    }

    pub fn new(inverse: bool) -> (r: Self)
        ensures
            r.twiddle == twiddle_spec::<T>(1, 3, inverse),
    {
        Butterfly3 { twiddle: single_twiddle(1, 3, inverse) }
    }

    /// The transform of the other direction: its twiddle is the conjugate.
    pub fn inverse_of(fft: &Butterfly3<T>) -> (r: Self)
        ensures
            r.twiddle == fft.twiddle.conj_spec(),
    {
        Butterfly3 { twiddle: fft.twiddle.conj() }
    }

    /// Transforms the three elements of `buffer` in place.
    pub fn perform_fft(&self, buffer: &mut [Complex<T>])
        requires
            old(buffer)@.len() == 3,
        ensures
            final(buffer)@ == self.transform(old(buffer)@),
    {
        let butterfly2 = Butterfly2;
        let mut pair = [buffer[1], buffer[2]];
        assert(pair@ =~= seq![old(buffer)@[1], old(buffer)@[2]]);
        butterfly2.perform_fft(&mut pair);
        let temp = buffer[0];

        buffer[0] = temp.plus(pair[0]);

        let c1 = pair[0].scale(self.twiddle.re).plus(temp);
        let c2 = pair[1].times(Complex { re: T::zero(), im: self.twiddle.im });
        let mut last = [c1, c2];
        assert(last@ =~= seq![c1, c2]);
        butterfly2.perform_fft(&mut last);
        buffer[1] = last[0];
        buffer[2] = last[1];
        assert(buffer@ =~= self.transform(old(buffer)@));
    }

    /// Transforms every lane of 3 elements of `buffer` in place.
    pub fn process_multi_inplace(&self, buffer: &mut [Complex<T>])
        requires
            old(buffer)@.len() % 3 == 0,
        ensures
            final(buffer)@.len() == old(buffer)@.len(),
            forall|m: int|
                0 <= m < old(buffer)@.len() / 3 ==> #[trigger] lane(final(buffer)@, 3, m)
                    == self.transform(lane(old(buffer)@, 3, m)),
    {
        let total = buffer.len();
        let lanes = total / 3;
        let mut m: usize = 0;
        while m < lanes
            invariant
                total == old(buffer)@.len(),
                buffer@.len() == total,
                total % 3 == 0,
                lanes == total / 3,
                m <= lanes,
                forall|i: int|
                    0 <= i < m ==> #[trigger] lane(buffer@, 3, i) == self.transform(
                        lane(old(buffer)@, 3, i),
                    ),
                forall|k: int| m * 3 <= k < total ==> buffer@[k] == old(buffer)@[k],
            decreases lanes - m,
        {
            proof {
                lemma_lane_bounds(total as nat, 3, m as int);
            }
            let ghost before = buffer@;
            let part = chunk_mut(buffer, m * 3, 3);
            assert(part@ =~= lane(old(buffer)@, 3, m as int));
            self.perform_fft(part);
            proof {
                lemma_lane_replaced(
                    before,
                    buffer@,
                    3,
                    m as int,
                    self.transform(lane(old(buffer)@, 3, m as int)),
                );
            }
            m += 1;
        }
    }

    /// Writes the transform of `input` to `output`.
    pub fn process(&self, input: &[Complex<T>], output: &mut [Complex<T>])
        requires
            input@.len() == 3,
            old(output)@.len() == 3,
        ensures
            final(output)@ == self.transform(input@),
    {
        copy_into(input, output);
        self.perform_fft(output);
    }

    /// Writes the transform of every lane of 3 elements of `input` to the same lane of
    /// `output`.
    pub fn process_multi(&self, input: &[Complex<T>], output: &mut [Complex<T>])
        requires
            input@.len() % 3 == 0,
            old(output)@.len() == input@.len(),
        ensures
            final(output)@.len() == input@.len(),
            forall|m: int|
                0 <= m < input@.len() / 3 ==> #[trigger] lane(final(output)@, 3, m)
                    == self.transform(lane(input@, 3, m)),
    {
        copy_into(input, output);
        self.process_multi_inplace(output);
    }

    pub fn len(&self) -> (n: usize)
        ensures
            n == 3,
    {
        3
    }
}

/// The transform of length 4 as one step of the six-step scheme on a 2 by 2 grid: the only
/// twiddle factor is `-i` (forward) or `i` (inverse), applied without a multiplication.
pub struct Butterfly4 {
    pub inverse: bool,
}

impl Butterfly4 {
    /// With the column transforms `a = [x0 + x2, x0 - x2]`, `b = [x1 + x3, x1 - x3]` and
    /// `r = b1` times `-i` or `i`: `[a0 + b0, a1 + r, a0 - b0, a1 - r]`.
    pub open spec fn transform<T: FFTnum>(&self, x: Seq<Complex<T>>) -> Seq<Complex<T>> {
        let a = Butterfly2.transform(seq![x[0], x[2]]);
        let b = Butterfly2.transform(seq![x[1], x[3]]);
        let r = b[1].rotate_spec(self.inverse);
        let c = Butterfly2.transform(seq![a[0], b[0]]);
        let d = Butterfly2.transform(seq![a[1], r]);
        seq![c[0], d[0], c[1], d[1]]
    }

    pub fn new(inverse: bool) -> (r: Self)
        ensures
            r.inverse == inverse,
    {
        Butterfly4 { inverse }
    }

    /// Transforms the four elements of `buffer` in place.
    pub fn perform_fft<T: FFTnum>(&self, buffer: &mut [Complex<T>])
        requires
            old(buffer)@.len() == 4,
        ensures
            final(buffer)@ == self.transform(old(buffer)@),
    {
        let butterfly2 = Butterfly2;

        // the columns of the 2 by 2 grid
        let mut a = [buffer[0], buffer[2]];
        let mut b = [buffer[1], buffer[3]];
        assert(a@ =~= seq![old(buffer)@[0], old(buffer)@[2]]);
        assert(b@ =~= seq![old(buffer)@[1], old(buffer)@[3]]);
        butterfly2.perform_fft(&mut a);
        butterfly2.perform_fft(&mut b);

        // the one twiddle factor
        let r = b[1].rotate(self.inverse);

        // the rows
        let mut c = [a[0], b[0]];
        let mut d = [a[1], r];
        assert(c@ =~= seq![a@[0], b@[0]]);
        assert(d@ =~= seq![a@[1], r]);
        butterfly2.perform_fft(&mut c);
        butterfly2.perform_fft(&mut d);

        buffer[0] = c[0];
        buffer[1] = d[0];
        buffer[2] = c[1];
        buffer[3] = d[1];
        assert(buffer@ =~= self.transform(old(buffer)@));
    }

    /// Transforms every lane of 4 elements of `buffer` in place.
    pub fn process_multi_inplace<T: FFTnum>(&self, buffer: &mut [Complex<T>])
        requires
            old(buffer)@.len() % 4 == 0,
        ensures
            final(buffer)@.len() == old(buffer)@.len(),
            forall|m: int|
                0 <= m < old(buffer)@.len() / 4 ==> #[trigger] lane(final(buffer)@, 4, m)
                    == self.transform(lane(old(buffer)@, 4, m)),
    {
        let total = buffer.len();
        let lanes = total / 4;
        let mut m: usize = 0;
        while m < lanes
            invariant
                total == old(buffer)@.len(),
                buffer@.len() == total,
                total % 4 == 0,
                lanes == total / 4,
                m <= lanes,
                forall|i: int|
                    0 <= i < m ==> #[trigger] lane(buffer@, 4, i) == self.transform(
                        lane(old(buffer)@, 4, i),
                    ),
                forall|k: int| m * 4 <= k < total ==> buffer@[k] == old(buffer)@[k],
            decreases lanes - m,
        {
            proof {
                lemma_lane_bounds(total as nat, 4, m as int);
            }
            let ghost before = buffer@;
            let part = chunk_mut(buffer, m * 4, 4);
            assert(part@ =~= lane(old(buffer)@, 4, m as int));
            self.perform_fft(part);
            proof {
                lemma_lane_replaced(
                    before,
                    buffer@,
                    4,
                    m as int,
                    self.transform(lane(old(buffer)@, 4, m as int)),
                );
            }
            m += 1;
        }
    }

    /// Writes the transform of `input` to `output`.
    pub fn process<T: FFTnum>(&self, input: &[Complex<T>], output: &mut [Complex<T>])
        requires
            input@.len() == 4,
            old(output)@.len() == 4,
        ensures
            final(output)@ == self.transform(input@),
    {
        copy_into(input, output);
        self.perform_fft(output);
    }

    /// Writes the transform of every lane of 4 elements of `input` to the same lane of
    /// `output`.
    pub fn process_multi<T: FFTnum>(&self, input: &[Complex<T>], output: &mut [Complex<T>])
        requires
            input@.len() % 4 == 0,
            old(output)@.len() == input@.len(),
        ensures
            final(output)@.len() == input@.len(),
            forall|m: int|
                0 <= m < input@.len() / 4 ==> #[trigger] lane(final(output)@, 4, m)
                    == self.transform(lane(input@, 4, m)),
    {
        copy_into(input, output);
        self.process_multi_inplace(output);
    }

    pub fn len(&self) -> (n: usize)
        ensures
            n == 4,
    {
        4
    }
}

/// The transform of length 5 by Rader's scheme with primitive root 2: a cyclic convolution of
/// length 4, computed with two transforms of length 4.
pub struct Butterfly5<T> {
    /// The transform of the scaled twiddles in the order of the powers of the inverse root.
    pub inner_fft_multiply: [Complex<T>; 4],
    pub inverse: bool,
}

impl<T: FFTnum> Butterfly5<T> {
    /// The table that `new` computes: with `t1` and `t2` the twiddles of exponent 1 and 2,
    /// each scaled by a quarter, the transform of length 4 of
    /// `[t1, conj(t2), conj(t1), t2]`.
    pub open spec fn multiplier_spec(inverse: bool) -> Seq<Complex<T>> {
        let quarter = T::unit_fraction_spec(4);
        let t1 = twiddle_spec::<T>(1, 5, inverse).scale_spec(quarter);
        let t2 = twiddle_spec::<T>(2, 5, inverse).scale_spec(quarter);
        (Butterfly4 { inverse }).transform(seq![t1, t2.conj_spec(), t1.conj_spec(), t2])
    }

    /// With `s` the transform of the other direction of the product of the table with the
    /// transform of `[x1, x2, x4, x3]`:
    /// `[x0 + x1 + x2 + x3 + x4, s0 + x0, s3 + x0, s1 + x0, s2 + x0]`.
    pub open spec fn transform(&self, x: Seq<Complex<T>>) -> Seq<Complex<T>> {
        let first = (Butterfly4 { inverse: self.inverse }).transform(seq![x[1], x[2], x[4], x[3]]);
        let product = pointwise_mul(first, self.inner_fft_multiply@);
        let s = (Butterfly4 { inverse: !self.inverse }).transform(product);
        let sum = x[0].add_spec(x[1]).add_spec(x[2]).add_spec(x[3]).add_spec(x[4]);
        seq![
            sum,
            s[0].add_spec(x[0]),
            s[3].add_spec(x[0]),
            s[1].add_spec(x[0]),
            s[2].add_spec(x[0]),
        ]
    }

    pub fn new(inverse: bool) -> (r: Self)
        ensures
            r.inverse == inverse,
            r.inner_fft_multiply@ == Self::multiplier_spec(inverse),
    {
        let quarter: T = T::unit_fraction(4);
        let twiddle1: Complex<T> = single_twiddle::<T>(1, 5, inverse).scale(quarter);
        let twiddle2: Complex<T> = single_twiddle::<T>(2, 5, inverse).scale(quarter);

        // the powers of the inverse root 3 are 1, 3, 4, 2
        let mut fft_data = [twiddle1, twiddle2.conj(), twiddle1.conj(), twiddle2];
        assert(fft_data@ =~= seq![twiddle1, twiddle2.conj_spec(), twiddle1.conj_spec(), twiddle2]);

        let butterfly = Butterfly4::new(inverse);
        butterfly.perform_fft(&mut fft_data);

        Butterfly5 { inner_fft_multiply: fft_data, inverse }
    }

    /// Transforms the five elements of `buffer` in place.
    pub fn perform_fft(&self, buffer: &mut [Complex<T>])
        requires
            old(buffer)@.len() == 5,
        ensures
            final(buffer)@ == self.transform(old(buffer)@),
    {
        // the powers of the primitive root 2 are 1, 2, 4, 3
        let mut scratch = [buffer[1], buffer[2], buffer[4], buffer[3]];
        assert(scratch@ =~= seq![
            old(buffer)@[1],
            old(buffer)@[2],
            old(buffer)@[4],
            old(buffer)@[3],
        ]);

        Butterfly4::new(self.inverse).perform_fft(&mut scratch);

        let ghost first = scratch@;
        scratch[0] = scratch[0].times(self.inner_fft_multiply[0]);
        scratch[1] = scratch[1].times(self.inner_fft_multiply[1]);
        scratch[2] = scratch[2].times(self.inner_fft_multiply[2]);
        scratch[3] = scratch[3].times(self.inner_fft_multiply[3]);
        assert(scratch@ =~= pointwise_mul(first, self.inner_fft_multiply@));

        Butterfly4::new(!self.inverse).perform_fft(&mut scratch);

        let first_input = buffer[0];
        let sum = first_input.plus(buffer[1]).plus(buffer[2]).plus(buffer[3]).plus(buffer[4]);
        buffer[0] = sum;

        // the powers of the inverse root 3 are 1, 3, 4, 2
        buffer[1] = scratch[0].plus(first_input);
        buffer[3] = scratch[1].plus(first_input);
        buffer[4] = scratch[2].plus(first_input);
        buffer[2] = scratch[3].plus(first_input);
        assert(buffer@ =~= self.transform(old(buffer)@));
    }

    /// Transforms every lane of 5 elements of `buffer` in place.
    pub fn process_multi_inplace(&self, buffer: &mut [Complex<T>])
        requires
            old(buffer)@.len() % 5 == 0,
        ensures
            final(buffer)@.len() == old(buffer)@.len(),
            forall|m: int|
                0 <= m < old(buffer)@.len() / 5 ==> #[trigger] lane(final(buffer)@, 5, m)
                    == self.transform(lane(old(buffer)@, 5, m)),
    {
        let total = buffer.len();
        let lanes = total / 5;
        let mut m: usize = 0;
        while m < lanes
            invariant
                total == old(buffer)@.len(),
                buffer@.len() == total,
                total % 5 == 0,
                lanes == total / 5,
                m <= lanes,
                forall|i: int|
                    0 <= i < m ==> #[trigger] lane(buffer@, 5, i) == self.transform(
                        lane(old(buffer)@, 5, i),
                    ),
                forall|k: int| m * 5 <= k < total ==> buffer@[k] == old(buffer)@[k],
            decreases lanes - m,
        {
            proof {
                lemma_lane_bounds(total as nat, 5, m as int);
            }
            let ghost before = buffer@;
            let part = chunk_mut(buffer, m * 5, 5);
            assert(part@ =~= lane(old(buffer)@, 5, m as int));
            self.perform_fft(part);
            proof {
                lemma_lane_replaced(
                    before,
                    buffer@,
                    5,
                    m as int,
                    self.transform(lane(old(buffer)@, 5, m as int)),
                );
            }
            m += 1;
        }
    }

    /// Writes the transform of `input` to `output`.
    pub fn process(&self, input: &[Complex<T>], output: &mut [Complex<T>])
        requires
            input@.len() == 5,
            old(output)@.len() == 5,
        ensures
            final(output)@ == self.transform(input@),
    {
        copy_into(input, output);
        self.perform_fft(output);
    }

    /// Writes the transform of every lane of 5 elements of `input` to the same lane of
    /// `output`.
    pub fn process_multi(&self, input: &[Complex<T>], output: &mut [Complex<T>])
        requires
            input@.len() % 5 == 0,
            old(output)@.len() == input@.len(),
        ensures
            final(output)@.len() == input@.len(),
            forall|m: int|
                0 <= m < input@.len() / 5 ==> #[trigger] lane(final(output)@, 5, m)
                    == self.transform(lane(input@, 5, m)),
    {
        copy_into(input, output);
        self.process_multi_inplace(output);
    }

    pub fn len(&self) -> (n: usize)
        ensures
            n == 5,
    {
        5
    }
}

/// The transform of length 6 by the Good-Thomas scheme on a 3 by 2 grid: transforms of
/// length 3 and 2 with fixed permutations of input and output, and no twiddle factors.
pub struct Butterfly6<T> {
    pub butterfly3: Butterfly3<T>,
}

impl<T: FFTnum> Butterfly6<T> {
    /// A 3 by 2 grid read as a 2 by 3 grid: `[s0, s3, s1, s4, s2, s5]`.
    pub open spec fn transposed_3x2(s: Seq<Complex<T>>) -> Seq<Complex<T>> {
        seq![s[0], s[3], s[1], s[4], s[2], s[5]]
    }

    /// With `a` and `b` the transforms of length 3 of `[x0, x2, x4]` and `[x3, x5, x1]` and
    /// `u`, `v`, `w` the transforms of length 2 of `[a0, b0]`, `[a1, b1]`, `[a2, b2]`:
    /// `[u0, v1, w0, u1, v0, w1]`.
    pub open spec fn transform(&self, x: Seq<Complex<T>>) -> Seq<Complex<T>> {
        let a = self.butterfly3.transform(seq![x[0], x[2], x[4]]);
        let b = self.butterfly3.transform(seq![x[3], x[5], x[1]]);
        let t = Self::transposed_3x2(a + b);
        let u = Butterfly2.transform(seq![t[0], t[1]]);
        let v = Butterfly2.transform(seq![t[2], t[3]]);
        let w = Butterfly2.transform(seq![t[4], t[5]]);
        seq![u[0], v[1], w[0], u[1], v[0], w[1]]
    }

    pub fn new(inverse: bool) -> (r: Self)
        ensures
            r.butterfly3.twiddle == twiddle_spec::<T>(1, 3, inverse),
    {
        Butterfly6 { butterfly3: Butterfly3::new(inverse) }
    }

    /// The transform of the other direction.
    pub fn inverse_of(fft: &Butterfly6<T>) -> (r: Self)
        ensures
            r.butterfly3.twiddle == fft.butterfly3.twiddle.conj_spec(),
    {
        Butterfly6 { butterfly3: Butterfly3::inverse_of(&fft.butterfly3) }
    }

    /// Reorders the six elements of a 3 by 2 grid to those of a 2 by 3 grid.
    fn transpose_3x2_to_2x3(buffer: &mut [Complex<T>])
        requires
            old(buffer)@.len() == 6,
        ensures
            final(buffer)@ == Self::transposed_3x2(old(buffer)@),
    {
        let temp = buffer[3];
        buffer[3] = buffer[4];
        buffer[4] = buffer[2];
        buffer[2] = buffer[1];
        buffer[1] = temp;
        assert(buffer@ =~= Self::transposed_3x2(old(buffer)@));
    }

    /// Transforms the six elements of `buffer` in place.
    pub fn perform_fft(&self, buffer: &mut [Complex<T>])
        requires
            old(buffer)@.len() == 6,
        ensures
            final(buffer)@ == self.transform(old(buffer)@),
    {
        // the input in the order of the fixed index map
        let mut a = [buffer[0], buffer[2], buffer[4]];
        let mut b = [buffer[3], buffer[5], buffer[1]];
        assert(a@ =~= seq![old(buffer)@[0], old(buffer)@[2], old(buffer)@[4]]);
        assert(b@ =~= seq![old(buffer)@[3], old(buffer)@[5], old(buffer)@[1]]);

        // the columns
        self.butterfly3.perform_fft(&mut a);
        self.butterfly3.perform_fft(&mut b);

        // no twiddle factors; the transpose
        let mut scratch = [a[0], a[1], a[2], b[0], b[1], b[2]];
        assert(scratch@ =~= a@ + b@);
        Self::transpose_3x2_to_2x3(&mut scratch);

        // the rows
        let butterfly2 = Butterfly2;
        let mut u = [scratch[0], scratch[1]];
        let mut v = [scratch[2], scratch[3]];
        let mut w = [scratch[4], scratch[5]];
        assert(u@ =~= seq![scratch@[0], scratch@[1]]);
        assert(v@ =~= seq![scratch@[2], scratch@[3]]);
        assert(w@ =~= seq![scratch@[4], scratch@[5]]);
        butterfly2.perform_fft(&mut u);
        butterfly2.perform_fft(&mut v);
        butterfly2.perform_fft(&mut w);

        // the result in the order of the fixed index map
        buffer[0] = u[0];
        buffer[3] = u[1];
        buffer[4] = v[0];
        buffer[1] = v[1];
        buffer[2] = w[0];
        buffer[5] = w[1];
        assert(buffer@ =~= self.transform(old(buffer)@));
    }

    /// Transforms every lane of 6 elements of `buffer` in place.
    pub fn process_multi_inplace(&self, buffer: &mut [Complex<T>])
        requires
            old(buffer)@.len() % 6 == 0,
        ensures
            final(buffer)@.len() == old(buffer)@.len(),
            forall|m: int|
                0 <= m < old(buffer)@.len() / 6 ==> #[trigger] lane(final(buffer)@, 6, m)
                    == self.transform(lane(old(buffer)@, 6, m)),
    {
        let total = buffer.len();
        let lanes = total / 6;
        let mut m: usize = 0;
        while m < lanes
            invariant
                total == old(buffer)@.len(),
                buffer@.len() == total,
                total % 6 == 0,
                lanes == total / 6,
                m <= lanes,
                forall|i: int|
                    0 <= i < m ==> #[trigger] lane(buffer@, 6, i) == self.transform(
                        lane(old(buffer)@, 6, i),
                    ),
                forall|k: int| m * 6 <= k < total ==> buffer@[k] == old(buffer)@[k],
            decreases lanes - m,
        {
            proof {
                lemma_lane_bounds(total as nat, 6, m as int);
            }
            let ghost before = buffer@;
            let part = chunk_mut(buffer, m * 6, 6);
            assert(part@ =~= lane(old(buffer)@, 6, m as int));
            self.perform_fft(part);
            proof {
                lemma_lane_replaced(
                    before,
                    buffer@,
                    6,
                    m as int,
                    self.transform(lane(old(buffer)@, 6, m as int)),
                );
            }
            m += 1;
        }
    }

    /// Writes the transform of `input` to `output`.
    pub fn process(&self, input: &[Complex<T>], output: &mut [Complex<T>])
        requires
            input@.len() == 6,
            old(output)@.len() == 6,
        ensures
            final(output)@ == self.transform(input@),
    {
        copy_into(input, output);
        self.perform_fft(output);
    }

    /// Writes the transform of every lane of 6 elements of `input` to the same lane of
    /// `output`.
    pub fn process_multi(&self, input: &[Complex<T>], output: &mut [Complex<T>])
        requires
            input@.len() % 6 == 0,
            old(output)@.len() == input@.len(),
        ensures
            final(output)@.len() == input@.len(),
            forall|m: int|
                0 <= m < input@.len() / 6 ==> #[trigger] lane(final(output)@, 6, m)
                    == self.transform(lane(input@, 6, m)),
    {
        copy_into(input, output);
        self.process_multi_inplace(output);
    }

    pub fn len(&self) -> (n: usize)
        ensures
            n == 6,
    {
        6
    }
}

/// The transform of length 7 by Rader's scheme with primitive root 3: a cyclic convolution of
/// length 6, computed with two transforms of length 6.
pub struct Butterfly7<T> {
    pub inner_fft: Butterfly6<T>,
    /// The transform of the scaled twiddles in the order of the powers of the inverse root.
    pub inner_fft_multiply: [Complex<T>; 6],
}

impl<T: FFTnum> Butterfly7<T> {
    /// The table that `new` computes: with `t1`, `t2`, `t3` the twiddles of exponent 1, 2
    /// and 3, each scaled by a sixth, the transform of length 6 of
    /// `[t1, conj(t2), conj(t3), conj(t1), t2, t3]`.
    pub open spec fn multiplier_spec(inverse: bool) -> Seq<Complex<T>> {
        let sixth = T::unit_fraction_spec(6);
        let t1 = twiddle_spec::<T>(1, 7, inverse).scale_spec(sixth);
        let t2 = twiddle_spec::<T>(2, 7, inverse).scale_spec(sixth);
        let t3 = twiddle_spec::<T>(3, 7, inverse).scale_spec(sixth);
        let inner = Butterfly6 {
            butterfly3: Butterfly3 { twiddle: twiddle_spec::<T>(1, 3, inverse) },
        };
        inner.transform(seq![t1, t2.conj_spec(), t3.conj_spec(), t1.conj_spec(), t2, t3])
    }

    /// With `s` the transform of the other direction of the product of the table with the
    /// transform of `[x3, x2, x6, x4, x5, x1]`:
    /// `[x0 + x1 + ... + x6, s5 + x0, s3 + x0, s4 + x0, s1 + x0, s0 + x0, s2 + x0]`.
    pub open spec fn transform(&self, x: Seq<Complex<T>>) -> Seq<Complex<T>> {
        let first = self.inner_fft.transform(seq![x[3], x[2], x[6], x[4], x[5], x[1]]);
        let product = pointwise_mul(first, self.inner_fft_multiply@);
        let other = Butterfly6 {
            butterfly3: Butterfly3 { twiddle: self.inner_fft.butterfly3.twiddle.conj_spec() },
        };
        let s = other.transform(product);
        let sum = x[0].add_spec(x[1]).add_spec(x[2]).add_spec(x[3]).add_spec(x[4]).add_spec(
            x[5],
        ).add_spec(x[6]);
        seq![
            sum,
            s[5].add_spec(x[0]),
            s[3].add_spec(x[0]),
            s[4].add_spec(x[0]),
            s[1].add_spec(x[0]),
            s[0].add_spec(x[0]),
            s[2].add_spec(x[0]),
        ]
    }

    pub fn new(inverse: bool) -> (r: Self)
        ensures
            r.inner_fft.butterfly3.twiddle == twiddle_spec::<T>(1, 3, inverse),
            r.inner_fft_multiply@ == Self::multiplier_spec(inverse),
    {
        let sixth: T = T::unit_fraction(6);
        let twiddle1: Complex<T> = single_twiddle::<T>(1, 7, inverse).scale(sixth);
        let twiddle2: Complex<T> = single_twiddle::<T>(2, 7, inverse).scale(sixth);
        let twiddle3: Complex<T> = single_twiddle::<T>(3, 7, inverse).scale(sixth);

        // the powers of the inverse root 5 are 1, 5, 4, 6, 2, 3
        let mut fft_data = [
            twiddle1,
            twiddle2.conj(),
            twiddle3.conj(),
            twiddle1.conj(),
            twiddle2,
            twiddle3,
        ];
        assert(fft_data@ =~= seq![
            twiddle1,
            twiddle2.conj_spec(),
            twiddle3.conj_spec(),
            twiddle1.conj_spec(),
            twiddle2,
            twiddle3,
        ]);

        let butterfly = Butterfly6::new(inverse);
        butterfly.perform_fft(&mut fft_data);

        Butterfly7 { inner_fft: butterfly, inner_fft_multiply: fft_data }
    }

    /// Transforms the seven elements of `buffer` in place.
    pub fn perform_fft(&self, buffer: &mut [Complex<T>])
        requires
            old(buffer)@.len() == 7,
        ensures
            final(buffer)@ == self.transform(old(buffer)@),
    {
        // the powers of the primitive root 3, from the first on, are 3, 2, 6, 4, 5, 1
        let mut scratch = [buffer[3], buffer[2], buffer[6], buffer[4], buffer[5], buffer[1]];
        assert(scratch@ =~= seq![
            old(buffer)@[3],
            old(buffer)@[2],
            old(buffer)@[6],
            old(buffer)@[4],
            old(buffer)@[5],
            old(buffer)@[1],
        ]);

        self.inner_fft.perform_fft(&mut scratch);

        let ghost first = scratch@;
        scratch[0] = scratch[0].times(self.inner_fft_multiply[0]);
        scratch[1] = scratch[1].times(self.inner_fft_multiply[1]);
        scratch[2] = scratch[2].times(self.inner_fft_multiply[2]);
        scratch[3] = scratch[3].times(self.inner_fft_multiply[3]);
        scratch[4] = scratch[4].times(self.inner_fft_multiply[4]);
        scratch[5] = scratch[5].times(self.inner_fft_multiply[5]);
        assert(scratch@ =~= pointwise_mul(first, self.inner_fft_multiply@));

        let inverse6 = Butterfly6::inverse_of(&self.inner_fft);
        inverse6.perform_fft(&mut scratch);

        let first_input = buffer[0];
        let sum = first_input.plus(buffer[1]).plus(buffer[2]).plus(buffer[3]).plus(buffer[4]).plus(
            buffer[5],
        ).plus(buffer[6]);
        buffer[0] = sum;

        // the powers of the inverse root 5, from the first on, are 5, 4, 6, 2, 3, 1
        buffer[5] = scratch[0].plus(first_input);
        buffer[4] = scratch[1].plus(first_input);
        buffer[6] = scratch[2].plus(first_input);
        buffer[2] = scratch[3].plus(first_input);
        buffer[3] = scratch[4].plus(first_input);
        buffer[1] = scratch[5].plus(first_input);
        assert(buffer@ =~= self.transform(old(buffer)@));
    }

    /// Transforms every lane of 7 elements of `buffer` in place.
    pub fn process_multi_inplace(&self, buffer: &mut [Complex<T>])
        requires
            old(buffer)@.len() % 7 == 0,
        ensures
            final(buffer)@.len() == old(buffer)@.len(),
            forall|m: int|
                0 <= m < old(buffer)@.len() / 7 ==> #[trigger] lane(final(buffer)@, 7, m)
                    == self.transform(lane(old(buffer)@, 7, m)),
    {
        let total = buffer.len();
        let lanes = total / 7;
        let mut m: usize = 0;
        while m < lanes
            invariant
                total == old(buffer)@.len(),
                buffer@.len() == total,
                total % 7 == 0,
                lanes == total / 7,
                m <= lanes,
                forall|i: int|
                    0 <= i < m ==> #[trigger] lane(buffer@, 7, i) == self.transform(
                        lane(old(buffer)@, 7, i),
                    ),
                forall|k: int| m * 7 <= k < total ==> buffer@[k] == old(buffer)@[k],
            decreases lanes - m,
        {
            proof {
                lemma_lane_bounds(total as nat, 7, m as int);
            }
            let ghost before = buffer@;
            let part = chunk_mut(buffer, m * 7, 7);
            assert(part@ =~= lane(old(buffer)@, 7, m as int));
            self.perform_fft(part);
            proof {
                lemma_lane_replaced(
                    before,
                    buffer@,
                    7,
                    m as int,
                    self.transform(lane(old(buffer)@, 7, m as int)),
                );
            }
            m += 1;
        }
    }

    /// Writes the transform of `input` to `output`.
    pub fn process(&self, input: &[Complex<T>], output: &mut [Complex<T>])
        requires
            input@.len() == 7,
            old(output)@.len() == 7,
        ensures
            final(output)@ == self.transform(input@),
    {
        copy_into(input, output);
        self.perform_fft(output);
    }

    /// Writes the transform of every lane of 7 elements of `input` to the same lane of
    /// `output`.
    pub fn process_multi(&self, input: &[Complex<T>], output: &mut [Complex<T>])
        requires
            input@.len() % 7 == 0,
            old(output)@.len() == input@.len(),
        ensures
            final(output)@.len() == input@.len(),
            forall|m: int|
                0 <= m < input@.len() / 7 ==> #[trigger] lane(final(output)@, 7, m)
                    == self.transform(lane(input@, 7, m)),
    {
        copy_into(input, output);
        self.process_multi_inplace(output);
    }

    pub fn len(&self) -> (n: usize)
        ensures
            n == 7,
    {
        7
    }
}

} // verus!
