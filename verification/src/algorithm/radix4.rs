use crate::algorithm::butterflies::{Butterfly2, Butterfly4};
use crate::array_utils::{copy_into, lemma_index_in_lane, to_vec};
use crate::common::FFTnum;
use crate::complex::Complex;
use crate::twiddles::{generate_twiddle_factors, twiddle_table_spec};
use vstd::arithmetic::div_mod::*;
use vstd::arithmetic::mul::*;
use vstd::prelude::*;

verus! {

/// `n` is 1, 2, 4, 8, ...
pub open spec fn is_power_of_two_spec(n: nat) -> bool
    decreases n,
{
    n == 1 || (n >= 2 && n % 2 == 0 && is_power_of_two_spec(n / 2))
}

/// Every `radix`-th element of `x`, from element `r` on.
pub open spec fn decimated<A>(x: Seq<A>, radix: nat, r: nat) -> Seq<A> {
    Seq::new(x.len() / radix, |j: int| x[j * radix + r])
}

/// The radix-4 decimation in time. A buffer of length 1 is its own transform and one of
/// length 2 has the transform of length 2. A longer one is split into its four decimated
/// parts; out of their transforms `s0 .. s3`, each of length `q`, the elements `k`, `k + q`,
/// `k + 2q`, `k + 3q` of the result are the transform of length 4 of
/// `[s0[k], s1[k] * w^k, s2[k] * w^2k, s3[k] * w^3k]`, where `w^j` is element
/// `j * (table length / n)` of the table.
pub open spec fn radix4_transform<T: FFTnum>(
    table: Seq<Complex<T>>,
    inverse: bool,
    x: Seq<Complex<T>>,
) -> Seq<Complex<T>>
    decreases x.len(),
{
    let n = x.len();
    if n < 2 {
        x
    } else if n < 4 {
        Butterfly2.transform(x)
    } else {
        let q = (n / 4) as int;
        let stride = (table.len() / n) as int;
        let s0 = radix4_transform(table, inverse, decimated(x, 4, 0));
        let s1 = radix4_transform(table, inverse, decimated(x, 4, 1));
        let s2 = radix4_transform(table, inverse, decimated(x, 4, 2));
        let s3 = radix4_transform(table, inverse, decimated(x, 4, 3));
        Seq::new(
            n,
            |i: int|
                (Butterfly4 { inverse }).transform(
                    seq![
                        s0[i % q],
                        s1[i % q].mul_spec(table[(i % q) * stride]),
                        s2[i % q].mul_spec(table[2 * (i % q) * stride]),
                        s3[i % q].mul_spec(table[3 * (i % q) * stride]),
                    ],
                )[i / q],
        )
    }
}

/// A power of two from 4 on is four times a power of two.
pub proof fn lemma_power_of_two_quarter(n: nat)
    requires
        is_power_of_two_spec(n),
        n >= 4,
    ensures
        n % 4 == 0,
        is_power_of_two_spec(n / 4),
        n / 4 >= 1,
        4 * (n / 4) == n,
{
    assert(is_power_of_two_spec(n / 2));
    assert(n / 2 >= 2);
    assert(is_power_of_two_spec((n / 2) / 2));
}

/// Every power of 2 is a power of two.
pub proof fn lemma_power_of_two(exponent: nat)
    ensures
        is_power_of_two_spec(vstd::arithmetic::power::pow(2, exponent) as nat),
    decreases exponent,
{
    reveal(vstd::arithmetic::power::pow);
    if exponent > 0 {
        lemma_power_of_two((exponent - 1) as nat);
        vstd::arithmetic::power::lemma_pow_positive(2, (exponent - 1) as nat);
    }
}

/// Whether `n` is a power of two.
pub fn is_power_of_two(n: usize) -> (b: bool)
    ensures
        b == is_power_of_two_spec(n as nat),
{
    if n == 0 {
        return false;
    }
    let mut r: usize = n;
    while r % 2 == 0
        invariant
            r >= 1,
            is_power_of_two_spec(r as nat) == is_power_of_two_spec(n as nat),
        decreases r,
    {
        r = r / 2;
    }
    r == 1
}

/// The elements `r`, `r + radix`, `r + 2 * radix`, ... of `x`.
fn decimate<A: Copy>(x: &[A], radix: usize, r: usize) -> (v: Vec<A>)
    requires
        r < radix,
        x@.len() % (radix as nat) == 0,
    ensures
        v@ == decimated(x@, radix as nat, r as nat),
{
    let n = x.len();
    let q = n / radix;
    let mut v: Vec<A> = Vec::with_capacity(q);
    let mut j: usize = 0;
    proof {
        lemma_fundamental_div_mod(n as int, radix as int);
    }
    while j < q
        invariant
            n == x@.len(),
            q == n / radix,
            n == radix * q,
            r < radix,
            j <= q,
            v@.len() == j,
            forall|i: int| 0 <= i < j ==> v@[i] == x@[i * radix + r],
        decreases q - j,
    {
        proof {
            lemma_mul_is_distributive_add_other_way(radix as int, j as int, 1);
            lemma_mul_inequality(j as int + 1, q as int, radix as int);
            lemma_mul_is_commutative(radix as int, q as int);
            lemma_mul_nonnegative(j as int, radix as int);
        }
        v.push(x[j * radix + r]);
        j += 1;
    }
    assert(v@ =~= decimated(x@, radix as nat, r as nat));
    v
}

/// The transform of a length that is a power of two, by radix-4 steps down to the length 1
/// or 2.
pub struct Radix4<T> {
    /// The roots of unity of the order of the length, by exponent.
    pub twiddles: Vec<Complex<T>>,
    pub inverse: bool,
}

impl<T: FFTnum> Radix4<T> {
    pub open spec fn spec_len(&self) -> nat {
        self.twiddles@.len()
    }

    /// The length is a power of two.
    pub open spec fn wf(&self) -> bool {
        is_power_of_two_spec(self.twiddles@.len())
    }

    /// The radix-4 decimation in time over the table of the transform.
    pub open spec fn transform(&self, x: Seq<Complex<T>>) -> Seq<Complex<T>> {
        radix4_transform(self.twiddles@, self.inverse, x)
    }

    /// Makes the transform of the length `len`, a power of two, and the direction `inverse`.
    pub fn new(len: usize, inverse: bool) -> (r: Self)
        requires
            is_power_of_two_spec(len as nat),
        ensures
            r.wf(),
            r.inverse == inverse,
            r.twiddles@ == twiddle_table_spec::<T>(len, inverse),
    {
        Radix4 { twiddles: generate_twiddle_factors(len, inverse), inverse }
    }

    /// The transform of `x`, whose length times `stride` is the length of the table.
    fn perform_fft(&self, x: &[Complex<T>], stride: usize) -> (out: Vec<Complex<T>>)
        requires
            is_power_of_two_spec(x@.len()),
            stride >= 1,
            stride * x@.len() == self.twiddles@.len(),
        ensures
            out@ == self.transform(x@),
        decreases x@.len(),
    {
        let n = x.len();
        if n < 2 {
            return to_vec(x);
        }
        if n < 4 {
            let mut out = to_vec(x);
            Butterfly2.perform_fft(out.as_mut_slice());
            return out;
        }
        let q = n / 4;
        let table_len = self.twiddles.len();
        proof {
            lemma_power_of_two_quarter(n as nat);
            lemma_div_multiples_vanish(stride as int, n as int);
            assert(stride * 4 * q == self.twiddles@.len()) by (nonlinear_arith)
                requires
                    stride * n == self.twiddles@.len(),
                    4 * q == n,
            ;
            assert(stride * 4 <= stride * 4 * q) by (nonlinear_arith)
                requires
                    q >= 1,
                    stride >= 0,
            ;
        }
        let part0 = decimate(x, 4, 0);
        let part1 = decimate(x, 4, 1);
        let part2 = decimate(x, 4, 2);
        let part3 = decimate(x, 4, 3);
        let s0 = self.perform_fft(part0.as_slice(), stride * 4);
        let s1 = self.perform_fft(part1.as_slice(), stride * 4);
        let s2 = self.perform_fft(part2.as_slice(), stride * 4);
        let s3 = self.perform_fft(part3.as_slice(), stride * 4);

        let ghost want = self.transform(x@);
        let butterfly4 = Butterfly4::new(self.inverse);
        let mut out = to_vec(x);
        let mut k: usize = 0;
        while k < q
            invariant
                n == x@.len(),
                n >= 4,
                4 * q == n,
                q == n / 4,
                stride >= 1,
                table_len == self.twiddles@.len(),
                stride * n == self.twiddles@.len(),
                stride == self.twiddles@.len() / (n as nat),
                butterfly4.inverse == self.inverse,
                s0@ == radix4_transform(self.twiddles@, self.inverse, decimated(x@, 4, 0)),
                s1@ == radix4_transform(self.twiddles@, self.inverse, decimated(x@, 4, 1)),
                s2@ == radix4_transform(self.twiddles@, self.inverse, decimated(x@, 4, 2)),
                s3@ == radix4_transform(self.twiddles@, self.inverse, decimated(x@, 4, 3)),
                s0@.len() == q,
                s1@.len() == q,
                s2@.len() == q,
                s3@.len() == q,
                want == self.transform(x@),
                out@.len() == n,
                k <= q,
                forall|i: int| 0 <= i < n && i % (q as int) < k ==> out@[i] == want[i],
            decreases q - k,
        {
            proof {
                assert(3 * k * stride < stride * n && 0 <= k * stride && k * stride <= 2 * k
                    * stride <= 3 * k * stride) by (nonlinear_arith)
                    requires
                        k < q,
                        4 * q == n,
                        stride >= 1,
                        k >= 0,
                ;
            }
            let step = k * stride;
            proof {
                assert(2 * step == 2 * k * stride && 3 * step == 3 * k * stride)
                    by (nonlinear_arith)
                    requires
                        step == k * stride,
                ;
            }
            let mut quad = [
                s0[k],
                s1[k].times(self.twiddles[step]),
                s2[k].times(self.twiddles[2 * step]),
                s3[k].times(self.twiddles[3 * step]),
            ];
            proof {
                assert(quad@ =~= seq![
                    s0@[k as int],
                    s1@[k as int].mul_spec(self.twiddles@[k * stride]),
                    s2@[k as int].mul_spec(self.twiddles@[2 * k * stride]),
                    s3@[k as int].mul_spec(self.twiddles@[3 * k * stride]),
                ]);
                lemma_index_in_lane(q as nat, 0, k as int);
                lemma_index_in_lane(q as nat, 1, k as int);
                lemma_index_in_lane(q as nat, 2, k as int);
                lemma_index_in_lane(q as nat, 3, k as int);
            }
            butterfly4.perform_fft(&mut quad);
            let ghost before = out@;
            out[k] = quad[0];
            out[k + q] = quad[1];
            out[k + 2 * q] = quad[2];
            out[k + 3 * q] = quad[3];
            proof {
                assert forall|i: int| 0 <= i < n && i % (q as int) < k + 1 implies out@[i]
                    == want[i] by {
                    lemma_fundamental_div_mod(i, q as int);
                    let m = i / (q as int);
                    assert(0 <= m < 4) by (nonlinear_arith)
                        requires
                            i == q * m + i % (q as int),
                            0 <= i % (q as int) < q,
                            0 <= i < 4 * q,
                    ;
                    if i % (q as int) == k {
                        assert(i == k + m * q) by (nonlinear_arith)
                            requires
                                i == q * m + k,
                        ;
                    } else {
                        assert(out@[i] == before[i]);
                    }
                }
            }
            k += 1;
        }
        proof {
            assert forall|i: int| 0 <= i < n implies out@[i] == want[i] by {
                lemma_mod_bound(i, q as int);
            }
            assert(out@ =~= want);
        }
        out
    }

    /// Writes the transform of `input` to `output`.
    pub fn process(&self, input: &[Complex<T>], output: &mut [Complex<T>])
        requires
            self.wf(),
            input@.len() == self.spec_len(),
            old(output)@.len() == self.spec_len(),
        ensures
            final(output)@ == self.transform(input@),
            final(output)@.len() == self.spec_len(),
    {
        proof {
            lemma_mul_basics(input@.len() as int);
        }
        let out = self.perform_fft(input, 1);
        copy_into(out.as_slice(), output);
    }

    pub fn len(&self) -> (n: usize)
        ensures
            n == self.spec_len(),
    {
        self.twiddles.len()
    }
}

} // verus!
