use crate::common::FFTnum;
use crate::complex::Complex;
use vstd::prelude::*;

verus! {

/// One column of a radix-2 step: `[a + b * w, a - b * w]`.
pub open spec fn butterfly_2_column<T: FFTnum>(a: Complex<T>, b: Complex<T>, w: Complex<T>) -> Seq<
    Complex<T>,
> {
    let temp = b.mul_spec(w);
    seq![a.add_spec(temp), a.sub_spec(temp)]
}

/// One column of a forward radix-4 step on `d0 .. d3` with the twiddles `w1 .. w3`: with
/// `t_k = d_k * w_k`, `p = d0 + t2`, `m = d0 - t2`, `s = t1 + t3` and `r = t1 - t3`, the four
/// results are `p + s`, `m - i r`, `p - s` and `m + i r`, the second and the fourth written by
/// their real and imaginary parts.
pub open spec fn butterfly_4_column<T: FFTnum>(
    d: Seq<Complex<T>>,
    w1: Complex<T>,
    w2: Complex<T>,
    w3: Complex<T>,
) -> Seq<Complex<T>> {
    let t1 = d[1].mul_spec(w1);
    let t2 = d[2].mul_spec(w2);
    let t3 = d[3].mul_spec(w3);
    let m = d[0].sub_spec(t2);
    let p = d[0].add_spec(t2);
    let s = t1.add_spec(t3);
    let r = t1.sub_spec(t3);
    seq![
        p.add_spec(s),
        Complex { re: m.re.add_spec(r.im), im: m.im.sub_spec(r.re) },
        p.sub_spec(s),
        Complex { re: m.re.sub_spec(r.im), im: m.im.add_spec(r.re) },
    ]
}

/// What a radix-2 step makes of `data`: column `j`, for `j` below `num_ffts`, is made of the
/// elements `j` and `j + num_ffts`, and its twiddle is element `j * stride` of `twiddles`.
/// The elements behind the two blocks stay.
pub open spec fn butterfly_2_spec<T: FFTnum>(
    data: Seq<Complex<T>>,
    stride: int,
    twiddles: Seq<Complex<T>>,
    num_ffts: int,
) -> Seq<Complex<T>> {
    Seq::new(
        data.len(),
        |k: int|
            if k < 2 * num_ffts {
                let j = k % num_ffts;
                butterfly_2_column(data[j], data[j + num_ffts], twiddles[j * stride])[k / num_ffts]
            } else {
                data[k]
            },
    )
}

/// What a forward radix-4 step makes of `data`: column `j`, for `j` below `num_ffts`, is made
/// of the elements `j`, `j + num_ffts`, `j + 2 * num_ffts` and `j + 3 * num_ffts`, and its
/// twiddles are the elements `j * stride`, `2 * j * stride` and `3 * j * stride` of
/// `twiddles`. The elements behind the four blocks stay.
pub open spec fn butterfly_4_spec<T: FFTnum>(
    data: Seq<Complex<T>>,
    stride: int,
    twiddles: Seq<Complex<T>>,
    num_ffts: int,
) -> Seq<Complex<T>> {
    Seq::new(
        data.len(),
        |k: int|
            if k < 4 * num_ffts {
                let j = k % num_ffts;
                butterfly_4_column(
                    seq![
                        data[j],
                        data[j + num_ffts],
                        data[j + 2 * num_ffts],
                        data[j + 3 * num_ffts],
                    ],
                    twiddles[j * stride],
                    twiddles[2 * j * stride],
                    twiddles[3 * j * stride],
                )[k / num_ffts]
            } else {
                data[k]
            },
    )
}

/// The place `j + block * n` lies in block `block`, at offset `j`.
proof fn lemma_block_index(n: int, block: int, j: int)
    requires
        0 <= j < n,
        0 <= block,
    ensures
        (j + block * n) % n == j,
        (j + block * n) / n == block,
{
    vstd::arithmetic::div_mod::lemma_fundamental_div_mod_converse(j + block * n, n, block, j);
}

/// A place below `blocks * n` lies in one of the blocks.
proof fn lemma_block_of(n: int, blocks: int, k: int)
    requires
        0 <= k < blocks * n,
        n > 0,
    ensures
        0 <= k % n < n,
        0 <= k / n < blocks,
        k == k % n + (k / n) * n,
{
    vstd::arithmetic::div_mod::lemma_fundamental_div_mod(k, n);
    vstd::arithmetic::div_mod::lemma_mod_bound(k, n);
    vstd::arithmetic::mul::lemma_mul_is_commutative(n, k / n);
    assert(0 <= k / n < blocks) by (nonlinear_arith)
        requires
            k == n * (k / n) + k % n,
            0 <= k % n < n,
            0 <= k < blocks * n,
    ;
}

/// A radix-2 step in place on two blocks of `num_ffts` elements.
pub fn butterfly_2<T: FFTnum>(
    data: &mut [Complex<T>],
    stride: usize,
    twiddles: &[Complex<T>],
    num_ffts: usize,
)
    requires
        2 * num_ffts <= old(data)@.len(),
        num_ffts > 0 ==> (num_ffts - 1) * stride < twiddles@.len(),
    ensures
        final(data)@ == butterfly_2_spec(
            old(data)@,
            stride as int,
            twiddles@,
            num_ffts as int,
        ),
{
    let len = data.len();
    let table_len = twiddles.len();
    let ghost want = butterfly_2_spec(old(data)@, stride as int, twiddles@, num_ffts as int);
    let mut j: usize = 0;
    while j < num_ffts
        invariant
            j <= num_ffts,
            len == data@.len(),
            table_len == twiddles@.len(),
            data@.len() == old(data)@.len(),
            2 * num_ffts <= data@.len(),
            num_ffts > 0 ==> (num_ffts - 1) * stride < twiddles@.len(),
            want == butterfly_2_spec(old(data)@, stride as int, twiddles@, num_ffts as int),
            forall|k: int|
                0 <= k < data@.len() ==> data@[k] == if k < 2 * num_ffts && k % (num_ffts as int)
                    < j {
                    want[k]
                } else {
                    old(data)@[k]
                },
        decreases num_ffts - j,
    {
        proof {
            assert(0 <= j * stride <= (num_ffts - 1) * stride) by (nonlinear_arith)
                requires
                    0 <= j < num_ffts,
                    stride >= 0,
            ;
            lemma_block_index(num_ffts as int, 0, j as int);
            lemma_block_index(num_ffts as int, 1, j as int);
        }
        let idx_1 = j;
        let idx_2 = j + num_ffts;
        let twiddle = twiddles[j * stride];
        let temp = data[idx_2].times(twiddle);
        let first = data[idx_1];
        data[idx_2] = first.minus(temp);
        data[idx_1] = first.plus(temp);
        proof {
            assert forall|k: int| 0 <= k < data@.len() implies data@[k] == if k < 2 * num_ffts && k
                % (num_ffts as int) < j + 1 {
                want[k]
            } else {
                old(data)@[k]
            } by {
                if k < 2 * num_ffts {
                    lemma_block_of(num_ffts as int, 2, k);
                }
            }
        }
        j += 1;
    }
    proof {
        assert forall|k: int| 0 <= k < data@.len() implies data@[k] == want[k] by {
            if k < 2 * num_ffts {
                lemma_block_of(num_ffts as int, 2, k);
            }
        }
        assert(data@ =~= want);
    }
}

/// A forward radix-4 step in place on four blocks of `num_ffts` elements.
pub fn butterfly_4<T: FFTnum>(
    data: &mut [Complex<T>],
    stride: usize,
    twiddles: &[Complex<T>],
    num_ffts: usize,
)
    requires
        4 * num_ffts <= old(data)@.len(),
        num_ffts > 0 ==> 3 * (num_ffts - 1) * stride < twiddles@.len(),
    ensures
        final(data)@ == butterfly_4_spec(
            old(data)@,
            stride as int,
            twiddles@,
            num_ffts as int,
        ),
{
    let len = data.len();
    let table_len = twiddles.len();
    let ghost want = butterfly_4_spec(old(data)@, stride as int, twiddles@, num_ffts as int);
    let mut j: usize = 0;
    while j < num_ffts
        invariant
            j <= num_ffts,
            len == data@.len(),
            table_len == twiddles@.len(),
            data@.len() == old(data)@.len(),
            4 * num_ffts <= data@.len(),
            num_ffts > 0 ==> 3 * (num_ffts - 1) * stride < twiddles@.len(),
            want == butterfly_4_spec(old(data)@, stride as int, twiddles@, num_ffts as int),
            forall|k: int|
                0 <= k < data@.len() ==> data@[k] == if k < 4 * num_ffts && k % (num_ffts as int)
                    < j {
                    want[k]
                } else {
                    old(data)@[k]
                },
        decreases num_ffts - j,
    {
        proof {
            assert(0 <= j * stride <= 2 * j * stride <= 3 * j * stride <= 3 * (num_ffts - 1)
                * stride) by (nonlinear_arith)
                requires
                    0 <= j < num_ffts,
                    stride >= 0,
            ;
            assert(2 * (j * stride) == 2 * j * stride && 3 * (j * stride) == 3 * j * stride)
                by (nonlinear_arith);
            lemma_block_index(num_ffts as int, 0, j as int);
            lemma_block_index(num_ffts as int, 1, j as int);
            lemma_block_index(num_ffts as int, 2, j as int);
            lemma_block_index(num_ffts as int, 3, j as int);
        }
        let tw_idx_1 = j * stride;
        let tw_idx_2 = 2 * tw_idx_1;
        let tw_idx_3 = 3 * tw_idx_1;
        let idx = j;
        let t1 = data[idx + num_ffts].times(twiddles[tw_idx_1]);
        let t2 = data[idx + 2 * num_ffts].times(twiddles[tw_idx_2]);
        let t3 = data[idx + 3 * num_ffts].times(twiddles[tw_idx_3]);
        let first = data[idx];
        let m = first.minus(t2);
        let p = first.plus(t2);
        let s = t1.plus(t3);
        let r = t1.minus(t3);
        data[idx + 2 * num_ffts] = p.minus(s);
        data[idx] = p.plus(s);
        data[idx + num_ffts] = Complex { re: m.re.plus(r.im), im: m.im.minus(r.re) };
        data[idx + 3 * num_ffts] = Complex { re: m.re.minus(r.im), im: m.im.plus(r.re) };
        proof {
            assert forall|k: int| 0 <= k < data@.len() implies data@[k] == if k < 4 * num_ffts && k
                % (num_ffts as int) < j + 1 {
                want[k]
            } else {
                old(data)@[k]
            } by {
                if k < 4 * num_ffts {
                    lemma_block_of(num_ffts as int, 4, k);
                }
            }
        }
        j += 1;
    }
    proof {
        assert forall|k: int| 0 <= k < data@.len() implies data@[k] == want[k] by {
            if k < 4 * num_ffts {
                lemma_block_of(num_ffts as int, 4, k);
            }
        }
        assert(data@ =~= want);
    }
}

} // verus!
