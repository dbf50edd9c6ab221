use crate::algorithm::FFTAlgorithm;
use crate::array_utils::{to_vec, transpose, transposed};
use crate::common::FFTnum;
use crate::number_theory::{
    gcd, lemma_chinese_remainders, lemma_coprime_divides, lemma_gcd_symmetric,
};
use crate::complex::Complex;
use vstd::arithmetic::div_mod::*;
use vstd::arithmetic::mul::*;
use vstd::prelude::*;

verus! {

/// Where the elements of the grid come from: the element of row `b` and column `a`, at the
/// place `b * n1 + a`, is the input at `(a * n2 + b * n1) mod (n1 * n2)`.
pub open spec fn input_map_spec(n1: usize, n2: usize) -> Seq<usize> {
    Seq::new(
        (n1 * n2) as nat,
        |i: int| (((i % (n1 as int)) * n2 + (i / (n1 as int)) * n1) % (n1 * n2)) as usize,
    )
}

/// Where the elements of the result come from: the output at `k` is the element of row
/// `k mod n1` and column `k mod n2` of the transformed grid, at the place
/// `(k mod n1) * n2 + k mod n2`. For coprime `n1` and `n2` no two outputs come from the same
/// place.
pub open spec fn output_map_spec(n1: usize, n2: usize) -> Seq<usize> {
    Seq::new((n1 * n2) as nat, |k: int| ((k % (n1 as int)) * n2 + k % (n2 as int)) as usize)
}

/// The elements of `x` at the places that `map` gives.
pub open spec fn gathered<A>(x: Seq<A>, map: Seq<usize>) -> Seq<A> {
    Seq::new(map.len(), |i: int| x[map[i] as int])
}

/// Writes the elements of `input` at the places that `map` gives to `output`.
pub fn gather<A: Copy>(input: &[A], map: &[usize], output: &mut [A])
    requires
        old(output)@.len() == map@.len(),
        forall|i: int| 0 <= i < map@.len() ==> (#[trigger] map@[i]) < input@.len(),
    ensures
        final(output)@ == gathered(input@, map@),
{
    let n = map.len();
    let mut i: usize = 0;
    while i < n
        invariant
            n == map@.len(),
            output@.len() == n,
            i <= n,
            forall|j: int| 0 <= j < map@.len() ==> (#[trigger] map@[j]) < input@.len(),
            forall|j: int| 0 <= j < i ==> output@[j] == input@[map@[j] as int],
        decreases n - i,
    {
        output[i] = input[map[i]];
        i += 1;
    }
    assert(output@ =~= gathered(input@, map@));
}

/// The transform of length `n1 * n2`, for coprime `n1` and `n2`, from two transforms of
/// lengths `n1` and `n2`: the input is read into a grid by one fixed index map and the result
/// is read out of the transformed grid by another, and no twiddle factors are needed.
pub struct GoodThomasAlgorithm<T> {
    pub n1: usize,
    pub n1_fft: Box<FFTAlgorithm<T>>,
    pub n2: usize,
    pub n2_fft: Box<FFTAlgorithm<T>>,
    pub input_map: Vec<usize>,
    pub output_map: Vec<usize>,
}

impl<T: FFTnum> GoodThomasAlgorithm<T> {
    pub open spec fn spec_len(&self) -> nat {
        self.input_map@.len()
    }

    /// Both parts are well formed and of the lengths `n1` and `n2`, neither of which is 0, and
    /// the two index maps are those of these lengths.
    pub open spec fn wf(&self) -> bool
        decreases self,
    {
        &&& self.n1 > 0
        &&& self.n2 > 0
        &&& self.n1 * self.n2 <= usize::MAX
        &&& self.n1_fft.wf()
        &&& self.n1_fft.spec_len() == self.n1
        &&& self.n2_fft.wf()
        &&& self.n2_fft.spec_len() == self.n2
        &&& self.input_map@ == input_map_spec(self.n1, self.n2)
        &&& self.output_map@ == output_map_spec(self.n1, self.n2)
    }

    /// The input in the order of the input map, as `n2` rows of `n1` elements; the transforms
    /// of the rows; the transpose; the transforms of its rows; and the result in the order of
    /// the output map.
    pub open spec fn transform(&self, x: Seq<Complex<T>>) -> Seq<Complex<T>>
        decreases self, 0nat,
    {
        let grid = gathered(x, self.input_map@);
        let first = self.n1_fft.transform_lanes(grid);
        let columns = transposed(self.n1 as nat, self.n2 as nat, first);
        let second = self.n2_fft.transform_lanes(columns);
        gathered(second, self.output_map@)
    }

    /// Combines a transform of length `n1` and one of length `n2`, which are of the same
    /// direction.
    pub fn new(
        n1: usize,
        n1_fft: Box<FFTAlgorithm<T>>,
        n2: usize,
        n2_fft: Box<FFTAlgorithm<T>>,
    ) -> (r: Self)
        requires
            n1 > 0,
            n2 > 0,
            n1 * n2 <= usize::MAX,
            n1_fft.wf(),
            n1_fft.spec_len() == n1,
            n2_fft.wf(),
            n2_fft.spec_len() == n2,
        ensures
            r.wf(),
            r.n1 == n1,
            r.n2 == n2,
            r.n1_fft == n1_fft,
            r.n2_fft == n2_fft,
    {
        let len = n1 * n2;
        let mut input_map: Vec<usize> = Vec::with_capacity(len);
        let mut output_map: Vec<usize> = Vec::with_capacity(len);
        let mut i: usize = 0;
        while i < len
            invariant
                n1 > 0,
                n2 > 0,
                len == n1 * n2,
                i <= len,
                input_map@.len() == i,
                output_map@.len() == i,
                forall|j: int| 0 <= j < i ==> input_map@[j] == input_map_spec(n1, n2)[j],
                forall|j: int| 0 <= j < i ==> output_map@[j] == output_map_spec(n1, n2)[j],
            decreases len - i,
        {
            let a = i % n1;
            let b = i / n1;
            proof {
                // a * n2 and b * n1 are both below the length
                lemma_fundamental_div_mod(i as int, n1 as int);
                assert(b < n2) by (nonlinear_arith)
                    requires
                        i == n1 * b + a,
                        0 <= a,
                        i < n1 * n2,
                        n1 > 0,
                ;
                assert(a * n2 + n2 <= n1 * n2 && b * n1 + n1 <= n1 * n2 && 0 <= a * n2 && 0 <= b
                    * n1) by (nonlinear_arith)
                    requires
                        0 <= a < n1,
                        0 <= b < n2,
                ;
                assert((i % n1) * n2 + n2 <= n1 * n2 && 0 <= (i % n1) * n2) by (nonlinear_arith)
                    requires
                        0 <= i % n1 < n1,
                        n2 > 0,
                ;
            }
            let from_row = a * n2;
            let from_column = b * n1;
            let source = if from_row >= len - from_column {
                from_row - (len - from_column)
            } else {
                from_row + from_column
            };
            proof {
                if from_row >= len - from_column {
                    lemma_fundamental_div_mod_converse(
                        from_row + from_column,
                        len as int,
                        1,
                        source as int,
                    );
                } else {
                    lemma_small_mod((from_row + from_column) as nat, len as nat);
                }
            }
            input_map.push(source);
            output_map.push((i % n1) * n2 + i % n2);
            i += 1;
        }
        assert(input_map@ =~= input_map_spec(n1, n2));
        assert(output_map@ =~= output_map_spec(n1, n2));
        GoodThomasAlgorithm { n1, n1_fft, n2, n2_fft, input_map, output_map }
    }

    /// Writes the transform of `input` to `output`.
    pub fn process(&self, input: &[Complex<T>], output: &mut [Complex<T>])
        requires
            self.wf(),
            input@.len() == self.spec_len(),
            old(output)@.len() == self.spec_len(),
        ensures
            final(output)@ == self.transform(input@),
            final(output)@.len() == self.spec_len(),
        decreases self, 0nat,
    {
        proof {
            lemma_mul_is_commutative(self.n1 as int, self.n2 as int);
            lemma_mod_multiples_basic(self.n1 as int, self.n2 as int);
            lemma_mod_multiples_basic(self.n2 as int, self.n1 as int);
            assert forall|i: int| 0 <= i < self.input_map@.len() implies (
            #[trigger] self.input_map@[i]) < input@.len() by {
                lemma_mod_bound(
                    (i % (self.n1 as int)) * self.n2 + (i / (self.n1 as int)) * self.n1,
                    self.n1 * self.n2,
                );
            }
            assert forall|k: int| 0 <= k < self.output_map@.len() implies (
            #[trigger] self.output_map@[k]) < input@.len() by {
                lemma_mod_bound(k, self.n1 as int);
                lemma_mod_bound(k, self.n2 as int);
                assert((k % (self.n1 as int)) * self.n2 + k % (self.n2 as int) < self.n1
                    * self.n2 && 0 <= (k % (self.n1 as int)) * self.n2) by (nonlinear_arith)
                    requires
                        0 <= k % (self.n1 as int) < self.n1,
                        0 <= k % (self.n2 as int) < self.n2,
                ;
            }
        }
        let mut scratch = to_vec(input);
        let mut grid = to_vec(input);

        gather(input, self.input_map.as_slice(), grid.as_mut_slice());

        self.n1_fft.process_multi(grid.as_slice(), scratch.as_mut_slice());

        transpose(self.n1, self.n2, scratch.as_slice(), grid.as_mut_slice());

        self.n2_fft.process_multi(grid.as_slice(), scratch.as_mut_slice());

        gather(scratch.as_slice(), self.output_map.as_slice(), output);
    }

    pub fn len(&self) -> (n: usize)
        ensures
            n == self.spec_len(),
    {
        self.input_map.len()
    }
}

/// Every place of the map is below its length, and no two places hold the same.
pub open spec fn is_permutation(map: Seq<usize>) -> bool {
    &&& forall|i: int| 0 <= i < map.len() ==> (#[trigger] map[i]) < map.len()
    &&& forall|i: int, j: int|
        0 <= i < map.len() && 0 <= j < map.len() && #[trigger] map[i] == #[trigger] map[j] ==> i
            == j
}

/// Two grid places with the same source are the same place.
proof fn lemma_input_map_injective(n1: usize, n2: usize, i: int, j: int)
    requires
        n1 > 0,
        n2 > 0,
        n1 * n2 <= usize::MAX,
        gcd(n1 as nat, n2 as nat) == 1,
        0 <= i < n1 * n2,
        0 <= j < n1 * n2,
        input_map_spec(n1, n2)[i] == input_map_spec(n1, n2)[j],
    ensures
        i == j,
{
    let len = (n1 * n2) as int;
    let a = i % (n1 as int);
    let b = i / (n1 as int);
    let c = j % (n1 as int);
    let d = j / (n1 as int);
    lemma_fundamental_div_mod(i, n1 as int);
    lemma_fundamental_div_mod(j, n1 as int);
    lemma_mod_bound(i, n1 as int);
    lemma_mod_bound(j, n1 as int);
    assert(0 <= b < n2 && 0 <= d < n2) by (nonlinear_arith)
        requires
            i == n1 * b + a,
            j == n1 * d + c,
            0 <= a < n1,
            0 <= c < n1,
            0 <= i < n1 * n2,
            0 <= j < n1 * n2,
    ;
    let s = a * n2 + b * n1;
    let t = c * n2 + d * n1;
    lemma_mod_bound(s, len);
    lemma_mod_bound(t, len);
    assert(s % len == t % len);
    lemma_mod_equivalence(s, t, len);
    let q = (s - t) / len;
    lemma_fundamental_div_mod(s - t, len);
    // the difference is a multiple of both lengths
    assert(n2 * (a - c) == n1 * (n2 * q - (b - d)) && n1 * (b - d) == n2 * (n1 * q - (a - c)))
        by (nonlinear_arith)
        requires
            s == a * n2 + b * n1,
            t == c * n2 + d * n1,
            s - t == len * q,
            len == n1 * n2,
    ;
    lemma_mul_is_commutative(n1 as int, n2 * q - (b - d));
    lemma_mod_multiples_basic(n2 * q - (b - d), n1 as int);
    lemma_coprime_divides(n1 as nat, n2 as nat, a - c);
    lemma_mul_is_commutative(n2 as int, n1 * q - (a - c));
    lemma_mod_multiples_basic(n1 * q - (a - c), n2 as int);
    lemma_gcd_symmetric(n1 as nat, n2 as nat);
    lemma_coprime_divides(n2 as nat, n1 as nat, b - d);
    lemma_mod_equivalence(a, c, n1 as int);
    lemma_mod_equivalence(b, d, n2 as int);
    lemma_small_mod(a as nat, n1 as nat);
    lemma_small_mod(c as nat, n1 as nat);
    lemma_small_mod(b as nat, n2 as nat);
    lemma_small_mod(d as nat, n2 as nat);
}

/// Two outputs that come from the same grid place are the same output.
proof fn lemma_output_map_injective(n1: usize, n2: usize, k: int, l: int)
    requires
        n1 > 0,
        n2 > 0,
        n1 * n2 <= usize::MAX,
        gcd(n1 as nat, n2 as nat) == 1,
        0 <= k < n1 * n2,
        0 <= l < n1 * n2,
        output_map_spec(n1, n2)[k] == output_map_spec(n1, n2)[l],
    ensures
        k == l,
{
    lemma_output_place(n1, n2, k);
    lemma_output_place(n1, n2, l);
    let place = (k % (n1 as int)) * n2 + k % (n2 as int);
    lemma_mod_bound(k, n2 as int);
    lemma_mod_bound(l, n2 as int);
    lemma_fundamental_div_mod_converse(place, n2 as int, k % (n1 as int), k % (n2 as int));
    lemma_fundamental_div_mod_converse(place, n2 as int, l % (n1 as int), l % (n2 as int));
    if l <= k {
        lemma_chinese_remainders(n1 as nat, n2 as nat, k, l);
    } else {
        lemma_chinese_remainders(n1 as nat, n2 as nat, l, k);
    }
}

/// The grid place that an output comes from lies in the grid.
proof fn lemma_output_place(n1: usize, n2: usize, k: int)
    requires
        n1 > 0,
        n2 > 0,
        n1 * n2 <= usize::MAX,
        0 <= k < n1 * n2,
    ensures
        0 <= (k % (n1 as int)) * n2 + k % (n2 as int) < n1 * n2,
        output_map_spec(n1, n2)[k] == (k % (n1 as int)) * n2 + k % (n2 as int),
{
    lemma_mod_bound(k, n1 as int);
    lemma_mod_bound(k, n2 as int);
    assert(0 <= (k % (n1 as int)) * n2 + k % (n2 as int) < n1 * n2) by (nonlinear_arith)
        requires
            0 <= k % (n1 as int) < n1,
            0 <= k % (n2 as int) < n2,
    ;
}

/// For coprime lengths both index maps are one to one: every input goes to one place of the
/// grid, and every output comes from one place of the transformed grid.
pub proof fn lemma_index_maps_are_permutations(n1: usize, n2: usize)
    requires
        n1 > 0,
        n2 > 0,
        n1 * n2 <= usize::MAX,
        gcd(n1 as nat, n2 as nat) == 1,
    ensures
        is_permutation(input_map_spec(n1, n2)),
        is_permutation(output_map_spec(n1, n2)),
{
    let input_map = input_map_spec(n1, n2);
    let output_map = output_map_spec(n1, n2);
    assert forall|i: int| 0 <= i < input_map.len() implies (#[trigger] input_map[i])
        < input_map.len() by {
        lemma_mod_bound((i % (n1 as int)) * n2 + (i / (n1 as int)) * n1, n1 * n2);
    }
    assert forall|i: int, j: int|
        0 <= i < input_map.len() && 0 <= j < input_map.len() && #[trigger] input_map[i]
            == #[trigger] input_map[j] implies i == j by {
        lemma_input_map_injective(n1, n2, i, j);
    }
    assert forall|k: int| 0 <= k < output_map.len() implies (#[trigger] output_map[k])
        < output_map.len() by {
        lemma_output_place(n1, n2, k);
    }
    assert forall|k: int, l: int|
        0 <= k < output_map.len() && 0 <= l < output_map.len() && #[trigger] output_map[k]
            == #[trigger] output_map[l] implies k == l by {
        lemma_output_map_injective(n1, n2, k, l);
    }
}

} // verus!
