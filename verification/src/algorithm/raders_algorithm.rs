use crate::algorithm::FFTAlgorithm;
use crate::array_utils::{copy_into, to_vec};
use crate::common::FFTnum;
use crate::complex::Complex;
use crate::math_utils::{
    is_primitive_root, lemma_pow_mod_next, lemma_root_search, modular_exponent, mul_mod, pow_mod,
    primitive_root, primitive_root_spec,
};
use crate::number_theory::{
    lemma_powers_of_inverse_root, lemma_powers_of_inverse_root_differ,
    lemma_powers_of_root_are_units, lemma_powers_of_root_differ,
};
use vstd::arithmetic::div_mod::lemma_small_mod;
use vstd::arithmetic::mul::lemma_mul_basics;
use crate::twiddles::{single_twiddle, twiddle_spec};
use vstd::prelude::*;

verus! {

/// The powers `g`, `g^2`, ..., `g^(p - 1)` modulo `p`, in this order.
pub open spec fn powers_order(g: nat, p: nat) -> Seq<int> {
    Seq::new((p - 1) as nat, |k: int| pow_mod(g, (k + 1) as nat, p) as int)
}

/// The list holds each of the places 1 to `p - 1` once.
pub open spec fn is_order_of_places(order: Seq<int>, p: nat) -> bool {
    &&& order.len() == p - 1
    &&& forall|k: int| 0 <= k < order.len() ==> 1 <= #[trigger] order[k] < p
    &&& forall|k: int, l: int|
        0 <= k < l < order.len() ==> #[trigger] order[k] != #[trigger] order[l]
}

/// The input of the convolution: the elements of `x` at the places that the powers of a root
/// `g` modulo `p` give.
pub open spec fn gathered_by_powers<A>(x: Seq<A>, g: nat, p: nat) -> Seq<A> {
    Seq::new((p - 1) as nat, |k: int| x[powers_order(g, p)[k]])
}

/// `base` after the conjugates of the first `count` elements of `c` were written, one after
/// the other, to the places that the powers of `g` modulo `p` give.
pub open spec fn scattered_by_powers<T: FFTnum>(
    base: Seq<Complex<T>>,
    c: Seq<Complex<T>>,
    g: nat,
    p: nat,
    count: nat,
) -> Seq<Complex<T>>
    decreases count,
{
    if count == 0 {
        base
    } else {
        scattered_by_powers(base, c, g, p, (count - 1) as nat).update(
            powers_order(g, p)[count - 1],
            c[count - 1].conj_spec(),
        )
    }
}

/// Scattering keeps the length.
pub proof fn lemma_scattered_len<T: FFTnum>(
    base: Seq<Complex<T>>,
    c: Seq<Complex<T>>,
    g: nat,
    p: nat,
    count: nat,
)
    requires
        p > 0,
        base.len() == p,
        count <= p - 1,
    ensures
        scattered_by_powers(base, c, g, p, count).len() == base.len(),
    decreases count,
{
    if count > 0 {
        lemma_scattered_len(base, c, g, p, (count - 1) as nat);
        lemma_pow_mod_next(g, count, p);
        assert(powers_order(g, p)[count - 1] == pow_mod(g, count, p));
    }
}

/// The convolution kernel before it is transformed: the twiddles of the exponents `1`, `g`,
/// `g^2`, ... modulo `p`, each scaled by `1 / (p - 1)`.
pub open spec fn raders_kernel_spec<T: FFTnum>(g: nat, p: usize, inverse: bool) -> Seq<Complex<T>> {
    Seq::new(
        (p - 1) as nat,
        |k: int|
            twiddle_spec::<T>(pow_mod(g, k as nat, p as nat) as usize, p, inverse).scale_spec(
                T::unit_fraction_spec((p - 1) as usize),
            ),
    )
}

/// The products of `a` and `data`, conjugated, with the conjugate of `first` added to the
/// first of them.
pub open spec fn raders_products<T: FFTnum>(
    a: Seq<Complex<T>>,
    data: Seq<Complex<T>>,
    first: Complex<T>,
) -> Seq<Complex<T>> {
    Seq::new(
        a.len(),
        |k: int|
            if k == 0 {
                a[k].mul_spec(data[k]).conj_spec().add_spec(first.conj_spec())
            } else {
                a[k].mul_spec(data[k]).conj_spec()
            },
    )
}

/// The transform of a prime length `len` by Rader's scheme: the elements but the first, in
/// the order of the powers of a primitive root, are convolved with a fixed kernel, and the
/// convolution is computed with two transforms of length `len - 1`.
pub struct RadersAlgorithm<T> {
    pub len: usize,
    pub primitive_root: usize,
    pub primitive_root_inverse: usize,
    pub inner_fft: Box<FFTAlgorithm<T>>,
    /// The transform of the kernel.
    pub inner_fft_data: Vec<Complex<T>>,
}

impl<T: FFTnum> RadersAlgorithm<T> {
    pub open spec fn spec_len(&self) -> nat {
        self.len as nat
    }

    /// The root is a primitive root modulo the length, which is at least 3, with its inverse,
    /// and the inner transform and the table are of the length less 1.
    pub open spec fn wf(&self) -> bool
        decreases self,
    {
        &&& self.len >= 3
        &&& is_primitive_root(self.primitive_root as nat, self.len as nat)
        &&& self.primitive_root_inverse == pow_mod(
            self.primitive_root as nat,
            (self.len - 2) as nat,
            self.len as nat,
        )
        &&& self.inner_fft.wf()
        &&& self.inner_fft.spec_len() == self.len - 1
        &&& self.inner_fft_data@.len() == self.len - 1
    }

    /// With `a` the inner transform of the elements gathered by the powers of the root and
    /// `c` the inner transform of the conjugated products of `a` and the table, to the first
    /// of which the conjugate of `x[0]` is added: `x[0] + a[0]` in the first place, and the
    /// conjugates of `c` scattered by the powers of the inverse root over the others.
    pub open spec fn transform(&self, x: Seq<Complex<T>>) -> Seq<Complex<T>>
        decreases self, 0nat,
    {
        let p = self.len as nat;
        let a = self.inner_fft.transform(gathered_by_powers(x, self.primitive_root as nat, p));
        let c = self.inner_fft.transform(raders_products(a, self.inner_fft_data@, x[0]));
        scattered_by_powers(
            x.update(0, x[0].add_spec(a[0])),
            c,
            self.primitive_root_inverse as nat,
            p,
            (p - 1) as nat,
        )
    }

    /// The table that `new` computes for a root `g` with inverse `g_inverse`.
    pub open spec fn data_spec(
        inner_fft: FFTAlgorithm<T>,
        g_inverse: nat,
        len: usize,
        inverse: bool,
    ) -> Seq<Complex<T>> {
        inner_fft.transform(raders_kernel_spec::<T>(g_inverse, len, inverse))
    }

    /// Makes the transform of the length `len` and the direction `inverse` around a transform
    /// of the length `len - 1` and the same direction. The root is the least primitive root
    /// modulo `len` and its inverse is its power `len - 2`; where `len` has no primitive
    /// root from 2 on, as when it is no prime, the result is `None`.
    pub fn new(len: usize, inner_fft: Box<FFTAlgorithm<T>>, inverse: bool) -> (r: Option<Self>)
        requires
            len >= 2,
            inner_fft.wf(),
            inner_fft.spec_len() == len - 1,
        ensures
            r is Some <==> primitive_root_spec(len as nat) is Some,
            r matches Some(a) ==> {
                &&& a.wf()
                &&& a.len == len
                &&& a.inner_fft == inner_fft
                &&& Some(a.primitive_root) == primitive_root_spec(len as nat)
                &&& a.primitive_root_inverse == pow_mod(
                    a.primitive_root as nat,
                    (len - 2) as nat,
                    len as nat,
                )
                &&& a.inner_fft_data@ == Self::data_spec(
                    *inner_fft,
                    a.primitive_root_inverse as nat,
                    len,
                    inverse,
                )
            },
    {
        let root = match primitive_root(len) {
            Some(g) => g,
            None => {
                return None;
            },
        };
        proof {
            lemma_root_search(len as nat, 2);
        }
        let root_inverse = modular_exponent(root, len - 2, len);
        let inner_len = len - 1;
        let unity_scale = T::unit_fraction(inner_len);

        let mut kernel: Vec<Complex<T>> = Vec::with_capacity(inner_len);
        let mut twiddle_input: usize = 1;
        let mut k: usize = 0;
        proof {
            lemma_pow_mod_next(root_inverse as nat, 0, len as nat);
        }
        while k < inner_len
            invariant
                len >= 2,
                inner_len == len - 1,
                k <= inner_len,
                unity_scale == T::unit_fraction_spec(inner_len),
                twiddle_input == pow_mod(root_inverse as nat, k as nat, len as nat),
                kernel@.len() == k,
                forall|j: int|
                    0 <= j < k ==> kernel@[j] == raders_kernel_spec::<T>(
                        root_inverse as nat,
                        len,
                        inverse,
                    )[j],
            decreases inner_len - k,
        {
            proof {
                lemma_pow_mod_next(root_inverse as nat, k as nat, len as nat);
            }
            kernel.push(single_twiddle::<T>(twiddle_input, len, inverse).scale(unity_scale));
            twiddle_input = mul_mod(twiddle_input, root_inverse, len);
            k += 1;
        }
        assert(kernel@ =~= raders_kernel_spec::<T>(root_inverse as nat, len, inverse));

        let mut data = to_vec(kernel.as_slice());
        inner_fft.process(kernel.as_slice(), data.as_mut_slice());

        Some(
            RadersAlgorithm {
                len,
                primitive_root: root,
                primitive_root_inverse: root_inverse,
                inner_fft,
                inner_fft_data: data,
            },
        )
    }

    /// Writes the transform of `input` to `output`.
    pub fn process(&self, input: &[Complex<T>], output: &mut [Complex<T>])
        requires
            self.wf(),
            input@.len() == self.spec_len(),
            old(output)@.len() == self.spec_len(),
        ensures
            final(output)@ == self.transform(input@),
            final(output)@.len() == self.spec_len(),
        decreases self, 0nat,
    {
        let p = self.len;
        let inner_len = p - 1;
        let ghost g = self.primitive_root as nat;
        let ghost g_inverse = self.primitive_root_inverse as nat;

        // the input but its first element, in the order of the powers of the root
        let mut gathered: Vec<Complex<T>> = Vec::with_capacity(inner_len);
        let mut index: usize = 1;
        let mut k: usize = 0;
        proof {
            lemma_pow_mod_next(g, 0, p as nat);
        }
        while k < inner_len
            invariant
                p >= 2,
                p == self.len,
                inner_len == p - 1,
                input@.len() == p,
                g == self.primitive_root,
                k <= inner_len,
                index == pow_mod(g, k as nat, p as nat),
                gathered@.len() == k,
                forall|j: int|
                    0 <= j < k ==> gathered@[j] == gathered_by_powers(input@, g, p as nat)[j],
            decreases inner_len - k,
        {
            proof {
                lemma_pow_mod_next(g, k as nat, p as nat);
                lemma_pow_mod_next(g, (k + 1) as nat, p as nat);
            }
            index = mul_mod(index, self.primitive_root, p);
            gathered.push(input[index]);
            k += 1;
        }
        assert(gathered@ =~= gathered_by_powers(input@, g, p as nat));

        // the first inner transform
        let mut a = to_vec(gathered.as_slice());
        self.inner_fft.process(gathered.as_slice(), a.as_mut_slice());

        // the products with the table, conjugated for the inverse transform
        let first_input = input[0];
        let mut products = to_vec(a.as_slice());
        let mut k: usize = 0;
        while k < inner_len
            invariant
                inner_len == self.len - 1,
                a@.len() == inner_len,
                self.inner_fft_data@.len() == inner_len,
                products@.len() == inner_len,
                k <= inner_len,
                forall|j: int|
                    0 <= j < k ==> products@[j] == raders_products(
                        a@,
                        self.inner_fft_data@,
                        first_input,
                    )[j],
            decreases inner_len - k,
        {
            let product = a[k].times(self.inner_fft_data[k]).conj();
            if k == 0 {
                products[k] = product.plus(first_input.conj());
            } else {
                products[k] = product;
            }
            k += 1;
        }
        assert(products@ =~= raders_products(a@, self.inner_fft_data@, first_input));

        // the second inner transform
        let mut c = to_vec(products.as_slice());
        self.inner_fft.process(products.as_slice(), c.as_mut_slice());

        // the first element is the sum of all; the others come by the powers of the inverse
        copy_into(input, output);
        output[0] = first_input.plus(a[0]);
        let mut index: usize = 1;
        let mut k: usize = 0;
        proof {
            lemma_pow_mod_next(g_inverse, 0, p as nat);
        }
        let ghost base = output@;
        while k < inner_len
            invariant
                p >= 2,
                p == self.len,
                inner_len == p - 1,
                g_inverse == self.primitive_root_inverse,
                c@.len() == inner_len,
                output@.len() == p,
                k <= inner_len,
                index == pow_mod(g_inverse, k as nat, p as nat),
                output@ == scattered_by_powers(base, c@, g_inverse, p as nat, k as nat),
            decreases inner_len - k,
        {
            proof {
                lemma_pow_mod_next(g_inverse, k as nat, p as nat);
                lemma_pow_mod_next(g_inverse, (k + 1) as nat, p as nat);
            }
            index = mul_mod(index, self.primitive_root_inverse, p);
            output[index] = c[k].conj();
            k += 1;
        }
        assert(base =~= input@.update(0, input@[0].add_spec(a@[0])));
    }

    pub fn len(&self) -> (n: usize)
        ensures
            n == self.spec_len(),
    {
        self.len
    }
}

/// The powers of a primitive root `g` modulo `p` and those of its inverse `g^(p - 2)` each
/// give every place from 1 to `p - 1` once: every element of the input but the first is
/// gathered once, and every element of the output but the first is written once.
pub proof fn lemma_powers_give_every_place_once(g: nat, p: nat)
    requires
        is_primitive_root(g, p),
        p >= 3,
    ensures
        is_order_of_places(powers_order(g, p), p),
        is_order_of_places(powers_order(pow_mod(g, (p - 2) as nat, p), p), p),
{
    let inverse = pow_mod(g, (p - 2) as nat, p);
    let n = (p - 1) as nat;
    lemma_pow_mod_next(g, 0, p);
    lemma_pow_mod_next(inverse, 0, p);
    // the power p - 1 of the inverse is 1, as that of the root
    lemma_powers_of_inverse_root(g, p, n);
    lemma_pow_mod_next(inverse, n, p);
    lemma_mul_basics(pow_mod(inverse, n, p) as int);
    lemma_small_mod(pow_mod(inverse, n, p), p);
    assert(pow_mod(inverse, n, p) == 1);

    let order = powers_order(g, p);
    assert forall|k: int| 0 <= k < order.len() implies 1 <= #[trigger] order[k] < p by {
        lemma_powers_of_root_are_units(g, p, (k + 1) as nat);
        lemma_pow_mod_next(g, (k + 1) as nat, p);
    }
    assert forall|k: int, l: int| 0 <= k < l < order.len() implies #[trigger] order[k]
        != #[trigger] order[l] by {
        if l + 1 < n {
            lemma_powers_of_root_differ(g, p, (k + 1) as nat, (l + 1) as nat);
        } else {
            lemma_powers_of_root_differ(g, p, 0, (k + 1) as nat);
        }
    }

    let back = powers_order(inverse, p);
    assert forall|k: int| 0 <= k < back.len() implies 1 <= #[trigger] back[k] < p by {
        lemma_pow_mod_next(inverse, (k + 1) as nat, p);
        lemma_powers_of_inverse_root(g, p, (k + 1) as nat);
        if back[k] == 0 {
            lemma_mul_basics(pow_mod(g, (k + 1) as nat, p) as int);
            lemma_small_mod(0, p);
        }
    }
    assert forall|k: int, l: int| 0 <= k < l < back.len() implies #[trigger] back[k]
        != #[trigger] back[l] by {
        if l + 1 < n {
            lemma_powers_of_inverse_root_differ(g, p, (k + 1) as nat, (l + 1) as nat);
        } else {
            lemma_powers_of_inverse_root_differ(g, p, 0, (k + 1) as nat);
        }
    }
}

/// Where the places are each of 1 to `p - 1` once, every scattered element is found at its
/// place, and the first place is left as it was.
pub proof fn lemma_scattered_places<T: FFTnum>(
    base: Seq<Complex<T>>,
    c: Seq<Complex<T>>,
    g: nat,
    p: nat,
    count: nat,
)
    requires
        p > 0,
        base.len() == p,
        count <= p - 1,
        is_order_of_places(powers_order(g, p), p),
    ensures
        scattered_by_powers(base, c, g, p, count).len() == p,
        scattered_by_powers(base, c, g, p, count)[0] == base[0],
        forall|k: int|
            0 <= k < count ==> scattered_by_powers(base, c, g, p, count)[#[trigger] powers_order(
                g,
                p,
            )[k]] == c[k].conj_spec(),
    decreases count,
{
    if count > 0 {
        lemma_scattered_places(base, c, g, p, (count - 1) as nat);
        let order = powers_order(g, p);
        let before = scattered_by_powers(base, c, g, p, (count - 1) as nat);
        let after = scattered_by_powers(base, c, g, p, count);
        assert(1 <= order[count - 1] < p);
        assert forall|k: int| 0 <= k < count implies after[#[trigger] order[k]]
            == c[k].conj_spec() by {
            if k < count - 1 {
                assert(order[k] != order[count - 1]);
                assert(1 <= order[k] < p);
            }
        }
    }
}

/// What Rader's scheme gives: the first output is `x[0]` plus the first element of the first
/// inner transform, and the conjugates of the second inner transform are the other outputs,
/// each at its place in the order of the powers of the inverse root, which are all the
/// places but the first.
pub proof fn lemma_raders_output<T: FFTnum>(algorithm: RadersAlgorithm<T>, x: Seq<Complex<T>>)
    requires
        algorithm.wf(),
        x.len() == algorithm.len,
    ensures
        ({
            let p = algorithm.len as nat;
            let first = algorithm.inner_fft.transform(
                gathered_by_powers(x, algorithm.primitive_root as nat, p),
            );
            let second = algorithm.inner_fft.transform(
                raders_products(first, algorithm.inner_fft_data@, x[0]),
            );
            let places = powers_order(algorithm.primitive_root_inverse as nat, p);
            &&& is_order_of_places(powers_order(algorithm.primitive_root as nat, p), p)
            &&& is_order_of_places(places, p)
            &&& algorithm.transform(x).len() == p
            &&& algorithm.transform(x)[0] == x[0].add_spec(first[0])
            &&& forall|k: int|
                0 <= k < p - 1 ==> algorithm.transform(x)[#[trigger] places[k]]
                    == second[k].conj_spec()
        }),
{
    let p = algorithm.len as nat;
    let first = algorithm.inner_fft.transform(
        gathered_by_powers(x, algorithm.primitive_root as nat, p),
    );
    let second = algorithm.inner_fft.transform(
        raders_products(first, algorithm.inner_fft_data@, x[0]),
    );
    lemma_powers_give_every_place_once(algorithm.primitive_root as nat, p);
    lemma_scattered_places(
        x.update(0, x[0].add_spec(first[0])),
        second,
        algorithm.primitive_root_inverse as nat,
        p,
        (p - 1) as nat,
    );
}

} // verus!
