use crate::common::FFTnum;
use crate::complex::Complex;
use vstd::prelude::*;

verus! {

/// The root of unity `exp(sign * 2 * pi * i * index / len)`; `sign` is `+1` for the inverse
/// direction and `-1` for the forward one.
pub open spec fn twiddle_spec<T: FFTnum>(index: usize, len: usize, inverse: bool) -> Complex<T> {
    Complex {
        re: T::root_of_unity_spec(index, len, inverse).0,
        im: T::root_of_unity_spec(index, len, inverse).1,
    }
}

/// The table of all `len` roots of unity of order `len`, by exponent.
pub open spec fn twiddle_table_spec<T: FFTnum>(len: usize, inverse: bool) -> Seq<Complex<T>> {
    Seq::new(len as nat, |k: int| twiddle_spec::<T>(k as usize, len, inverse))
}

/// The root of unity of the order `len` and the exponent `index` for the direction `inverse`.
pub fn single_twiddle<T: FFTnum>(index: usize, len: usize, inverse: bool) -> (w: Complex<T>)
    ensures
        w == twiddle_spec::<T>(index, len, inverse),
{
    let (re, im) = T::root_of_unity(index, len, inverse);
    Complex { re, im }
}

/// The table of the `len` roots of unity of the order `len`; it is empty for the length 0.
pub fn generate_twiddle_factors<T: FFTnum>(len: usize, inverse: bool) -> (table: Vec<Complex<T>>)
    ensures
        table@ == twiddle_table_spec::<T>(len, inverse),
{
    let mut table: Vec<Complex<T>> = Vec::with_capacity(len);
    let mut k: usize = 0;
    while k < len
        invariant
            k <= len,
            table@.len() == k,
            forall|j: int| 0 <= j < k ==> table@[j] == twiddle_spec::<T>(j as usize, len, inverse),
        decreases len - k,
    {
        table.push(single_twiddle(k, len, inverse));
        k += 1;
    }
    assert(table@ =~= twiddle_table_spec::<T>(len, inverse));
    table
}

} // verus!
