use vstd::prelude::*;

verus! {

/// The arithmetic that a transform needs from the real numbers its samples are made of.
///
/// Every operation is described by a specification function of the same arguments, so an
/// implementation has to be deterministic: equal arguments give equal results. Nothing else is
/// asked of it. In particular no algebraic law (associativity, distributivity, exactness) is
/// assumed, so that rounding arithmetic qualifies. The contracts of this crate are stated over
/// these specification functions and hold of an implementation as far as it keeps this promise.
///
/// Nothing in this crate implements the trait. An implementation in code that is not verified
/// has to define the specification functions too, as functions that are never called.
pub trait FFTnum: Copy {
    /// The additive identity.
    spec fn zero_spec() -> Self;

    /// `self + rhs`.
    spec fn add_spec(self, rhs: Self) -> Self;

    /// `self - rhs`.
    spec fn sub_spec(self, rhs: Self) -> Self;

    /// `self * rhs`.
    spec fn mul_spec(self, rhs: Self) -> Self;

    /// `-self`.
    spec fn neg_spec(self) -> Self;

    /// `1 / denominator`.
    spec fn unit_fraction_spec(denominator: usize) -> Self;

    /// Real and imaginary part of the root of unity `exp(sign * 2 * pi * i * index / len)`,
    /// where `sign` is `+1` if `inverse` and `-1` otherwise.
    spec fn root_of_unity_spec(index: usize, len: usize, inverse: bool) -> (Self, Self);

    fn zero() -> (r: Self)
        ensures
            r == Self::zero_spec(),
    ;

    fn plus(self, rhs: Self) -> (r: Self)
        ensures
            r == self.add_spec(rhs),
    ;

    fn minus(self, rhs: Self) -> (r: Self)
        ensures
            r == self.sub_spec(rhs),
    ;

    fn times(self, rhs: Self) -> (r: Self)
        ensures
            r == self.mul_spec(rhs),
    ;

    fn negate(self) -> (r: Self)
        ensures
            r == self.neg_spec(),
    ;

    fn unit_fraction(denominator: usize) -> (r: Self)
        ensures
            r == Self::unit_fraction_spec(denominator),
    ;

    fn root_of_unity(index: usize, len: usize, inverse: bool) -> (r: (Self, Self))
        ensures
            r == Self::root_of_unity_spec(index, len, inverse),
    ;
}

/// Whether a length is a positive multiple of `lane`.
pub open spec fn is_whole_lanes(total: nat, lane: nat) -> bool {
    lane > 0 && total > 0 && total % lane == 0
}

/// Whether both buffers have the length `expected`, as `process` asks.
pub fn verify_length<T>(input: &[T], output: &[T], expected: usize) -> (ok: bool)
    ensures
        ok == (input@.len() == expected && output@.len() == expected),
{
    input.len() == expected && output.len() == expected
}

/// Whether both buffers have the same length and that length is a positive multiple of
/// `expected`, as `process_multi` asks.
pub fn verify_length_divisible<T>(input: &[T], output: &[T], expected: usize) -> (ok: bool)
    ensures
        ok == (input@.len() == output@.len() && is_whole_lanes(input@.len(), expected as nat)),
{
    expected > 0 && input.len() == output.len() && input.len() > 0 && input.len() % expected == 0
}

} // verus!
