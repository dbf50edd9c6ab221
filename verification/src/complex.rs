use crate::common::FFTnum;
use vstd::prelude::*;

verus! {

/// A complex sample in Cartesian form.
#[derive(Copy, Debug, PartialEq)]
pub struct Complex<T> {
    pub re: T,
    pub im: T,
}

impl<T: Copy> Clone for Complex<T> {
    fn clone(&self) -> (r: Self)
        ensures
            r == *self,
    {
        *self
    }
}

impl<T: FFTnum> Complex<T> {
    pub open spec fn zero_spec() -> Self {
        Complex { re: T::zero_spec(), im: T::zero_spec() }
    }

    /// `(a + bi) + (c + di) = (a + c) + (b + d)i`
    pub open spec fn add_spec(self, rhs: Self) -> Self {
        Complex { re: self.re.add_spec(rhs.re), im: self.im.add_spec(rhs.im) }
    }

    /// `(a + bi) - (c + di) = (a - c) + (b - d)i`
    pub open spec fn sub_spec(self, rhs: Self) -> Self {
        Complex { re: self.re.sub_spec(rhs.re), im: self.im.sub_spec(rhs.im) }
    }

    /// `(a + bi) * (c + di) = (ac - bd) + (ad + bc)i`
    pub open spec fn mul_spec(self, rhs: Self) -> Self {
        Complex {
            re: self.re.mul_spec(rhs.re).sub_spec(self.im.mul_spec(rhs.im)),
            im: self.re.mul_spec(rhs.im).add_spec(self.im.mul_spec(rhs.re)),
        }
    }

    /// `(a + bi) * t = at + bti` for a real `t`.
    pub open spec fn scale_spec(self, t: T) -> Self {
        Complex { re: self.re.mul_spec(t), im: self.im.mul_spec(t) }
    }

    /// `a - bi`
    pub open spec fn conj_spec(self) -> Self {
        Complex { re: self.re, im: self.im.neg_spec() }
    }

    /// The product with `i` if `inverse`, with `-i` otherwise, written without a
    /// multiplication: `(-b) + ai` and `b + (-a)i`.
    pub open spec fn rotate_spec(self, inverse: bool) -> Self {
        if inverse {
            Complex { re: self.im.neg_spec(), im: self.re }
        } else {
            Complex { re: self.im, im: self.re.neg_spec() }
        }
    }

    pub fn new(re: T, im: T) -> (r: Self)
        ensures
            r == (Complex { re, im }),
    {
        Complex { re, im }
    }

    pub fn zero() -> (r: Self)
        ensures
            r == Self::zero_spec(),
    {
        Complex { re: T::zero(), im: T::zero() }
    }

    pub fn plus(self, rhs: Self) -> (r: Self)
        ensures
            r == self.add_spec(rhs),
    {
        Complex { re: self.re.plus(rhs.re), im: self.im.plus(rhs.im) }
    }

    pub fn minus(self, rhs: Self) -> (r: Self)
        ensures
            r == self.sub_spec(rhs),
    {
        Complex { re: self.re.minus(rhs.re), im: self.im.minus(rhs.im) }
    }

    pub fn times(self, rhs: Self) -> (r: Self)
        ensures
            r == self.mul_spec(rhs),
    {
        let re = self.re.times(rhs.re).minus(self.im.times(rhs.im));
        let im = self.re.times(rhs.im).plus(self.im.times(rhs.re));
        Complex { re, im }
    }

    pub fn scale(self, t: T) -> (r: Self)
        ensures
            r == self.scale_spec(t),
    {
        Complex { re: self.re.times(t), im: self.im.times(t) }
    }

    pub fn conj(self) -> (r: Self)
        ensures
            r == self.conj_spec(),
    {
        Complex { re: self.re, im: self.im.negate() }
    }

    pub fn rotate(self, inverse: bool) -> (r: Self)
        ensures
            r == self.rotate_spec(inverse),
    {
        if inverse {
            Complex { re: self.im.negate(), im: self.re }
        } else {
            Complex { re: self.im, im: self.re.negate() }
        }
    }
}

/// The elementwise product of two sequences, as long as the first.
pub open spec fn pointwise_mul<T: FFTnum>(a: Seq<Complex<T>>, b: Seq<Complex<T>>) -> Seq<
    Complex<T>,
> {
    Seq::new(a.len(), |k: int| a[k].mul_spec(b[k]))
}

} // verus!
