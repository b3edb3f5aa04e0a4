//! A complex number over any component type, with the arithmetic operators
//! defined component by component.

use std::ops::{Add, AddAssign, Mul, Neg, Sub};
use vstd::prelude::*;
use vstd::std_specs::cmp::{PartialEqSpec, PartialEqSpecImpl};
use vstd::std_specs::ops::{
    AddSpec, AddSpecImpl, MulSpec, MulSpecImpl, NegSpec, NegSpecImpl, SubSpec,
};

verus! {

/// A complex number: a real and an imaginary part.
#[derive(Clone, Copy, Debug)]
pub struct Complex<T> {
    /// Real portion of the complex number.
    pub re: T,
    /// Imaginary portion of the complex number.
    pub im: T,
}

impl<T: Add<Output = T>> AddSpecImpl for Complex<T> {
    open spec fn obeys_add_spec() -> bool {
        T::obeys_add_spec()
    }

    open spec fn add_req(self, rhs: Complex<T>) -> bool {
        self.re.add_req(rhs.re) && self.im.add_req(rhs.im)
    }

    open spec fn add_spec(self, rhs: Complex<T>) -> Complex<T> {
        Complex { re: self.re.add_spec(rhs.re), im: self.im.add_spec(rhs.im) }
    }
}

impl<T: Add<Output = T>> Add for Complex<T> {
    type Output = Complex<T>;

    /// The sum, part by part.
    fn add(self, rhs: Complex<T>) -> (sum: Complex<T>)
        ensures
            T::obeys_add_spec() ==> sum.re == self.re.add_spec(rhs.re),
            T::obeys_add_spec() ==> sum.im == self.im.add_spec(rhs.im),
    {
        Complex { re: self.re + rhs.re, im: self.im + rhs.im }
    }
}

impl<T> MulSpecImpl for Complex<T> where
    T: Add<Output = T> + Sub<Output = T> + Mul<Output = T> + Copy,
{
    open spec fn obeys_mul_spec() -> bool {
        T::obeys_mul_spec() && T::obeys_sub_spec() && T::obeys_add_spec()
    }

    /// The four products and the two combinations of them must all be
    /// defined, which for the integers means that none overflows.
    open spec fn mul_req(self, rhs: Complex<T>) -> bool {
        &&& T::obeys_mul_spec()
        &&& self.re.mul_req(rhs.re)
        &&& self.im.mul_req(rhs.im)
        &&& self.re.mul_req(rhs.im)
        &&& self.im.mul_req(rhs.re)
        &&& self.re.mul_spec(rhs.re).sub_req(self.im.mul_spec(rhs.im))
        &&& self.re.mul_spec(rhs.im).add_req(self.im.mul_spec(rhs.re))
    }

    open spec fn mul_spec(self, rhs: Complex<T>) -> Complex<T> {
        Complex {
            re: self.re.mul_spec(rhs.re).sub_spec(self.im.mul_spec(rhs.im)),
            im: self.re.mul_spec(rhs.im).add_spec(self.im.mul_spec(rhs.re)),
        }
    }
}

impl<T> Mul for Complex<T> where
    T: Add<Output = T> + Sub<Output = T> + Mul<Output = T> + Copy,
{
    type Output = Complex<T>;

    /// The product: `(a + bi)(c + di) = (ac - bd) + (ad + bc)i`.
    fn mul(self, rhs: Complex<T>) -> (product: Complex<T>)
        ensures
            T::obeys_sub_spec() ==> product.re == self.re.mul_spec(rhs.re).sub_spec(
                self.im.mul_spec(rhs.im),
            ),
            T::obeys_add_spec() ==> product.im == self.re.mul_spec(rhs.im).add_spec(
                self.im.mul_spec(rhs.re),
            ),
    {
        Complex {
            re: self.re * rhs.re - self.im * rhs.im,
            im: self.re * rhs.im + self.im * rhs.re,
        }
    }
}

impl<T, O> NegSpecImpl for Complex<T> where T: Neg<Output = O> {
    open spec fn obeys_neg_spec() -> bool {
        T::obeys_neg_spec()
    }

    open spec fn neg_req(self) -> bool {
        self.re.neg_req() && self.im.neg_req()
    }

    open spec fn neg_spec(self) -> Complex<O> {
        Complex { re: self.re.neg_spec(), im: self.im.neg_spec() }
    }
}

impl<T, O> Neg for Complex<T> where T: Neg<Output = O> {
    type Output = Complex<O>;

    /// The negation, part by part.
    fn neg(self) -> (negated: Complex<O>)
        ensures
            T::obeys_neg_spec() ==> negated.re == self.re.neg_spec(),
            T::obeys_neg_spec() ==> negated.im == self.im.neg_spec(),
    {
        Complex { re: self.re.neg(), im: self.im.neg() }
    }
}

impl<T: PartialEq> PartialEqSpecImpl for Complex<T> {
    open spec fn obeys_eq_spec() -> bool {
        T::obeys_eq_spec()
    }

    open spec fn eq_spec(&self, other: &Complex<T>) -> bool {
        self.re.eq_spec(&other.re) && self.im.eq_spec(&other.im)
    }
}

impl<T: PartialEq> PartialEq for Complex<T> {
    /// Two complex numbers are equal where both parts are.
    fn eq(&self, other: &Complex<T>) -> (equal: bool) {
        self.re == other.re && self.im == other.im
    }
}

impl<T: Eq> Eq for Complex<T> {

}

impl<T: Add<Output = T> + Copy> AddAssign for Complex<T> {
    /// Adds `rhs` to this number, part by part.
    fn add_assign(&mut self, rhs: Complex<T>)
        requires
            old(self).re.add_req(rhs.re),
            old(self).im.add_req(rhs.im),
        ensures
            T::obeys_add_spec() ==> final(self).re == old(self).re.add_spec(rhs.re),
            T::obeys_add_spec() ==> final(self).im == old(self).im.add_spec(rhs.im),
    {
        self.re = self.re + rhs.re;
        self.im = self.im + rhs.im;
    }
}

} // verus!
