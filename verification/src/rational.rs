//! Exact rational numbers over `i128`, the element type of the gradient
//! tensors.
//!
//! The accumulator of the backward pass repeatedly adds `g / d` to a running
//! value, where `g` is a gradient element and `d` a positive integer divisor.
//! Fractions are kept unreduced; every operation checks for `i128` overflow
//! and reports it through `Option`, and the specification mirrors those
//! checks exactly.

use vstd::prelude::*;

verus! {

/// Does a mathematical integer fit into `i128`?
pub open spec fn fits_i128(x: int) -> bool {
    i128::MIN <= x <= i128::MAX
}

/// Mathematical value of one accumulation step: `acc + g / d`, on unreduced
/// fraction pairs (numerator, denominator).
pub open spec fn frac_add_div(acc: (int, int), g: (int, int), d: int) -> (int, int) {
    (acc.0 * (g.1 * d) + g.0 * acc.1, acc.1 * (g.1 * d))
}

/// Every intermediate of one accumulation step stays within `i128`.
pub open spec fn frac_step_fits(acc: (int, int), g: (int, int), d: int) -> bool {
    &&& fits_i128(g.1 * d)
    &&& fits_i128(acc.1 * (g.1 * d))
    &&& fits_i128(acc.0 * (g.1 * d))
    &&& fits_i128(g.0 * acc.1)
    &&& fits_i128(acc.0 * (g.1 * d) + g.0 * acc.1)
}

/// Two fraction pairs with positive denominators denote the same rational.
pub open spec fn frac_eqv(a: (int, int), b: (int, int)) -> bool {
    a.0 * b.1 == b.0 * a.1
}

/// An exact rational number `num / den` with `den >= 1`, kept unreduced.
#[derive(Clone, Copy, Debug, PartialEq, Eq, Structural)]
pub struct Rat {
    pub num: i128,
    pub den: i128,
}

impl Rat {
    /// A well-formed rational has a positive denominator.
    pub open spec fn wf(self) -> bool {
        self.den >= 1
    }

    /// The fraction pair this value denotes.
    pub open spec fn as_frac(self) -> (int, int) {
        (self.num as int, self.den as int)
    }

    /// The additive identity, `0 / 1`.
    pub fn zero() -> (r: Rat)
        ensures
            r.wf(),
            r.as_frac() == (0int, 1int),
    {
        Rat { num: 0, den: 1 }
    }

    /// Builds `num / den`.
    pub fn new(num: i128, den: i128) -> (r: Rat)
        requires
            den >= 1,
        ensures
            r.wf(),
            r.as_frac() == (num as int, den as int),
    {
        Rat { num, den }
    }

    /// One accumulation step, `self + g / d`; `None` exactly when an
    /// intermediate product or sum leaves `i128`.
    pub fn add_scaled_div(self, g: Rat, d: i128) -> (r: Option<Rat>)
        requires
            self.wf(),
            g.wf(),
            d >= 1,
        ensures
            r is Some <==> frac_step_fits(self.as_frac(), g.as_frac(), d as int),
            r is Some ==> r.unwrap().wf() && r.unwrap().as_frac() == frac_add_div(
                self.as_frac(),
                g.as_frac(),
                d as int,
            ),
    {
        let t: i128 = match g.den.checked_mul(d) {
            Some(v) => v,
            None => {
                return None;
            },
        };
        let new_den: i128 = match self.den.checked_mul(t) {
            Some(v) => v,
            None => {
                return None;
            },
        };
        let a: i128 = match self.num.checked_mul(t) {
            Some(v) => v,
            None => {
                return None;
            },
        };
        let b: i128 = match g.num.checked_mul(self.den) {
            Some(v) => v,
            None => {
                return None;
            },
        };
        let new_num: i128 = match a.checked_add(b) {
            Some(v) => v,
            None => {
                return None;
            },
        };
        proof {
            assert(new_den >= 1) by (nonlinear_arith)
                requires
                    new_den == self.den * (g.den * d),
                    self.den >= 1,
                    g.den >= 1,
                    d >= 1,
            ;
        }
        Some(Rat { num: new_num, den: new_den })
    }

    /// Do `self` and `other` denote the same rational? `None` exactly when a
    /// cross product leaves `i128`.
    pub fn same_value(self, other: Rat) -> (r: Option<bool>)
        requires
            self.wf(),
            other.wf(),
        ensures
            r is Some <==> fits_i128(self.num * other.den) && fits_i128(other.num * self.den),
            r is Some ==> (r.unwrap() <==> frac_eqv(self.as_frac(), other.as_frac())),
    {
        let a: i128 = match self.num.checked_mul(other.den) {
            Some(v) => v,
            None => {
                return None;
            },
        };
        let b: i128 = match other.num.checked_mul(self.den) {
            Some(v) => v,
            None => {
                return None;
            },
        };
        Some(a == b)
    }
}

} // verus!
