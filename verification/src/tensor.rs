//! A dense 4-D tensor of rationals, stored row-major over its four axes.
//!
//! The axes carry no fixed meaning: the public entry point reads gradients
//! in channel-first order (batch, channel, row, column), while the per-lane
//! kernel works on a channel-fastest copy (batch, row, column, channel).

use crate::rational::Rat;
use vstd::prelude::*;

verus! {

/// A 4-D tensor: `data` holds `d0 * d1 * d2 * d3` elements, the last axis
/// fastest.
pub struct Tensor4 {
    pub data: Vec<Rat>,
    pub d0: usize,
    pub d1: usize,
    pub d2: usize,
    pub d3: usize,
}

impl Tensor4 {
    /// Linear position of element `(i0, i1, i2, i3)`.
    pub open spec fn pos(self, i0: int, i1: int, i2: int, i3: int) -> int {
        ((i0 * self.d1 + i1) * self.d2 + i2) * self.d3 + i3
    }

    /// The element count matches the dimensions and every element is
    /// well-formed.
    pub open spec fn wf(self) -> bool {
        &&& self.data.len() == self.d0 * self.d1 * self.d2 * self.d3
        &&& forall|i: int| 0 <= i < self.data.len() ==> (#[trigger] self.data[i]).wf()
    }

    /// Element `(i0, i1, i2, i3)`.
    pub open spec fn at(self, i0: int, i1: int, i2: int, i3: int) -> Rat {
        self.data[self.pos(i0, i1, i2, i3)]
    }

    /// Reads element `(i0, i1, i2, i3)`.
    pub fn get(&self, i0: usize, i1: usize, i2: usize, i3: usize) -> (r: Rat)
        requires
            self.wf(),
            i0 < self.d0,
            i1 < self.d1,
            i2 < self.d2,
            i3 < self.d3,
        ensures
            r == self.at(i0 as int, i1 as int, i2 as int, i3 as int),
            r.wf(),
    {
        proof {
            lemma_pos_in_bounds(
                self.d0 as int,
                self.d1 as int,
                self.d2 as int,
                self.d3 as int,
                i0 as int,
                i1 as int,
                i2 as int,
                i3 as int,
            );
        }
        let p: usize = ((i0 * self.d1 + i1) * self.d2 + i2) * self.d3 + i3;
        self.data[p]
    }

    /// Builds a tensor from parts, validating that the element count matches
    /// the dimensions and that every denominator is positive.
    pub fn from_vec(data: Vec<Rat>, d0: usize, d1: usize, d2: usize, d3: usize) -> (r: Option<
        Tensor4,
    >)
        ensures
            r is Some ==> r.unwrap().wf() && r.unwrap().data == data && r.unwrap().d0 == d0
                && r.unwrap().d1 == d1 && r.unwrap().d2 == d2 && r.unwrap().d3 == d3,
            r is None ==> !(Tensor4 { data, d0, d1, d2, d3 }).wf(),
    {
        if d0 == 0 || d1 == 0 || d2 == 0 || d3 == 0 {
            proof {
                assert(d0 * d1 * d2 * d3 == 0) by (nonlinear_arith)
                    requires
                        d0 == 0 || d1 == 0 || d2 == 0 || d3 == 0,
                        0 <= d0,
                        0 <= d1,
                        0 <= d2,
                        0 <= d3,
                ;
            }
            if data.len() == 0 {
                return Some(Tensor4 { data, d0, d1, d2, d3 });
            }
            return None;
        }
        let n01: usize = match d0.checked_mul(d1) {
            Some(v) => v,
            None => {
                proof {
                    lemma_count_overflow(d0 as int, d1 as int, d2 as int, d3 as int, data.len() as int);
                }
                return None;
            },
        };
        let n012: usize = match n01.checked_mul(d2) {
            Some(v) => v,
            None => {
                proof {
                    lemma_count_overflow(d0 as int, d1 as int, d2 as int, d3 as int, data.len() as int);
                }
                return None;
            },
        };
        let n: usize = match n012.checked_mul(d3) {
            Some(v) => v,
            None => {
                proof {
                    lemma_count_overflow(d0 as int, d1 as int, d2 as int, d3 as int, data.len() as int);
                }
                return None;
            },
        };
        if data.len() != n {
            return None;
        }
        let mut i: usize = 0;
        while i < data.len()
            invariant
                0 <= i <= data.len(),
                forall|j: int| 0 <= j < i ==> (#[trigger] data[j]).wf(),
            decreases data.len() - i,
        {
            if data[i].den < 1 {
                return None;
            }
            i = i + 1;
        }
        Some(Tensor4 { data, d0, d1, d2, d3 })
    }
}

/// Mixed-radix digits of a linear position `j` in a tensor whose last three
/// axes have extents `d1`, `d2`, `d3` (the first axis is the quotient).
pub open spec fn axis3_of(j: int, d3: int) -> int {
    j % d3
}

/// Second-to-last axis digit of linear position `j`.
pub open spec fn axis2_of(j: int, d2: int, d3: int) -> int {
    (j / d3) % d2
}

/// Second axis digit of linear position `j`.
pub open spec fn axis1_of(j: int, d1: int, d2: int, d3: int) -> int {
    ((j / d3) / d2) % d1
}

/// First axis digit of linear position `j`.
pub open spec fn axis0_of(j: int, d1: int, d2: int, d3: int) -> int {
    ((j / d3) / d2) / d1
}

/// An in-range linear position decomposes into in-range digits that
/// reconstruct it.
pub proof fn lemma_digits_in_bounds(j: int, d0: int, d1: int, d2: int, d3: int)
    requires
        d0 >= 1,
        d1 >= 1,
        d2 >= 1,
        d3 >= 1,
        0 <= j < d0 * d1 * d2 * d3,
    ensures
        0 <= axis0_of(j, d1, d2, d3) < d0,
        0 <= axis1_of(j, d1, d2, d3) < d1,
        0 <= axis2_of(j, d2, d3) < d2,
        0 <= axis3_of(j, d3) < d3,
        ((axis0_of(j, d1, d2, d3) * d1 + axis1_of(j, d1, d2, d3)) * d2 + axis2_of(j, d2, d3)) * d3
            + axis3_of(j, d3) == j,
{
    let q1 = j / d3;
    let r3 = j % d3;
    assert(j == q1 * d3 + r3 && 0 <= r3 < d3 && 0 <= q1 && q1 < d0 * d1 * d2) by (nonlinear_arith)
        requires
            d3 >= 1,
            0 <= j < d0 * d1 * d2 * d3,
            q1 == j / d3,
            r3 == j % d3,
    ;
    let q2 = q1 / d2;
    let r2 = q1 % d2;
    assert(q1 == q2 * d2 + r2 && 0 <= r2 < d2 && 0 <= q2 && q2 < d0 * d1) by (nonlinear_arith)
        requires
            d2 >= 1,
            0 <= q1 < d0 * d1 * d2,
            q2 == q1 / d2,
            r2 == q1 % d2,
    ;
    let q3 = q2 / d1;
    let r1 = q2 % d1;
    assert(q2 == q3 * d1 + r1 && 0 <= r1 < d1 && 0 <= q3 && q3 < d0) by (nonlinear_arith)
        requires
            d1 >= 1,
            0 <= q2 < d0 * d1,
            q3 == q2 / d1,
            r1 == q2 % d1,
    ;
    assert(((q3 * d1 + r1) * d2 + r2) * d3 + r3 == j) by (nonlinear_arith)
        requires
            q2 == q3 * d1 + r1,
            q1 == q2 * d2 + r2,
            j == q1 * d3 + r3,
    ;
}

/// The digits of the linear position of an in-range 4-D index are that
/// index itself.
pub proof fn lemma_digits_of_pos(
    i0: int,
    i1: int,
    i2: int,
    i3: int,
    d0: int,
    d1: int,
    d2: int,
    d3: int,
)
    requires
        0 <= i0 < d0,
        0 <= i1 < d1,
        0 <= i2 < d2,
        0 <= i3 < d3,
    ensures
        ({
            let j = ((i0 * d1 + i1) * d2 + i2) * d3 + i3;
            &&& 0 <= j < d0 * d1 * d2 * d3
            &&& axis0_of(j, d1, d2, d3) == i0
            &&& axis1_of(j, d1, d2, d3) == i1
            &&& axis2_of(j, d2, d3) == i2
            &&& axis3_of(j, d3) == i3
        }),
{
    let j = ((i0 * d1 + i1) * d2 + i2) * d3 + i3;
    lemma_pos_in_bounds(d0, d1, d2, d3, i0, i1, i2, i3);
    let q1 = (i0 * d1 + i1) * d2 + i2;
    assert(j / d3 == q1 && j % d3 == i3) by (nonlinear_arith)
        requires
            d3 >= 1,
            0 <= i3 < d3,
            j == q1 * d3 + i3,
    ;
    let q2 = i0 * d1 + i1;
    assert(q1 / d2 == q2 && q1 % d2 == i2) by (nonlinear_arith)
        requires
            d2 >= 1,
            0 <= i2 < d2,
            q1 == q2 * d2 + i2,
    ;
    assert(q2 / d1 == i0 && q2 % d1 == i1) by (nonlinear_arith)
        requires
            d1 >= 1,
            0 <= i1 < d1,
            q2 == i0 * d1 + i1,
    ;
}

/// An in-range 4-D index maps to an in-range linear position.
pub proof fn lemma_pos_in_bounds(
    d0: int,
    d1: int,
    d2: int,
    d3: int,
    i0: int,
    i1: int,
    i2: int,
    i3: int,
)
    by (nonlinear_arith)
    requires
        0 <= i0 < d0,
        0 <= i1 < d1,
        0 <= i2 < d2,
        0 <= i3 < d3,
    ensures
        0 <= ((i0 * d1 + i1) * d2 + i2) * d3 + i3,
        ((i0 * d1 + i1) * d2 + i2) * d3 + i3 < d0 * d1 * d2 * d3,
        0 <= i0 * d1 + i1 < d0 * d1,
        0 <= (i0 * d1 + i1) * d2 + i2 < d0 * d1 * d2,
        d0 * d1 <= d0 * d1 * d2 * d3,
        d0 * d1 * d2 <= d0 * d1 * d2 * d3,
{
}

/// With every dimension positive, once a partial dimension product exceeds
/// `usize::MAX` the full product does too, so no `Vec` length can match it.
proof fn lemma_count_overflow(d0: int, d1: int, d2: int, d3: int, len: int)
    by (nonlinear_arith)
    requires
        1 <= d0,
        1 <= d1,
        1 <= d2,
        1 <= d3,
        0 <= len <= usize::MAX,
        d0 * d1 > usize::MAX || d0 * d1 * d2 > usize::MAX || d0 * d1 * d2 * d3 > usize::MAX,
    ensures
        len != d0 * d1 * d2 * d3,
{
}

} // verus!
