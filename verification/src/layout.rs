//! The layout adapter.
//!
//! The accumulator reads gradients channel-fastest so that the channel
//! elements a lane touches are adjacent; the entry point's tensors are
//! channel-first. The two permutations convert between the orders, and
//! `select_vector_width` picks how many adjacent channel elements a lane
//! may process as one unit.

use crate::tensor::{
    axis0_of, axis1_of, axis2_of, axis3_of, lemma_digits_in_bounds, lemma_digits_of_pos, Tensor4,
};
use crate::rational::Rat;
use vstd::prelude::*;

verus! {

/// Reorders a channel-first tensor `(batch, channel, row, column)` into a
/// channel-fastest one `(batch, row, column, channel)`.
#[verifier::loop_isolation(false)]
pub fn permute_nchw_to_nhwc(t: &Tensor4) -> (r: Tensor4)
    requires
        t.wf(),
    ensures
        r.wf(),
        r.d0 == t.d0,
        r.d1 == t.d2,
        r.d2 == t.d3,
        r.d3 == t.d1,
        forall|b: int, y: int, x: int, cc: int|
            0 <= b < t.d0 && 0 <= y < t.d2 && 0 <= x < t.d3 && 0 <= cc < t.d1 ==> r.at(b, y, x, cc)
                == t.at(b, cc, y, x),
{
    let ghost n = t.d0 as int;
    let ghost hh = t.d2 as int;
    let ghost ww = t.d3 as int;
    let ghost ch = t.d1 as int;
    let total: usize = t.data.len();
    proof {
        assert(n * ch * hh * ww == n * hh * ww * ch) by (nonlinear_arith);
    }
    let mut out: Vec<Rat> = Vec::new();
    let mut j: usize = 0;
    while j < total
        invariant
            j <= total,
            out.len() == j,
            forall|j2: int| 0 <= j2 < j ==> (#[trigger] out[j2]).wf(),
            forall|j2: int|
                0 <= j2 < j ==> #[trigger] out[j2] == t.at(
                    axis0_of(j2, hh, ww, ch),
                    axis3_of(j2, ch),
                    axis1_of(j2, hh, ww, ch),
                    axis2_of(j2, ww, ch),
                ),
        decreases total - j,
    {
        proof {
            assert(n >= 1 && ch >= 1 && hh >= 1 && ww >= 1) by (nonlinear_arith)
                requires
                    n * hh * ww * ch > 0,
                    n >= 0,
                    hh >= 0,
                    ww >= 0,
                    ch >= 0,
            ;
            lemma_digits_in_bounds(j as int, n, hh, ww, ch);
        }
        let cc: usize = j % t.d1;
        let q1: usize = j / t.d1;
        let x: usize = q1 % t.d3;
        let q2: usize = q1 / t.d3;
        let y: usize = q2 % t.d2;
        let b: usize = q2 / t.d2;
        let v = t.get(b, cc, y, x);
        out.push(v);
        j = j + 1;
    }
    let r = Tensor4 { data: out, d0: t.d0, d1: t.d2, d2: t.d3, d3: t.d1 };
    proof {
        assert forall|b: int, y: int, x: int, cc: int|
            0 <= b < t.d0 && 0 <= y < t.d2 && 0 <= x < t.d3 && 0 <= cc
                < t.d1 implies #[trigger] r.at(b, y, x, cc) == t.at(b, cc, y, x) by {
            lemma_digits_of_pos(b, y, x, cc, n, hh, ww, ch);
            assert(r.pos(b, y, x, cc) == ((b * hh + y) * ww + x) * ch + cc);
        }
    }
    r
}

/// Reorders a channel-fastest tensor `(batch, row, column, channel)` back
/// into a channel-first one `(batch, channel, row, column)`.
#[verifier::loop_isolation(false)]
pub fn permute_nhwc_to_nchw(t: &Tensor4) -> (r: Tensor4)
    requires
        t.wf(),
    ensures
        r.wf(),
        r.d0 == t.d0,
        r.d1 == t.d3,
        r.d2 == t.d1,
        r.d3 == t.d2,
        forall|b: int, cc: int, y: int, x: int|
            0 <= b < t.d0 && 0 <= cc < t.d3 && 0 <= y < t.d1 && 0 <= x < t.d2 ==> r.at(b, cc, y, x)
                == t.at(b, y, x, cc),
{
    let ghost n = t.d0 as int;
    let ghost hh = t.d1 as int;
    let ghost ww = t.d2 as int;
    let ghost ch = t.d3 as int;
    let total: usize = t.data.len();
    proof {
        assert(n * hh * ww * ch == n * ch * hh * ww) by (nonlinear_arith);
    }
    let mut out: Vec<Rat> = Vec::new();
    let mut j: usize = 0;
    while j < total
        invariant
            j <= total,
            out.len() == j,
            forall|j2: int| 0 <= j2 < j ==> (#[trigger] out[j2]).wf(),
            forall|j2: int|
                0 <= j2 < j ==> #[trigger] out[j2] == t.at(
                    axis0_of(j2, ch, hh, ww),
                    axis2_of(j2, hh, ww),
                    axis3_of(j2, ww),
                    axis1_of(j2, ch, hh, ww),
                ),
        decreases total - j,
    {
        proof {
            assert(n >= 1 && ch >= 1 && hh >= 1 && ww >= 1) by (nonlinear_arith)
                requires
                    n * ch * hh * ww > 0,
                    n >= 0,
                    hh >= 0,
                    ww >= 0,
                    ch >= 0,
            ;
            lemma_digits_in_bounds(j as int, n, ch, hh, ww);
        }
        let x: usize = j % t.d2;
        let q1: usize = j / t.d2;
        let y: usize = q1 % t.d1;
        let q2: usize = q1 / t.d1;
        let cc: usize = q2 % t.d3;
        let b: usize = q2 / t.d3;
        let v = t.get(b, y, x, cc);
        out.push(v);
        j = j + 1;
    }
    let r = Tensor4 { data: out, d0: t.d0, d1: t.d3, d2: t.d1, d3: t.d2 };
    proof {
        assert forall|b: int, cc: int, y: int, x: int|
            0 <= b < t.d0 && 0 <= cc < t.d3 && 0 <= y < t.d1 && 0 <= x
                < t.d2 implies #[trigger] r.at(b, cc, y, x) == t.at(b, y, x, cc) by {
            lemma_digits_of_pos(b, cc, y, x, n, ch, hh, ww);
            assert(r.pos(b, cc, y, x) == ((b * ch + cc) * hh + y) * ww + x);
        }
    }
    r
}

/// Picks the number of adjacent channel elements a lane may process as one
/// memory unit: the largest width not above the platform maximum that
/// divides the channel count, or one when the channel-fastest strides of
/// the two tensors disagree.
#[verifier::loop_isolation(false)]
pub fn select_vector_width(max_width: usize, channels: usize, strides_agree: bool) -> (r: usize)
    ensures
        r >= 1,
        !strides_agree ==> r == 1,
        strides_agree ==> r <= max_width || r == 1,
        strides_agree ==> channels % r == 0,
        strides_agree ==> forall|w2: int|
            1 <= w2 <= max_width && #[trigger] (channels as int % w2) == 0 ==> w2 <= r,
{
    if !strides_agree {
        return 1;
    }
    let mut w: usize = max_width;
    while w > 1
        invariant
            w <= max_width,
            forall|w2: int| w < w2 <= max_width ==> #[trigger] (channels as int % w2) != 0,
        decreases w,
    {
        if channels % w == 0 {
            return w;
        }
        w = w - 1;
    }
    1
}

} // verus!
