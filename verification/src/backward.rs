//! The dispatch driver: the public entry point of the backward pass.
//!
//! It derives the output shape from the forward input's shape, permutes the
//! gradient into channel-fastest order, runs the per-lane kernel once per
//! output element (one lane per cell, decomposed from a linear lane index
//! by mixed-radix unraveling), and permutes the result back to
//! channel-first order.
//!
//! Grouping several adjacent channel elements into one lane (see
//! `layout::select_vector_width`) only batches memory transactions and
//! changes no value, so the driver runs one element per lane; hosts that
//! batch lanes can still use the width selector.

use crate::kernel::avg_pool2d_backward_kernel;
use crate::layout::{permute_nchw_to_nhwc, permute_nhwc_to_nchw};
use crate::model::{cell_ok, cell_value, lemma_row_range, plane_cf, plane_cl};
use crate::params::PoolParams;
use crate::rational::Rat;
use crate::tensor::{
    axis0_of, axis1_of, axis2_of, axis3_of, lemma_digits_in_bounds, lemma_digits_of_pos, Tensor4,
};
use vstd::prelude::*;

verus! {

/// The pooling parameters the entry point drives: the given kernel, stride
/// and padding, with dilation one between window taps.
pub open spec fn backward_params(
    kernel_size: (usize, usize),
    stride: (usize, usize),
    padding: (usize, usize),
    count_include_pad: bool,
) -> PoolParams {
    PoolParams {
        kernel_h: kernel_size.0,
        kernel_w: kernel_size.1,
        stride_h: stride.0,
        stride_w: stride.1,
        padding_h: padding.0,
        padding_w: padding.1,
        dilation_h: 1,
        dilation_w: 1,
        count_include_pad,
    }
}

/// Gradient of the 2-D average pooling input.
///
/// `x_shape` is the shape `(batch, channels, height, width)` of the forward
/// input, which the output reproduces; `grad` is the gradient of the
/// pooling output, channel-first, with matching batch and channel counts.
/// Every output cell equals the full scan stated by `cell_value`: the sum
/// over all covering windows of the gradient there divided by that
/// window's averaging divisor. `None` exactly when some cell's
/// exact-rational accumulation would leave `i128`.
#[verifier::loop_isolation(false)]
pub fn avg_pool2d_backward(
    x_shape: (usize, usize, usize, usize),
    grad: &Tensor4,
    kernel_size: (usize, usize),
    stride: (usize, usize),
    padding: (usize, usize),
    count_include_pad: bool,
) -> (r: Option<Tensor4>)
    requires
        grad.wf(),
        grad.d0 == x_shape.0,
        grad.d1 == x_shape.1,
        x_shape.0 >= 1 && x_shape.1 >= 1 && x_shape.2 >= 1 && x_shape.3 >= 1 ==> grad.d2 >= 1
            && grad.d3 >= 1,
        kernel_size.0 >= 1,
        kernel_size.1 >= 1,
        stride.0 >= 1,
        stride.1 >= 1,
        kernel_size.0 * kernel_size.1 <= usize::MAX,
        x_shape.0 * x_shape.1 * x_shape.2 * x_shape.3 <= usize::MAX,
        x_shape.2 + padding.0 <= usize::MAX,
        x_shape.3 + padding.1 <= usize::MAX,
    ensures
        r is Some <==> (forall|b: int, cc: int, y: int, x: int|
            0 <= b < x_shape.0 && 0 <= cc < x_shape.1 && 0 <= y < x_shape.2 && 0 <= x < x_shape.3
                ==> #[trigger] cell_ok(
                *grad,
                backward_params(kernel_size, stride, padding, count_include_pad),
                x_shape.2 as int,
                x_shape.3 as int,
                b,
                cc,
                y,
                x,
            )),
        r is Some ==> r.unwrap().wf() && r.unwrap().d0 == x_shape.0 && r.unwrap().d1 == x_shape.1
            && r.unwrap().d2 == x_shape.2 && r.unwrap().d3 == x_shape.3,
        r is Some ==> (forall|b: int, cc: int, y: int, x: int|
            0 <= b < x_shape.0 && 0 <= cc < x_shape.1 && 0 <= y < x_shape.2 && 0 <= x < x_shape.3
                ==> (#[trigger] r.unwrap().at(b, cc, y, x)).as_frac() == cell_value(
                *grad,
                backward_params(kernel_size, stride, padding, count_include_pad),
                x_shape.2 as int,
                x_shape.3 as int,
                b,
                cc,
                y,
                x,
            )),
{
    let n: usize = x_shape.0;
    let ch: usize = x_shape.1;
    let h: usize = x_shape.2;
    let w: usize = x_shape.3;
    let ghost p_spec = backward_params(kernel_size, stride, padding, count_include_pad);
    let p = PoolParams {
        kernel_h: kernel_size.0,
        kernel_w: kernel_size.1,
        stride_h: stride.0,
        stride_w: stride.1,
        padding_h: padding.0,
        padding_w: padding.1,
        dilation_h: 1,
        dilation_w: 1,
        count_include_pad,
    };
    if n == 0 || ch == 0 || h == 0 || w == 0 {
        proof {
            assert(n * ch * h * w == 0) by (nonlinear_arith)
                requires
                    n == 0 || ch == 0 || h == 0 || w == 0,
                    n >= 0,
                    ch >= 0,
                    h >= 0,
                    w >= 0,
            ;
        }
        let empty = Tensor4 { data: Vec::new(), d0: n, d1: ch, d2: h, d3: w };
        return Some(empty);
    }
    let g2 = permute_nchw_to_nhwc(grad);
    proof {
        assert forall|b: int, cc: int| 0 <= b < n && 0 <= cc < ch implies plane_cl(g2, b, cc)
            == plane_cf(*grad, b, cc) by {
            let s1 = plane_cl(g2, b, cc);
            let s2 = plane_cf(*grad, b, cc);
            assert forall|k: int| 0 <= k < s1.len() implies s1[k] == s2[k] by {
                lemma_row_range(k, grad.d3 as int, 0, grad.d2 as int);
            }
            assert(s1 =~= s2);
        }
        assert(n * ch <= grad.data.len()) by (nonlinear_arith)
            requires
                grad.data.len() == n * ch * grad.d2 * grad.d3,
                grad.d2 >= 1,
                grad.d3 >= 1,
                n >= 0,
                ch >= 0,
        ;
        assert(n * ch * h <= n * ch * h * w && n * ch * h * w == ((n * ch) * h) * w) by (nonlinear_arith)
            requires
                w >= 1,
                n >= 0,
                ch >= 0,
                h >= 0,
        ;
        assert(n * ch * h * w == n * h * w * ch) by (nonlinear_arith);
    }
    let nch: usize = n * ch;
    let nchh: usize = nch * h;
    let total: usize = nchh * w;
    let mut out: Vec<Rat> = Vec::new();
    let mut j: usize = 0;
    while j < total
        invariant
            j <= total,
            out.len() == j,
            forall|j2: int| 0 <= j2 < j ==> (#[trigger] out[j2]).wf(),
            forall|j2: int|
                0 <= j2 < j ==> (#[trigger] out[j2]).as_frac() == cell_value(
                    *grad,
                    p_spec,
                    h as int,
                    w as int,
                    axis0_of(j2, h as int, w as int, ch as int),
                    axis3_of(j2, ch as int),
                    axis1_of(j2, h as int, w as int, ch as int),
                    axis2_of(j2, w as int, ch as int),
                ),
            forall|j2: int|
                0 <= j2 < j ==> #[trigger] cell_ok(
                    *grad,
                    p_spec,
                    h as int,
                    w as int,
                    axis0_of(j2, h as int, w as int, ch as int),
                    axis3_of(j2, ch as int),
                    axis1_of(j2, h as int, w as int, ch as int),
                    axis2_of(j2, w as int, ch as int),
                ),
        decreases total - j,
    {
        proof {
            lemma_digits_in_bounds(j as int, n as int, h as int, w as int, ch as int);
        }
        let cc: usize = j % ch;
        let q1: usize = j / ch;
        let x: usize = q1 % w;
        let q2: usize = q1 / w;
        let y: usize = q2 % h;
        let b: usize = q2 / h;
        let cell = avg_pool2d_backward_kernel(&g2, &p, h, w, b, y, x, cc);
        match cell {
            Some(v) => {
                out.push(v);
            },
            None => {
                proof {
                    assert(!cell_ok(*grad, p_spec, h as int, w as int, b as int, cc as int, y as int, x as int));
                }
                return None;
            },
        }
        j = j + 1;
    }
    let out_nhwc = Tensor4 { data: out, d0: n, d1: h, d2: w, d3: ch };
    let result = permute_nhwc_to_nchw(&out_nhwc);
    proof {
        assert forall|b: int, cc: int, y: int, x: int|
            0 <= b < n && 0 <= cc < ch && 0 <= y < h && 0 <= x < w implies (#[trigger] result.at(
            b,
            cc,
            y,
            x,
        )).as_frac() == cell_value(*grad, p_spec, h as int, w as int, b, cc, y, x) by {
            lemma_digits_of_pos(b, y, x, cc, n as int, h as int, w as int, ch as int);
            let pos = ((b * h + y) * w + x) * ch + cc;
            assert(out_nhwc.pos(b, y, x, cc) == pos);
            assert(result.at(b, cc, y, x) == out_nhwc.at(b, y, x, cc));
        }
        assert forall|b: int, cc: int, y: int, x: int|
            0 <= b < n && 0 <= cc < ch && 0 <= y < h && 0 <= x < w implies #[trigger] cell_ok(
            *grad,
            p_spec,
            h as int,
            w as int,
            b,
            cc,
            y,
            x,
        ) by {
            lemma_digits_of_pos(b, y, x, cc, n as int, h as int, w as int, ch as int);
            let pos = ((b * h + y) * w + x) * ch + cc;
            assert(cell_ok(
                *grad,
                p_spec,
                h as int,
                w as int,
                axis0_of(pos, h as int, w as int, ch as int),
                axis3_of(pos, ch as int),
                axis1_of(pos, h as int, w as int, ch as int),
                axis2_of(pos, w as int, ch as int),
            ));
        }
    }
    Some(result)
}

} // verus!
