//! Laws of the backward pass, stated over the model and proved once for
//! all inputs.

use crate::model::{
    accum, accum_ok, cell_ok, cell_value, clip_h, clip_w, covers, covers_h, covers_w, divisor,
    lemma_linear_row, lemma_row_range, lemma_skip_cols, lemma_skip_rows, plane_cf, pool_out_len,
};
use crate::params::PoolParams;
use crate::rational::frac_add_div;
use crate::tensor::Tensor4;
use vstd::prelude::*;

verus! {

/// Both counting policies take the same steps when no window is clipped:
/// with zero padding and every window's far edge inside the input, the
/// clipped overlap area of a window equals the nominal kernel area.
proof fn lemma_agree_accum(
    plane: Seq<(int, int)>,
    gw: int,
    pt: PoolParams,
    pf: PoolParams,
    in_h: int,
    in_w: int,
    ih: int,
    iw: int,
    gh: int,
    t: nat,
)
    requires
        pt.wf(),
        pf.wf(),
        pt.kernel_h == pf.kernel_h,
        pt.kernel_w == pf.kernel_w,
        pt.stride_h == pf.stride_h,
        pt.stride_w == pf.stride_w,
        pt.padding_h == 0,
        pt.padding_w == 0,
        pf.padding_h == 0,
        pf.padding_w == 0,
        gw >= 1,
        gh >= 1,
        t <= gh * gw,
        forall|oh: int| 0 <= oh < gh ==> #[trigger] (oh * pt.stride_h) + pt.kernel_h <= in_h,
        forall|ow: int| 0 <= ow < gw ==> #[trigger] (ow * pt.stride_w) + pt.kernel_w <= in_w,
    ensures
        accum(plane, gw, pt, in_h, in_w, ih, iw, t) == accum(plane, gw, pf, in_h, in_w, ih, iw, t),
        accum_ok(plane, gw, pt, in_h, in_w, ih, iw, t) == accum_ok(
            plane,
            gw,
            pf,
            in_h,
            in_w,
            ih,
            iw,
            t,
        ),
    decreases t,
{
    if t > 0 {
        lemma_agree_accum(plane, gw, pt, pf, in_h, in_w, ih, iw, gh, (t - 1) as nat);
        let k = t - 1;
        lemma_row_range(k, gw, 0, gh);
        let oh = k / gw;
        let ow = k % gw;
        if covers(pt, ih, iw, oh, ow) {
            assert((oh * pt.stride_h) + pt.kernel_h <= in_h);
            assert((ow * pt.stride_w) + pt.kernel_w <= in_w);
            assert(oh * pt.stride_h >= 0) by (nonlinear_arith)
                requires
                    oh >= 0,
                    pt.stride_h >= 1,
            ;
            assert(ow * pt.stride_w >= 0) by (nonlinear_arith)
                requires
                    ow >= 0,
                    pt.stride_w >= 1,
            ;
            assert(clip_h(pf, in_h, oh) == pf.kernel_h);
            assert(clip_w(pf, in_w, ow) == pf.kernel_w);
            assert(divisor(pf, in_h, in_w, oh, ow) == divisor(pt, in_h, in_w, oh, ow));
        }
    }
}

/// With no padding, the two boundary-counting policies agree: no window is
/// ever clipped, so the clipped overlap area always equals the nominal
/// kernel area and every cell of the input gradient comes out identical,
/// for any gradient tensor of the shape the forward pooling produces.
pub proof fn lemma_no_padding_policies_agree(
    grad: Tensor4,
    pt: PoolParams,
    pf: PoolParams,
    in_h: int,
    in_w: int,
    b: int,
    c: int,
    ih: int,
    iw: int,
)
    requires
        pt.wf(),
        pf.wf(),
        pt.count_include_pad,
        !pf.count_include_pad,
        pt.kernel_h == pf.kernel_h,
        pt.kernel_w == pf.kernel_w,
        pt.stride_h == pf.stride_h,
        pt.stride_w == pf.stride_w,
        pt.padding_h == 0,
        pt.padding_w == 0,
        pf.padding_h == 0,
        pf.padding_w == 0,
        pt.kernel_h <= in_h,
        pt.kernel_w <= in_w,
        grad.d2 >= 1,
        grad.d3 >= 1,
        grad.d2 == pool_out_len(in_h, 0, pt.kernel_h as int, pt.stride_h as int),
        grad.d3 == pool_out_len(in_w, 0, pt.kernel_w as int, pt.stride_w as int),
        0 <= b < grad.d0,
        0 <= c < grad.d1,
        0 <= ih < in_h,
        0 <= iw < in_w,
    ensures
        cell_value(grad, pt, in_h, in_w, b, c, ih, iw) == cell_value(
            grad,
            pf,
            in_h,
            in_w,
            b,
            c,
            ih,
            iw,
        ),
        cell_ok(grad, pt, in_h, in_w, b, c, ih, iw) == cell_ok(grad, pf, in_h, in_w, b, c, ih, iw),
{
    let gh = grad.d2 as int;
    let gw = grad.d3 as int;
    assert forall|oh: int| 0 <= oh < gh implies #[trigger] (oh * pt.stride_h) + pt.kernel_h
        <= in_h by {
        assert(oh <= (in_h - pt.kernel_h) / (pt.stride_h as int));
        assert(oh * pt.stride_h <= in_h - pt.kernel_h) by (nonlinear_arith)
            requires
                oh <= (in_h - pt.kernel_h) / (pt.stride_h as int),
                pt.stride_h >= 1,
                in_h - pt.kernel_h >= 0,
                oh >= 0,
        ;
    }
    assert forall|ow: int| 0 <= ow < gw implies #[trigger] (ow * pt.stride_w) + pt.kernel_w
        <= in_w by {
        assert(ow <= (in_w - pt.kernel_w) / (pt.stride_w as int));
        assert(ow * pt.stride_w <= in_w - pt.kernel_w) by (nonlinear_arith)
            requires
                ow <= (in_w - pt.kernel_w) / (pt.stride_w as int),
                pt.stride_w >= 1,
                in_w - pt.kernel_w >= 0,
                ow >= 0,
        ;
    }
    lemma_agree_accum(
        plane_cf(grad, b, c),
        gw,
        pt,
        pf,
        in_h,
        in_w,
        ih,
        iw,
        gh,
        (grad.d2 * grad.d3) as nat,
    );
}

/// A single window covering the whole input makes the output constant:
/// with the kernel and stride equal to the full input extent and no
/// padding, every input cell's gradient is the one gradient cell divided
/// by the input area, whatever the cell.
pub proof fn lemma_single_window_constant(
    grad: Tensor4,
    p: PoolParams,
    in_h: int,
    in_w: int,
    b: int,
    c: int,
    ih: int,
    iw: int,
)
    requires
        p.wf(),
        p.kernel_h == in_h,
        p.kernel_w == in_w,
        p.stride_h == in_h,
        p.stride_w == in_w,
        p.padding_h == 0,
        p.padding_w == 0,
        grad.d2 == 1,
        grad.d3 == 1,
        0 <= b < grad.d0,
        0 <= c < grad.d1,
        0 <= ih < in_h,
        0 <= iw < in_w,
    ensures
        cell_value(grad, p, in_h, in_w, b, c, ih, iw) == (
            grad.at(b, c, 0, 0).as_frac().0,
            grad.at(b, c, 0, 0).as_frac().1 * (in_h * in_w),
        ),
{
    let pl = plane_cf(grad, b, c);
    assert(covers(p, ih, iw, 0, 0));
    assert(clip_h(p, in_h, 0) == in_h);
    assert(clip_w(p, in_w, 0) == in_w);
    assert(divisor(p, in_h, in_w, 0, 0) == in_h * in_w);
    assert(pl[0] == grad.at(b, c, 0, 0).as_frac());
    let g = pl[0];
    let d = in_h * in_w;
    assert(0int / 1int == 0 && 0int % 1int == 0);
    reveal_with_fuel(accum, 2);
    assert(accum(pl, 1, p, in_h, in_w, ih, iw, 1) == frac_add_div((0int, 1int), g, d));
    assert(frac_add_div((0int, 1int), g, d) == (g.0, g.1 * d)) by (nonlinear_arith);
}

/// With stride equal to kernel and no padding, windows tile the input with
/// no overlap, and the backward pass is a pure broadcast-divide: each input
/// cell's gradient is the gradient of the unique window containing it,
/// divided by the window area, under either counting policy.
pub proof fn lemma_tiled_broadcast_divide(
    grad: Tensor4,
    p: PoolParams,
    in_h: int,
    in_w: int,
    b: int,
    c: int,
    ih: int,
    iw: int,
)
    requires
        p.wf(),
        p.stride_h == p.kernel_h,
        p.stride_w == p.kernel_w,
        p.padding_h == 0,
        p.padding_w == 0,
        grad.d2 >= 1,
        grad.d3 >= 1,
        in_h == grad.d2 * p.kernel_h,
        in_w == grad.d3 * p.kernel_w,
        0 <= b < grad.d0,
        0 <= c < grad.d1,
        0 <= ih < in_h,
        0 <= iw < in_w,
    ensures
        ({
            let oh = ih / p.kernel_h as int;
            let ow = iw / p.kernel_w as int;
            cell_value(grad, p, in_h, in_w, b, c, ih, iw) == (
                grad.at(b, c, oh, ow).as_frac().0,
                grad.at(b, c, oh, ow).as_frac().1 * (p.kernel_h * p.kernel_w),
            )
        }),
{
    let pl = plane_cf(grad, b, c);
    let gh = grad.d2 as int;
    let gw = grad.d3 as int;
    let kh = p.kernel_h as int;
    let kw = p.kernel_w as int;
    let oh = ih / kh;
    let ow = iw / kw;
    assert(0 <= oh < gh && oh * kh <= ih < oh * kh + kh) by (nonlinear_arith)
        requires
            kh >= 1,
            gh >= 1,
            0 <= ih < gh * kh,
            oh == ih / kh,
    ;
    assert(0 <= ow < gw && ow * kw <= iw < ow * kw + kw) by (nonlinear_arith)
        requires
            kw >= 1,
            gw >= 1,
            0 <= iw < gw * kw,
            ow == iw / kw,
    ;
    assert(covers(p, ih, iw, oh, ow));
    // The covering window is unique along each axis.
    assert forall|o: int| 0 <= o && o != oh implies !covers_h(p, ih, o) by {
        if o < oh {
            assert(o * kh + kh <= oh * kh) by (nonlinear_arith)
                requires
                    o < oh,
                    kh >= 1,
            ;
        } else {
            assert(o * kh >= oh * kh + kh) by (nonlinear_arith)
                requires
                    o > oh,
                    kh >= 1,
            ;
        }
    }
    assert forall|o: int| 0 <= o && o != ow implies !covers_w(p, iw, o) by {
        if o < ow {
            assert(o * kw + kw <= ow * kw) by (nonlinear_arith)
                requires
                    o < ow,
                    kw >= 1,
            ;
        } else {
            assert(o * kw >= ow * kw + kw) by (nonlinear_arith)
                requires
                    o > ow,
                    kw >= 1,
            ;
        }
    }
    // The unique window is unclipped, so both policies divide by the area.
    assert(oh * p.stride_h + kh <= in_h) by (nonlinear_arith)
        requires
            p.stride_h == kh,
            oh < gh,
            kh >= 1,
            in_h == gh * kh,
    ;
    assert(ow * p.stride_w + kw <= in_w) by (nonlinear_arith)
        requires
            p.stride_w == kw,
            ow < gw,
            kw >= 1,
            in_w == gw * kw,
    ;
    assert(oh * p.stride_h >= 0) by (nonlinear_arith)
        requires
            oh >= 0,
            p.stride_h >= 1,
    ;
    assert(ow * p.stride_w >= 0) by (nonlinear_arith)
        requires
            ow >= 0,
            p.stride_w >= 1,
    ;
    assert(clip_h(p, in_h, oh) == kh);
    assert(clip_w(p, in_w, ow) == kw);
    assert(divisor(p, in_h, in_w, oh, ow) == kh * kw);
    // Walk the fold: everything but the unique window is skipped.
    let kstar = oh * gw + ow;
    lemma_skip_rows(pl, gw, p, in_h, in_w, ih, iw, 0, oh);
    lemma_skip_cols(pl, gw, p, in_h, in_w, ih, iw, oh, 0, ow);
    assert((oh + 1) * gw == oh * gw + gw) by (nonlinear_arith);
    lemma_linear_row(kstar, gw, oh);
    assert(0 <= kstar < gh * gw) by (nonlinear_arith)
        requires
            0 <= oh < gh,
            0 <= ow < gw,
            gw >= 1,
            kstar == oh * gw + ow,
    ;
    assert(pl[kstar] == grad.at(b, c, oh, ow).as_frac());
    let g = pl[kstar];
    assert(accum(pl, gw, p, in_h, in_w, ih, iw, (kstar + 1) as nat) == frac_add_div(
        (0int, 1int),
        g,
        kh * kw,
    ));
    lemma_skip_cols(pl, gw, p, in_h, in_w, ih, iw, oh, ow + 1, gw);
    lemma_skip_rows(pl, gw, p, in_h, in_w, ih, iw, oh + 1, gh);
    assert(accum(pl, gw, p, in_h, in_w, ih, iw, (gh * gw) as nat) == frac_add_div(
        (0int, 1int),
        g,
        kh * kw,
    ));
    assert(frac_add_div((0int, 1int), g, kh * kw) == (g.0, g.1 * (kh * kw))) by (nonlinear_arith);
}

} // verus!
