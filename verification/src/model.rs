//! The mathematical model of the backward pass.
//!
//! The gradient of the pooling input at cell `(b, ih, iw, c)` is the sum,
//! over every output cell `(oh, ow)` whose forward pooling window covered
//! `(ih, iw)`, of the output gradient there divided by that window's
//! averaging divisor. The model states this as a left fold over all output
//! cells of one `(batch, channel)` plane in row-major order, with a
//! membership test deciding whether a cell contributes; the executable code
//! is proved against this full scan even though it only visits a closed-form
//! candidate range.

use crate::params::PoolParams;
use crate::rational::{frac_add_div, frac_step_fits};
use crate::tensor::Tensor4;
use vstd::math::{max, min};
use vstd::prelude::*;

verus! {

/// Does the forward window of output row `oh` cover input row `ih`? In
/// padded coordinates the window spans `[oh * stride, oh * stride + kernel)`
/// and the cell sits at `ih + padding`.
pub open spec fn covers_h(p: PoolParams, ih: int, oh: int) -> bool {
    oh * p.stride_h <= ih + p.padding_h < oh * p.stride_h + p.kernel_h
}

/// Does the forward window of output column `ow` cover input column `iw`?
pub open spec fn covers_w(p: PoolParams, iw: int, ow: int) -> bool {
    ow * p.stride_w <= iw + p.padding_w < ow * p.stride_w + p.kernel_w
}

/// Does the forward window of output cell `(oh, ow)` cover input cell
/// `(ih, iw)`?
pub open spec fn covers(p: PoolParams, ih: int, iw: int, oh: int, ow: int) -> bool {
    covers_h(p, ih, oh) && covers_w(p, iw, ow)
}

/// Row extent of window `oh` after clipping to the actual input rows
/// (windows reaching into padding shrink).
pub open spec fn clip_h(p: PoolParams, in_h: int, oh: int) -> int {
    min(oh * p.stride_h + p.kernel_h, in_h + p.padding_h) - max(oh * p.stride_h, p.padding_h as int)
}

/// Column extent of window `ow` after clipping to the actual input columns.
pub open spec fn clip_w(p: PoolParams, in_w: int, ow: int) -> int {
    min(ow * p.stride_w + p.kernel_w, in_w + p.padding_w) - max(ow * p.stride_w, p.padding_w as int)
}

/// Averaging divisor of window `(oh, ow)`: the nominal kernel area when
/// `count_include_pad` is set, else the clipped overlap area.
pub open spec fn divisor(p: PoolParams, in_h: int, in_w: int, oh: int, ow: int) -> int {
    if p.count_include_pad {
        p.kernel_h * p.kernel_w
    } else {
        clip_h(p, in_h, oh) * clip_w(p, in_w, ow)
    }
}

/// One `(batch, channel)` plane of a channel-first tensor
/// `(batch, channel, row, column)`, flattened row-major.
pub open spec fn plane_cf(t: Tensor4, b: int, c: int) -> Seq<(int, int)> {
    Seq::new((t.d2 * t.d3) as nat, |k: int| t.at(b, c, k / t.d3 as int, k % t.d3 as int).as_frac())
}

/// One `(batch, channel)` plane of a channel-fastest tensor
/// `(batch, row, column, channel)`, flattened row-major.
pub open spec fn plane_cl(t: Tensor4, b: int, c: int) -> Seq<(int, int)> {
    Seq::new((t.d1 * t.d2) as nat, |k: int| t.at(b, k / t.d2 as int, k % t.d2 as int, c).as_frac())
}

/// Left fold of the first `t` output cells of a gradient plane into the
/// accumulator for input cell `(ih, iw)`: cell `k` contributes
/// `plane[k] / divisor` exactly when its window covers `(ih, iw)`.
pub open spec fn accum(
    plane: Seq<(int, int)>,
    gw: int,
    p: PoolParams,
    in_h: int,
    in_w: int,
    ih: int,
    iw: int,
    t: nat,
) -> (int, int)
    decreases t,
{
    if t == 0 {
        (0int, 1int)
    } else {
        let k = t - 1;
        let prev = accum(plane, gw, p, in_h, in_w, ih, iw, (t - 1) as nat);
        if covers(p, ih, iw, k / gw, k % gw) {
            frac_add_div(prev, plane[k], divisor(p, in_h, in_w, k / gw, k % gw))
        } else {
            prev
        }
    }
}

/// Every intermediate of the fold of the first `t` cells stays within
/// `i128`.
pub open spec fn accum_ok(
    plane: Seq<(int, int)>,
    gw: int,
    p: PoolParams,
    in_h: int,
    in_w: int,
    ih: int,
    iw: int,
    t: nat,
) -> bool
    decreases t,
{
    if t == 0 {
        true
    } else {
        let k = t - 1;
        let prev_ok = accum_ok(plane, gw, p, in_h, in_w, ih, iw, (t - 1) as nat);
        let prev = accum(plane, gw, p, in_h, in_w, ih, iw, (t - 1) as nat);
        prev_ok && (covers(p, ih, iw, k / gw, k % gw) ==> frac_step_fits(
            prev,
            plane[k],
            divisor(p, in_h, in_w, k / gw, k % gw),
        ))
    }
}

/// Value of input-gradient cell `(b, ih, iw, c)` as a fraction pair: the
/// full scan over every output cell of the channel-first gradient `grad`.
pub open spec fn cell_value(
    grad: Tensor4,
    p: PoolParams,
    in_h: int,
    in_w: int,
    b: int,
    c: int,
    ih: int,
    iw: int,
) -> (int, int) {
    accum(plane_cf(grad, b, c), grad.d3 as int, p, in_h, in_w, ih, iw, (grad.d2 * grad.d3) as nat)
}

/// The full scan for cell `(b, ih, iw, c)` stays within `i128` throughout.
pub open spec fn cell_ok(
    grad: Tensor4,
    p: PoolParams,
    in_h: int,
    in_w: int,
    b: int,
    c: int,
    ih: int,
    iw: int,
) -> bool {
    accum_ok(plane_cf(grad, b, c), grad.d3 as int, p, in_h, in_w, ih, iw, (grad.d2 * grad.d3) as nat)
}

/// Output length of the forward pooling over one axis; gradient tensors of
/// a consistent shape have exactly this many cells along the axis.
pub open spec fn pool_out_len(in_len: int, pad: int, k: int, s: int) -> int {
    (in_len + 2 * pad - k) / s + 1
}

/// A stretch of output cells none of whose windows cover `(ih, iw)` leaves
/// the fold and its overflow tracking unchanged.
pub proof fn lemma_accum_skip(
    plane: Seq<(int, int)>,
    gw: int,
    p: PoolParams,
    in_h: int,
    in_w: int,
    ih: int,
    iw: int,
    t1: nat,
    t2: nat,
)
    requires
        t1 <= t2,
        forall|k: int|
            t1 <= k < t2 ==> !covers(p, ih, iw, #[trigger] (k / gw), k % gw),
    ensures
        accum(plane, gw, p, in_h, in_w, ih, iw, t2) == accum(plane, gw, p, in_h, in_w, ih, iw, t1),
        accum_ok(plane, gw, p, in_h, in_w, ih, iw, t2) == accum_ok(
            plane,
            gw,
            p,
            in_h,
            in_w,
            ih,
            iw,
            t1,
        ),
    decreases t2 - t1,
{
    if t1 < t2 {
        lemma_accum_skip(plane, gw, p, in_h, in_w, ih, iw, t1, (t2 - 1) as nat);
        assert(!covers(p, ih, iw, (t2 - 1) / gw, (t2 - 1) % gw));
    }
}

/// Folding further cells can only preserve an overflow, never undo it.
pub proof fn lemma_accum_ok_prefix(
    plane: Seq<(int, int)>,
    gw: int,
    p: PoolParams,
    in_h: int,
    in_w: int,
    ih: int,
    iw: int,
    t1: nat,
    t2: nat,
)
    requires
        t1 <= t2,
        accum_ok(plane, gw, p, in_h, in_w, ih, iw, t2),
    ensures
        accum_ok(plane, gw, p, in_h, in_w, ih, iw, t1),
    decreases t2 - t1,
{
    if t1 < t2 {
        lemma_accum_ok_prefix(plane, gw, p, in_h, in_w, ih, iw, t1, (t2 - 1) as nat);
    }
}

/// A linear cell index inside row `r` decomposes to `(r, k - r * gw)`.
pub proof fn lemma_linear_row(k: int, gw: int, r: int)
    by (nonlinear_arith)
    requires
        gw >= 1,
        r >= 0,
        r * gw <= k < (r + 1) * gw,
    ensures
        k / gw == r,
        k % gw == k - r * gw,
{
}

/// A linear cell index between two row starts lands in a row between them.
pub proof fn lemma_row_range(k: int, gw: int, r1: int, r2: int)
    by (nonlinear_arith)
    requires
        gw >= 1,
        0 <= r1,
        r1 * gw <= k < r2 * gw,
    ensures
        r1 <= k / gw < r2,
        0 <= k % gw < gw,
{
}

/// Rows whose windows do not cover input row `ih` leave the fold unchanged.
pub proof fn lemma_skip_rows(
    plane: Seq<(int, int)>,
    gw: int,
    p: PoolParams,
    in_h: int,
    in_w: int,
    ih: int,
    iw: int,
    r1: int,
    r2: int,
)
    requires
        gw >= 1,
        0 <= r1 <= r2,
        forall|oh: int| r1 <= oh < r2 ==> !covers_h(p, ih, oh),
    ensures
        accum(plane, gw, p, in_h, in_w, ih, iw, (r2 * gw) as nat) == accum(
            plane,
            gw,
            p,
            in_h,
            in_w,
            ih,
            iw,
            (r1 * gw) as nat,
        ),
        accum_ok(plane, gw, p, in_h, in_w, ih, iw, (r2 * gw) as nat) == accum_ok(
            plane,
            gw,
            p,
            in_h,
            in_w,
            ih,
            iw,
            (r1 * gw) as nat,
        ),
{
    assert(0 <= r1 * gw <= r2 * gw) by (nonlinear_arith)
        requires
            gw >= 1,
            0 <= r1 <= r2,
    ;
    assert forall|k: int| r1 * gw <= k < r2 * gw implies !covers(
        p,
        ih,
        iw,
        #[trigger] (k / gw),
        k % gw,
    ) by {
        lemma_row_range(k, gw, r1, r2);
    }
    lemma_accum_skip(plane, gw, p, in_h, in_w, ih, iw, (r1 * gw) as nat, (r2 * gw) as nat);
}

/// Columns of one row whose windows do not cover input column `iw` leave
/// the fold unchanged.
pub proof fn lemma_skip_cols(
    plane: Seq<(int, int)>,
    gw: int,
    p: PoolParams,
    in_h: int,
    in_w: int,
    ih: int,
    iw: int,
    row: int,
    c1: int,
    c2: int,
)
    requires
        gw >= 1,
        row >= 0,
        0 <= c1 <= c2 <= gw,
        forall|ow: int| c1 <= ow < c2 ==> !covers_w(p, iw, ow),
    ensures
        accum(plane, gw, p, in_h, in_w, ih, iw, (row * gw + c2) as nat) == accum(
            plane,
            gw,
            p,
            in_h,
            in_w,
            ih,
            iw,
            (row * gw + c1) as nat,
        ),
        accum_ok(plane, gw, p, in_h, in_w, ih, iw, (row * gw + c2) as nat) == accum_ok(
            plane,
            gw,
            p,
            in_h,
            in_w,
            ih,
            iw,
            (row * gw + c1) as nat,
        ),
{
    assert(0 <= row * gw) by (nonlinear_arith)
        requires
            gw >= 1,
            row >= 0,
    ;
    assert forall|k: int| row * gw + c1 <= k < row * gw + c2 implies !covers(
        p,
        ih,
        iw,
        #[trigger] (k / gw),
        k % gw,
    ) by {
        assert((row + 1) * gw == row * gw + gw) by (nonlinear_arith);
        lemma_linear_row(k, gw, row);
    }
    lemma_accum_skip(
        plane,
        gw,
        p,
        in_h,
        in_w,
        ih,
        iw,
        (row * gw + c1) as nat,
        (row * gw + c2) as nat,
    );
}

/// A covering window of a cell inside the input has a positive clipped
/// area, so its divisor is positive and at most the nominal kernel area.
pub proof fn lemma_divisor_bounds(
    p: PoolParams,
    in_h: int,
    in_w: int,
    ih: int,
    iw: int,
    oh: int,
    ow: int,
)
    requires
        p.wf(),
        0 <= ih < in_h,
        0 <= iw < in_w,
        covers(p, ih, iw, oh, ow),
    ensures
        1 <= divisor(p, in_h, in_w, oh, ow),
        divisor(p, in_h, in_w, oh, ow) <= p.kernel_h * p.kernel_w,
        1 <= clip_h(p, in_h, oh) <= p.kernel_h,
        1 <= clip_w(p, in_w, ow) <= p.kernel_w,
{
    assert(1 <= clip_h(p, in_h, oh) <= p.kernel_h);
    assert(1 <= clip_w(p, in_w, ow) <= p.kernel_w);
    assert(clip_h(p, in_h, oh) * clip_w(p, in_w, ow) <= p.kernel_h * p.kernel_w)
        by (nonlinear_arith)
        requires
            1 <= clip_h(p, in_h, oh) <= p.kernel_h,
            1 <= clip_w(p, in_w, ow) <= p.kernel_w,
    ;
    assert(1 <= clip_h(p, in_h, oh) * clip_w(p, in_w, ow)) by (nonlinear_arith)
        requires
            1 <= clip_h(p, in_h, oh),
            1 <= clip_w(p, in_w, ow),
    ;
    assert(1 <= p.kernel_h * p.kernel_w) by (nonlinear_arith)
        requires
            1 <= p.kernel_h,
            1 <= p.kernel_w,
    ;
}

} // verus!
