//! The contribution accumulator: the per-lane kernel body.
//!
//! One invocation computes the input-gradient of a single cell
//! `(b, ih, iw, c)` from a channel-fastest gradient tensor: it obtains the
//! candidate output ranges, re-derives each candidate window's clipped
//! extent, tests true membership (the range is only a superset bound), and
//! accumulates the weighted contribution. The contract equates the result
//! with the full scan over every output cell of the plane.

use crate::model::{
    accum, accum_ok, clip_h, clip_w, covers, covers_h, covers_w, divisor, lemma_accum_ok_prefix,
    lemma_divisor_bounds, lemma_linear_row, lemma_skip_cols, lemma_skip_rows, plane_cl,
};
use crate::params::PoolParams;
use crate::range::loop_ranges;
use crate::rational::{frac_add_div, Rat};
use crate::tensor::Tensor4;
use vstd::prelude::*;

verus! {

/// Input-gradient of cell `(b, ih, iw, c)`, where `grad` is the gradient of
/// the pooling output in channel-fastest order `(batch, row, column,
/// channel)` and `(in_h, in_w)` is the spatial extent of the pooling input.
/// `None` exactly when the exact-rational accumulation would leave `i128`.
#[verifier::loop_isolation(false)]
pub fn avg_pool2d_backward_kernel(
    grad: &Tensor4,
    p: &PoolParams,
    in_h: usize,
    in_w: usize,
    b: usize,
    ih: usize,
    iw: usize,
    c: usize,
) -> (r: Option<Rat>)
    requires
        grad.wf(),
        p.wf(),
        p.unit_dilation(),
        b < grad.d0,
        c < grad.d3,
        grad.d1 >= 1,
        grad.d2 >= 1,
        ih < in_h,
        iw < in_w,
        ih + p.padding_h <= usize::MAX,
        iw + p.padding_w <= usize::MAX,
    ensures
        r is Some <==> accum_ok(
            plane_cl(*grad, b as int, c as int),
            grad.d2 as int,
            *p,
            in_h as int,
            in_w as int,
            ih as int,
            iw as int,
            (grad.d1 * grad.d2) as nat,
        ),
        r is Some ==> r.unwrap().wf() && r.unwrap().as_frac() == accum(
            plane_cl(*grad, b as int, c as int),
            grad.d2 as int,
            *p,
            in_h as int,
            in_w as int,
            ih as int,
            iw as int,
            (grad.d1 * grad.d2) as nat,
        ),
{
    let ghost pl = plane_cl(*grad, b as int, c as int);
    let ghost gwi = grad.d2 as int;
    let ghost full = (grad.d1 * grad.d2) as nat;
    let gh: usize = grad.d1;
    let gw: usize = grad.d2;
    let rr = loop_ranges(ih, iw, gh, gw, p);
    let oh_s = rr.0;
    let oh_e = rr.1;
    let ow_s = rr.2;
    let ow_e = rr.3;
    // For a cell beyond every window's reach the closed-form start lies
    // past the end; the loops enter at the smaller of the two so that an
    // empty range iterates zero times.
    let oh0: usize = if oh_s < oh_e {
        oh_s
    } else {
        oh_e
    };
    let ow0: usize = if ow_s < ow_e {
        ow_s
    } else {
        ow_e
    };
    let mut acc = Rat::zero();
    proof {
        assert forall|oh: int| 0 <= oh < oh0 implies !covers_h(*p, ih as int, oh) by {
            if covers_h(*p, ih as int, oh) {
                assert(oh_s <= oh);
            }
        }
        lemma_skip_rows(pl, gwi, *p, in_h as int, in_w as int, ih as int, iw as int, 0, oh0 as int);
    }
    let mut oh = oh0;
    while oh < oh_e
        invariant
            oh0 <= oh <= oh_e,
            oh < oh_e ==> oh_s <= oh,
            acc.wf(),
            acc.as_frac() == accum(
                pl,
                gwi,
                *p,
                in_h as int,
                in_w as int,
                ih as int,
                iw as int,
                (oh * gwi) as nat,
            ),
            accum_ok(
                pl,
                gwi,
                *p,
                in_h as int,
                in_w as int,
                ih as int,
                iw as int,
                (oh * gwi) as nat,
            ),
        decreases oh_e - oh,
    {
        proof {
            assert((oh as u128) * (p.stride_h as u128) <= u128::MAX - u64::MAX) by (nonlinear_arith)
                requires
                    oh <= u64::MAX,
                    p.stride_h <= u64::MAX,
            ;
        }
        let row_base: u128 = (oh as u128) * (p.stride_h as u128);
        let row_end_raw: u128 = row_base + p.kernel_h as u128;
        let row_border: u128 = in_h as u128 + p.padding_h as u128;
        let ih_end: u128 = if row_end_raw < row_border {
            row_end_raw
        } else {
            row_border
        };
        let ih_start: u128 = if row_base > p.padding_h as u128 {
            row_base
        } else {
            p.padding_h as u128
        };
        let begin_h: u128 = ih as u128 + p.padding_h as u128;
        if begin_h >= ih_start && (ih as u128) < ih_end {
            proof {
                assert(ih + p.padding_h < (oh as int) * (p.stride_h as int) + p.kernel_h);
                assert(covers_h(*p, ih as int, oh as int));
                assert forall|ow: int| 0 <= ow < ow0 implies !covers_w(*p, iw as int, ow) by {
                    if covers_w(*p, iw as int, ow) {
                        assert(ow_s <= ow);
                    }
                }
                lemma_skip_cols(
                    pl,
                    gwi,
                    *p,
                    in_h as int,
                    in_w as int,
                    ih as int,
                    iw as int,
                    oh as int,
                    0,
                    ow0 as int,
                );
            }
            let mut ow = ow0;
            while ow < ow_e
                invariant
                    ow0 <= ow <= ow_e,
                    ow < ow_e ==> ow_s <= ow,
                    oh < oh_e,
                    acc.wf(),
                    covers_h(*p, ih as int, oh as int),
                    acc.as_frac() == accum(
                        pl,
                        gwi,
                        *p,
                        in_h as int,
                        in_w as int,
                        ih as int,
                        iw as int,
                        (oh * gwi + ow) as nat,
                    ),
                    accum_ok(
                        pl,
                        gwi,
                        *p,
                        in_h as int,
                        in_w as int,
                        ih as int,
                        iw as int,
                        (oh * gwi + ow) as nat,
                    ),
                decreases ow_e - ow,
            {
                let ghost k: int = oh * gwi + ow;
                proof {
                    assert((oh as int + 1) * gwi == oh * gwi + gwi) by (nonlinear_arith);
                    lemma_linear_row(k, gwi, oh as int);
                    assert((ow as u128) * (p.stride_w as u128) <= u128::MAX - u64::MAX) by (nonlinear_arith)
                        requires
                            ow <= u64::MAX,
                            p.stride_w <= u64::MAX,
                    ;
                    assert(0 <= oh * gwi) by (nonlinear_arith)
                        requires
                            gwi >= 1,
                            oh >= 0,
                    ;
                }
                let col_base: u128 = (ow as u128) * (p.stride_w as u128);
                let col_end_raw: u128 = col_base + p.kernel_w as u128;
                let col_border: u128 = in_w as u128 + p.padding_w as u128;
                let iw_end: u128 = if col_end_raw < col_border {
                    col_end_raw
                } else {
                    col_border
                };
                let iw_start: u128 = if col_base > p.padding_w as u128 {
                    col_base
                } else {
                    p.padding_w as u128
                };
                let begin_w: u128 = iw as u128 + p.padding_w as u128;
                if begin_w >= iw_start && (iw as u128) < iw_end {
                    proof {
                        assert(iw + p.padding_w < (ow as int) * (p.stride_w as int) + p.kernel_w);
                        assert(covers_w(*p, iw as int, ow as int));
                        assert(covers(*p, ih as int, iw as int, k / gwi, k % gwi));
                        lemma_divisor_bounds(
                            *p,
                            in_h as int,
                            in_w as int,
                            ih as int,
                            iw as int,
                            oh as int,
                            ow as int,
                        );
                    }
                    let d_us: usize = if p.count_include_pad {
                        p.kernel_h * p.kernel_w
                    } else {
                        let dh: u128 = ih_end - ih_start;
                        let dw: u128 = iw_end - iw_start;
                        proof {
                            assert(dh == clip_h(*p, in_h as int, oh as int));
                            assert(dw == clip_w(*p, in_w as int, ow as int));
                            assert(dh * dw == clip_h(*p, in_h as int, oh as int) * clip_w(
                                *p,
                                in_w as int,
                                ow as int,
                            ));
                        }
                        (dh * dw) as usize
                    };
                    proof {
                        assert(d_us as int == divisor(*p, in_h as int, in_w as int, oh as int, ow as int));
                        assert(k < grad.d1 * grad.d2) by (nonlinear_arith)
                            requires
                                k == oh * gwi + ow,
                                gwi == grad.d2,
                                oh < grad.d1,
                                ow < grad.d2,
                        ;
                    }
                    let gval = grad.get(b, oh, ow, c);
                    proof {
                        assert(pl[k] == gval.as_frac());
                    }
                    let stepped = acc.add_scaled_div(gval, d_us as i128);
                    match stepped {
                        Some(v) => {
                            proof {
                                assert(accum(
                                    pl,
                                    gwi,
                                    *p,
                                    in_h as int,
                                    in_w as int,
                                    ih as int,
                                    iw as int,
                                    (k + 1) as nat,
                                ) == frac_add_div(
                                    accum(
                                        pl,
                                        gwi,
                                        *p,
                                        in_h as int,
                                        in_w as int,
                                        ih as int,
                                        iw as int,
                                        k as nat,
                                    ),
                                    pl[k],
                                    divisor(*p, in_h as int, in_w as int, oh as int, ow as int),
                                ));
                            }
                            acc = v;
                        },
                        None => {
                            proof {
                                assert(!accum_ok(
                                    pl,
                                    gwi,
                                    *p,
                                    in_h as int,
                                    in_w as int,
                                    ih as int,
                                    iw as int,
                                    (k + 1) as nat,
                                ));
                                assert(k + 1 <= grad.d1 * grad.d2);
                                assert((k + 1) as nat <= full);
                                if accum_ok(
                                    pl,
                                    gwi,
                                    *p,
                                    in_h as int,
                                    in_w as int,
                                    ih as int,
                                    iw as int,
                                    full,
                                ) {
                                    lemma_accum_ok_prefix(
                                        pl,
                                        gwi,
                                        *p,
                                        in_h as int,
                                        in_w as int,
                                        ih as int,
                                        iw as int,
                                        (k + 1) as nat,
                                        full,
                                    );
                                }
                            }
                            return None;
                        },
                    }
                } else {
                    proof {
                        assert(!covers_w(*p, iw as int, ow as int));
                        assert(!covers(*p, ih as int, iw as int, k / gwi, k % gwi));
                    }
                }
                ow = ow + 1;
            }
            proof {
                assert forall|ow: int| ow_e <= ow < gw implies !covers_w(*p, iw as int, ow) by {
                    if covers_w(*p, iw as int, ow) {
                        assert(ow < ow_e);
                    }
                }
                lemma_skip_cols(
                    pl,
                    gwi,
                    *p,
                    in_h as int,
                    in_w as int,
                    ih as int,
                    iw as int,
                    oh as int,
                    ow_e as int,
                    gwi,
                );
                assert((oh as int + 1) * gwi == oh * gwi + gwi) by (nonlinear_arith);
            }
        } else {
            proof {
                assert(!covers_h(*p, ih as int, oh as int));
                assert forall|o: int| oh <= o < oh + 1 implies !covers_h(*p, ih as int, o) by {
                }
                lemma_skip_rows(
                    pl,
                    gwi,
                    *p,
                    in_h as int,
                    in_w as int,
                    ih as int,
                    iw as int,
                    oh as int,
                    oh as int + 1,
                );
            }
        }
        oh = oh + 1;
    }
    proof {
        assert forall|o: int| oh_e <= o < gh implies !covers_h(*p, ih as int, o) by {
            if covers_h(*p, ih as int, o) {
                assert(o < oh_e);
            }
        }
        lemma_skip_rows(
            pl,
            gwi,
            *p,
            in_h as int,
            in_w as int,
            ih as int,
            iw as int,
            oh_e as int,
            gh as int,
        );
        assert((gh as int) * gwi == (grad.d1 * grad.d2) as int);
    }
    Some(acc)
}

} // verus!
