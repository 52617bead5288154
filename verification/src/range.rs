//! The window range calculator.
//!
//! For an input coordinate it returns, per spatial axis, the
//! inclusive-start / exclusive-end range of output coordinates whose
//! pooling window could have touched it: a closed-form superset of the
//! truly covering coordinates, obtained from the arithmetic progression of
//! window starts instead of an explicit reverse search. The contracts pin
//! the exact closed form of the range, so it is never wider than the
//! maximum overlap run; for a coordinate out of every window's reach the
//! start lies past the end and the range is empty. The range is guaranteed
//! to contain every covering coordinate, and everywhere inside it the
//! window's upper edge is guaranteed to lie beyond the padded coordinate,
//! so the remaining membership test reduces to the lower edge.

use crate::params::PoolParams;
use crate::model::{covers_h, covers_w};
use vstd::arithmetic::div_mod::lemma_div_is_ordered;
use vstd::math::{max, min};
use vstd::prelude::*;

verus! {

/// Closed-form inclusive start of the candidate range along one axis:
/// `max((i + pad - (dil*k - s)) / s, 0)`, truncating division (truncation
/// and flooring agree because the quotient is clamped at zero). For a
/// coordinate beyond the reach of every window the start exceeds the end
/// and the range is empty.
pub open spec fn range_start(i: int, pad: int, k: int, s: int, dil: int) -> int {
    let x = i + pad - (dil * k - s);
    if x < 0 {
        0int
    } else {
        x / s
    }
}

/// Closed-form exclusive end of the candidate range along one axis:
/// `min(max(dil*k - s, 0) + start, grad_len - 1) + 1`.
pub open spec fn range_end(i: int, pad: int, k: int, s: int, dil: int, grad_len: int) -> int {
    min(max(dil * k - s, 0) + range_start(i, pad, k, s, dil), grad_len - 1) + 1
}

/// Candidate output range along one axis for input coordinate `i`.
///
/// `dil` is the dilation between window taps; the arithmetic is verified
/// for dilation one, the only value the entry point drives.
pub fn candidate_range(i: usize, pad: usize, k: usize, s: usize, dil: usize, grad_len: usize) -> (r:
    (usize, usize))
    requires
        k >= 1,
        s >= 1,
        dil == 1,
        grad_len >= 1,
        i + pad <= usize::MAX,
    ensures
        r.0 == range_start(i as int, pad as int, k as int, s as int, dil as int),
        r.1 == range_end(i as int, pad as int, k as int, s as int, dil as int, grad_len as int),
        r.1 <= grad_len,
        r.1 - r.0 <= max(dil * k - s, 0) + 1,
        forall|o: int|
            0 <= o < grad_len && #[trigger] (o * s) <= i + pad < o * s + k ==> r.0 <= o < r.1,
        forall|o: int| r.0 <= o < r.1 ==> i + pad < #[trigger] (o * s) + k,
{
    let xi: i128 = i as i128 + pad as i128 - (dil as i128) * (k as i128) + s as i128;
    let start_raw: i128 = if xi < 0 {
        0
    } else {
        xi / (s as i128)
    };
    let kms: i128 = (dil as i128) * (k as i128) - s as i128;
    let kms_pos: i128 = if kms > 0 {
        kms
    } else {
        0
    };
    let reach: i128 = kms_pos + start_raw;
    let last: i128 = grad_len as i128 - 1;
    let end: i128 = if reach < last {
        reach + 1
    } else {
        last + 1
    };
    proof {
        let ii = i as int;
        let pp = pad as int;
        let kk = k as int;
        let ss = s as int;
        let x = ii + pp - kk + ss;
        // The start never exceeds the padded coordinate, so it fits usize.
        if x >= 0 {
            let a = ii + pp - kk;
            if a < 0 {
                assert(x / ss == 0) by (nonlinear_arith)
                    requires
                        0 <= x < ss,
                ;
            } else {
                assert(x / ss <= a + 1) by (nonlinear_arith)
                    requires
                        a >= 0,
                        ss >= 1,
                        x == a + ss,
                ;
            }
        }
        assert(0 <= start_raw <= i + pad);
        // Every covering coordinate lies at or above the raw start.
        assert forall|o: int| 0 <= o && #[trigger] (o * ss) <= ii + pp < o * ss + kk implies start_raw <= o by {
            if x >= 0 {
                assert(x < (o + 1) * ss) by (nonlinear_arith)
                    requires
                        x == ii + pp - kk + ss,
                        ii + pp < o * ss + kk,
                        o >= 0,
                        ss >= 1,
                ;
                assert(x / ss <= o) by (nonlinear_arith)
                    requires
                        x >= 0,
                        ss >= 1,
                        o >= 0,
                        x < (o + 1) * ss,
                ;
            }
        }
        // Every covering coordinate lies below the clamped end.
        assert forall|o: int|
            0 <= o < grad_len && #[trigger] (o * ss) <= ii + pp < o * ss + kk implies o < end
            as int by {
            assert(start_raw <= o);
            if x >= 0 {
                assert(start_raw * ss >= x - ss + 1) by (nonlinear_arith)
                    requires
                        x >= 0,
                        ss >= 1,
                        start_raw == x / ss,
                ;
                assert(o - start_raw <= kms_pos) by (nonlinear_arith)
                    requires
                        o * ss <= x + kk - ss,
                        start_raw * ss >= x - ss + 1,
                        o >= start_raw,
                        ss >= 1,
                        kk >= 1,
                        kms_pos == if kk - ss > 0 { kk - ss } else { 0 },
                ;
            } else {
                assert(o <= o * ss) by (nonlinear_arith)
                    requires
                        o >= 0,
                        ss >= 1,
                ;
                assert(o * ss <= ii + pp);
                assert(ii + pp < kk - ss) by {
                    assert(x < 0);
                }
                assert(o < kms_pos);
            }
        }
        // Inside the range the upper window edge clears the padded cell.
        assert forall|o: int|
            start_raw <= o < end as int implies ii + pp < #[trigger] (o * ss) + kk by {
            if x < 0 {
                assert(o * ss >= 0) by (nonlinear_arith)
                    requires
                        o >= 0,
                        ss >= 1,
                ;
            } else {
                assert(start_raw * ss >= x - ss + 1) by (nonlinear_arith)
                    requires
                        x >= 0,
                        ss >= 1,
                        start_raw == x / ss,
                ;
                assert(o * ss >= start_raw * ss) by (nonlinear_arith)
                    requires
                        o >= start_raw,
                        ss >= 1,
                ;
            }
        }
    }
    (start_raw as usize, end as usize)
}

/// Candidate output ranges for input cell `(ih, iw)` along both spatial
/// axes: `(row start, row end, column start, column end)`.
pub fn loop_ranges(ih: usize, iw: usize, grad_h: usize, grad_w: usize, p: &PoolParams) -> (r: (
    usize,
    usize,
    usize,
    usize,
))
    requires
        p.wf(),
        p.unit_dilation(),
        grad_h >= 1,
        grad_w >= 1,
        ih + p.padding_h <= usize::MAX,
        iw + p.padding_w <= usize::MAX,
    ensures
        r.0 == range_start(
            ih as int,
            p.padding_h as int,
            p.kernel_h as int,
            p.stride_h as int,
            p.dilation_h as int,
        ),
        r.1 == range_end(
            ih as int,
            p.padding_h as int,
            p.kernel_h as int,
            p.stride_h as int,
            p.dilation_h as int,
            grad_h as int,
        ),
        r.2 == range_start(
            iw as int,
            p.padding_w as int,
            p.kernel_w as int,
            p.stride_w as int,
            p.dilation_w as int,
        ),
        r.3 == range_end(
            iw as int,
            p.padding_w as int,
            p.kernel_w as int,
            p.stride_w as int,
            p.dilation_w as int,
            grad_w as int,
        ),
        r.1 <= grad_h,
        r.3 <= grad_w,
        r.1 - r.0 <= max(p.dilation_h * p.kernel_h - p.stride_h, 0) + 1,
        r.3 - r.2 <= max(p.dilation_w * p.kernel_w - p.stride_w, 0) + 1,
        forall|oh: int| 0 <= oh < grad_h && covers_h(*p, ih as int, oh) ==> r.0 <= oh < r.1,
        forall|ow: int| 0 <= ow < grad_w && covers_w(*p, iw as int, ow) ==> r.2 <= ow < r.3,
        forall|oh: int|
            r.0 <= oh < r.1 ==> ih + p.padding_h < #[trigger] (oh * p.stride_h) + p.kernel_h,
        forall|ow: int|
            r.2 <= ow < r.3 ==> iw + p.padding_w < #[trigger] (ow * p.stride_w) + p.kernel_w,
{
    let rh = candidate_range(ih, p.padding_h, p.kernel_h, p.stride_h, p.dilation_h, grad_h);
    let rw = candidate_range(iw, p.padding_w, p.kernel_w, p.stride_w, p.dilation_w, grad_w);
    proof {
        assert forall|oh: int|
            0 <= oh < grad_h && covers_h(*p, ih as int, oh) implies rh.0 <= oh < rh.1 by {
            assert(oh * p.stride_h <= ih + p.padding_h < oh * p.stride_h + p.kernel_h);
        }
        assert forall|ow: int|
            0 <= ow < grad_w && covers_w(*p, iw as int, ow) implies rw.0 <= ow < rw.1 by {
            assert(ow * p.stride_w <= iw + p.padding_w < ow * p.stride_w + p.kernel_w);
        }
    }
    (rh.0, rh.1, rw.0, rw.1)
}

/// Candidate ranges advance with the input coordinate: both ends of the
/// closed-form range are monotone in the coordinate, mirroring the
/// arithmetic progression of window starts.
pub proof fn lemma_range_monotone(
    i1: int,
    i2: int,
    pad: int,
    k: int,
    s: int,
    dil: int,
    grad_len: int,
)
    requires
        i1 <= i2,
        s >= 1,
    ensures
        range_start(i1, pad, k, s, dil) <= range_start(i2, pad, k, s, dil),
        range_end(i1, pad, k, s, dil, grad_len) <= range_end(i2, pad, k, s, dil, grad_len),
{
    let x1 = i1 + pad - (dil * k - s);
    let x2 = i2 + pad - (dil * k - s);
    if x1 >= 0 {
        lemma_div_is_ordered(x1, x2, s);
    } else if x2 >= 0 {
        lemma_div_is_ordered(0, x2, s);
    }
}

} // verus!
