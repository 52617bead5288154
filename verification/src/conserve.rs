//! Conservation of gradient mass.
//!
//! With `count_include_pad` set, every window divides by the same area, so
//! summing the input gradient over a whole plane redistributes the output
//! gradient without loss: the total equals, window by window, the gradient
//! value scaled by the number of input cells the window covers, divided by
//! the kernel area. The proof exchanges the two summation orders; fraction
//! pairs under `frac_add` form a commutative monoid with identity `(0, 1)`,
//! so the exchange holds with exact pair equality and rational equivalence
//! is needed only to collapse repeated equal denominators at the end.

use crate::model::{accum, cell_value, covers, lemma_row_range, plane_cf};
use crate::params::PoolParams;
use crate::rational::frac_eqv;
use crate::tensor::{lemma_pos_in_bounds, Tensor4};
use vstd::prelude::*;

verus! {

/// Sum of two fraction pairs.
pub open spec fn frac_add(a: (int, int), b: (int, int)) -> (int, int) {
    (a.0 * b.1 + b.0 * a.1, a.1 * b.1)
}

/// Sum of a sequence of fraction pairs, left to right.
pub open spec fn sum_seq(s: Seq<(int, int)>) -> (int, int)
    decreases s.len(),
{
    if s.len() == 0 {
        (0int, 1int)
    } else {
        frac_add(sum_seq(s.drop_last()), s.last())
    }
}

/// `frac_add` is commutative on pairs.
pub proof fn lemma_add_comm(a: (int, int), b: (int, int))
    by (nonlinear_arith)
    ensures
        frac_add(a, b) == frac_add(b, a),
{
}

/// `frac_add` is associative on pairs.
#[verifier::rlimit(60)]
pub proof fn lemma_add_assoc(a: (int, int), b: (int, int), c: (int, int))
    ensures
        frac_add(frac_add(a, b), c) == frac_add(a, frac_add(b, c)),
{
    assert((a.0 * b.1 + b.0 * a.1) * c.1 + c.0 * (a.1 * b.1) == a.0 * (b.1 * c.1) + (b.0 * c.1
        + c.0 * b.1) * a.1) by (nonlinear_arith);
    assert((a.1 * b.1) * c.1 == a.1 * (b.1 * c.1)) by (nonlinear_arith);
}

/// `(0, 1)` is the identity of `frac_add`.
pub proof fn lemma_add_zero(a: (int, int))
    by (nonlinear_arith)
    ensures
        frac_add(a, (0int, 1int)) == a,
        frac_add((0int, 1int), a) == (a.0, a.1),
{
}

/// Sums of equal-length sequences add pointwise.
pub proof fn lemma_sum_pointwise(s1: Seq<(int, int)>, s2: Seq<(int, int)>)
    requires
        s1.len() == s2.len(),
    ensures
        sum_seq(Seq::new(s1.len(), |i: int| frac_add(s1[i], s2[i]))) == frac_add(
            sum_seq(s1),
            sum_seq(s2),
        ),
    decreases s1.len(),
{
    let z = Seq::new(s1.len(), |i: int| frac_add(s1[i], s2[i]));
    if s1.len() == 0 {
        assert(sum_seq(z) == (0int, 1int));
        lemma_add_zero((0int, 1int));
    } else {
        let n = s1.len() - 1;
        lemma_sum_pointwise(s1.drop_last(), s2.drop_last());
        assert(z.drop_last() =~= Seq::new(
            s1.drop_last().len(),
            |i: int| frac_add(s1.drop_last()[i], s2.drop_last()[i]),
        ));
        let p1 = sum_seq(s1.drop_last());
        let p2 = sum_seq(s2.drop_last());
        let l1 = s1.last();
        let l2 = s2.last();
        // (p1 + p2) + (l1 + l2) == (p1 + l1) + (p2 + l2)
        lemma_add_assoc(frac_add(p1, p2), l1, l2);
        lemma_add_assoc(p1, p2, l1);
        lemma_add_comm(p2, l1);
        lemma_add_assoc(p1, l1, p2);
        lemma_add_assoc(frac_add(p1, l1), p2, l2);
    }
}

/// A sum of well-formed fractions is well-formed.
pub proof fn lemma_sum_wf(s: Seq<(int, int)>)
    requires
        forall|i: int| 0 <= i < s.len() ==> (#[trigger] s[i]).1 >= 1,
    ensures
        sum_seq(s).1 >= 1,
    decreases s.len(),
{
    if s.len() > 0 {
        lemma_sum_wf(s.drop_last());
        assert(sum_seq(s).1 == sum_seq(s.drop_last()).1 * s.last().1);
        assert(sum_seq(s.drop_last()).1 * s.last().1 >= 1) by (nonlinear_arith)
            requires
                sum_seq(s.drop_last()).1 >= 1,
                s.last().1 >= 1,
        ;
    }
}

/// Equivalence of fractions with positive denominators is transitive.
pub proof fn lemma_eqv_trans(a: (int, int), b: (int, int), c: (int, int))
    by (nonlinear_arith)
    requires
        a.1 >= 1,
        b.1 >= 1,
        c.1 >= 1,
        frac_eqv(a, b),
        frac_eqv(b, c),
    ensures
        frac_eqv(a, c),
{
}

/// Adding the same fraction preserves equivalence.
pub proof fn lemma_add_congruence(a: (int, int), b: (int, int), y: (int, int))
    by (nonlinear_arith)
    requires
        a.1 >= 1,
        b.1 >= 1,
        y.1 >= 1,
        frac_eqv(a, b),
    ensures
        frac_eqv(frac_add(a, y), frac_add(b, y)),
{
}

/// Adding equivalent fractions to equivalent fractions keeps equivalence.
pub proof fn lemma_add_congruence2(a: (int, int), b: (int, int), y: (int, int), z: (int, int))
    requires
        a.1 >= 1,
        b.1 >= 1,
        y.1 >= 1,
        z.1 >= 1,
        frac_eqv(a, b),
        frac_eqv(y, z),
    ensures
        frac_eqv(frac_add(a, y), frac_add(b, z)),
{
    lemma_add_congruence(a, b, y);
    lemma_add_congruence(y, z, b);
    lemma_add_comm(y, b);
    lemma_add_comm(z, b);
    assert(frac_add(b, y).1 >= 1 && frac_add(a, y).1 >= 1 && frac_add(b, z).1 >= 1)
        by (nonlinear_arith)
        requires
            a.1 >= 1,
            b.1 >= 1,
            y.1 >= 1,
            z.1 >= 1,
    ;
    lemma_eqv_trans(frac_add(a, y), frac_add(b, y), frac_add(b, z));
}

/// A sum of zeros is zero.
pub proof fn lemma_sum_zeros(n: nat)
    ensures
        sum_seq(Seq::new(n, |k: int| (0int, 1int))) == (0int, 1int),
    decreases n,
{
    if n > 0 {
        lemma_sum_zeros((n - 1) as nat);
        assert(Seq::new(n, |k: int| (0int, 1int)).drop_last() =~= Seq::new(
            (n - 1) as nat,
            |k: int| (0int, 1int),
        ));
        lemma_add_zero(sum_seq(Seq::new((n - 1) as nat, |k: int| (0int, 1int))));
    }
}

/// Sums over equal-length sequences of pointwise equivalent well-formed
/// fractions are equivalent.
pub proof fn lemma_sum_eqv(s1: Seq<(int, int)>, s2: Seq<(int, int)>)
    requires
        s1.len() == s2.len(),
        forall|i: int| 0 <= i < s1.len() ==> (#[trigger] s1[i]).1 >= 1,
        forall|i: int| 0 <= i < s2.len() ==> (#[trigger] s2[i]).1 >= 1,
        forall|i: int| 0 <= i < s1.len() ==> frac_eqv(#[trigger] s1[i], s2[i]),
    ensures
        frac_eqv(sum_seq(s1), sum_seq(s2)),
    decreases s1.len(),
{
    if s1.len() > 0 {
        lemma_sum_eqv(s1.drop_last(), s2.drop_last());
        lemma_sum_wf(s1.drop_last());
        lemma_sum_wf(s2.drop_last());
        lemma_add_congruence2(
            sum_seq(s1.drop_last()),
            sum_seq(s2.drop_last()),
            s1.last(),
            s2.last(),
        );
    }
}

/// The two orders of a double sum agree exactly.
pub proof fn lemma_sum_swap(f: spec_fn(int, int) -> (int, int), tt: nat, ww: nat)
    ensures
        sum_seq(Seq::new(tt, |t: int| sum_seq(Seq::new(ww, |k: int| f(t, k))))) == sum_seq(
            Seq::new(ww, |k: int| sum_seq(Seq::new(tt, |t: int| f(t, k)))),
        ),
    decreases tt,
{
    let rows = Seq::new(tt, |t: int| sum_seq(Seq::new(ww, |k: int| f(t, k))));
    let cols = Seq::new(ww, |k: int| sum_seq(Seq::new(tt, |t: int| f(t, k))));
    if tt == 0 {
        assert(cols =~= Seq::new(ww, |k: int| (0int, 1int))) by {
            assert forall|k: int| 0 <= k < ww implies cols[k] == (0int, 1int) by {
                assert(Seq::new(0, |t: int| f(t, k)).len() == 0);
            }
        }
        lemma_sum_zeros(ww);
    } else {
        let tp = (tt - 1) as nat;
        lemma_sum_swap(f, tp, ww);
        let prows = Seq::new(tp, |t: int| sum_seq(Seq::new(ww, |k: int| f(t, k))));
        let pcols = Seq::new(ww, |k: int| sum_seq(Seq::new(tp, |t: int| f(t, k))));
        let lastrow = Seq::new(ww, |k: int| f(tp as int, k));
        // Row side: peel the last row.
        assert(rows.drop_last() =~= prows);
        assert(rows.last() == sum_seq(Seq::new(ww, |k: int| f(tp as int, k))));
        // Column side: each column sum peels its last entry.
        assert(cols =~= Seq::new(pcols.len(), |i: int| frac_add(pcols[i], lastrow[i]))) by {
            assert forall|k: int| 0 <= k < ww implies cols[k] == frac_add(pcols[k], lastrow[k]) by {
                let whole = Seq::new(tt, |t: int| f(t, k));
                assert(whole.drop_last() =~= Seq::new(tp, |t: int| f(t, k)));
                assert(whole.last() == f(tp as int, k));
            }
        }
        lemma_sum_pointwise(pcols, lastrow);
    }
}

/// What window `k` of a plane contributes to input cell `(ih, iw)` under
/// the nominal-area policy: its gradient over the kernel area if the window
/// covers the cell, else nothing.
pub open spec fn window_share(
    pl: Seq<(int, int)>,
    gw: int,
    p: PoolParams,
    ih: int,
    iw: int,
    k: int,
) -> (int, int) {
    if covers(p, ih, iw, k / gw, k % gw) {
        (pl[k].0, pl[k].1 * (p.kernel_h * p.kernel_w))
    } else {
        (0int, 1int)
    }
}

/// Under the nominal-area policy a cell's fold over the first `t` windows
/// is exactly the sum of the windows' shares.
pub proof fn lemma_accum_as_sum(
    pl: Seq<(int, int)>,
    gw: int,
    p: PoolParams,
    in_h: int,
    in_w: int,
    ih: int,
    iw: int,
    t: nat,
)
    requires
        p.count_include_pad,
    ensures
        accum(pl, gw, p, in_h, in_w, ih, iw, t) == sum_seq(
            Seq::new(t, |k: int| window_share(pl, gw, p, ih, iw, k)),
        ),
    decreases t,
{
    let s = Seq::new(t, |k: int| window_share(pl, gw, p, ih, iw, k));
    if t > 0 {
        lemma_accum_as_sum(pl, gw, p, in_h, in_w, ih, iw, (t - 1) as nat);
        assert(s.drop_last() =~= Seq::new(
            (t - 1) as nat,
            |k: int| window_share(pl, gw, p, ih, iw, k),
        ));
        let k = t - 1;
        if !covers(p, ih, iw, k / gw, k % gw) {
            lemma_add_zero(accum(pl, gw, p, in_h, in_w, ih, iw, (t - 1) as nat));
        }
    }
}

/// Number of cells among the first `t` of a `in_w`-column grid covered by
/// window `(oh, ow)`.
pub open spec fn covered_cells(p: PoolParams, in_w: int, oh: int, ow: int, t: nat) -> int
    decreases t,
{
    if t == 0 {
        0int
    } else {
        covered_cells(p, in_w, oh, ow, (t - 1) as nat) + if covers(
            p,
            (t - 1) / in_w,
            (t - 1) % in_w,
            oh,
            ow,
        ) {
            1int
        } else {
            0int
        }
    }
}

/// Summing one window's shares over all cells collapses to its gradient
/// scaled by the number of covered cells, over the kernel area.
proof fn lemma_column_total(g: (int, int), p: PoolParams, in_w: int, oh: int, ow: int, kk: int, t: nat)
    requires
        g.1 >= 1,
        kk >= 1,
    ensures
        ({
            let s = Seq::new(
                t,
                |tc: int|
                    if covers(p, tc / in_w, tc % in_w, oh, ow) {
                        (g.0, g.1 * kk)
                    } else {
                        (0int, 1int)
                    },
            );
            &&& frac_eqv(sum_seq(s), (g.0 * covered_cells(p, in_w, oh, ow, t), g.1 * kk))
            &&& sum_seq(s).1 >= 1
            &&& covered_cells(p, in_w, oh, ow, t) >= 0
        }),
    decreases t,
{
    let s = Seq::new(
        t,
        |tc: int|
            if covers(p, tc / in_w, tc % in_w, oh, ow) {
                (g.0, g.1 * kk)
            } else {
                (0int, 1int)
            },
    );
    assert(g.1 * kk >= 1) by (nonlinear_arith)
        requires
            g.1 >= 1,
            kk >= 1,
    ;
    if t == 0 {
        assert(frac_eqv((0int, 1int), (g.0 * 0, g.1 * kk))) by (nonlinear_arith);
    } else {
        lemma_column_total(g, p, in_w, oh, ow, kk, (t - 1) as nat);
        let sp = Seq::new(
            (t - 1) as nat,
            |tc: int|
                if covers(p, tc / in_w, tc % in_w, oh, ow) {
                    (g.0, g.1 * kk)
                } else {
                    (0int, 1int)
                },
        );
        assert(s.drop_last() =~= sp);
        let prev = sum_seq(sp);
        let cnt = covered_cells(p, in_w, oh, ow, (t - 1) as nat);
        if covers(p, (t - 1) / in_w, (t - 1) % in_w, oh, ow) {
            let y = (g.0, g.1 * kk);
            lemma_add_congruence(prev, (g.0 * cnt, g.1 * kk), y);
            assert(frac_eqv(
                frac_add((g.0 * cnt, g.1 * kk), y),
                (g.0 * (cnt + 1), g.1 * kk),
            )) by (nonlinear_arith)
                requires
                    y == (g.0, g.1 * kk),
                    g.1 * kk >= 1,
            ;
            assert(frac_add(prev, y).1 >= 1 && frac_add((g.0 * cnt, g.1 * kk), y).1 >= 1)
                by (nonlinear_arith)
                requires
                    prev.1 >= 1,
                    g.1 * kk >= 1,
                    y == (g.0, g.1 * kk),
            ;
            lemma_eqv_trans(
                frac_add(prev, y),
                frac_add((g.0 * cnt, g.1 * kk), y),
                (g.0 * (cnt + 1), g.1 * kk),
            );
        } else {
            lemma_add_zero(prev);
        }
    }
}

/// Total input gradient over one batch-channel plane of the backward
/// result, as a fraction pair.
pub open spec fn plane_input_total(
    grad: Tensor4,
    p: PoolParams,
    in_h: int,
    in_w: int,
    b: int,
    c: int,
) -> (int, int) {
    sum_seq(
        Seq::new(
            (in_h * in_w) as nat,
            |t: int| cell_value(grad, p, in_h, in_w, b, c, t / in_w, t % in_w),
        ),
    )
}

/// Redistributed output-gradient mass of one plane: each gradient cell
/// scaled by the number of input cells its window covers, over the kernel
/// area.
pub open spec fn plane_output_total(
    grad: Tensor4,
    p: PoolParams,
    in_h: int,
    in_w: int,
    b: int,
    c: int,
) -> (int, int) {
    let pl = plane_cf(grad, b, c);
    let gw = grad.d3 as int;
    let kk = p.kernel_h * p.kernel_w;
    sum_seq(
        Seq::new(
            (grad.d2 * grad.d3) as nat,
            |k: int|
                (
                    pl[k].0 * covered_cells(p, in_w, k / gw, k % gw, (in_h * in_w) as nat),
                    pl[k].1 * kk,
                ),
        ),
    )
}

/// Conservation of gradient mass under the nominal-area policy: over one
/// batch-channel plane, the input gradients sum to the output gradients,
/// each scaled by the number of input cells its window covers and divided
/// by the kernel area.
pub proof fn lemma_conservation_of_mass(
    grad: Tensor4,
    p: PoolParams,
    in_h: int,
    in_w: int,
    b: int,
    c: int,
)
    requires
        p.wf(),
        p.count_include_pad,
        grad.wf(),
        0 <= b < grad.d0,
        0 <= c < grad.d1,
        grad.d2 >= 1,
        grad.d3 >= 1,
        in_h >= 1,
        in_w >= 1,
    ensures
        frac_eqv(
            plane_input_total(grad, p, in_h, in_w, b, c),
            plane_output_total(grad, p, in_h, in_w, b, c),
        ),
{
    let pl = plane_cf(grad, b, c);
    let gw = grad.d3 as int;
    let kk = p.kernel_h * p.kernel_w;
    assert(in_h * in_w >= 1) by (nonlinear_arith)
        requires
            in_h >= 1,
            in_w >= 1,
    ;
    assert(p.kernel_h * p.kernel_w >= 1) by (nonlinear_arith)
        requires
            p.kernel_h >= 1,
            p.kernel_w >= 1,
    ;
    let tt = (in_h * in_w) as nat;
    let ww = (grad.d2 * grad.d3) as nat;
    let f = |t: int, k: int| window_share(pl, gw, p, t / in_w, t % in_w, k);
    assert forall|k: int| 0 <= k < ww implies (#[trigger] pl[k]).1 >= 1 by {
        lemma_row_range(k, gw, 0, grad.d2 as int);
        lemma_pos_in_bounds(
            grad.d0 as int,
            grad.d1 as int,
            grad.d2 as int,
            grad.d3 as int,
            b,
            c,
            k / gw,
            k % gw,
        );
    }
    // The left side is the row-wise double sum.
    let lhs_seq = Seq::new(tt, |t: int| cell_value(grad, p, in_h, in_w, b, c, t / in_w, t % in_w));
    let rows = Seq::new(tt, |t: int| sum_seq(Seq::new(ww, |k: int| f(t, k))));
    assert(lhs_seq =~= rows) by {
        assert forall|t: int| 0 <= t < tt implies lhs_seq[t] == rows[t] by {
            lemma_accum_as_sum(pl, gw, p, in_h, in_w, t / in_w, t % in_w, ww);
            assert(Seq::new(ww, |k: int| window_share(pl, gw, p, t / in_w, t % in_w, k)) =~= Seq::new(
                ww,
                |k: int| f(t, k),
            ));
        }
    }
    lemma_sum_swap(f, tt, ww);
    let cols = Seq::new(ww, |k: int| sum_seq(Seq::new(tt, |t: int| f(t, k))));
    let rhs_seq = Seq::new(
        ww,
        |k: int| (pl[k].0 * covered_cells(p, in_w, k / gw, k % gw, tt), pl[k].1 * kk),
    );
    assert forall|k: int| 0 <= k < ww implies (#[trigger] cols[k]).1 >= 1 && frac_eqv(
        cols[k],
        rhs_seq[k],
    ) && rhs_seq[k].1 >= 1 by {
        assert(Seq::new(tt, |t: int| f(t, k)) =~= Seq::new(
            tt,
            |tc: int|
                if covers(p, tc / in_w, tc % in_w, k / gw, k % gw) {
                    (pl[k].0, pl[k].1 * kk)
                } else {
                    (0int, 1int)
                },
        ));
        lemma_column_total(pl[k], p, in_w, k / gw, k % gw, kk, tt);
        assert(pl[k].1 * kk >= 1) by (nonlinear_arith)
            requires
                pl[k].1 >= 1,
                kk >= 1,
        ;
    }
    assert forall|k: int| 0 <= k < ww implies (#[trigger] rhs_seq[k]).1 >= 1 by {
        assert(pl[k].1 * kk >= 1) by (nonlinear_arith)
            requires
                pl[k].1 >= 1,
                kk >= 1,
        ;
    }
    lemma_sum_eqv(cols, rhs_seq);
}

/// Every entry of a plane of a well-formed tensor is a well-formed
/// fraction.
proof fn lemma_plane_wf(grad: Tensor4, b: int, c: int)
    requires
        grad.wf(),
        0 <= b < grad.d0,
        0 <= c < grad.d1,
    ensures
        forall|q: int|
            0 <= q < plane_cf(grad, b, c).len() ==> (#[trigger] plane_cf(grad, b, c)[q]).1 >= 1,
{
    let pl = plane_cf(grad, b, c);
    assert forall|q: int| 0 <= q < pl.len() implies (#[trigger] pl[q]).1 >= 1 by {
        assert(grad.d2 >= 1 && grad.d3 >= 1) by (nonlinear_arith)
            requires
                grad.d2 * grad.d3 >= 1,
                grad.d2 >= 0,
                grad.d3 >= 0,
        ;
        lemma_row_range(q, grad.d3 as int, 0, grad.d2 as int);
        lemma_pos_in_bounds(
            grad.d0 as int,
            grad.d1 as int,
            grad.d2 as int,
            grad.d3 as int,
            b,
            c,
            q / (grad.d3 as int),
            q % (grad.d3 as int),
        );
    }
}

/// Under the nominal-area policy the fold of well-formed fractions keeps a
/// positive denominator.
proof fn lemma_accum_wf(
    pl: Seq<(int, int)>,
    gw: int,
    p: PoolParams,
    in_h: int,
    in_w: int,
    ih: int,
    iw: int,
    t: nat,
)
    requires
        p.count_include_pad,
        p.kernel_h >= 1,
        p.kernel_w >= 1,
        t <= pl.len(),
        forall|q: int| 0 <= q < pl.len() ==> (#[trigger] pl[q]).1 >= 1,
    ensures
        accum(pl, gw, p, in_h, in_w, ih, iw, t).1 >= 1,
    decreases t,
{
    if t > 0 {
        lemma_accum_wf(pl, gw, p, in_h, in_w, ih, iw, (t - 1) as nat);
        let k = t - 1;
        if covers(p, ih, iw, k / gw, k % gw) {
            let prev = accum(pl, gw, p, in_h, in_w, ih, iw, (t - 1) as nat);
            assert(prev.1 * (pl[k].1 * (p.kernel_h * p.kernel_w)) >= 1) by (nonlinear_arith)
                requires
                    prev.1 >= 1,
                    pl[k].1 >= 1,
                    p.kernel_h >= 1,
                    p.kernel_w >= 1,
            ;
        }
    }
}

/// One plane's totals: both are well-formed and the conservation
/// equivalence holds between them.
proof fn lemma_plane_totals(grad: Tensor4, p: PoolParams, in_h: int, in_w: int, b: int, c: int)
    requires
        p.wf(),
        p.count_include_pad,
        grad.wf(),
        0 <= b < grad.d0,
        0 <= c < grad.d1,
        grad.d2 >= 1,
        grad.d3 >= 1,
        in_h >= 1,
        in_w >= 1,
    ensures
        plane_input_total(grad, p, in_h, in_w, b, c).1 >= 1,
        plane_output_total(grad, p, in_h, in_w, b, c).1 >= 1,
        frac_eqv(
            plane_input_total(grad, p, in_h, in_w, b, c),
            plane_output_total(grad, p, in_h, in_w, b, c),
        ),
{
    lemma_conservation_of_mass(grad, p, in_h, in_w, b, c);
    lemma_plane_wf(grad, b, c);
    let pl = plane_cf(grad, b, c);
    let gw = grad.d3 as int;
    let cells = (in_h * in_w) as nat;
    assert(p.kernel_h * p.kernel_w >= 1) by (nonlinear_arith)
        requires
            p.kernel_h >= 1,
            p.kernel_w >= 1,
    ;
    let kk = p.kernel_h * p.kernel_w;
    let inner1 = Seq::new(
        cells,
        |t: int| cell_value(grad, p, in_h, in_w, b, c, t / in_w, t % in_w),
    );
    assert forall|t: int| 0 <= t < inner1.len() implies (#[trigger] inner1[t]).1 >= 1 by {
        lemma_accum_wf(pl, gw, p, in_h, in_w, t / in_w, t % in_w, (grad.d2 * grad.d3) as nat);
    }
    lemma_sum_wf(inner1);
    let inner2 = Seq::new(
        (grad.d2 * grad.d3) as nat,
        |k: int| (pl[k].0 * covered_cells(p, in_w, k / gw, k % gw, cells), pl[k].1 * kk),
    );
    assert forall|k: int| 0 <= k < inner2.len() implies (#[trigger] inner2[k]).1 >= 1 by {
        assert(pl[k].1 * kk >= 1) by (nonlinear_arith)
            requires
                pl[k].1 >= 1,
                kk >= 1,
        ;
    }
    lemma_sum_wf(inner2);
}

/// Conservation of gradient mass over the whole tensor: summing the
/// backward result over every batch-channel plane equals summing, over
/// every gradient cell, its value scaled by the number of input cells its
/// window covers, divided by the kernel area.
pub proof fn lemma_conservation_of_mass_tensor(grad: Tensor4, p: PoolParams, in_h: int, in_w: int)
    requires
        p.wf(),
        p.count_include_pad,
        grad.wf(),
        grad.d2 >= 1,
        grad.d3 >= 1,
        in_h >= 1,
        in_w >= 1,
    ensures
        frac_eqv(
            sum_seq(
                Seq::new(
                    (grad.d0 * grad.d1) as nat,
                    |bc: int|
                        plane_input_total(
                            grad,
                            p,
                            in_h,
                            in_w,
                            bc / (grad.d1 as int),
                            bc % (grad.d1 as int),
                        ),
                ),
            ),
            sum_seq(
                Seq::new(
                    (grad.d0 * grad.d1) as nat,
                    |bc: int|
                        plane_output_total(
                            grad,
                            p,
                            in_h,
                            in_w,
                            bc / (grad.d1 as int),
                            bc % (grad.d1 as int),
                        ),
                ),
            ),
        ),
{
    let nplanes = (grad.d0 * grad.d1) as nat;
    let s1 = Seq::new(
        nplanes,
        |bc: int| plane_input_total(grad, p, in_h, in_w, bc / (grad.d1 as int), bc % (grad.d1 as int)),
    );
    let s2 = Seq::new(
        nplanes,
        |bc: int| plane_output_total(grad, p, in_h, in_w, bc / (grad.d1 as int), bc % (grad.d1 as int)),
    );
    assert forall|bc: int| 0 <= bc < nplanes implies (#[trigger] s1[bc]).1 >= 1 by {
        lemma_plane_index(grad, bc);
        lemma_plane_totals(grad, p, in_h, in_w, bc / (grad.d1 as int), bc % (grad.d1 as int));
    }
    assert forall|bc: int| 0 <= bc < nplanes implies (#[trigger] s2[bc]).1 >= 1 by {
        lemma_plane_index(grad, bc);
        lemma_plane_totals(grad, p, in_h, in_w, bc / (grad.d1 as int), bc % (grad.d1 as int));
    }
    assert forall|bc: int| 0 <= bc < nplanes implies frac_eqv(#[trigger] s1[bc], s2[bc]) by {
        lemma_plane_index(grad, bc);
        lemma_plane_totals(grad, p, in_h, in_w, bc / (grad.d1 as int), bc % (grad.d1 as int));
    }
    lemma_sum_eqv(s1, s2);
}

/// A linear plane index of a tensor decomposes into in-range batch and
/// channel coordinates.
proof fn lemma_plane_index(grad: Tensor4, bc: int)
    requires
        0 <= bc < grad.d0 * grad.d1,
    ensures
        0 <= bc / (grad.d1 as int) < grad.d0,
        0 <= bc % (grad.d1 as int) < grad.d1,
{
    assert(grad.d0 >= 1 && grad.d1 >= 1) by (nonlinear_arith)
        requires
            grad.d0 * grad.d1 >= 1,
            grad.d0 >= 0,
            grad.d1 >= 0,
    ;
    lemma_row_range(bc, grad.d1 as int, 0, grad.d0 as int);
}

} // verus!
