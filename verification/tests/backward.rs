use avgpool_backward::backward::avg_pool2d_backward;
use avgpool_backward::kernel::avg_pool2d_backward_kernel;
use avgpool_backward::layout::{permute_nchw_to_nhwc, permute_nhwc_to_nchw, select_vector_width};
use avgpool_backward::params::PoolParams;
use avgpool_backward::range::{candidate_range, loop_ranges};
use avgpool_backward::rational::Rat;
use avgpool_backward::tensor::Tensor4;

fn rat_ones(n: usize) -> Vec<Rat> {
    let mut v = Vec::new();
    for _ in 0..n {
        v.push(Rat::new(1, 1));
    }
    v
}

fn rats(nums: &[i128]) -> Vec<Rat> {
    nums.iter().map(|&n| Rat::new(n, 1)).collect()
}

fn tensor(data: Vec<Rat>, d0: usize, d1: usize, d2: usize, d3: usize) -> Tensor4 {
    Tensor4::from_vec(data, d0, d1, d2, d3).unwrap()
}

fn assert_cell(t: &Tensor4, b: usize, c: usize, y: usize, x: usize, num: i128, den: i128) {
    let v = t.get(b, c, y, x);
    let same = v.same_value(Rat::new(num, den)).unwrap();
    assert!(same, "cell ({b},{c},{y},{x}) = {}/{} expected {num}/{den}", v.num, v.den);
}

/// Reference scatter: walk every gradient cell and push its share into
/// every input cell its window covers, with the same exact-fraction step
/// the library uses.
fn reference_backward(
    x_shape: (usize, usize, usize, usize),
    grad: &Tensor4,
    kernel: (usize, usize),
    stride: (usize, usize),
    padding: (usize, usize),
    count_include_pad: bool,
) -> Vec<(i128, i128)> {
    let (n, ch, h, w) = x_shape;
    let mut out = vec![(0i128, 1i128); n * ch * h * w];
    for b in 0..n {
        for c in 0..ch {
            for oh in 0..grad.d2 {
                for ow in 0..grad.d3 {
                    let g = grad.get(b, c, oh, ow);
                    let hs = (oh * stride.0) as i128;
                    let ws = (ow * stride.1) as i128;
                    let dh = (hs + kernel.0 as i128).min((h + padding.0) as i128)
                        - hs.max(padding.0 as i128);
                    let dw = (ws + kernel.1 as i128).min((w + padding.1) as i128)
                        - ws.max(padding.1 as i128);
                    let d = if count_include_pad {
                        (kernel.0 * kernel.1) as i128
                    } else {
                        dh * dw
                    };
                    for ih in 0..h {
                        for iw in 0..w {
                            let ph = (ih + padding.0) as i128;
                            let pw = (iw + padding.1) as i128;
                            if hs <= ph
                                && ph < hs + kernel.0 as i128
                                && ws <= pw
                                && pw < ws + kernel.1 as i128
                            {
                                let idx = ((b * ch + c) * h + ih) * w + iw;
                                let (an, ad) = out[idx];
                                out[idx] = (an * (g.den * d) + g.num * ad, ad * (g.den * d));
                            }
                        }
                    }
                }
            }
        }
    }
    out
}

#[test]
fn end_to_end_quarter() {
    let grad = tensor(rat_ones(4), 1, 1, 2, 2);
    let out =
        avg_pool2d_backward((1, 1, 4, 4), &grad, (2, 2), (2, 2), (0, 0), true).unwrap();
    assert_eq!((out.d0, out.d1, out.d2, out.d3), (1, 1, 4, 4));
    for y in 0..4 {
        for x in 0..4 {
            assert_cell(&out, 0, 0, y, x, 1, 4);
        }
    }
}

#[test]
fn boundary_shrink() {
    let grad = tensor(rat_ones(5), 1, 1, 1, 5);
    let out =
        avg_pool2d_backward((1, 1, 1, 5), &grad, (1, 3), (1, 1), (0, 1), false).unwrap();
    let expected = [(5, 6), (7, 6), (1, 1), (7, 6), (5, 6)];
    for (x, &(num, den)) in expected.iter().enumerate() {
        assert_cell(&out, 0, 0, 0, x, num, den);
    }
}

#[test]
fn boundary_shrink_square_kernel() {
    // The same 1x5 row under a square 3x3 kernel with padding (1,1): the
    // vertical extent clips to one row everywhere, so the divisors match
    // the one-row kernel case and the edge cells still shrink.
    let grad = tensor(rat_ones(5), 1, 1, 1, 5);
    let out =
        avg_pool2d_backward((1, 1, 1, 5), &grad, (3, 3), (1, 1), (1, 1), false).unwrap();
    let expected = [(5, 6), (7, 6), (1, 1), (7, 6), (5, 6)];
    for (x, &(num, den)) in expected.iter().enumerate() {
        assert_cell(&out, 0, 0, 0, x, num, den);
    }
}

#[test]
fn boundary_interior_divisors_differ_from_edges() {
    // Edge cells use a divisor smaller than 3; the interior cell uses 3.
    let grad = tensor(rat_ones(5), 1, 1, 1, 5);
    let shrunk =
        avg_pool2d_backward((1, 1, 1, 5), &grad, (1, 3), (1, 1), (0, 1), false).unwrap();
    let nominal =
        avg_pool2d_backward((1, 1, 1, 5), &grad, (1, 3), (1, 1), (0, 1), true).unwrap();
    // With count_include_pad the edge cells get 2/3 (two windows, each /3);
    // without it they get 5/6. The interior cell is 1 either way.
    assert_cell(&nominal, 0, 0, 0, 0, 2, 3);
    assert_cell(&shrunk, 0, 0, 0, 0, 5, 6);
    assert_cell(&nominal, 0, 0, 0, 2, 1, 1);
    assert_cell(&shrunk, 0, 0, 0, 2, 1, 1);
}

#[test]
fn no_padding_agreement() {
    let grad = tensor(rats(&[1, 2, 3, 4]), 1, 1, 2, 2);
    let with_pad =
        avg_pool2d_backward((1, 1, 3, 3), &grad, (2, 2), (1, 1), (0, 0), true).unwrap();
    let without =
        avg_pool2d_backward((1, 1, 3, 3), &grad, (2, 2), (1, 1), (0, 0), false).unwrap();
    for y in 0..3 {
        for x in 0..3 {
            assert_eq!(with_pad.get(0, 0, y, x), without.get(0, 0, y, x));
        }
    }
}

#[test]
fn single_window_constant() {
    let grad = tensor(rats(&[5]), 1, 1, 1, 1);
    for cip in [true, false] {
        let out =
            avg_pool2d_backward((1, 1, 2, 3), &grad, (2, 3), (2, 3), (0, 0), cip).unwrap();
        for y in 0..2 {
            for x in 0..3 {
                assert_cell(&out, 0, 0, y, x, 5, 6);
            }
        }
    }
}

#[test]
fn tiled_broadcast_divide() {
    let grad = tensor(rats(&[1, 2, 3, 4]), 1, 1, 2, 2);
    let out =
        avg_pool2d_backward((1, 1, 4, 4), &grad, (2, 2), (2, 2), (0, 0), true).unwrap();
    for y in 0..4 {
        for x in 0..4 {
            let g = 1 + (y / 2) * 2 + x / 2;
            assert_cell(&out, 0, 0, y, x, g as i128, 4);
        }
    }
}

#[test]
fn closed_form_matches_reference_scatter() {
    let vals: Vec<i128> = (1..=16).collect();
    let grad = tensor(rats(&vals), 2, 2, 2, 2);
    for cip in [true, false] {
        let out =
            avg_pool2d_backward((2, 2, 3, 3), &grad, (2, 2), (1, 1), (1, 1), cip).unwrap();
        let reference = reference_backward((2, 2, 3, 3), &grad, (2, 2), (1, 1), (1, 1), cip);
        for b in 0..2 {
            for c in 0..2 {
                for y in 0..3 {
                    for x in 0..3 {
                        let (num, den) = reference[((b * 2 + c) * 3 + y) * 3 + x];
                        assert_cell(&out, b, c, y, x, num, den);
                    }
                }
            }
        }
    }
}

#[test]
fn conservation_of_gradient_mass() {
    // With count_include_pad, each gradient cell spreads value
    // g * (covered cells) / (kernel area); the output must sum to that.
    let vals: Vec<i128> = vec![3, 1, 4, 1, 5, 9, 2, 6];
    let grad = tensor(rats(&vals), 1, 2, 2, 2);
    let out =
        avg_pool2d_backward((1, 2, 3, 3), &grad, (2, 2), (1, 1), (0, 0), true).unwrap();
    let mut sum_out = 0.0f64;
    for i in 0..out.data.len() {
        let r = &out.data[i];
        sum_out += r.num as f64 / r.den as f64;
    }
    // Every window lies fully inside the 3x3 input, so each of the eight
    // gradient cells contributes exactly its value.
    let expected: f64 = vals.iter().map(|&v| v as f64).sum();
    assert!((sum_out - expected).abs() < 1e-9);
}

#[test]
fn shape_follows_forward_input() {
    let grad33 = tensor(rat_ones(9), 1, 1, 3, 3);
    let grad22 = tensor(rat_ones(4), 1, 1, 2, 2);
    let a = avg_pool2d_backward((1, 1, 5, 5), &grad33, (3, 3), (1, 1), (0, 0), true).unwrap();
    assert_eq!((a.d0, a.d1, a.d2, a.d3), (1, 1, 5, 5));
    let b = avg_pool2d_backward((1, 1, 5, 5), &grad22, (3, 3), (2, 2), (0, 0), true).unwrap();
    assert_eq!((b.d0, b.d1, b.d2, b.d3), (1, 1, 5, 5));
    let c = avg_pool2d_backward((1, 1, 5, 5), &grad33, (3, 3), (2, 2), (1, 1), false).unwrap();
    assert_eq!((c.d0, c.d1, c.d2, c.d3), (1, 1, 5, 5));
}

#[test]
fn empty_tensor_is_a_degenerate_case_not_an_error() {
    let grad = tensor(Vec::new(), 0, 1, 2, 2);
    let out = avg_pool2d_backward((0, 1, 4, 4), &grad, (2, 2), (2, 2), (0, 0), true).unwrap();
    assert_eq!((out.d0, out.d1, out.d2, out.d3), (0, 1, 4, 4));
    assert_eq!(out.data.len(), 0);
    // A zero spatial axis: the consistent gradient has a zero axis too,
    // and the result is the empty tensor of the input's shape.
    let grad_row = tensor(Vec::new(), 1, 1, 0, 5);
    let out_row =
        avg_pool2d_backward((1, 1, 0, 5), &grad_row, (1, 1), (1, 1), (0, 0), true).unwrap();
    assert_eq!((out_row.d0, out_row.d1, out_row.d2, out_row.d3), (1, 1, 0, 5));
    assert_eq!(out_row.data.len(), 0);
}

#[test]
fn candidate_range_superset() {
    // Input coordinate 1 with padding 1, kernel 3, stride 1: windows 0..3
    // could touch it, and the range says exactly that.
    assert_eq!(candidate_range(1, 1, 3, 1, 1, 5), (0, 3));
    // Stride 2, kernel 2, no padding: coordinate 3 belongs to window 1 only.
    assert_eq!(candidate_range(3, 0, 2, 2, 1, 2), (1, 2));
    // Coordinate 0, no padding: only window 0.
    assert_eq!(candidate_range(0, 0, 2, 2, 1, 2), (0, 1));
    // A coordinate beyond every window's reach keeps the closed-form start
    // past the end: the range is empty, not clamped.
    assert_eq!(candidate_range(100, 0, 1, 1, 1, 1), (100, 1));
}

#[test]
fn loop_ranges_both_axes() {
    let p = PoolParams {
        kernel_h: 3,
        kernel_w: 2,
        stride_h: 1,
        stride_w: 2,
        padding_h: 1,
        padding_w: 0,
        dilation_h: 1,
        dilation_w: 1,
        count_include_pad: true,
    };
    let (hs, he, ws, we) = loop_ranges(1, 3, 5, 2, &p);
    assert_eq!((hs, he), (0, 3));
    assert_eq!((ws, we), (1, 2));
}

#[test]
fn kernel_single_cell() {
    // Channel-fastest gradient (1, 2, 2, 1), all ones; cell (0,0) of a 4x4
    // input under a 2x2/2x2 pooling gets grad[0,0]/4.
    let grad = tensor(rat_ones(4), 1, 2, 2, 1);
    let p = PoolParams {
        kernel_h: 2,
        kernel_w: 2,
        stride_h: 2,
        stride_w: 2,
        padding_h: 0,
        padding_w: 0,
        dilation_h: 1,
        dilation_w: 1,
        count_include_pad: true,
    };
    let v = avg_pool2d_backward_kernel(&grad, &p, 4, 4, 0, 0, 0, 0).unwrap();
    assert!(v.same_value(Rat::new(1, 4)).unwrap());
}

#[test]
fn vector_width_selection() {
    assert_eq!(select_vector_width(4, 8, true), 4);
    assert_eq!(select_vector_width(4, 6, true), 3);
    assert_eq!(select_vector_width(2, 6, true), 2);
    assert_eq!(select_vector_width(4, 7, true), 1);
    assert_eq!(select_vector_width(4, 8, false), 1);
    assert_eq!(select_vector_width(0, 5, true), 1);
}

#[test]
fn permute_round_trip() {
    let vals: Vec<i128> = (0..24).collect();
    let t = tensor(rats(&vals), 2, 3, 2, 2);
    let cl = permute_nchw_to_nhwc(&t);
    assert_eq!((cl.d0, cl.d1, cl.d2, cl.d3), (2, 2, 2, 3));
    for b in 0..2 {
        for c in 0..3 {
            for y in 0..2 {
                for x in 0..2 {
                    assert_eq!(cl.get(b, y, x, c), t.get(b, c, y, x));
                }
            }
        }
    }
    let back = permute_nhwc_to_nchw(&cl);
    assert_eq!((back.d0, back.d1, back.d2, back.d3), (2, 3, 2, 2));
    for i in 0..24 {
        assert_eq!(back.data[i], t.data[i]);
    }
}

#[test]
fn from_vec_validates() {
    assert!(Tensor4::from_vec(rat_ones(5), 1, 1, 2, 2).is_none());
    assert!(Tensor4::from_vec(rat_ones(4), 1, 1, 2, 2).is_some());
    let mut bad = rat_ones(3);
    bad.push(Rat { num: 1, den: 0 });
    assert!(Tensor4::from_vec(bad, 1, 1, 2, 2).is_none());
    assert!(Tensor4::from_vec(Vec::new(), 0, 7, 2, 2).is_some());
}

#[test]
fn rational_step_and_compare() {
    let half = Rat::zero().add_scaled_div(Rat::new(1, 1), 2).unwrap();
    assert_eq!((half.num, half.den), (1, 2));
    let five_sixths = half.add_scaled_div(Rat::new(1, 1), 3).unwrap();
    assert!(five_sixths.same_value(Rat::new(5, 6)).unwrap());
    assert!(!five_sixths.same_value(Rat::new(2, 3)).unwrap());
    // Overflow is reported, not wrapped.
    assert!(Rat::new(i128::MAX, 1).add_scaled_div(Rat::new(1, 1), 2).is_none());
}

#[test]
fn overflowing_accumulation_returns_none() {
    let grad = tensor(vec![Rat::new(i128::MAX, 1); 4], 1, 1, 2, 2);
    let out = avg_pool2d_backward((1, 1, 3, 3), &grad, (2, 2), (1, 1), (0, 0), true);
    assert!(out.is_none());
}
