use math2d::{rect_ensure_in_bounds, rect_ensure_positive_size, rect_round, Binary32, Vec2D};

fn num(v: f32) -> Binary32 {
    Binary32::from_bits(v.to_bits())
}

fn vec2(x: f32, y: f32) -> Vec2D {
    Vec2D::new(num(x), num(y))
}

fn parts(r: (Vec2D, Vec2D)) -> ((f32, f32), (f32, f32)) {
    (
        (f32::from_bits(r.0.x.to_bits()), f32::from_bits(r.0.y.to_bits())),
        (f32::from_bits(r.1.x.to_bits()), f32::from_bits(r.1.y.to_bits())),
    )
}

#[test]
fn positive_size_flips_a_negative_width() {
    let r = rect_ensure_positive_size(vec2(0.0, 0.0), vec2(-4.0, 3.0));
    assert_eq!(parts(r), ((-4.0, 0.0), (4.0, 3.0)));
}

#[test]
fn positive_size_flips_a_negative_height() {
    let r = rect_ensure_positive_size(vec2(2.0, 2.0), vec2(5.0, -5.0));
    assert_eq!(parts(r), ((2.0, -3.0), (5.0, 5.0)));
}

#[test]
fn positive_size_leaves_a_positive_rectangle() {
    let r = rect_ensure_positive_size(vec2(1.5, -2.0), vec2(3.0, 0.25));
    assert_eq!(parts(r), ((1.5, -2.0), (3.0, 0.25)));
}

#[test]
fn positive_size_leaves_an_empty_size_as_it_is() {
    let r = rect_ensure_positive_size(vec2(-0.0, 7.0), vec2(0.0, -0.0));
    assert_eq!(r.0.x.to_bits(), 0x8000_0000);
    assert_eq!(r.0.y.to_bits(), 7.0f32.to_bits());
    assert_eq!(r.1.x.to_bits(), 0);
    assert_eq!(r.1.y.to_bits(), 0x8000_0000);
}

#[test]
fn positive_size_flips_both_axes() {
    let r = rect_ensure_positive_size(vec2(10.0, 10.0), vec2(-2.5, -0.5));
    assert_eq!(parts(r), ((7.5, 9.5), (2.5, 0.5)));
}

#[test]
fn positive_size_of_no_number_is_no_number() {
    let r = rect_ensure_positive_size(vec2(1.0, 1.0), vec2(f32::NAN, 2.0));
    assert!(r.0.x.is_nan());
    assert!(r.1.x.is_nan());
    assert_eq!(r.0.y.to_bits(), 1.0f32.to_bits());
    assert_eq!(r.1.y.to_bits(), 2.0f32.to_bits());
}

#[test]
fn positive_size_gives_sizes_that_are_not_negative() {
    let sizes: [f32; 8] = [-4.0, 3.0, -0.0, 0.0, -1.0e-40, f32::NEG_INFINITY, f32::MAX, -7.25];
    for w in sizes {
        for h in sizes {
            let r = rect_ensure_positive_size(vec2(1.0, -1.0), vec2(w, h));
            assert!(r.1.x.ge(Binary32::zero()));
            assert!(r.1.y.ge(Binary32::zero()));
            assert_eq!(r.1.x.abs().to_bits(), w.abs().to_bits());
            assert_eq!(r.1.y.abs().to_bits(), h.abs().to_bits());
        }
    }
}

#[test]
fn in_bounds_draws_the_far_edge_back() {
    let r = rect_ensure_in_bounds(
        (vec2(5.0, 5.0), vec2(10.0, 10.0)),
        (vec2(0.0, 0.0), vec2(12.0, 12.0)),
    );
    assert_eq!(parts(r), ((5.0, 5.0), (7.0, 7.0)));
}

#[test]
fn in_bounds_leaves_a_rectangle_inside() {
    let r = rect_ensure_in_bounds(
        (vec2(1.0, 2.0), vec2(3.0, 4.0)),
        (vec2(0.0, 0.0), vec2(12.0, 12.0)),
    );
    assert_eq!(parts(r), ((1.0, 2.0), (3.0, 4.0)));
}

#[test]
fn in_bounds_moves_the_near_edge_and_keeps_the_size() {
    // the near edge moves from -3 to 0; the size stays 5, so the far edge moves to 5
    let r = rect_ensure_in_bounds(
        (vec2(-3.0, 1.0), vec2(5.0, 2.0)),
        (vec2(0.0, 0.0), vec2(12.0, 12.0)),
    );
    assert_eq!(parts(r), ((0.0, 1.0), (5.0, 2.0)));
}

#[test]
fn in_bounds_moves_the_near_edge_then_draws_the_far_edge_back() {
    let r = rect_ensure_in_bounds(
        (vec2(-3.0, -1.0), vec2(20.0, 4.0)),
        (vec2(2.0, 1.0), vec2(12.0, 3.0)),
    );
    assert_eq!(parts(r), ((2.0, 1.0), (10.0, 2.0)));
}

#[test]
fn in_bounds_with_an_infinite_lower_bound_loses_the_size() {
    let r = rect_ensure_in_bounds(
        (vec2(1.0, 1.0), vec2(2.0, 2.0)),
        (vec2(f32::INFINITY, 0.0), vec2(f32::INFINITY, 12.0)),
    );
    assert_eq!(r.0.x.to_bits(), f32::INFINITY.to_bits());
    assert!(r.1.x.is_nan());
    assert_eq!(r.0.y.to_bits(), 1.0f32.to_bits());
    assert_eq!(r.1.y.to_bits(), 2.0f32.to_bits());
}

#[test]
fn in_bounds_agrees_with_the_machine() {
    let values: [f32; 7] = [-3.0, 0.0, 0.1, 2.5, 7.0, 12.0, 1.0e9];
    for pos in values {
        for size in values {
            for low in values {
                for high in values {
                    let r = rect_ensure_in_bounds(
                        (vec2(pos, pos), vec2(size, size)),
                        (vec2(low, low), vec2(high, high)),
                    );
                    let mut p: f32 = pos;
                    let mut s: f32 = size;
                    if p < low {
                        p = low;
                        s -= low - p;
                    }
                    if p + s > high {
                        s = high - p;
                    }
                    assert_eq!(r.0.x.to_bits(), p.to_bits());
                    assert_eq!(r.1.x.to_bits(), s.to_bits());
                    assert_eq!(r.0.y.to_bits(), p.to_bits());
                    assert_eq!(r.1.y.to_bits(), s.to_bits());
                }
            }
        }
    }
}

#[test]
fn round_rounds_all_four_numbers() {
    let r = rect_round((vec2(1.2, 2.6), vec2(3.5, 3.49)));
    assert_eq!(parts(r), ((1.0, 3.0), (4.0, 3.0)));
}

#[test]
fn round_takes_halves_away_from_zero() {
    let r = rect_round((vec2(0.5, -0.5), vec2(2.5, -2.5)));
    assert_eq!(parts(r), ((1.0, -1.0), (3.0, -3.0)));
    let small = rect_round((vec2(0.4, -0.4), vec2(-0.0, 1.0e-30)));
    assert_eq!(small.0.x.to_bits(), 0);
    assert_eq!(small.0.y.to_bits(), 0x8000_0000);
    assert_eq!(small.1.x.to_bits(), 0x8000_0000);
    assert_eq!(small.1.y.to_bits(), 0);
}

#[test]
fn round_neither_clamps_nor_corrects_signs() {
    let r = rect_round((vec2(-7.7, 1.0e10), vec2(-3.2, f32::INFINITY)));
    assert_eq!(parts(r), ((-8.0, 1.0e10), (-3.0, f32::INFINITY)));
}
