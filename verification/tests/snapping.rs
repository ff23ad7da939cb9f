use math2d::{snap_tangent_angle, snapped_angle_15deg, Binary32, Vec2D};

fn num(v: f32) -> Binary32 {
    Binary32::from_bits(v.to_bits())
}

fn val(n: Binary32) -> f32 {
    f32::from_bits(n.to_bits())
}

fn vec2(x: f32, y: f32) -> Vec2D {
    Vec2D::new(num(x), num(y))
}

/// The snapped vector, with the machine's arctangent and tangent between
/// the steps of the library.
fn snapped(v: Vec2D) -> Vec2D {
    let current_angle: f32 = val(v.slope()).atan();
    let new_angle = snapped_angle_15deg(num(current_angle));
    let tangent_squared: f32 = val(snap_tangent_angle(new_angle)).tan().powi(2);
    v.snapped_vector_15deg(new_angle, num(tangent_squared))
}

/// The same computation in the machine's arithmetic throughout.
fn machine_snapped(x: f32, y: f32) -> (f32, f32) {
    let current_angle: f32 = (y / x).atan();
    let current_norm2: f32 = x * x + y * y;
    let new_angle: f32 = (current_angle / 0.261_799_4).round() * 0.261_799_4;
    let (a, b) = if new_angle.abs() < std::f32::consts::PI / 4.0 {
        let b: f32 =
            (current_norm2 / ((std::f32::consts::PI / 2.0 - new_angle).tan().powi(2) + 1.0)).sqrt();
        let a: f32 = (current_norm2 - b * b).sqrt();
        (a, b)
    } else {
        let a: f32 = (current_norm2 / (new_angle.tan().powi(2) + 1.0)).sqrt();
        let b: f32 = (current_norm2 - a * a).sqrt();
        (a, b)
    };
    if x >= 0.0 && y >= 0.0 {
        (a, b)
    } else if x < 0.0 && y >= 0.0 {
        (-a, b)
    } else if x >= 0.0 && y < 0.0 {
        (a, -b)
    } else {
        (-a, -b)
    }
}

fn same(got: Binary32, machine: f32) -> bool {
    if machine.is_nan() {
        got.is_nan()
    } else {
        got.to_bits() == machine.to_bits()
    }
}

fn close(a: f32, b: f32) -> bool {
    (a - b).abs() <= 1.0e-3 * a.abs().max(b.abs()).max(1.0e-3)
}

#[test]
fn a_diagonal_vector_stays() {
    let r = snapped(vec2(1.0, 1.0));
    assert!(close(val(r.x), 1.0), "{}", val(r.x));
    assert!(close(val(r.y), 1.0), "{}", val(r.y));
}

#[test]
fn a_vector_along_the_x_axis_stays() {
    let r = snapped(vec2(1.0, 0.0));
    assert!(close(val(r.x), 1.0), "{}", val(r.x));
    assert!(val(r.y).abs() <= 1.0e-3, "{}", val(r.y));
}

#[test]
fn a_vector_along_the_y_axis_stays() {
    let r = snapped(vec2(0.0, 2.0));
    assert!(val(r.x).abs() <= 2.0e-3, "{}", val(r.x));
    assert!(close(val(r.y), 2.0), "{}", val(r.y));
}

#[test]
fn twenty_degrees_snap_to_fifteen() {
    let angle: f32 = 20.0f32.to_radians();
    let r = snapped(vec2(3.0 * angle.cos(), 3.0 * angle.sin()));
    let fifteen: f32 = 15.0f32.to_radians();
    assert!(close(val(r.x), 3.0 * fifteen.cos()), "{}", val(r.x));
    assert!(close(val(r.y), 3.0 * fifteen.sin()), "{}", val(r.y));
}

#[test]
fn seventy_degrees_snap_to_seventy_five() {
    let angle: f32 = 70.0f32.to_radians();
    let r = snapped(vec2(-2.0 * angle.cos(), 2.0 * angle.sin()));
    let target: f32 = 75.0f32.to_radians();
    assert!(close(val(r.x), -2.0 * target.cos()), "{}", val(r.x));
    assert!(close(val(r.y), 2.0 * target.sin()), "{}", val(r.y));
}

#[test]
fn the_zero_vector_snaps_to_no_number() {
    let r = snapped(Vec2D::zero());
    assert!(r.x.is_nan());
    assert!(r.y.is_nan());
    assert!(Vec2D::zero().slope().is_nan());
}

#[test]
fn snapped_angles_are_multiples_of_the_step() {
    let step: f32 = 0.261_799_4;
    assert_eq!(snapped_angle_15deg(num(0.0)).to_bits(), 0);
    assert_eq!(snapped_angle_15deg(num(0.13)).to_bits(), 0);
    assert_eq!(snapped_angle_15deg(num(0.14)).to_bits(), step.to_bits());
    assert_eq!(snapped_angle_15deg(num(0.3)).to_bits(), step.to_bits());
    assert_eq!(snapped_angle_15deg(num(-0.5)).to_bits(), (-2.0 * step).to_bits());
    assert_eq!(snapped_angle_15deg(num(1.5707964)).to_bits(), (6.0 * step).to_bits());
    assert_eq!(snapped_angle_15deg(num(-0.1)).to_bits(), 0x8000_0000);
    assert!(snapped_angle_15deg(num(f32::NAN)).is_nan());
}

#[test]
fn the_tangent_is_taken_of_the_smaller_angle() {
    let step: f32 = 0.261_799_4;
    let half_pi: f32 = std::f32::consts::PI / 2.0;
    assert_eq!(snap_tangent_angle(num(0.0)).to_bits(), half_pi.to_bits());
    assert_eq!(snap_tangent_angle(num(step)).to_bits(), (half_pi - step).to_bits());
    assert_eq!(snap_tangent_angle(num(-2.0 * step)).to_bits(), (half_pi + 2.0 * step).to_bits());
    assert_eq!(snap_tangent_angle(num(4.0 * step)).to_bits(), (4.0 * step).to_bits());
    assert_eq!(snap_tangent_angle(num(-6.0 * step)).to_bits(), (-6.0 * step).to_bits());
    // forty-five degrees themselves are not below forty-five degrees
    let quarter_pi: f32 = std::f32::consts::PI / 4.0;
    assert_eq!(snap_tangent_angle(num(quarter_pi)).to_bits(), quarter_pi.to_bits());
}

#[test]
fn snapping_agrees_with_the_machine_on_many_vectors() {
    let mut state: u32 = 0x5851_f42d;
    let mut next = move || -> f32 {
        state ^= state << 13;
        state ^= state >> 17;
        state ^= state << 5;
        // magnitudes between 2^-12 and 2^12, either sign
        f32::from_bits((state & 0x807f_ffff) | ((115 + (state >> 23) % 24) << 23))
    };
    for _ in 0..50_000 {
        let (x, y) = (next(), next());
        let r = snapped(vec2(x, y));
        let (mx, my) = machine_snapped(x, y);
        assert!(same(r.x, mx), "x of ({x:e}, {y:e})");
        assert!(same(r.y, my), "y of ({x:e}, {y:e})");
    }
}

#[test]
fn snapping_keeps_the_length() {
    let mut state: u32 = 0x1405_7b7e;
    let mut next = move || -> f32 {
        state ^= state << 13;
        state ^= state >> 17;
        state ^= state << 5;
        f32::from_bits((state & 0x807f_ffff) | ((120 + (state >> 23) % 14) << 23))
    };
    for _ in 0..20_000 {
        let v = vec2(next(), next());
        let before: f32 = val(v.norm2());
        let after: f32 = val(snapped(v).norm2());
        assert!((after - before).abs() <= 1.0e-3 * before, "{before} became {after}");
        // each at most (1 + 2^-24)^7 times the other
        let factor: f64 = (1.0 + 1.0 / 16777216.0f64).powi(7);
        assert!(after as f64 <= before as f64 * factor && before as f64 <= after as f64 * factor);
    }
}

#[test]
fn snapping_keeps_the_quadrant() {
    let sizes: [f32; 6] = [0.001, 0.3, 1.0, 2.5, 40.0, 1000.0];
    for x in sizes {
        for y in sizes {
            for (sx, sy) in [(1.0f32, 1.0f32), (-1.0, 1.0), (1.0, -1.0), (-1.0, -1.0)] {
                let r = snapped(vec2(sx * x, sy * y));
                assert_eq!(r.x.is_sign_negative(), sx < 0.0);
                assert_eq!(r.y.is_sign_negative(), sy < 0.0);
            }
        }
    }
}

#[test]
fn norm_is_the_root_of_norm2() {
    assert_eq!(val(vec2(3.0, 4.0).norm()), 5.0);
    assert_eq!(val(vec2(-5.0, 12.0).norm()), 13.0);
    assert_eq!(val(Vec2D::zero().norm()), 0.0);
    let samples: [(f32, f32); 6] =
        [(1.0, 1.0), (0.1, 0.7), (-3.0, 2.5), (1234.5, -0.001), (1.0e-3, 2.0e-3), (7.0, 0.0)];
    for (x, y) in samples {
        let v = vec2(x, y);
        let norm: f32 = val(v.norm());
        let norm2: f32 = val(v.norm2());
        assert_eq!(norm.to_bits(), (x * x + y * y).sqrt().to_bits());
        assert!((norm * norm - norm2).abs() <= 1.0e-6 * norm2);
        // the exact square, no further than 2^-22 of itself
        let square: f64 = norm as f64 * norm as f64;
        assert!((square - norm2 as f64).abs() * 4194304.0 <= square);
    }
}
