use curve_editor::SCALE;
use curve_editor::integral::integral_of_points;
use curve_editor::model::Channel;
use curve_editor::model::Point;
use curve_editor::model::TemplateApp;
use curve_editor::model::Value;

// One stored unit is SCALE micro-units; a doubled-area numerator `n`
// stands for the real area n / (2 * SCALE * SCALE).
const DEN: i128 = 2 * (SCALE as i128) * (SCALE as i128);

fn pt(time: i64, x: i64, y: i64) -> Point {
    Point::new(time, Value::new(x, y))
}

fn area(points: &Vec<Point>, c: Channel) -> f64 {
    integral_of_points(points, c) as f64 / DEN as f64
}

#[test]
fn integral_unit_ramp_is_half() {
    // Curve [(0,0), (1,1)] has signed area 0.5.
    let points = vec![pt(0, 0, 0), pt(SCALE, SCALE, SCALE)];
    assert_eq!(integral_of_points(&points, Channel::X), 1_000_000_000_000i128);
    assert_eq!(area(&points, Channel::X), 0.5);
    assert_eq!(area(&points, Channel::Y), 0.5);
}

#[test]
fn integral_symmetric_crossing_cancels() {
    // Curve [(0,1), (1,-1)]: the two triangles are +0.25 and -0.25.
    let points = vec![pt(0, SCALE, 0), pt(SCALE, -SCALE, 0)];
    assert_eq!(integral_of_points(&points, Channel::X), 0);
    assert_eq!(area(&points, Channel::X), 0.0);
}

#[test]
fn integral_tent_is_two() {
    // Curve [(0,0), (1,2), (2,0)] has area 2.0.
    let points = vec![pt(0, 0, 0), pt(SCALE, 2 * SCALE, 0), pt(2 * SCALE, 0, 0)];
    assert_eq!(area(&points, Channel::X), 2.0);
}

#[test]
fn integral_empty_and_single_are_zero() {
    let empty: Vec<Point> = Vec::new();
    assert_eq!(integral_of_points(&empty, Channel::X), 0);
    let single = vec![pt(3, 7, -2)];
    assert_eq!(integral_of_points(&single, Channel::X), 0);
    assert_eq!(integral_of_points(&single, Channel::Y), 0);
}

#[test]
fn integral_constant_curve_is_value_times_span() {
    // Constant value 0.5 over span 10.0 gives 5.0, on both channels.
    let half = SCALE / 2;
    let points = vec![pt(0, half, half), pt(3 * SCALE, half, half), pt(10 * SCALE, half, half)];
    assert_eq!(area(&points, Channel::X), 5.0);
    assert_eq!(area(&points, Channel::Y), 5.0);
}

#[test]
fn integral_matches_trapezoid_rule_on_same_signed_curve() {
    let points = vec![
        pt(0, 100_000, -300_000),
        pt(250_000, 900_000, -100_000),
        pt(1_250_000, 400_000, -700_000),
        pt(2_000_000, 400_000, 0),
    ];
    for c in [Channel::X, Channel::Y] {
        let mut expect: i128 = 0;
        for w in points.windows(2) {
            let dp = (w[1].time - w[0].time) as i128;
            let (v0, v1) = match c {
                Channel::X => (w[0].val.x as i128, w[1].val.x as i128),
                Channel::Y => (w[0].val.y as i128, w[1].val.y as i128),
            };
            expect += dp * (v0 + v1);
        }
        assert_eq!(integral_of_points(&points, c), expect);
    }
}

#[test]
fn integral_asymmetric_crossing_matches_analytic_triangles() {
    // v0 = 1.0, v1 = -3.0 over dp = 1.0: crossing at t1 = 0.25, so the
    // triangles are 0.25*1/2 = 0.125 and 0.75*(-3)/2 = -1.125: net -1.0.
    let points = vec![pt(0, SCALE, 0), pt(SCALE, -3 * SCALE, 0)];
    assert_eq!(area(&points, Channel::X), -1.0);
}

#[test]
fn integral_zero_width_segment_adds_nothing() {
    // Two samples at the same position contribute zero area, even when
    // the value jumps across zero there.
    let points = vec![pt(0, SCALE, 0), pt(SCALE, SCALE, 0), pt(SCALE, -SCALE, 0), pt(
        2 * SCALE,
        -SCALE,
        0,
    )];
    // 1.0 over the first unit, then a jump, then -1.0 over the second.
    assert_eq!(area(&points, Channel::X), 0.0);
}

#[test]
fn integrals_of_default_session() {
    let app = TemplateApp::new();
    let (ix, iy) = app.integrals();
    assert_eq!(ix, 1_000_000_000_000i128);
    assert_eq!(iy, 1_000_000_000_000i128);
}
