use curve_editor::COORD_MAX;
use curve_editor::MAX_POINTS;
use curve_editor::SCALE;
use curve_editor::model::Axis;
use curve_editor::model::Channel;
use curve_editor::model::Point;
use curve_editor::model::TemplateApp;
use curve_editor::model::Value;
use curve_editor::model::from_display;
use curve_editor::model::to_display;

fn pt(time: i64, x: i64, y: i64) -> Point {
    Point::new(time, Value::new(x, y))
}

fn session(points: Vec<Point>) -> TemplateApp {
    TemplateApp { points, time_mult: SCALE, x_mult: SCALE, y_mult: SCALE }
}

fn times(app: &TemplateApp) -> Vec<i64> {
    app.points.iter().map(|p| p.time).collect()
}

#[test]
fn new_session_is_default_segment() {
    let app = TemplateApp::new();
    assert_eq!(app.points.len(), 2);
    assert_eq!(app.points[0], pt(0, 0, 0));
    assert_eq!(app.points[1], pt(SCALE, SCALE, SCALE));
    assert_eq!(app.time_mult, SCALE);
}

#[test]
fn remove_is_refused_at_minimum_length() {
    let mut app = TemplateApp::new();
    assert!(!app.remove_point(0));
    assert_eq!(app.points.len(), 2);
}

#[test]
fn add_duplicates_the_chosen_sample() {
    let mut app = TemplateApp::new();
    assert!(app.add_point(0));
    assert_eq!(app.points.len(), 3);
    assert_eq!(app.points[0], app.points[1]);
    assert_eq!(app.points[2], pt(SCALE, SCALE, SCALE));
    assert!(app.remove_point(1));
    assert_eq!(app.points.len(), 2);
    assert_eq!(app.points[1], pt(SCALE, SCALE, SCALE));
}

#[test]
fn length_and_order_survive_an_editing_session() {
    let mut app = TemplateApp::new();
    assert!(app.add_point(0));
    assert!(app.add_point(1));
    app.drag_time(1, 300_000);
    app.drag_val(2, Channel::X, 900_000);
    app.remove_point(0);
    app.drag_time(0, 150_000);
    app.add_point(2);
    app.drag_time(3, 2 * SCALE);
    assert!(app.points.len() >= 2);
    for w in app.points.windows(2) {
        assert!(w[0].time <= w[1].time);
    }
}

#[test]
fn drag_time_shifts_later_samples_rigidly() {
    let mut app = session(vec![pt(0, 0, 0), pt(400_000, 0, 0), pt(600_000, 0, 0)]);
    assert!(app.drag_time(1, 500_000));
    assert_eq!(times(&app), vec![0, 500_000, 700_000]);
}

#[test]
fn drag_time_clamps_to_predecessor_and_domain_maximum() {
    let mut app = session(vec![pt(0, 0, 0), pt(400_000, 0, 0), pt(600_000, 0, 0)]);
    // Below the predecessor: clamped up to it, pulling the tail left.
    assert!(app.drag_time(2, 100_000));
    assert_eq!(times(&app), vec![0, 400_000, 400_000]);
    // Past the domain maximum (1.0): clamped down to SCALE.
    assert!(app.drag_time(1, 5 * SCALE));
    assert_eq!(times(&app), vec![0, SCALE, SCALE]);
}

#[test]
fn drag_first_sample_is_pinned_to_origin() {
    let mut app = session(vec![pt(200_000, 0, 0), pt(400_000, 0, 0)]);
    assert!(app.drag_time(0, -300_000));
    assert_eq!(times(&app), vec![0, 200_000]);
}

#[test]
fn drag_val_clamps_into_unit_range_and_touches_one_channel() {
    let mut app = TemplateApp::new();
    app.drag_val(0, Channel::X, -5);
    assert_eq!(app.points[0].val.x, 0);
    app.drag_val(0, Channel::Y, 2 * SCALE);
    assert_eq!(app.points[0].val.y, SCALE);
    app.drag_val(1, Channel::X, 250_000);
    assert_eq!(app.points[1].val.x, 250_000);
    assert_eq!(app.points[1].val.y, SCALE);
}

#[test]
fn multipliers_scale_display_only() {
    let mut app = TemplateApp::new();
    app.set_mult(Axis::X, 2 * SCALE);
    assert_eq!(app.x_mult, 2 * SCALE);
    // Multiplier below 1.0 clamps up to 1.0.
    app.set_mult(Axis::Time, 5);
    assert_eq!(app.time_mult, SCALE);
    app.drag_val(0, Channel::X, 500_000);
    let shown = app.display_points();
    assert_eq!(shown[0].val.x, SCALE);
    assert_eq!(shown[0].time, 0);
    // The stored curve is untouched by display scaling.
    assert_eq!(app.points[0].val.x, 500_000);
}

#[test]
fn display_round_trip_through_multiplier() {
    assert_eq!(to_display(500_000, 2 * SCALE), SCALE);
    assert_eq!(from_display(SCALE, 2 * SCALE), 500_000);
    assert_eq!(to_display(-300_000, 2 * SCALE), -600_000);
    assert_eq!(from_display(-600_000, 2 * SCALE), -300_000);
}

#[test]
fn drag_display_edits_back_compute_stored_values() {
    let mut app = TemplateApp::new();
    app.set_mult(Axis::X, 2 * SCALE);
    // Editing the displayed value 1.0 stores 0.5.
    app.drag_val_display(0, Channel::X, SCALE);
    assert_eq!(app.points[0].val.x, 500_000);
    app.drag_time_display(1, 600_000);
    assert_eq!(app.points[1].time, 600_000);
}

#[test]
fn drag_time_is_refused_when_a_shift_would_leave_the_domain() {
    let mut app = session(vec![pt(100, 0, 0), pt(COORD_MAX, 0, 0)]);
    // Shifting the first sample right would push the last time past the
    // machine bound: the drag is refused and nothing moves.
    assert!(!app.drag_time(0, 200));
    assert_eq!(times(&app), vec![100, COORD_MAX]);
    // Shifting left is always safe.
    assert!(app.drag_time(0, 0));
    assert_eq!(times(&app), vec![0, COORD_MAX - 100]);
}

#[test]
fn add_is_refused_only_at_capacity() {
    let mut app = TemplateApp::new();
    assert!(app.points.len() < MAX_POINTS);
    assert!(app.add_point(0));
}
