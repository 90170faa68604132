use curve_editor::SCALE;
use curve_editor::codec::encode_points;
use curve_editor::codec::parse_points;
use curve_editor::model::Point;
use curve_editor::model::TemplateApp;
use curve_editor::model::Value;

fn pt(time: i64, x: i64, y: i64) -> Point {
    Point::new(time, Value::new(x, y))
}

fn session(points: Vec<Point>) -> TemplateApp {
    TemplateApp { points, time_mult: SCALE, x_mult: SCALE, y_mult: SCALE }
}

#[test]
fn encoding_is_stable_and_readable() {
    let app = TemplateApp::new();
    let txt = app.to_text();
    assert_eq!(
        String::from_utf8(txt).unwrap(),
        "[(time:0,val:(x:0,y:0)),(time:1000000,val:(x:1000000,y:1000000))]",
    );
}

#[test]
fn decode_of_encode_reproduces_the_curve() {
    let points = vec![pt(0, -7, 13), pt(250_000, 999_999, -1), pt(SCALE, 0, -SCALE)];
    let txt = encode_points(&points);
    let back = parse_points(&txt).unwrap();
    assert_eq!(back, points);
}

#[test]
fn decode_tolerates_whitespace() {
    let txt = b" [ (time: 0 ,val:(x: -5 ,y: 7 )) , (time:3,val:(x:4,y:5)) ] ".to_vec();
    let back = parse_points(&txt).unwrap();
    assert_eq!(back, vec![pt(0, -5, 7), pt(3, 4, 5)]);
}

#[test]
fn decode_accepts_empty_list_and_leading_zeros() {
    assert_eq!(parse_points(&b"[]".to_vec()).unwrap(), Vec::new());
    let back = parse_points(&b"[(time:007,val:(x:00,y:0)),(time:8,val:(x:1,y:2))]".to_vec());
    assert_eq!(back.unwrap(), vec![pt(7, 0, 0), pt(8, 1, 2)]);
}

#[test]
fn decode_rejects_malformed_text() {
    for bad in [
        &b"nonsense"[..],
        b"",
        b"[",
        b"[(time:1,val:(x:2,y:3))",
        b"[(time:1,val:(x:2,y:3)),]",
        b"[(time:,val:(x:2,y:3))]",
        b"[(time:1,val:(x:2,y:3))] trailing",
        b"[(time:- 1,val:(x:2,y:3))]",
        b"[(time:1,val:(y:3,x:2))]",
    ] {
        assert!(parse_points(&bad.to_vec()).is_none());
    }
}

#[test]
fn decode_rejects_out_of_range_numbers() {
    // One more than the largest accepted coordinate.
    let txt = b"[(time:1000000000001,val:(x:0,y:0)),(time:2,val:(x:0,y:0))]".to_vec();
    assert!(parse_points(&txt).is_none());
    let ok = b"[(time:1000000000000,val:(x:0,y:0))]".to_vec();
    assert!(parse_points(&ok).is_some());
}

#[test]
fn replace_renormalizes_each_channel() {
    let mut app = TemplateApp::new();
    let accepted = app.replace_from_text(
        &b"[(time:0,val:(x:200000,y:0)),(time:1000000,val:(x:500000,y:0))]".to_vec(),
    );
    assert!(accepted);
    // x is rescaled so its largest magnitude is exactly 1.0; the
    // all-zero y channel is deliberately left untouched.
    assert_eq!(app.points[0].val.x, 400_000);
    assert_eq!(app.points[1].val.x, SCALE);
    assert_eq!(app.points[0].val.y, 0);
    assert_eq!(app.points[1].val.y, 0);
}

#[test]
fn replace_renormalizes_against_negative_magnitudes() {
    let mut app = TemplateApp::new();
    let accepted = app.replace_from_text(
        &b"[(time:0,val:(x:-800000,y:1)),(time:9,val:(x:400000,y:3))]".to_vec(),
    );
    assert!(accepted);
    assert_eq!(app.points[0].val.x, -SCALE);
    assert_eq!(app.points[1].val.x, 500_000);
    // The y maximum 3 maps onto 1.0 exactly; 1/3 rounds down.
    assert_eq!(app.points[0].val.y, 333_333);
    assert_eq!(app.points[1].val.y, SCALE);
}

#[test]
fn replace_rejects_short_unsorted_or_negative_time_curves() {
    let mut app = session(vec![pt(0, 1, 2), pt(5, 3, 4)]);
    let before = app.points.clone();
    for bad in [
        &b"[]"[..],
        b"[(time:1,val:(x:2,y:3))]",
        b"[(time:9,val:(x:1,y:1)),(time:3,val:(x:1,y:1))]",
        b"[(time:-1,val:(x:1,y:1)),(time:3,val:(x:1,y:1))]",
        b"gibberish",
    ] {
        assert!(!app.replace_from_text(&bad.to_vec()));
        assert_eq!(app.points, before);
    }
}

#[test]
fn replace_then_integrate() {
    let mut app = TemplateApp::new();
    // A tent on x: after renormalization the peak is exactly 1.0, so
    // the area is 1.0 (numerator 2 * SCALE * SCALE).
    let accepted = app.replace_from_text(
        &b"[(time:0,val:(x:0,y:500000)),(time:1000000,val:(x:250000,y:500000)),(time:2000000,val:(x:0,y:500000))]"
            .to_vec(),
    );
    assert!(accepted);
    let (ix, iy) = app.integrals();
    assert_eq!(ix, 2 * (SCALE as i128) * (SCALE as i128));
    // y was constant, so it renormalizes to exactly 1.0 everywhere:
    // area 1.0 * 2.0 over the span.
    assert_eq!(app.points[0].val.y, SCALE);
    assert_eq!(iy, 4 * (SCALE as i128) * (SCALE as i128));
}
