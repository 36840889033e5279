use shades::track::{track_metrics, Rect};

#[test]
fn tracked_window_metrics() {
    let client = Rect { left: 10, top: 20, right: 110, bottom: 270 };
    let frame = Rect { left: 5, top: 15, right: 120, bottom: 280 };
    let (width, height, x, y) = track_metrics(&client, &frame);
    assert_eq!((width, height), (100, 250));
    // The extended frame bound sits one pixel outside the visible
    // window.
    assert_eq!((x, y), (6, 16));
}

#[test]
fn tracked_window_metrics_with_negative_origin() {
    let client = Rect { left: -50, top: -40, right: 50, bottom: 40 };
    let frame = Rect { left: -52, top: -42, right: 52, bottom: 42 };
    let (width, height, x, y) = track_metrics(&client, &frame);
    assert_eq!((width, height), (100, 80));
    assert_eq!((x, y), (-51, -41));
}
