use life_grid::camera::ViewRect;

#[test]
fn new_viewport_takes_four_fifths_of_the_bounds() {
    let v = ViewRect::new(3, -2, 100, 50);
    assert_eq!((v.x, v.y), (3, -2));
    assert_eq!((v.x_len, v.y_len), (80, 40));
    assert_eq!((v.x_max, v.y_max), (100, 50));
}

#[test]
fn zoom_in_is_always_applied() {
    let mut v = ViewRect::new(0, 0, 100, 50);
    v.zoom(3);
    assert_eq!((v.x, v.y), (3, 3));
    assert_eq!((v.x_len, v.y_len), (74, 34));
    // zooming far past a degenerate extent is still accepted
    v.zoom(40);
    assert_eq!(v.x_len, -6);
}

#[test]
fn zoom_out_is_rejected_when_it_would_exceed_the_bounds() {
    let mut v = ViewRect::new(5, 5, 100, 50);
    v.x_len = 100;
    v.y_len = 40;
    v.unzoom(1);
    // the x axis would grow to 102 > 100: rejected; y grows to 42 <= 50
    assert_eq!(v.x, 5);
    assert_eq!(v.x_len, 100);
    assert_eq!(v.y, 4);
    assert_eq!(v.y_len, 42);
}

#[test]
fn zoom_out_within_bounds_is_applied() {
    let mut v = ViewRect::new(10, 10, 100, 50);
    v.unzoom(2);
    assert_eq!((v.x, v.y), (8, 8));
    assert_eq!((v.x_len, v.y_len), (84, 44));
}

#[test]
fn panning_translates_the_origin_only() {
    let mut v = ViewRect::new(0, 0, 100, 50);
    v.move_left(2);
    v.move_down(3);
    assert_eq!((v.x, v.y), (-2, 3));
    v.move_right(5);
    v.move_up(1);
    assert_eq!((v.x, v.y), (3, 2));
    assert_eq!((v.x_len, v.y_len), (80, 40));
}
