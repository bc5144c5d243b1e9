use aigi::geometry::{halves, Rect, Split};

#[test]
fn halves_horizontal_even() {
    let (a, b) = halves(Rect::new(0, 0, 1000, 400), Split::Horizontal);
    assert_eq!(a, Rect::new(0, 0, 500, 400));
    assert_eq!(b, Rect::new(500, 0, 500, 400));
}

#[test]
fn halves_vertical_even() {
    let (a, b) = halves(Rect::new(0, 0, 1000, 800), Split::Vertical);
    assert_eq!(a, Rect::new(0, 0, 1000, 400));
    assert_eq!(b, Rect::new(0, 400, 1000, 400));
}

#[test]
fn halves_odd_width_gives_remainder_to_second() {
    let (a, b) = halves(Rect::new(10, 20, 1001, 7), Split::Horizontal);
    assert_eq!(a, Rect::new(10, 20, 500, 7));
    assert_eq!(b, Rect::new(510, 20, 501, 7));
    assert_eq!(a.w + b.w, 1001);
}

#[test]
fn halves_odd_height_gives_remainder_to_second() {
    let (a, b) = halves(Rect::new(-5, 3, 4, 9), Split::Vertical);
    assert_eq!(a, Rect::new(-5, 3, 4, 4));
    assert_eq!(b, Rect::new(-5, 7, 4, 5));
}

#[test]
fn halves_of_zero_size() {
    let (a, b) = halves(Rect::new(0, 0, 0, 10), Split::Horizontal);
    assert_eq!(a, Rect::new(0, 0, 0, 10));
    assert_eq!(b, Rect::new(0, 0, 0, 10));
    let (c, d) = halves(Rect::new(0, 0, 1, 10), Split::Horizontal);
    assert_eq!(c, Rect::new(0, 0, 0, 10));
    assert_eq!(d, Rect::new(0, 0, 1, 10));
}
